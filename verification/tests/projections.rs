use card_index::metaphone::metaphone;
use card_index::text::ngrams;
use card_index::text::deck_slug;
use card_index::text::normalize;
use card_index::text::strip_spaces;
use card_index::text::prefixes;
use card_index::text::query_words;
use card_index::text::tokenize;

fn chars(s: &str) -> Vec<char> {
    s.chars().collect()
}

fn strings(words: &[&str]) -> Vec<Vec<char>> {
    words.iter().map(|w| chars(w)).collect()
}

#[test]
fn normalize_lowercases_ascii_names() {
    assert_eq!(normalize("Lightning Bolt"), chars("lightning bolt"));
    assert_eq!(normalize("AB-c1"), chars("ab-c1"));
    assert_eq!(normalize(""), chars(""));
}

#[test]
fn metaphone_is_case_invariant() {
    assert_eq!(metaphone("Lightning"), metaphone("LIGHTNING"));
    assert_eq!(metaphone("Lightning"), metaphone("lightning"));
}

#[test]
fn metaphone_empty_iff_no_consonant() {
    assert_eq!(metaphone("aeiou"), chars(""));
    assert_eq!(metaphone("why"), chars(""));
    assert!(!metaphone("bolt").is_empty());
}

#[test]
fn metaphone_collapses_repeats_and_expands_x() {
    // b -> B, o silent, b collapses against the previous B
    assert_eq!(metaphone("bob"), chars("B"));
    // b -> B, o silent, x -> KS
    assert_eq!(metaphone("box"), chars("BKS"));
    // the two-letter KS code is always emitted, repeats of K collapse after it
    assert_eq!(metaphone("xk"), chars("KS"));
    assert_eq!(metaphone("lightning"), chars("LJTMJ"));
}

#[test]
fn ngrams_of_short_name_is_the_name() {
    assert_eq!(ngrams(&chars("ab")), strings(&["ab"]));
    assert_eq!(ngrams(&chars("a")), strings(&["a"]));
    assert_eq!(ngrams(&chars("")), strings(&[""]));
}

#[test]
fn ngrams_counts_length_minus_two() {
    let g = ngrams(&chars("lightning"));
    assert_eq!(g.len(), 7);
    assert_eq!(g[0], chars("lig"));
    assert_eq!(g[6], chars("ing"));
    assert_eq!(
        ngrams(&chars("bolt")),
        strings(&["bol", "olt"])
    );
}

#[test]
fn prefixes_grow_one_character_at_a_time() {
    assert_eq!(
        prefixes(&chars("bolt")),
        strings(&["b", "bo", "bol", "bolt"])
    );
}

#[test]
fn prefixes_cap_at_thirty() {
    let long = "abcdefghijklmnopqrstuvwxyz0123456789";
    let p = prefixes(&chars(long));
    assert_eq!(p.len(), 30);
    assert_eq!(p[29], chars(&long[..30]));
}

#[test]
fn tokenize_splits_on_non_alphanumerics_and_drops_short_tokens() {
    assert_eq!(
        tokenize(&normalize("Lightning Bolt")),
        strings(&["lightning", "bolt"])
    );
    assert_eq!(
        tokenize(&normalize("Jace, the Mind-Sculptor")),
        strings(&["jace", "the", "mind", "sculptor"])
    );
    // single-character tokens are dropped
    assert_eq!(tokenize(&normalize("of the x")), strings(&["of", "the"]));
    assert_eq!(tokenize(&chars("ab1 2cd")), strings(&["ab1", "2cd"]));
}

#[test]
fn query_words_split_on_whitespace_only() {
    assert_eq!(
        query_words(&chars("mind-sculptor jace")),
        strings(&["mind-sculptor", "jace"])
    );
    // words shorter than two characters are dropped
    assert_eq!(query_words(&chars("a bc")), strings(&["bc"]));
}

#[test]
fn strip_spaces_removes_every_space() {
    assert_eq!(strip_spaces("near mint"), chars("nearmint"));
    assert_eq!(strip_spaces("  a b  "), chars("ab"));
    assert_eq!(strip_spaces(""), chars(""));
}

#[test]
fn deck_slug_joins_lowercased_code_and_name() {
    assert_eq!(
        deck_slug("C21", "Lorehold Legacies"),
        chars("c21_lorehold_legacies")
    );
    assert_eq!(deck_slug("DDT", "Merfolk vs/ Goblins"), chars("ddt_merfolk_vs__goblins"));
}

#[test]
fn normalize_folds_unicode_letters() {
    assert_eq!(normalize("Lim-D\u{db}l's Vault"), chars("lim-d\u{fb}l's vault"));
    assert_eq!(normalize("\u{c6}ther Vial"), chars("\u{e6}ther vial"));
    // a name that is one uppercase non-ASCII letter folds too
    assert_eq!(normalize("\u{db}"), chars("\u{fb}"));
}

#[test]
fn ngrams_of_short_unicode_name_is_the_folded_name() {
    // one n-gram, equal to the whole lowercased name
    assert_eq!(ngrams(&normalize("\u{db}")), vec![chars("\u{fb}")]);
    assert_eq!(ngrams(&normalize("D\u{db}L")), vec![chars("d\u{fb}l")]);
}

#[test]
fn prefixes_are_prefixes_of_the_folded_name() {
    assert_eq!(prefixes(&normalize("D\u{db}")), vec![chars("d"), chars("d\u{fb}")]);
}

#[test]
fn tokenize_keeps_unicode_alphanumeric_runs_together() {
    assert_eq!(
        tokenize(&normalize("Lim-D\u{db}l's Vault")),
        strings(&["lim", "d\u{fb}l", "vault"])
    );
    assert_eq!(tokenize(&normalize("Dand\u{e2}n")), strings(&["dand\u{e2}n"]));
}

#[test]
fn metaphone_is_case_invariant_across_unicode() {
    assert_eq!(metaphone("D\u{fb}l"), metaphone("D\u{db}L"));
    assert_eq!(metaphone("D\u{fb}l"), chars("TL"));
}

#[test]
fn query_words_split_on_unicode_whitespace() {
    // U+00A0 carries the White_Space property
    assert_eq!(query_words(&chars("ab\u{a0}cd")), strings(&["ab", "cd"]));
}

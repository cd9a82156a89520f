use card_index::deck::PriceTiers;
use card_index::index::build_postings;
use card_index::index::merge_entry;
use card_index::index::CardEntry;
use card_index::index::derive_terms;
use card_index::index::index_name;
use card_index::index::Entity;
use card_index::postings::Postings;
use card_index::postings::Projection;
use card_index::resolve::autocomplete;
use card_index::resolve::fuzzy_resolve;

fn chars(s: &str) -> Vec<char> {
    s.chars().collect()
}

fn small_corpus() -> Postings {
    let mut store = Postings::new();
    index_name(&mut store, 1, "Lightning Bolt");
    index_name(&mut store, 2, "Lightning Strike");
    index_name(&mut store, 3, "Lightening Rod");
    store
}

#[test]
fn postings_add_is_idempotent() {
    let mut store = Postings::new();
    store.add(Projection::Word, chars("bolt"), 7);
    store.add(Projection::Word, chars("bolt"), 7);
    store.add(Projection::Word, chars("bolt"), 9);
    assert_eq!(store.get(Projection::Word, &chars("bolt")), vec![7, 9]);
    assert_eq!(store.get(Projection::Word, &chars("other")), Vec::<u64>::new());
}

#[test]
fn indexing_posts_all_projections() {
    let store = small_corpus();
    // exact lowercased name
    assert_eq!(store.get(Projection::Exact, &chars("lightning bolt")), vec![1]);
    // word postings
    assert_eq!(store.get(Projection::Word, &chars("lightning")), vec![1, 2]);
    assert_eq!(store.get(Projection::Word, &chars("bolt")), vec![1]);
    // full-name and word prefixes
    assert_eq!(store.get(Projection::Prefix, &chars("lightning")), vec![1, 2]);
    assert_eq!(store.get(Projection::Prefix, &chars("light")), vec![1, 2, 3]);
    assert_eq!(store.get(Projection::Prefix, &chars("bo")), vec![1]);
    // n-grams
    assert_eq!(store.get(Projection::Ngram, &chars("lig")), vec![1, 2, 3]);
    assert_eq!(store.get(Projection::Ngram, &chars("htn")), vec![1, 2]);
    // phonetic codes are whole-name codes
    assert_eq!(store.get(Projection::Phonetic, &chars("LJTMJBLT")), vec![1]);
}

#[test]
fn empty_phonetic_code_is_not_posted() {
    let mut store = Postings::new();
    index_name(&mut store, 4, "Aeiou");
    assert_eq!(store.get(Projection::Phonetic, &chars("")), Vec::<u64>::new());
    // but the exact and prefix projections still carry the name
    assert_eq!(store.get(Projection::Exact, &chars("aeiou")), vec![4]);
}

#[test]
fn fuzzy_ranks_prefix_and_word_matches_above_ngram_overlap() {
    // The end-to-end scenario: both Lightning cards rank above the
    // Lightening card that matches only through n-gram overlap.
    let store = small_corpus();
    let r = fuzzy_resolve(&store, "Lightning", 10);
    assert_eq!(r.len(), 3);
    assert!(r[0] == 1 || r[0] == 2);
    assert!(r[1] == 1 || r[1] == 2);
    assert_ne!(r[0], r[1]);
    assert_eq!(r[2], 3);
}

#[test]
fn fuzzy_returns_prefix_matches_in_posting_order_when_cap_reached() {
    let store = small_corpus();
    let r = fuzzy_resolve(&store, "Lightning", 2);
    assert_eq!(r, vec![1, 2]);
    let r1 = fuzzy_resolve(&store, "Lightning", 1);
    assert_eq!(r1, vec![1]);
}

#[test]
fn fuzzy_empty_query_yields_empty_result() {
    let store = small_corpus();
    let r = fuzzy_resolve(&store, "", 5);
    assert_eq!(r, Vec::<u64>::new());
}

#[test]
fn fuzzy_finds_sound_alike_names() {
    let mut store = Postings::new();
    index_name(&mut store, 8, "Litning");
    // "lightning" and "litning" share the phonetic code LJTMJ... only if
    // codes agree; they differ here, so the match comes from n-grams.
    let r = fuzzy_resolve(&store, "litnin", 5);
    assert_eq!(r, vec![8]);
}

#[test]
fn fuzzy_query_with_no_match_is_empty() {
    let store = small_corpus();
    let r = fuzzy_resolve(&store, "zzz", 5);
    assert_eq!(r, Vec::<u64>::new());
}

#[test]
fn autocomplete_reads_prefix_postings_in_order() {
    let store = small_corpus();
    assert_eq!(autocomplete(&store, "Light", 10), vec![1, 2, 3]);
    assert_eq!(autocomplete(&store, "Light", 2), vec![1, 2]);
    // word-level prefixes serve multi-word names too
    assert_eq!(autocomplete(&store, "bolt", 10), vec![1]);
    assert_eq!(autocomplete(&store, "bo", 10), vec![1]);
    assert_eq!(autocomplete(&store, "zz", 10), Vec::<u64>::new());
}

#[test]
fn rebuilding_an_unchanged_corpus_reproduces_the_postings() {
    let corpus = vec![
        Entity { id: 1, name: "Lightning Bolt".to_string() },
        Entity { id: 2, name: "Lightning Strike".to_string() },
        Entity { id: 3, name: "Lightening Rod".to_string() },
    ];
    let mut store = Postings::new();
    build_postings(&mut store, &corpus);
    let first_word = store.get(Projection::Word, &chars("lightning"));
    let first_ngram = store.get(Projection::Ngram, &chars("lig"));
    let first_prefix = store.get(Projection::Prefix, &chars("light"));

    // clear-then-rebuild is part of the pass itself
    build_postings(&mut store, &corpus);
    assert_eq!(store.get(Projection::Word, &chars("lightning")), first_word);
    assert_eq!(store.get(Projection::Ngram, &chars("lig")), first_ngram);
    assert_eq!(store.get(Projection::Prefix, &chars("light")), first_prefix);

    // and a fresh store gives the same postings again
    let mut other = Postings::new();
    build_postings(&mut other, &corpus);
    assert_eq!(other.get(Projection::Word, &chars("lightning")), first_word);
    assert_eq!(other.get(Projection::Ngram, &chars("lig")), first_ngram);
    assert_eq!(other.get(Projection::Prefix, &chars("light")), first_prefix);
}

#[test]
fn clear_empties_every_posting() {
    let mut store = small_corpus();
    store.clear();
    assert_eq!(store.get(Projection::Word, &chars("lightning")), Vec::<u64>::new());
    assert_eq!(store.term_count(), 0);
}

#[test]
fn derive_terms_tags_every_projection() {
    let terms = derive_terms("Bolt");
    // exact + 4 word prefixes + 4 name prefixes + 2 n-grams + 1 word + 1 phonetic
    assert_eq!(terms.len(), 13);
}

#[test]
fn merging_worker_partials_in_chunk_order_matches_the_serial_pass() {
    let chunk1 = vec![
        Entity { id: 1, name: "Lightning Bolt".to_string() },
        Entity { id: 2, name: "Lightning Strike".to_string() },
    ];
    let chunk2 = vec![Entity { id: 3, name: "Lightening Rod".to_string() }];
    let whole = vec![
        Entity { id: 1, name: "Lightning Bolt".to_string() },
        Entity { id: 2, name: "Lightning Strike".to_string() },
        Entity { id: 3, name: "Lightening Rod".to_string() },
    ];

    let mut merged = Postings::new();
    build_postings(&mut merged, &chunk1);
    let mut partial = Postings::new();
    build_postings(&mut partial, &chunk2);
    merged.merge_from(&partial);

    let mut serial = Postings::new();
    build_postings(&mut serial, &whole);

    for term in ["lig", "ght", "ing"] {
        assert_eq!(
            merged.get(Projection::Ngram, &chars(term)),
            serial.get(Projection::Ngram, &chars(term))
        );
    }
    for term in ["light", "lightning", "bo"] {
        assert_eq!(
            merged.get(Projection::Prefix, &chars(term)),
            serial.get(Projection::Prefix, &chars(term))
        );
    }
    assert_eq!(
        merged.get(Projection::Word, &chars("lightning")),
        serial.get(Projection::Word, &chars("lightning"))
    );
}

#[test]
fn entity_merge_keeps_first_seen_scalars_and_extends_collections() {
    let tiers = |m: u64| PriceTiers {
        market_cents: Some(m),
        direct_cents: None,
        low_cents: None,
    };
    let mut first = CardEntry {
        oracle_id: "o1".to_string(),
        name: "Lightning Bolt".to_string(),
        layout: "normal".to_string(),
        main_image: Some("img-a".to_string()),
        sets: vec!["lea".to_string(), "leb".to_string()],
        tcgplayer_ids: vec![10, 11],
        prices: vec![tiers(100)],
    };
    let later = CardEntry {
        oracle_id: "o1".to_string(),
        name: "LIGHTNING BOLT".to_string(),
        layout: "token".to_string(),
        main_image: Some("img-b".to_string()),
        sets: vec!["leb".to_string(), "m10".to_string()],
        tcgplayer_ids: vec![11, 12],
        prices: vec![tiers(250)],
    };
    merge_entry(&mut first, &later);
    // scalars stay first-seen
    assert_eq!(first.name, "Lightning Bolt");
    assert_eq!(first.layout, "normal");
    assert_eq!(first.main_image, Some("img-a".to_string()));
    // collections are extended, keeping order and skipping repeats
    assert_eq!(first.sets, vec!["lea", "leb", "m10"]);
    assert_eq!(first.tcgplayer_ids, vec![10, 11, 12]);
    assert_eq!(first.prices.len(), 2);
    assert_eq!(first.prices[1].market_cents, Some(250));
}

#[test]
fn fuzzy_orders_strictly_by_total_score() {
    let mut store = Postings::new();
    // id 1 matches the query only as a word; id 2 as an exact prefix.
    store.add(Projection::Word, chars("abc"), 1);
    store.add(Projection::Prefix, chars("abc"), 2);
    let r = fuzzy_resolve(&store, "abc", 10);
    // prefix (10) outranks word (5)
    assert_eq!(r, vec![2, 1]);
}

#[test]
fn unicode_names_are_indexed_and_found_under_their_folded_form() {
    let mut store = Postings::new();
    index_name(&mut store, 9, "Lim-D\u{db}l's Vault");
    let du: Vec<char> = "d\u{fb}".chars().collect();
    let dul: Vec<char> = "d\u{fb}l".chars().collect();
    assert_eq!(store.get(Projection::Word, &dul), vec![9]);
    assert_eq!(store.get(Projection::Prefix, &du), vec![9]);
    // an uppercase query folds to the same terms
    assert_eq!(fuzzy_resolve(&store, "D\u{db}L", 5), vec![9]);
    assert_eq!(autocomplete(&store, "D\u{fb}", 5), vec![9]);
}

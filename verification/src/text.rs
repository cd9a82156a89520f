//! Text projections that the index is built from: lowercasing, word
//! tokenization, prefix terms, and fixed-width character n-grams.
//!
//! Names are handled as sequences of `char`.  Case folding and the word
//! alphabet carry the Unicode semantics of the standard library, taken
//! on trust behind named results: `str::to_lowercase` folds a name,
//! `char::is_alphanumeric` bounds a word, and `char::is_whitespace`
//! splits a query.  On ASCII input the fold coincides with the ASCII
//! fold defined here, which the trusted contracts state.

use vstd::prelude::*;

verus! {

/// Longest prefix of a name that is indexed for autocomplete.
pub const MAX_PREFIX_LEN: usize = 30;

/// Window width of the character n-grams used for fuzzy matching.
pub const NGRAM_LEN: usize = 3;

/// The Unicode lowercase form of a name, as `str::to_lowercase`
/// computes it: a function of the characters alone.
pub uninterp spec fn fold_of(s: Seq<char>) -> Seq<char>;

/// Whether a character is alphanumeric in the Unicode sense of
/// `char::is_alphanumeric`.
pub uninterp spec fn is_alnum_of(c: char) -> bool;

/// Whether a character is whitespace in the Unicode sense of
/// `char::is_whitespace`.
pub uninterp spec fn is_space_of(c: char) -> bool;

/// A name of ASCII characters only.
pub open spec fn is_ascii_seq(s: Seq<char>) -> bool {
    forall|i: int| 0 <= i < s.len() ==> (s[i] as u32) < 128
}

/// Relies on str::to_lowercase: the Unicode lowercase equivalent of the
/// string, a function of its characters alone.  On ASCII input the
/// Unicode mapping lowercases exactly the letters A to Z, so there the
/// result is the ASCII fold.
pub assume_specification[ str::to_lowercase ](s: &str) -> (r: String)
    ensures
        r@ == fold_of(s@),
        is_ascii_seq(s@) ==> r@ == lower_spec(s@),
;

/// Relies on char::is_alphanumeric: the Unicode Alphabetic and Number
/// properties.  Of the ASCII characters, exactly the letters and digits
/// carry them.
pub assume_specification[ char::is_alphanumeric ](c: char) -> (r: bool)
    ensures
        r == is_alnum_of(c),
        (c as u32) < 128 ==> r == ascii_word_char_spec(c),
;

/// Relies on char::is_whitespace: the Unicode White_Space property.
/// Its ASCII members are the space and the five control characters
/// U+0009 to U+000D.
pub assume_specification[ char::is_whitespace ](c: char) -> (r: bool)
    ensures
        r == is_space_of(c),
        (c as u32) < 128 ==> r == (c == ' ' || c == '\t' || c == '\n' || c == '\r' || c
            == '\u{b}' || c == '\u{c}'),
;

/// ASCII lowercasing of one character.
pub open spec fn lower_char_spec(c: char) -> char {
    if 'A' <= c && c <= 'Z' {
        ((c as u32) + 32) as char
    } else {
        c
    }
}

/// ASCII lowercasing of a whole name.
pub open spec fn lower_spec(s: Seq<char>) -> Seq<char> {
    s.map_values(|c: char| lower_char_spec(c))
}

pub fn lower_char(c: char) -> (r: char)
    ensures
        r == lower_char_spec(c),
{
    match c {
        'A' => 'a',
        'B' => 'b',
        'C' => 'c',
        'D' => 'd',
        'E' => 'e',
        'F' => 'f',
        'G' => 'g',
        'H' => 'h',
        'I' => 'i',
        'J' => 'j',
        'K' => 'k',
        'L' => 'l',
        'M' => 'm',
        'N' => 'n',
        'O' => 'o',
        'P' => 'p',
        'Q' => 'q',
        'R' => 'r',
        'S' => 's',
        'T' => 't',
        'U' => 'u',
        'V' => 'v',
        'W' => 'w',
        'X' => 'x',
        'Y' => 'y',
        'Z' => 'z',
        _ => c,
    }
}

/// The characters of `s`, lowercased with the Unicode fold; on an
/// all-ASCII name this is the ASCII fold.
pub fn normalize(s: &str) -> (r: Vec<char>)
    ensures
        r@ == fold_of(s@),
        is_ascii_seq(s@) ==> r@ == lower_spec(s@),
{
    let low = s.to_lowercase();
    str_chars(low.as_str())
}

/// The ASCII part of the word alphabet: letters and digits.  The
/// trusted contract on `char::is_alphanumeric` ties the Unicode
/// alphabet to this one below 128.
pub open spec fn ascii_word_char_spec(c: char) -> bool {
    ('a' <= c && c <= 'z') || ('A' <= c && c <= 'Z') || ('0' <= c && c <= '9')
}

/// Whether a character belongs to a word: Unicode alphanumeric.
pub fn is_word_char(c: char) -> (r: bool)
    ensures
        r == is_alnum_of(c),
{
    c.is_alphanumeric()
}

/// Tokenization, defined as a left-to-right scan: `cur` is the word run
/// read so far.  A run ends at a non-word character or at the end of the
/// name, and is kept only if it is at least two characters long.
pub open spec fn tokens_acc(s: Seq<char>, cur: Seq<char>) -> Seq<Seq<char>>
    decreases s.len(),
{
    if s.len() == 0 {
        if cur.len() >= 2 {
            seq![cur]
        } else {
            Seq::empty()
        }
    } else if is_alnum_of(s[0]) {
        tokens_acc(s.drop_first(), cur.push(s[0]))
    } else if cur.len() >= 2 {
        seq![cur] + tokens_acc(s.drop_first(), Seq::empty())
    } else {
        tokens_acc(s.drop_first(), Seq::empty())
    }
}

/// The words of a (lowercased) name: maximal word-character runs of
/// length at least two.
pub open spec fn tokens_spec(s: Seq<char>) -> Seq<Seq<char>> {
    tokens_acc(s, Seq::empty())
}

/// Splits a name into its words: maximal alphanumeric runs, dropping
/// runs shorter than two characters.
pub fn tokenize(chars: &Vec<char>) -> (r: Vec<Vec<char>>)
    ensures
        r.deep_view() == tokens_spec(chars@),
{
    let mut out: Vec<Vec<char>> = Vec::new();
    let mut cur: Vec<char> = Vec::new();
    let mut i: usize = 0;
    proof {
        assert(chars@.skip(0) =~= chars@);
        assert(out.deep_view() + tokens_acc(chars@, Seq::empty()) =~~= tokens_acc(
            chars@,
            Seq::empty(),
        ));
    }
    while i < chars.len()
        invariant
            0 <= i <= chars@.len(),
            tokens_spec(chars@) == out.deep_view() + tokens_acc(
                chars@.skip(i as int),
                cur@,
            ),
        decreases chars@.len() - i,
    {
        let c = chars[i];
        proof {
            assert(chars@.skip(i as int)[0] == chars@[i as int]);
            assert(chars@.skip(i as int).drop_first() =~= chars@.skip(i + 1));
        }
        if is_word_char(c) {
            cur.push(c);
        } else {
            if cur.len() >= 2 {
                let ghost prev = out.deep_view();
                let ghost curv = cur@;
                out.push(cur);
                proof {
                    assert(out.deep_view() =~~= prev.push(curv));
                    assert(prev + (seq![curv] + tokens_acc(chars@.skip(i + 1), Seq::empty()))
                        =~~= prev.push(curv) + tokens_acc(chars@.skip(i + 1), Seq::empty()));
                }
                cur = Vec::new();
            } else {
                cur = Vec::new();
            }
        }
        i = i + 1;
    }
    proof {
        assert(chars@.skip(i as int) =~= Seq::<char>::empty());
    }
    if cur.len() >= 2 {
        let ghost prev = out.deep_view();
        let ghost curv = cur@;
        out.push(cur);
        proof {
            assert(out.deep_view() =~~= prev.push(curv));
            assert(prev + seq![curv] =~~= prev.push(curv));
        }
    }
    proof {
        assert(out.deep_view() =~~= tokens_spec(chars@));
    }
    out
}

/// Whether a character is whitespace, as a query is split on it.
pub fn is_space(c: char) -> (r: bool)
    ensures
        r == is_space_of(c),
{
    c.is_whitespace()
}

/// Query word splitting: maximal runs of non-whitespace characters,
/// dropping runs shorter than two characters.
pub open spec fn query_words_acc(s: Seq<char>, cur: Seq<char>) -> Seq<Seq<char>>
    decreases s.len(),
{
    if s.len() == 0 {
        if cur.len() >= 2 {
            seq![cur]
        } else {
            Seq::empty()
        }
    } else if !is_space_of(s[0]) {
        query_words_acc(s.drop_first(), cur.push(s[0]))
    } else if cur.len() >= 2 {
        seq![cur] + query_words_acc(s.drop_first(), Seq::empty())
    } else {
        query_words_acc(s.drop_first(), Seq::empty())
    }
}

/// The words of a query: whitespace-delimited runs of length at least
/// two.
pub open spec fn query_words_spec(s: Seq<char>) -> Seq<Seq<char>> {
    query_words_acc(s, Seq::empty())
}

/// Splits a query into whitespace-delimited words, dropping words
/// shorter than two characters.
pub fn query_words(chars: &Vec<char>) -> (r: Vec<Vec<char>>)
    ensures
        r.deep_view() == query_words_spec(chars@),
{
    let mut out: Vec<Vec<char>> = Vec::new();
    let mut cur: Vec<char> = Vec::new();
    let mut i: usize = 0;
    proof {
        assert(chars@.skip(0) =~= chars@);
        assert(out.deep_view() + query_words_acc(chars@, Seq::empty()) =~~= query_words_acc(
            chars@,
            Seq::empty(),
        ));
    }
    while i < chars.len()
        invariant
            0 <= i <= chars@.len(),
            query_words_spec(chars@) == out.deep_view() + query_words_acc(
                chars@.skip(i as int),
                cur@,
            ),
        decreases chars@.len() - i,
    {
        let c = chars[i];
        proof {
            assert(chars@.skip(i as int)[0] == chars@[i as int]);
            assert(chars@.skip(i as int).drop_first() =~= chars@.skip(i + 1));
        }
        if !is_space(c) {
            cur.push(c);
        } else {
            if cur.len() >= 2 {
                let ghost prev = out.deep_view();
                let ghost curv = cur@;
                out.push(cur);
                proof {
                    assert(out.deep_view() =~~= prev.push(curv));
                    assert(prev + (seq![curv] + query_words_acc(chars@.skip(i + 1), Seq::empty()))
                        =~~= prev.push(curv) + query_words_acc(chars@.skip(i + 1), Seq::empty()));
                }
                cur = Vec::new();
            } else {
                cur = Vec::new();
            }
        }
        i = i + 1;
    }
    proof {
        assert(chars@.skip(i as int) =~= Seq::<char>::empty());
    }
    if cur.len() >= 2 {
        let ghost prev = out.deep_view();
        let ghost curv = cur@;
        out.push(cur);
        proof {
            assert(out.deep_view() =~~= prev.push(curv));
            assert(prev + seq![curv] =~~= prev.push(curv));
        }
    }
    proof {
        assert(out.deep_view() =~~= query_words_spec(chars@));
    }
    out
}

/// The prefix terms of a name of length `L`: the first `min(L, 30)`
/// prefixes, in increasing length order.
pub open spec fn prefixes_spec(s: Seq<char>) -> Seq<Seq<char>> {
    Seq::new(min_spec(s.len() as int, MAX_PREFIX_LEN as int) as nat, |i: int| s.take(i + 1))
}

pub open spec fn min_spec(a: int, b: int) -> int {
    if a <= b {
        a
    } else {
        b
    }
}

/// Every prefix of the name from length one up to `min(L, 30)`.
pub fn prefixes(chars: &Vec<char>) -> (r: Vec<Vec<char>>)
    ensures
        r.deep_view() == prefixes_spec(chars@),
{
    let limit = if chars.len() < MAX_PREFIX_LEN {
        chars.len()
    } else {
        MAX_PREFIX_LEN
    };
    let mut out: Vec<Vec<char>> = Vec::new();
    let mut i: usize = 0;
    while i < limit
        invariant
            limit == min_spec(chars@.len() as int, MAX_PREFIX_LEN as int),
            0 <= i <= limit,
            out.deep_view() == prefixes_spec(chars@).take(i as int),
        decreases limit - i,
    {
        let p = subvec(chars, 0, i + 1);
        let ghost prev = out.deep_view();
        let ghost pv = p@;
        out.push(p);
        proof {
            assert(out.deep_view() =~~= prev.push(pv));
            assert(out.deep_view() =~~= prefixes_spec(chars@).take(i + 1));
        }
        i = i + 1;
    }
    proof {
        assert(prefixes_spec(chars@).take(limit as int) =~~= prefixes_spec(chars@));
    }
    out
}

/// The n-gram terms of a name: the whole name when it is shorter than
/// the window, else every contiguous window of three characters.
pub open spec fn ngrams_spec(s: Seq<char>) -> Seq<Seq<char>> {
    if s.len() < NGRAM_LEN {
        seq![s]
    } else {
        Seq::new((s.len() - 2) as nat, |i: int| s.subrange(i, i + 3))
    }
}

/// Every contiguous three-character window of the name; a name shorter
/// than three characters is its own single n-gram.
pub fn ngrams(chars: &Vec<char>) -> (r: Vec<Vec<char>>)
    ensures
        r.deep_view() == ngrams_spec(chars@),
{
    let mut out: Vec<Vec<char>> = Vec::new();
    if chars.len() < NGRAM_LEN {
        let whole = subvec(chars, 0, chars.len());
        let ghost wv = whole@;
        out.push(whole);
        proof {
            assert(wv =~= chars@);
            assert(out.deep_view() =~~= ngrams_spec(chars@));
        }
        return out;
    }
    let count = chars.len() - 2;
    let mut i: usize = 0;
    while i < count
        invariant
            chars@.len() >= NGRAM_LEN,
            count == chars@.len() - 2,
            count <= usize::MAX - 2,
            0 <= i <= count,
            out.deep_view() == ngrams_spec(chars@).take(i as int),
        decreases count - i,
    {
        let g = subvec(chars, i, i + 3);
        let ghost prev = out.deep_view();
        let ghost gv = g@;
        out.push(g);
        proof {
            assert(out.deep_view() =~~= prev.push(gv));
            assert(out.deep_view() =~~= ngrams_spec(chars@).take(i + 1));
        }
        i = i + 1;
    }
    proof {
        assert(ngrams_spec(chars@).take(count as int) =~~= ngrams_spec(chars@));
    }
    out
}

/// Copies the character range `[from, to)` out of a name.
pub fn subvec(chars: &Vec<char>, from: usize, to: usize) -> (r: Vec<char>)
    requires
        0 <= from <= to <= chars@.len(),
    ensures
        r@ == chars@.subrange(from as int, to as int),
{
    let mut r: Vec<char> = Vec::new();
    let mut i: usize = from;
    while i < to
        invariant
            from <= i <= to <= chars@.len(),
            r@ == chars@.subrange(from as int, i as int),
        decreases to - i,
    {
        r.push(chars[i]);
        proof {
            assert(chars@.subrange(from as int, i + 1) =~= chars@.subrange(
                from as int,
                i as int,
            ).push(chars@[i as int]));
        }
        i = i + 1;
    }
    r
}

/// A split never yields more words than characters plus one.
pub proof fn lemma_query_words_acc_count(s: Seq<char>, cur: Seq<char>)
    ensures
        query_words_acc(s, cur).len() <= s.len() + 1,
    decreases s.len(),
{
    if s.len() == 0 {
    } else if !is_space_of(s[0]) {
        lemma_query_words_acc_count(s.drop_first(), cur.push(s[0]));
    } else {
        lemma_query_words_acc_count(s.drop_first(), Seq::empty());
    }
}

/// A copy of a name's characters.
pub fn copy_chars(v: &Vec<char>) -> (r: Vec<char>)
    ensures
        r@ == v@,
{
    let mut r: Vec<char> = Vec::new();
    let mut i: usize = 0;
    while i < v.len()
        invariant
            0 <= i <= v@.len(),
            r@ == v@.take(i as int),
        decreases v@.len() - i,
    {
        r.push(v[i]);
        proof {
            assert(v@.take(i + 1) =~= v@.take(i as int).push(v@[i as int]));
        }
        i = i + 1;
    }
    proof {
        assert(v@.take(v@.len() as int) =~= v@);
    }
    r
}

/// The characters of a string, in order.
pub fn str_chars(s: &str) -> (r: Vec<char>)
    ensures
        r@ == s@,
{
    let n = s.unicode_len();
    let mut r: Vec<char> = Vec::new();
    let mut i: usize = 0;
    while i < n
        invariant
            n == s@.len(),
            0 <= i <= n,
            r@ == s@.take(i as int),
        decreases n - i,
    {
        r.push(s.get_char(i));
        proof {
            assert(s@.take(i + 1) =~= s@.take(i as int).push(s@[i as int]));
        }
        i = i + 1;
    }
    proof {
        assert(s@.take(n as int) =~= s@);
    }
    r
}

/// Character-sequence equality of two names.
pub fn chars_eq(a: &Vec<char>, b: &Vec<char>) -> (r: bool)
    ensures
        r == (a@ == b@),
{
    if a.len() != b.len() {
        proof {
            assert(a@.len() != b@.len());
        }
        return false;
    }
    let mut i: usize = 0;
    while i < a.len()
        invariant
            a@.len() == b@.len(),
            0 <= i <= a@.len(),
            forall|j: int| 0 <= j < i ==> a@[j] == b@[j],
        decreases a@.len() - i,
    {
        if a[i] != b[i] {
            return false;
        }
        i = i + 1;
    }
    proof {
        assert(a@ =~= b@);
    }
    true
}

/// N-gram count law, over the lowercased name the derivation receives:
/// a folded name shorter than the window yields exactly one n-gram, the
/// whole folded name; a folded name of length `L` otherwise yields
/// `L - 2` n-grams.
pub proof fn lemma_ngram_count(low: Seq<char>)
    ensures
        low.len() < 3 ==> ngrams_spec(low).len() == 1 && ngrams_spec(low)[0] == low,
        low.len() >= 3 ==> ngrams_spec(low).len() == low.len() - 2,
{
}

/// Prefix law, over the lowercased name the derivation receives: a
/// folded name of length `L` yields `min(L, 30)` prefix terms, the i-th
/// being its first `i + 1` characters, so the terms come in strictly
/// increasing length order.
pub proof fn lemma_prefix_count(low: Seq<char>)
    ensures
        prefixes_spec(low).len() == min_spec(low.len() as int, 30),
        forall|i: int|
            0 <= i < prefixes_spec(low).len() ==> (#[trigger] prefixes_spec(low)[i]) == low.take(
                i + 1,
            ),
        forall|i: int|
            0 <= i < prefixes_spec(low).len() ==> (#[trigger] prefixes_spec(low)[i]).len() == i
                + 1,
{
    assert forall|i: int| 0 <= i < prefixes_spec(low).len() implies (#[trigger] prefixes_spec(
        low,
    )[i]).len() == i + 1 by {
        assert(prefixes_spec(low)[i] == low.take(i + 1));
    }
}

/// The spaces dropped out of a name.
pub open spec fn strip_spaces_spec(s: Seq<char>) -> Seq<char>
    decreases s.len(),
{
    if s.len() == 0 {
        Seq::empty()
    } else if s[0] == ' ' {
        strip_spaces_spec(s.drop_first())
    } else {
        seq![s[0]] + strip_spaces_spec(s.drop_first())
    }
}

/// The characters of a string with every space removed.
pub fn strip_spaces(s: &str) -> (r: Vec<char>)
    ensures
        r@ == strip_spaces_spec(s@),
{
    let n = s.unicode_len();
    let mut r: Vec<char> = Vec::new();
    let mut i: usize = 0;
    proof {
        assert(s@.skip(0) =~= s@);
        assert(r@ + strip_spaces_spec(s@) =~= strip_spaces_spec(s@));
    }
    while i < n
        invariant
            n == s@.len(),
            0 <= i <= n,
            strip_spaces_spec(s@) == r@ + strip_spaces_spec(s@.skip(i as int)),
        decreases n - i,
    {
        let c = s.get_char(i);
        proof {
            assert(s@.skip(i as int)[0] == s@[i as int]);
            assert(s@.skip(i as int).drop_first() =~= s@.skip(i + 1));
        }
        if c != ' ' {
            let ghost prev = r@;
            r.push(c);
            proof {
                assert(r@ =~= prev + seq![s@[i as int]]);
                assert(prev + (seq![s@[i as int]] + strip_spaces_spec(s@.skip(i + 1))) =~= (prev
                    + seq![s@[i as int]]) + strip_spaces_spec(s@.skip(i + 1)));
            }
        }
        i = i + 1;
    }
    proof {
        assert(s@.skip(n as int) =~= Seq::<char>::empty());
        assert(r@ + strip_spaces_spec(s@.skip(n as int)) =~= r@);
    }
    r
}

/// A slug character of a deck code: spaces become underscores.
pub open spec fn code_slug_char_spec(c: char) -> char {
    if c == ' ' {
        '_'
    } else {
        c
    }
}

/// A slug character of a deck name: spaces and slashes become
/// underscores.
pub open spec fn name_slug_char_spec(c: char) -> char {
    if c == ' ' || c == '/' {
        '_'
    } else {
        c
    }
}

/// The human-readable slug of a deck: its lowercased code and name,
/// joined by an underscore, with spaces (and slashes in the name)
/// replaced by underscores.
pub open spec fn deck_slug_spec(code: Seq<char>, name: Seq<char>) -> Seq<char> {
    fold_of(code).map_values(|c: char| code_slug_char_spec(c)) + seq!['_'] + fold_of(
        name,
    ).map_values(|c: char| name_slug_char_spec(c))
}

/// Derives the lookup slug of a deck from its code and name.
pub fn deck_slug(code: &str, name: &str) -> (r: Vec<char>)
    ensures
        r@ == deck_slug_spec(code@, name@),
{
    let lc = normalize(code);
    let ln = normalize(name);
    let mut r: Vec<char> = Vec::new();
    let mut i: usize = 0;
    while i < lc.len()
        invariant
            lc@ == fold_of(code@),
            0 <= i <= lc@.len(),
            r@ == lc@.take(i as int).map_values(|c: char| code_slug_char_spec(c)),
        decreases lc@.len() - i,
    {
        let c = lc[i];
        let mapped = if c == ' ' {
            '_'
        } else {
            c
        };
        r.push(mapped);
        proof {
            assert(lc@.take(i + 1) =~= lc@.take(i as int).push(lc@[i as int]));
            assert(lc@.take(i + 1).map_values(|c: char| code_slug_char_spec(c)) =~= lc@.take(
                i as int,
            ).map_values(|c: char| code_slug_char_spec(c)).push(code_slug_char_spec(lc@[i as int])));
        }
        i = i + 1;
    }
    proof {
        assert(lc@.take(lc@.len() as int) =~= lc@);
    }
    r.push('_');
    let ghost mid = r@;
    let mut i: usize = 0;
    while i < ln.len()
        invariant
            ln@ == fold_of(name@),
            0 <= i <= ln@.len(),
            r@ == mid + ln@.take(i as int).map_values(|c: char| name_slug_char_spec(c)),
        decreases ln@.len() - i,
    {
        let c = ln[i];
        let mapped = if c == ' ' || c == '/' {
            '_'
        } else {
            c
        };
        let ghost prev = r@;
        r.push(mapped);
        proof {
            assert(ln@.take(i + 1) =~= ln@.take(i as int).push(ln@[i as int]));
            assert(ln@.take(i + 1).map_values(|c: char| name_slug_char_spec(c)) =~= ln@.take(
                i as int,
            ).map_values(|c: char| name_slug_char_spec(c)).push(name_slug_char_spec(ln@[i as int])));
            assert(r@ =~= prev.push(name_slug_char_spec(ln@[i as int])));
        }
        i = i + 1;
    }
    proof {
        assert(ln@.take(ln@.len() as int) =~= ln@);
        assert(r@ =~= deck_slug_spec(code@, name@));
    }
    r
}

} // verus!

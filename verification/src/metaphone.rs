//! The phonetic projection: a simplified sound-alike code.
//!
//! Consonant classes map to a single letter ({b,p,f,v} to B, {c,k,q} to K,
//! {d,t} to T, {g,j} to J, l to L, {m,n} to M, r to R, {s,z} to S) and `x`
//! to the two-letter code KS; vowels, `y`, `w`, `h` and anything else
//! contribute nothing.  An immediately repeated single-letter code is
//! collapsed; the two-letter KS code is always emitted.  A name is
//! lowercased before it is encoded, so names that fold to the same
//! characters share a code.

use vstd::prelude::*;
use crate::text::fold_of;
use crate::text::normalize;

verus! {

/// The single-letter phonetic class of a lowercased character, if any.
/// `x` is not listed here: it carries the two-letter KS code.
pub open spec fn code_class_spec(c: char) -> Option<char> {
    if c == 'b' || c == 'p' || c == 'f' || c == 'v' {
        Some('B')
    } else if c == 'c' || c == 'k' || c == 'q' {
        Some('K')
    } else if c == 'd' || c == 't' {
        Some('T')
    } else if c == 'g' || c == 'j' {
        Some('J')
    } else if c == 'l' {
        Some('L')
    } else if c == 'm' || c == 'n' {
        Some('M')
    } else if c == 'r' {
        Some('R')
    } else if c == 's' || c == 'z' {
        Some('S')
    } else {
        None
    }
}

/// A character that contributes to the phonetic code.
pub open spec fn is_consonant_spec(c: char) -> bool {
    code_class_spec(c) is Some || c == 'x'
}

/// Whether any character of a (lowercased) name contributes a code.
pub open spec fn has_consonant_spec(s: Seq<char>) -> bool
    decreases s.len(),
{
    if s.len() == 0 {
        false
    } else {
        is_consonant_spec(s[0]) || has_consonant_spec(s.drop_first())
    }
}

/// The phonetic code of a lowercased name; `prev` is the last emitted
/// single code letter, against which a repeat is collapsed.  Vowels and
/// other silent characters leave `prev` unchanged, so repeats separated
/// only by silent characters still collapse.
pub open spec fn meta_acc(s: Seq<char>, prev: Option<char>) -> Seq<char>
    decreases s.len(),
{
    if s.len() == 0 {
        Seq::empty()
    } else if s[0] == 'x' {
        seq!['K', 'S'] + meta_acc(s.drop_first(), Some('K'))
    } else {
        match code_class_spec(s[0]) {
            Some(k) => if prev == Some(k) {
                meta_acc(s.drop_first(), prev)
            } else {
                seq![k] + meta_acc(s.drop_first(), Some(k))
            },
            None => meta_acc(s.drop_first(), prev),
        }
    }
}

/// The phonetic code of an already-lowercased name.
pub open spec fn metaphone_folded_spec(s: Seq<char>) -> Seq<char> {
    meta_acc(s, None)
}

/// The phonetic code of a name: the name is lowercased first, so the
/// code never depends on the case of the input.
pub open spec fn metaphone_spec(s: Seq<char>) -> Seq<char> {
    metaphone_folded_spec(fold_of(s))
}

pub fn code_class(c: char) -> (r: Option<char>)
    ensures
        r == code_class_spec(c),
{
    match c {
        'b' | 'p' | 'f' | 'v' => Some('B'),
        'c' | 'k' | 'q' => Some('K'),
        'd' | 't' => Some('T'),
        'g' | 'j' => Some('J'),
        'l' => Some('L'),
        'm' | 'n' => Some('M'),
        'r' => Some('R'),
        's' | 'z' => Some('S'),
        _ => None,
    }
}

/// The phonetic code of a name.  An empty result means the name holds no
/// consonant of the defined classes and is not posted to the phonetic
/// index.
pub fn metaphone(name: &str) -> (r: Vec<char>)
    ensures
        r@ == metaphone_spec(name@),
{
    let low = normalize(name);
    metaphone_folded(&low)
}

/// The phonetic code of a name whose characters are already lowercased.
pub fn metaphone_folded(low: &Vec<char>) -> (r: Vec<char>)
    ensures
        r@ == metaphone_folded_spec(low@),
{
    let ghost l = low@;
    let mut out: Vec<char> = Vec::new();
    let mut prev: Option<char> = None;
    let mut i: usize = 0;
    proof {
        assert(l.skip(0) =~= l);
        assert(out@ + meta_acc(l, None) =~= meta_acc(l, None));
    }
    while i < low.len()
        invariant
            low@ == l,
            0 <= i <= l.len(),
            metaphone_folded_spec(l) == out@ + meta_acc(l.skip(i as int), prev),
        decreases l.len() - i,
    {
        let c = low[i];
        proof {
            assert(l.skip(i as int)[0] == l[i as int]);
            assert(l.skip(i as int).drop_first() =~= l.skip(i + 1));
        }
        if c == 'x' {
            let ghost before = out@;
            out.push('K');
            out.push('S');
            prev = Some('K');
            proof {
                assert(out@ =~= before + seq!['K', 'S']);
                assert(before + (seq!['K', 'S'] + meta_acc(l.skip(i + 1), Some('K'))) =~= (before
                    + seq!['K', 'S']) + meta_acc(l.skip(i + 1), Some('K')));
            }
        } else {
            match code_class(c) {
                Some(k) => {
                    let collapse = match prev {
                        Some(p) => p == k,
                        None => false,
                    };
                    if !collapse {
                        let ghost before = out@;
                        out.push(k);
                        prev = Some(k);
                        proof {
                            assert(out@ =~= before + seq![k]);
                            assert(before + (seq![k] + meta_acc(l.skip(i + 1), Some(k))) =~= (
                            before + seq![k]) + meta_acc(l.skip(i + 1), Some(k)));
                        }
                    }
                },
                None => {},
            }
        }
        i = i + 1;
    }
    proof {
        assert(l.skip(i as int) =~= Seq::<char>::empty());
        assert(out@ =~= metaphone_folded_spec(l));
    }
    out
}

/// With no code emitted yet, the code of a name is empty exactly when
/// the name holds no consonant.
proof fn lemma_meta_none_empty(t: Seq<char>)
    ensures
        (meta_acc(t, None).len() == 0) <==> !has_consonant_spec(t),
    decreases t.len(),
{
    if t.len() == 0 {
    } else if is_consonant_spec(t[0]) {
    } else {
        lemma_meta_none_empty(t.drop_first());
    }
}

/// The phonetic code is empty exactly when the lowercased name contains
/// no consonant from the defined classes.
pub proof fn lemma_metaphone_properties(s: Seq<char>)
    ensures
        (metaphone_spec(s).len() == 0) <==> !has_consonant_spec(fold_of(s)),
{
    lemma_meta_none_empty(fold_of(s));
}

/// The phonetic code is invariant under case: two names that lowercase
/// to the same characters carry the same code.
pub proof fn lemma_metaphone_case_invariant(a: Seq<char>, b: Seq<char>)
    requires
        fold_of(a) == fold_of(b),
    ensures
        metaphone_spec(a) == metaphone_spec(b),
{
}

} // verus!

//! The fuzzy query resolver: layered, additive scoring of entity ids
//! against a postings snapshot, highest total first.
//!
//! A query scores ids in four layers: an exact-prefix match of the whole
//! query is worth 10; each matching query word 5; the character n-gram
//! overlap counts itself, but only when it reaches a minimum-overlap
//! cutoff; a phonetic match is worth 3.  When the exact-prefix layer
//! alone already fills the requested cap, those ids are returned as they
//! stand, in posting order.

use vstd::prelude::*;
use crate::postings::Postings;
use crate::postings::Projection;
use crate::postings::no_dup_spec;

verus! {

/// An id together with its accumulated score.
#[derive(Clone, Copy)]
struct ScoreEntry {
    id: u64,
    score: u64,
}

/// A running score table: one entry per id, every score positive.
struct ScoreBoard {
    items: Vec<ScoreEntry>,
}

spec fn sb_lookup(s: Seq<ScoreEntry>, id: u64) -> int
    decreases s.len(),
{
    if s.len() == 0 {
        0
    } else if s[0].id == id {
        s[0].score as int
    } else {
        sb_lookup(s.drop_first(), id)
    }
}

spec fn sb_has(s: Seq<ScoreEntry>, id: u64) -> bool
    decreases s.len(),
{
    if s.len() == 0 {
        false
    } else if s[0].id == id {
        true
    } else {
        sb_has(s.drop_first(), id)
    }
}

spec fn sb_unique(s: Seq<ScoreEntry>) -> bool
    decreases s.len(),
{
    if s.len() == 0 {
        true
    } else {
        !sb_has(s.drop_first(), s[0].id) && sb_unique(s.drop_first())
    }
}

impl ScoreBoard {
    spec fn wf(self) -> bool {
        sb_unique(self.items@) && (forall|k: int|
            0 <= k < self.items@.len() ==> (#[trigger] self.items@[k]).score > 0)
    }

    spec fn score_of(self, id: u64) -> int {
        sb_lookup(self.items@, id)
    }

    spec fn has(self, id: u64) -> bool {
        sb_has(self.items@, id)
    }

    proof fn lemma_absent_zero(s: Seq<ScoreEntry>, id: u64)
        ensures
            !sb_has(s, id) ==> sb_lookup(s, id) == 0,
        decreases s.len(),
    {
        if s.len() == 0 {
        } else {
            Self::lemma_absent_zero(s.drop_first(), id);
        }
    }

    /// A present id's score is positive in a well-formed table.
    proof fn lemma_present_pos(s: Seq<ScoreEntry>, id: u64)
        requires
            sb_has(s, id),
            forall|k: int| 0 <= k < s.len() ==> (#[trigger] s[k]).score > 0,
        ensures
            sb_lookup(s, id) > 0,
        decreases s.len(),
    {
        if s.len() == 0 {
        } else if s[0].id == id {
            assert(s[0].score > 0);
        } else {
            assert forall|k: int| 0 <= k < s.drop_first().len() implies (#[trigger] s.drop_first()[k]).score
                > 0 by {
                assert(s.drop_first()[k] == s[k + 1]);
            }
            Self::lemma_present_pos(s.drop_first(), id);
        }
    }

    proof fn lemma_lookup_push(s: Seq<ScoreEntry>, e: ScoreEntry, id: u64)
        ensures
            sb_has(s.push(e), id) == (sb_has(s, id) || e.id == id),
            sb_has(s, id) ==> sb_lookup(s.push(e), id) == sb_lookup(s, id),
            !sb_has(s, id) && e.id == id ==> sb_lookup(s.push(e), id) == e.score as int,
            !sb_has(s, id) && e.id != id ==> sb_lookup(s.push(e), id) == 0,
            !sb_has(s, id) ==> sb_lookup(s, id) == 0,
        decreases s.len(),
    {
        if s.len() == 0 {
            assert(!sb_has(s, id));
            assert(sb_lookup(s, id) == 0);
            assert(s.push(e)[0] == e);
            assert(s.push(e).drop_first() =~= Seq::<ScoreEntry>::empty());
            assert(!sb_has(s.push(e).drop_first(), id));
            assert(sb_lookup(s.push(e).drop_first(), id) == 0);
        } else {
            assert(s.push(e)[0] == s[0]);
            assert(s.push(e).drop_first() =~= s.drop_first().push(e));
            Self::lemma_lookup_push(s.drop_first(), e, id);
        }
    }

    proof fn lemma_unique_push(s: Seq<ScoreEntry>, e: ScoreEntry)
        requires
            sb_unique(s),
            !sb_has(s, e.id),
        ensures
            sb_unique(s.push(e)),
        decreases s.len(),
    {
        if s.len() == 0 {
            assert(s.push(e)[0] == e);
            assert(s.push(e).drop_first() =~= Seq::<ScoreEntry>::empty());
            assert(!sb_has(s.push(e).drop_first(), e.id));
            assert(sb_unique(s.push(e).drop_first()));
        } else {
            assert(s.push(e)[0] == s[0]);
            assert(s.push(e).drop_first() =~= s.drop_first().push(e));
            Self::lemma_unique_push(s.drop_first(), e);
            Self::lemma_lookup_push(s.drop_first(), e, s[0].id);
        }
    }

    proof fn lemma_has_at(s: Seq<ScoreEntry>, m: int)
        requires
            0 <= m < s.len(),
        ensures
            sb_has(s, s[m].id),
        decreases s.len(),
    {
        if m == 0 {
        } else {
            assert(s.drop_first()[m - 1] == s[m]);
            Self::lemma_has_at(s.drop_first(), m - 1);
        }
    }

    /// The score stored with an entry is the id's looked-up score.
    proof fn lemma_entry_value(s: Seq<ScoreEntry>, m: int)
        requires
            0 <= m < s.len(),
            sb_unique(s),
        ensures
            sb_lookup(s, s[m].id) == s[m].score as int,
        decreases s.len(),
    {
        if m == 0 {
        } else {
            assert(s.drop_first()[m - 1] == s[m]);
            if s[0].id == s[m].id {
                Self::lemma_has_at(s.drop_first(), m - 1);
                assert(false);
            }
            Self::lemma_entry_value(s.drop_first(), m - 1);
        }
    }

    proof fn lemma_lookup_update(s: Seq<ScoreEntry>, j: int, e: ScoreEntry, id: u64)
        requires
            0 <= j < s.len(),
            e.id == s[j].id,
            sb_unique(s),
        ensures
            sb_has(s.update(j, e), id) == sb_has(s, id),
            id == s[j].id ==> sb_lookup(s.update(j, e), id) == e.score as int,
            id != s[j].id ==> sb_lookup(s.update(j, e), id) == sb_lookup(s, id),
        decreases s.len(),
    {
        if j == 0 {
            assert(s.update(0, e).len() == s.len());
            assert(s.update(0, e)[0] == e);
            assert(s.update(0, e).drop_first() =~= s.drop_first());
        } else {
            assert(s.update(j, e).len() == s.len());
            assert(s.update(j, e)[0] == s[0]);
            assert(s.update(j, e).drop_first() =~= s.drop_first().update(j - 1, e));
            assert(s.drop_first()[j - 1] == s[j]);
            if s[0].id == s[j].id {
                Self::lemma_has_at(s.drop_first(), j - 1);
                assert(false);
            }
            Self::lemma_lookup_update(s.drop_first(), j - 1, e, id);
        }
    }

    proof fn lemma_unique_update(s: Seq<ScoreEntry>, j: int, e: ScoreEntry)
        requires
            0 <= j < s.len(),
            e.id == s[j].id,
            sb_unique(s),
        ensures
            sb_unique(s.update(j, e)),
        decreases s.len(),
    {
        if j == 0 {
            assert(s.update(0, e)[0] == e);
            assert(s.update(0, e).drop_first() =~= s.drop_first());
        } else {
            assert(s.update(j, e)[0] == s[0]);
            assert(s.update(j, e).drop_first() =~= s.drop_first().update(j - 1, e));
            assert(s.drop_first()[j - 1] == s[j]);
            if s[0].id == s[j].id {
                Self::lemma_has_at(s.drop_first(), j - 1);
                assert(false);
            }
            Self::lemma_unique_update(s.drop_first(), j - 1, e);
            Self::lemma_lookup_update(s.drop_first(), j - 1, e, s[0].id);
        }
    }

    fn new() -> (r: ScoreBoard)
        ensures
            r.wf(),
            forall|id: u64| #[trigger] r.score_of(id) == 0,
            forall|id: u64| !(#[trigger] r.has(id)),
            r.items@.len() == 0,
    {
        ScoreBoard { items: Vec::new() }
    }

    /// Adds `delta` to one id's score, creating the entry if absent.
    fn bump(&mut self, id: u64, delta: u64)
        requires
            old(self).wf(),
            delta > 0,
            old(self).score_of(id) + delta <= u64::MAX,
        ensures
            final(self).wf(),
            final(self).score_of(id) == old(self).score_of(id) + delta,
            final(self).has(id),
            forall|id2: u64|
                id2 != id ==> #[trigger] final(self).score_of(id2) == old(self).score_of(id2),
            forall|id2: u64| id2 != id ==> #[trigger] final(self).has(id2) == old(self).has(id2),
    {
        let ghost s0 = self.items@;
        let n = self.items.len();
        let mut j: usize = 0;
        proof {
            assert(s0.skip(0) =~= s0);
        }
        while j < n
            invariant
                self.items@ == s0,
                s0 == old(self).items@,
                sb_unique(s0),
                forall|k: int| 0 <= k < s0.len() ==> (#[trigger] s0[k]).score > 0,
                n == s0.len(),
                0 <= j <= n,
                sb_lookup(s0, id) + delta <= u64::MAX,
                sb_lookup(s0, id) == sb_lookup(s0.skip(j as int), id),
                sb_has(s0, id) == sb_has(s0.skip(j as int), id),
            decreases n - j,
        {
            proof {
                assert(s0.skip(j as int)[0] == s0[j as int]);
                assert(s0.skip(j as int).drop_first() =~= s0.skip(j + 1));
            }
            if self.items[j].id == id {
                proof {
                    assert(sb_lookup(s0, id) == s0[j as int].score as int);
                }
                let new_score = self.items[j].score + delta;
                let ent = ScoreEntry { id, score: new_score };
                let ghost entg = ent;
                proof {
                    Self::lemma_unique_update(s0, j as int, entg);
                }
                self.items[j] = ent;
                proof {
                    assert(self.items@ == s0.update(j as int, entg));
                    Self::lemma_lookup_update(s0, j as int, entg, id);
                    assert forall|id2: u64| id2 != id implies #[trigger] self.score_of(id2)
                        == sb_lookup(s0, id2) by {
                        Self::lemma_lookup_update(s0, j as int, entg, id2);
                    }
                    assert forall|id2: u64| id2 != id implies #[trigger] self.has(id2) == sb_has(
                        s0,
                        id2,
                    ) by {
                        Self::lemma_lookup_update(s0, j as int, entg, id2);
                    }
                    assert(forall|k: int|
                        0 <= k < self.items@.len() ==> (#[trigger] self.items@[k]).score > 0);
                }
                return ;
            }
            j = j + 1;
        }
        proof {
            assert(s0.skip(n as int) =~= Seq::<ScoreEntry>::empty());
            assert(!sb_has(s0, id));
            Self::lemma_absent_zero(s0, id);
        }
        let ent = ScoreEntry { id, score: delta };
        let ghost entg = ent;
        proof {
            Self::lemma_unique_push(s0, entg);
        }
        self.items.push(ent);
        proof {
            assert(self.items@ == s0.push(entg));
            Self::lemma_lookup_push(s0, entg, id);
            assert forall|id2: u64| id2 != id implies #[trigger] self.score_of(id2) == sb_lookup(
                s0,
                id2,
            ) by {
                Self::lemma_lookup_push(s0, entg, id2);
            }
            assert forall|id2: u64| id2 != id implies #[trigger] self.has(id2) == sb_has(
                s0,
                id2,
            ) by {
                Self::lemma_lookup_push(s0, entg, id2);
            }
            assert(forall|k: int|
                0 <= k < self.items@.len() ==> (#[trigger] self.items@[k]).score > 0);
        }
    }
}

/// A query is lowercased and truncated to this many characters before
/// resolution; longer queries are never rejected.
pub const MAX_QUERY_LEN: usize = 256;

/// The normalized form a query is resolved under: lowercased, truncated.
pub open spec fn query_spec(q: Seq<char>) -> Seq<char> {
    let low = crate::text::fold_of(q);
    if low.len() <= MAX_QUERY_LEN {
        low
    } else {
        low.take(MAX_QUERY_LEN as int)
    }
}

/// How many of the given query words the id matches in the word index,
/// counting repeated words again.
pub open spec fn word_hits(ps: Postings, id: u64, ws: Seq<Seq<char>>) -> int
    decreases ws.len(),
{
    if ws.len() == 0 {
        0
    } else {
        (if ps.ids_of(Projection::Word, ws[0]).contains(id) {
            1int
        } else {
            0int
        }) + word_hits(ps, id, ws.drop_first())
    }
}

/// How many of the query's n-grams the id matches in the n-gram index.
pub open spec fn ngram_hits(ps: Postings, id: u64, gs: Seq<Seq<char>>) -> int
    decreases gs.len(),
{
    if gs.len() == 0 {
        0
    } else {
        (if ps.ids_of(Projection::Ngram, gs[0]).contains(id) {
            1int
        } else {
            0int
        }) + ngram_hits(ps, id, gs.drop_first())
    }
}

/// The minimum n-gram overlap an id must reach before its overlap
/// counts: three tenths of the query's n-gram count, at least one.
pub open spec fn ngram_cutoff(qlen: int) -> int {
    let c = (3 * (qlen - 2)) / 10;
    if c < 1 {
        1
    } else {
        c
    }
}

/// The total score of an id for a normalized query `q`: 10 for an
/// exact-prefix match of the whole query, 5 per matching query word,
/// the n-gram overlap itself when it reaches the cutoff, and 3 for a
/// phonetic match.
pub open spec fn score_spec(ps: Postings, q: Seq<char>, id: u64) -> int {
    let prefix_part: int = if ps.ids_of(Projection::Prefix, q).contains(id) {
        10
    } else {
        0
    };
    let word_part: int = 5 * word_hits(ps, id, crate::text::query_words_spec(q));
    let ngram_part: int = if q.len() >= 3 {
        let ov = ngram_hits(ps, id, crate::text::ngrams_spec(q));
        if ov >= ngram_cutoff(q.len() as int) {
            ov
        } else {
            0
        }
    } else {
        0
    };
    let phonetic_part: int = if crate::metaphone::metaphone_folded_spec(q).len() > 0 && ps.ids_of(
        Projection::Phonetic,
        crate::metaphone::metaphone_folded_spec(q),
    ).contains(id) {
        3
    } else {
        0
    };
    prefix_part + word_part + ngram_part + phonetic_part
}

proof fn lemma_push_contains_other<A>(s: Seq<A>, x: A, y: A)
    requires
        x != y,
    ensures
        s.push(x).contains(y) == s.contains(y),
{
    if s.contains(y) {
        let m = choose|m: int| 0 <= m < s.len() && s[m] == y;
        assert(s.push(x)[m] == y);
    }
    if s.push(x).contains(y) {
        let m = choose|m: int| 0 <= m < s.push(x).len() && s.push(x)[m] == y;
        assert(m < s.len());
        assert(s[m] == y);
    }
}

proof fn lemma_word_hits_snoc(ps: Postings, id: u64, a: Seq<Seq<char>>, x: Seq<char>)
    ensures
        word_hits(ps, id, a.push(x)) == word_hits(ps, id, a) + (if ps.ids_of(
            Projection::Word,
            x,
        ).contains(id) {
            1int
        } else {
            0int
        }),
    decreases a.len(),
{
    if a.len() == 0 {
        assert(word_hits(ps, id, a) == 0);
        assert(a.push(x)[0] == x);
        assert(a.push(x).drop_first() =~= Seq::<Seq<char>>::empty());
        assert(word_hits(ps, id, a.push(x).drop_first()) == 0);
    } else {
        assert(a.push(x)[0] == a[0]);
        assert(a.push(x).drop_first() =~= a.drop_first().push(x));
        lemma_word_hits_snoc(ps, id, a.drop_first(), x);
    }
}

proof fn lemma_word_hits_bounds(ps: Postings, id: u64, ws: Seq<Seq<char>>)
    ensures
        0 <= word_hits(ps, id, ws) <= ws.len(),
    decreases ws.len(),
{
    if ws.len() == 0 {
    } else {
        lemma_word_hits_bounds(ps, id, ws.drop_first());
    }
}

proof fn lemma_ngram_hits_snoc(ps: Postings, id: u64, a: Seq<Seq<char>>, x: Seq<char>)
    ensures
        ngram_hits(ps, id, a.push(x)) == ngram_hits(ps, id, a) + (if ps.ids_of(
            Projection::Ngram,
            x,
        ).contains(id) {
            1int
        } else {
            0int
        }),
    decreases a.len(),
{
    if a.len() == 0 {
        assert(ngram_hits(ps, id, a) == 0);
        assert(a.push(x)[0] == x);
        assert(a.push(x).drop_first() =~= Seq::<Seq<char>>::empty());
        assert(ngram_hits(ps, id, a.push(x).drop_first()) == 0);
    } else {
        assert(a.push(x)[0] == a[0]);
        assert(a.push(x).drop_first() =~= a.drop_first().push(x));
        lemma_ngram_hits_snoc(ps, id, a.drop_first(), x);
    }
}

proof fn lemma_ngram_hits_bounds(ps: Postings, id: u64, gs: Seq<Seq<char>>)
    ensures
        0 <= ngram_hits(ps, id, gs) <= gs.len(),
    decreases gs.len(),
{
    if gs.len() == 0 {
    } else {
        lemma_ngram_hits_bounds(ps, id, gs.drop_first());
    }
}

/// What one pass over an overlap table contributes per id: the first
/// entry for the id whose overlap reaches the cutoff, else nothing.
spec fn ffold(s: Seq<ScoreEntry>, id: u64, co: int) -> int
    decreases s.len(),
{
    if s.len() == 0 {
        0
    } else if s[0].id == id {
        if s[0].score as int >= co {
            s[0].score as int
        } else {
            0
        }
    } else {
        ffold(s.drop_first(), id, co)
    }
}

proof fn lemma_ffold_snoc(a: Seq<ScoreEntry>, x: ScoreEntry, id: u64, co: int)
    ensures
        sb_has(a, id) ==> ffold(a.push(x), id, co) == ffold(a, id, co),
        !sb_has(a, id) && x.id == id ==> ffold(a.push(x), id, co) == (if x.score as int >= co {
            x.score as int
        } else {
            0int
        }),
        !sb_has(a, id) && x.id != id ==> ffold(a.push(x), id, co) == 0,
        !sb_has(a, id) ==> ffold(a, id, co) == 0,
    decreases a.len(),
{
    if a.len() == 0 {
        assert(a.push(x)[0] == x);
        assert(a.push(x).drop_first() =~= Seq::<ScoreEntry>::empty());
        assert(ffold(a.push(x).drop_first(), id, co) == 0);
    } else {
        assert(a.push(x)[0] == a[0]);
        assert(a.push(x).drop_first() =~= a.drop_first().push(x));
        lemma_ffold_snoc(a.drop_first(), x, id, co);
    }
}

/// Over a whole well-formed table, the fold is the id's overlap when it
/// reaches the cutoff and zero otherwise.
proof fn lemma_ffold_total(s: Seq<ScoreEntry>, id: u64, co: int)
    requires
        co >= 1,
    ensures
        ffold(s, id, co) == (if sb_lookup(s, id) >= co {
            sb_lookup(s, id)
        } else {
            0int
        }),
    decreases s.len(),
{
    if s.len() == 0 {
    } else if s[0].id == id {
    } else {
        lemma_ffold_total(s.drop_first(), id, co);
    }
}

/// No two entries share an id.
spec fn distinct_ids(s: Seq<ScoreEntry>) -> bool {
    forall|i: int, j: int| 0 <= i < j < s.len() ==> s[i].id != s[j].id
}

spec fn ids_disjoint(a: Seq<ScoreEntry>, b: Seq<ScoreEntry>) -> bool {
    forall|i: int, j: int| 0 <= i < a.len() && 0 <= j < b.len() ==> a[i].id != b[j].id
}

proof fn lemma_unique_distinct(s: Seq<ScoreEntry>)
    requires
        sb_unique(s),
    ensures
        distinct_ids(s),
    decreases s.len(),
{
    if s.len() == 0 {
    } else {
        lemma_unique_distinct(s.drop_first());
        assert forall|i: int, j: int| 0 <= i < j < s.len() implies s[i].id != s[j].id by {
            if i == 0 {
                ScoreBoard::lemma_has_at(s.drop_first(), j - 1);
                assert(s.drop_first()[j - 1] == s[j]);
            } else {
                assert(s.drop_first()[i - 1] == s[i]);
                assert(s.drop_first()[j - 1] == s[j]);
            }
        }
    }
}

/// Sorts score entries by score, highest first.  The result holds
/// exactly the given entries, one per id.
fn sort_entries_desc(src: Vec<ScoreEntry>) -> (out: Vec<ScoreEntry>)
    requires
        distinct_ids(src@),
    ensures
        out@.len() == src@.len(),
        distinct_ids(out@),
        forall|i: int, j: int| 0 <= i < j < out@.len() ==> out@[i].score >= out@[j].score,
        forall|k: int| 0 <= k < out@.len() ==> src@.contains(#[trigger] out@[k]),
        forall|m: int| 0 <= m < src@.len() ==> out@.contains(#[trigger] src@[m]),
{
    let mut work = src;
    let mut out: Vec<ScoreEntry> = Vec::new();
    while work.len() > 0
        invariant
            out@.len() + work@.len() == src@.len(),
            distinct_ids(out@),
            distinct_ids(work@),
            ids_disjoint(out@, work@),
            forall|i: int, j: int| 0 <= i < j < out@.len() ==> out@[i].score >= out@[j].score,
            forall|i: int, j: int|
                0 <= i < out@.len() && 0 <= j < work@.len() ==> out@[i].score >= work@[j].score,
            forall|k: int| 0 <= k < out@.len() ==> src@.contains(#[trigger] out@[k]),
            forall|k: int| 0 <= k < work@.len() ==> src@.contains(#[trigger] work@[k]),
            forall|m: int|
                0 <= m < src@.len() ==> out@.contains(#[trigger] src@[m]) || work@.contains(
                    src@[m],
                ),
        decreases work@.len(),
    {
        let mut best: usize = 0;
        let mut bi: usize = 1;
        while bi < work.len()
            invariant
                work@.len() > 0,
                0 <= best < work@.len(),
                1 <= bi <= work@.len(),
                forall|t: int| 0 <= t < bi ==> work@[t].score <= work@[best as int].score,
            decreases work@.len() - bi,
        {
            if work[bi].score > work[best].score {
                best = bi;
            }
            bi = bi + 1;
        }
        let e = work[best];
        let ghost w0 = work@;
        let ghost o0 = out@;
        out.push(e);
        let _ = work.swap_remove(best);
        proof {
            assert(work@ =~= w0.update(best as int, w0.last()).drop_last());
            assert(out@ =~= o0.push(e));
            assert(work@.len() == w0.len() - 1);
            assert forall|k: int| 0 <= k < work@.len() implies #[trigger] work@[k] == (if k
                == best as int {
                w0[w0.len() - 1]
            } else {
                w0[k]
            }) by {}
            assert forall|m: int|
                0 <= m < src@.len() implies out@.contains(#[trigger] src@[m]) || work@.contains(
                src@[m],
            ) by {
                if o0.contains(src@[m]) {
                    let k = choose|k: int| 0 <= k < o0.len() && o0[k] == src@[m];
                    assert(out@[k] == src@[m]);
                } else if w0.contains(src@[m]) {
                    let t = choose|t: int| 0 <= t < w0.len() && w0[t] == src@[m];
                    if t == best as int {
                        assert(out@[o0.len() as int] == src@[m]);
                    } else if t == w0.len() - 1 {
                        if best as int == w0.len() - 1 {
                            assert(out@[o0.len() as int] == src@[m]);
                        } else {
                            assert(work@[best as int] == src@[m]);
                        }
                    } else {
                        assert(work@[t] == src@[m]);
                    }
                }
            }
            assert forall|k: int| 0 <= k < out@.len() implies src@.contains(#[trigger] out@[k])
                by {
                if k < o0.len() {
                    assert(out@[k] == o0[k]);
                }
            }
        }
    }
    proof {
        assert(work@.len() == 0);
    }
    out
}

/// A copy of the first `k` ids of a posting list.
fn take_ids(v: &Vec<u64>, k: usize) -> (r: Vec<u64>)
    requires
        k <= v@.len(),
    ensures
        r@ == v@.take(k as int),
{
    let mut r: Vec<u64> = Vec::new();
    let mut i: usize = 0;
    while i < k
        invariant
            0 <= i <= k <= v@.len(),
            r@ == v@.take(i as int),
        decreases k - i,
    {
        r.push(v[i]);
        proof {
            assert(v@.take(i + 1) =~= v@.take(i as int).push(v@[i as int]));
        }
        i = i + 1;
    }
    r
}


proof fn lemma_has_exists(s: Seq<ScoreEntry>, id: u64)
    ensures
        sb_has(s, id) <==> exists|k: int| 0 <= k < s.len() && (#[trigger] s[k]).id == id,
    decreases s.len(),
{
    if s.len() == 0 {
    } else {
        lemma_has_exists(s.drop_first(), id);
        if sb_has(s, id) {
            if s[0].id == id {
                assert(s[0].id == id);
            } else {
                let k = choose|k: int|
                    0 <= k < s.drop_first().len() && (#[trigger] s.drop_first()[k]).id == id;
                assert(s[k + 1].id == id);
            }
        }
        if exists|k: int| 0 <= k < s.len() && (#[trigger] s[k]).id == id {
            let k = choose|k: int| 0 <= k < s.len() && (#[trigger] s[k]).id == id;
            ScoreBoard::lemma_has_at(s, k);
        }
    }
}

/// The exact-prefix layer's contribution: 10 for an id posted under the
/// whole query, nothing otherwise.
spec fn prefix_part_spec(pre: Seq<u64>, id: u64) -> int {
    if pre.contains(id) {
        10
    } else {
        0
    }
}

/// The first three score layers: exact prefix, words, n-gram overlap.
spec fn partial3_spec(ps: Postings, q: Seq<char>, id: u64) -> int {
    prefix_part_spec(ps.ids_of(Projection::Prefix, q), id) + 5 * word_hits(
        ps,
        id,
        crate::text::query_words_spec(q),
    ) + (if q.len() >= 3 {
        let ov = ngram_hits(ps, id, crate::text::ngrams_spec(q));
        if ov >= ngram_cutoff(q.len() as int) {
            ov
        } else {
            0int
        }
    } else {
        0int
    })
}

/// Resolves a free-text query against a postings snapshot: a ranked,
/// deduplicated list of at most `cap` entity ids, highest total score
/// first.  When the exact-prefix postings for the whole query already
/// reach the cap, those ids are returned unscored, in posting order.
/// An id is returned only if some layer matched it; an id left out
/// either scored no higher than every returned id or matched nothing.
pub fn fuzzy_resolve(store: &Postings, query: &str, cap: usize) -> (r: Vec<u64>)
    requires
        store.wf(),
    ensures
        ({
            let q = query_spec(query@);
            let pre = store.ids_of(Projection::Prefix, q);
            if pre.len() >= cap {
                r@ == pre.take(cap as int)
            } else {
                &&& no_dup_spec(r@)
                &&& r@.len() <= cap
                &&& (forall|k: int|
                    0 <= k < r@.len() ==> score_spec(*store, q, #[trigger] r@[k]) > 0)
                &&& (forall|i: int, j: int|
                    0 <= i < j < r@.len() ==> score_spec(*store, q, r@[i]) >= score_spec(
                        *store,
                        q,
                        r@[j],
                    ))
                &&& (forall|id: u64|
                    #[trigger] score_spec(*store, q, id) > 0 && !r@.contains(id) ==> r@.len()
                        == cap && (r@.len() > 0 ==> score_spec(*store, q, id) <= score_spec(
                        *store,
                        q,
                        r@[r@.len() - 1],
                    )))
            }
        }),
{
    let mut q = crate::text::normalize(query);
    if q.len() > MAX_QUERY_LEN {
        q.truncate(MAX_QUERY_LEN);
    }
    let ghost qs = query_spec(query@);
    proof {
        assert(q@ == qs);
        assert(qs.len() <= MAX_QUERY_LEN);
    }

    let pre = store.get(Projection::Prefix, &q);
    let ghost pp = store.ids_of(Projection::Prefix, qs);
    if pre.len() >= cap {
        let r = take_ids(&pre, cap);
        return r;
    }

    // Layer 1: exact-prefix matches of the whole query.
    let mut sb = ScoreBoard::new();
    let mut k: usize = 0;
    proof {
        assert(pp.take(0) =~= Seq::<u64>::empty());
    }
    while k < pre.len()
        invariant
            store.wf(),
            pre@ == pp,
            no_dup_spec(pp),
            0 <= k <= pp.len(),
            sb.wf(),
            forall|id: u64|
                #[trigger] sb.score_of(id) == prefix_part_spec(pp.take(k as int), id),
        decreases pp.len() - k,
    {
        let id = pre[k];
        proof {
            assert(pp.take(k + 1) =~= pp.take(k as int).push(pp[k as int]));
            if pp.take(k as int).contains(id) {
                let m = choose|m: int| 0 <= m < k && pp.take(k as int)[m] == id;
                assert(pp[m] == pp[k as int]);
                assert(false);
            }
            assert(sb.score_of(id) == 0);
        }
        sb.bump(id, 10);
        proof {
            assert forall|id2: u64| #[trigger] sb.score_of(id2) == prefix_part_spec(
                pp.take(k + 1),
                id2,
            ) by {
                if id2 == id {
                    assert(pp.take(k + 1)[k as int] == id);
                    assert(pp.take(k + 1).contains(id));
                } else {
                    lemma_push_contains_other(pp.take(k as int), pp[k as int], id2);
                }
            }
        }
        k = k + 1;
    }
    proof {
        assert(pp.take(pp.len() as int) =~= pp);
    }

    // Layer 2: one hit per matching query word.
    let words = crate::text::query_words(&q);
    let ghost ws = crate::text::query_words_spec(qs);
    proof {
        crate::text::lemma_query_words_acc_count(qs, Seq::<char>::empty());
        assert(ws.len() <= MAX_QUERY_LEN + 1);
        assert(ws.take(0) =~= Seq::<Seq<char>>::empty());
    }
    let mut w: usize = 0;
    while w < words.len()
        invariant
            store.wf(),
            words.deep_view() == ws,
            ws == crate::text::query_words_spec(qs),
            ws.len() <= MAX_QUERY_LEN + 1,
            0 <= w <= ws.len(),
            sb.wf(),
            forall|id: u64|
                #[trigger] sb.score_of(id) == prefix_part_spec(pp, id) + 5 * word_hits(
                    *store,
                    id,
                    ws.take(w as int),
                ),
        decreases ws.len() - w,
    {
        let wids = store.get(Projection::Word, &words[w]);
        let ghost wv = ws[w as int];
        let ghost wid_seq = store.ids_of(Projection::Word, wv);
        proof {
            assert(words@[w as int]@ == wv);
            assert(wids@ == wid_seq);
            assert(wid_seq.take(0) =~= Seq::<u64>::empty());
        }
        let mut m: usize = 0;
        while m < wids.len()
            invariant
                store.wf(),
                words.deep_view() == ws,
                ws == crate::text::query_words_spec(qs),
                ws.len() <= MAX_QUERY_LEN + 1,
                0 <= w < ws.len(),
                wv == ws[w as int],
                wids@ == wid_seq,
                wid_seq == store.ids_of(Projection::Word, wv),
                no_dup_spec(wid_seq),
                0 <= m <= wid_seq.len(),
                sb.wf(),
                forall|id: u64|
                    #[trigger] sb.score_of(id) == prefix_part_spec(pp, id) + 5 * word_hits(
                        *store,
                        id,
                        ws.take(w as int),
                    ) + (if wid_seq.take(m as int).contains(id) {
                        5int
                    } else {
                        0int
                    }),
            decreases wid_seq.len() - m,
        {
            let id = wids[m];
            proof {
                assert(wid_seq.take(m + 1) =~= wid_seq.take(m as int).push(wid_seq[m as int]));
                if wid_seq.take(m as int).contains(id) {
                    let tt = choose|tt: int| 0 <= tt < m && wid_seq.take(m as int)[tt] == id;
                    assert(wid_seq[tt] == wid_seq[m as int]);
                    assert(false);
                }
                lemma_word_hits_bounds(*store, id, ws.take(w as int));
                assert(sb.score_of(id) <= 10 + 5 * (MAX_QUERY_LEN + 1));
            }
            sb.bump(id, 5);
            proof {
                assert forall|id2: u64| #[trigger] sb.score_of(id2) == prefix_part_spec(pp, id2)
                    + 5 * word_hits(*store, id2, ws.take(w as int)) + (if wid_seq.take(
                    m + 1,
                ).contains(id2) {
                    5int
                } else {
                    0int
                }) by {
                    if id2 == id {
                        assert(wid_seq.take(m + 1)[m as int] == id);
                        assert(wid_seq.take(m + 1).contains(id));
                    } else {
                        lemma_push_contains_other(wid_seq.take(m as int), wid_seq[m as int], id2);
                    }
                }
            }
            m = m + 1;
        }
        proof {
            assert(wid_seq.take(wid_seq.len() as int) =~= wid_seq);
            assert(ws.take(w + 1) =~= ws.take(w as int).push(ws[w as int]));
            assert forall|id: u64| #[trigger] sb.score_of(id) == prefix_part_spec(pp, id) + 5
                * word_hits(*store, id, ws.take(w + 1)) by {
                lemma_word_hits_snoc(*store, id, ws.take(w as int), ws[w as int]);
            }
        }
        w = w + 1;
    }
    proof {
        assert(ws.take(ws.len() as int) =~= ws);
    }

    // Layer 3: n-gram overlap, kept only at or above the cutoff.
    if q.len() >= crate::text::NGRAM_LEN {
        let grams = crate::text::ngrams(&q);
        let ghost ng = crate::text::ngrams_spec(qs);
        let mut ov = ScoreBoard::new();
        proof {
            assert(ng.take(0) =~= Seq::<Seq<char>>::empty());
        }
        let mut g: usize = 0;
        while g < grams.len()
            invariant
                store.wf(),
                grams.deep_view() == ng,
                ng == crate::text::ngrams_spec(qs),
                qs.len() >= 3,
                ng.len() == qs.len() - 2,
                qs.len() <= MAX_QUERY_LEN,
                0 <= g <= ng.len(),
                ov.wf(),
                forall|id: u64|
                    #[trigger] ov.score_of(id) == ngram_hits(*store, id, ng.take(g as int)),
            decreases ng.len() - g,
        {
            let gids = store.get(Projection::Ngram, &grams[g]);
            let ghost gv = ng[g as int];
            let ghost gid_seq = store.ids_of(Projection::Ngram, gv);
            proof {
                assert(grams@[g as int]@ == gv);
                assert(gids@ == gid_seq);
                assert(gid_seq.take(0) =~= Seq::<u64>::empty());
            }
            let mut m: usize = 0;
            while m < gids.len()
                invariant
                    store.wf(),
                    grams.deep_view() == ng,
                    ng == crate::text::ngrams_spec(qs),
                    qs.len() >= 3,
                    ng.len() == qs.len() - 2,
                    qs.len() <= MAX_QUERY_LEN,
                    0 <= g < ng.len(),
                    gv == ng[g as int],
                    gids@ == gid_seq,
                    gid_seq == store.ids_of(Projection::Ngram, gv),
                    no_dup_spec(gid_seq),
                    0 <= m <= gid_seq.len(),
                    ov.wf(),
                    forall|id: u64|
                        #[trigger] ov.score_of(id) == ngram_hits(*store, id, ng.take(g as int)) + (
                        if gid_seq.take(m as int).contains(id) {
                            1int
                        } else {
                            0int
                        }),
                decreases gid_seq.len() - m,
            {
                let id = gids[m];
                proof {
                    assert(gid_seq.take(m + 1) =~= gid_seq.take(m as int).push(
                        gid_seq[m as int],
                    ));
                    if gid_seq.take(m as int).contains(id) {
                        let tt = choose|tt: int| 0 <= tt < m && gid_seq.take(m as int)[tt] == id;
                        assert(gid_seq[tt] == gid_seq[m as int]);
                        assert(false);
                    }
                    lemma_ngram_hits_bounds(*store, id, ng.take(g as int));
                    assert(ov.score_of(id) <= MAX_QUERY_LEN);
                }
                ov.bump(id, 1);
                proof {
                    assert forall|id2: u64| #[trigger] ov.score_of(id2) == ngram_hits(
                        *store,
                        id2,
                        ng.take(g as int),
                    ) + (if gid_seq.take(m + 1).contains(id2) {
                        1int
                    } else {
                        0int
                    }) by {
                        if id2 == id {
                            assert(gid_seq.take(m + 1)[m as int] == id);
                            assert(gid_seq.take(m + 1).contains(id));
                        } else {
                            lemma_push_contains_other(
                                gid_seq.take(m as int),
                                gid_seq[m as int],
                                id2,
                            );
                        }
                    }
                }
                m = m + 1;
            }
            proof {
                assert(gid_seq.take(gid_seq.len() as int) =~= gid_seq);
                assert(ng.take(g + 1) =~= ng.take(g as int).push(ng[g as int]));
                assert forall|id: u64| #[trigger] ov.score_of(id) == ngram_hits(
                    *store,
                    id,
                    ng.take(g + 1),
                ) by {
                    lemma_ngram_hits_snoc(*store, id, ng.take(g as int), ng[g as int]);
                }
            }
            g = g + 1;
        }
        proof {
            assert(ng.take(ng.len() as int) =~= ng);
        }

        let l = q.len();
        let c0 = (3 * (l - 2)) / 10;
        let co: u64 = if c0 < 1 {
            1
        } else {
            c0 as u64
        };
        proof {
            assert(co as int == ngram_cutoff(qs.len() as int));
            assert(co >= 1);
        }

        let ghost ovs = ov.items@;
        let nfold = ov.items.len();
        let mut m: usize = 0;
        proof {
            assert(ovs.take(0) =~= Seq::<ScoreEntry>::empty());
            assert forall|id: u64| ffold(ovs.take(0), id, co as int) == 0 by {
                assert(ffold(ovs.take(0), id, co as int) == 0);
            }
        }
        while m < nfold
            invariant
                store.wf(),
                ov.wf(),
                ov.items@ == ovs,
                nfold == ovs.len(),
                forall|id: u64| #[trigger] ov.score_of(id) == ngram_hits(*store, id, ng),
                ng == crate::text::ngrams_spec(qs),
                qs.len() >= 3,
                ng.len() == qs.len() - 2,
                qs.len() <= MAX_QUERY_LEN,
                ws == crate::text::query_words_spec(qs),
                ws.len() <= MAX_QUERY_LEN + 1,
                co as int == ngram_cutoff(qs.len() as int),
                co >= 1,
                0 <= m <= ovs.len(),
                sb.wf(),
                forall|id: u64|
                    #[trigger] sb.score_of(id) == prefix_part_spec(pp, id) + 5 * word_hits(
                        *store,
                        id,
                        ws,
                    ) + ffold(ovs.take(m as int), id, co as int),
            decreases ovs.len() - m,
        {
            let eid = ov.items[m].id;
            let esc = ov.items[m].score;
            proof {
                assert(ovs.take(m + 1) =~= ovs.take(m as int).push(ovs[m as int]));
                lemma_has_exists(ovs.take(m as int), eid);
                if sb_has(ovs.take(m as int), eid) {
                    let tt = choose|tt: int|
                        0 <= tt < m && (#[trigger] ovs.take(m as int)[tt]).id == eid;
                    lemma_unique_distinct(ovs);
                    assert(ovs[tt].id == ovs[m as int].id);
                    assert(false);
                }
                lemma_ffold_snoc(ovs.take(m as int), ovs[m as int], eid, co as int);
                ScoreBoard::lemma_entry_value(ovs, m as int);
                assert(esc as int == ov.score_of(eid));
                lemma_ngram_hits_bounds(*store, eid, ng);
                lemma_word_hits_bounds(*store, eid, ws);
                assert(sb.score_of(eid) <= 10 + 5 * (MAX_QUERY_LEN + 1));
            }
            if esc >= co {
                sb.bump(eid, esc);
            }
            proof {
                assert forall|id2: u64| #[trigger] sb.score_of(id2) == prefix_part_spec(pp, id2)
                    + 5 * word_hits(*store, id2, ws) + ffold(ovs.take(m + 1), id2, co as int) by {
                    lemma_ffold_snoc(ovs.take(m as int), ovs[m as int], id2, co as int);
                    if id2 != eid {
                        lemma_has_exists(ovs.take(m as int), id2);
                    }
                }
            }
            m = m + 1;
        }
        proof {
            assert(ovs.take(ovs.len() as int) =~= ovs);
            assert forall|id: u64| #[trigger] sb.score_of(id) == partial3_spec(*store, qs, id) by {
                assert(ov.score_of(id) == ngram_hits(*store, id, ng));
                lemma_ffold_total(ovs, id, co as int);
            }
        }
    } else {
        proof {
            assert forall|id: u64| #[trigger] sb.score_of(id) == partial3_spec(*store, qs, id)
                by {}
        }
    }

    // Layer 4: a phonetic match of the whole query.
    let code = crate::metaphone::metaphone_folded(&q);
    let ghost mc = crate::metaphone::metaphone_folded_spec(qs);
    if code.len() > 0 {
        let pids = store.get(Projection::Phonetic, &code);
        let ghost ph = store.ids_of(Projection::Phonetic, mc);
        proof {
            assert(code@ == mc);
            assert(pids@ == ph);
            assert(ph.take(0) =~= Seq::<u64>::empty());
        }
        let mut k: usize = 0;
        while k < pids.len()
            invariant
                store.wf(),
                pids@ == ph,
                ph == store.ids_of(Projection::Phonetic, mc),
                mc == crate::metaphone::metaphone_folded_spec(qs),
                mc.len() > 0,
                no_dup_spec(ph),
                ws == crate::text::query_words_spec(qs),
                ws.len() <= MAX_QUERY_LEN + 1,
                qs.len() <= MAX_QUERY_LEN,
                0 <= k <= ph.len(),
                sb.wf(),
                forall|id: u64|
                    #[trigger] sb.score_of(id) == partial3_spec(*store, qs, id) + (if ph.take(
                        k as int,
                    ).contains(id) {
                        3int
                    } else {
                        0int
                    }),
            decreases ph.len() - k,
        {
            let id = pids[k];
            proof {
                assert(ph.take(k + 1) =~= ph.take(k as int).push(ph[k as int]));
                if ph.take(k as int).contains(id) {
                    let tt = choose|tt: int| 0 <= tt < k && ph.take(k as int)[tt] == id;
                    assert(ph[tt] == ph[k as int]);
                    assert(false);
                }
                lemma_word_hits_bounds(*store, id, ws);
                if qs.len() >= 3 {
                    lemma_ngram_hits_bounds(*store, id, crate::text::ngrams_spec(qs));
                }
                assert(sb.score_of(id) <= 10 + 5 * (MAX_QUERY_LEN + 1) + MAX_QUERY_LEN);
            }
            sb.bump(id, 3);
            proof {
                assert forall|id2: u64| #[trigger] sb.score_of(id2) == partial3_spec(
                    *store,
                    qs,
                    id2,
                ) + (if ph.take(k + 1).contains(id2) {
                    3int
                } else {
                    0int
                }) by {
                    if id2 == id {
                        assert(ph.take(k + 1)[k as int] == id);
                        assert(ph.take(k + 1).contains(id));
                    } else {
                        lemma_push_contains_other(ph.take(k as int), ph[k as int], id2);
                    }
                }
            }
            k = k + 1;
        }
        proof {
            assert(ph.take(ph.len() as int) =~= ph);
        }
    }
    proof {
        assert forall|id: u64| #[trigger] sb.score_of(id) == score_spec(*store, qs, id) by {}
    }

    // Rank by total score, highest first, and emit the top `cap` ids.
    let ghost fitems = sb.items@;
    proof {
        lemma_unique_distinct(fitems);
        assert forall|id: u64| #[trigger] sb_lookup(fitems, id) == score_spec(*store, qs, id) by {
            assert(sb.score_of(id) == score_spec(*store, qs, id));
        }
    }
    let sorted = sort_entries_desc(sb.items);
    let n_take = if sorted.len() < cap {
        sorted.len()
    } else {
        cap
    };
    let mut r: Vec<u64> = Vec::new();
    let mut k: usize = 0;
    while k < n_take
        invariant
            0 <= k <= n_take <= sorted@.len(),
            r@.len() == k,
            forall|t: int| 0 <= t < k ==> r@[t] == (#[trigger] sorted@[t]).id,
        decreases n_take - k,
    {
        let e = sorted[k];
        r.push(e.id);
        k = k + 1;
    }
    proof {
        let sv = sorted@;
        // every returned id carries its entry's score
        assert forall|t: int| 0 <= t < r@.len() implies score_spec(*store, qs, #[trigger] r@[t])
            == sv[t].score as int by {
            assert(fitems.contains(sv[t]));
            let mm = choose|mm: int| 0 <= mm < fitems.len() && fitems[mm] == sv[t];
            // entry scores are the looked-up scores
            assert(sb_unique(fitems));
            ScoreBoard::lemma_entry_value(fitems, mm);
        }
        assert forall|t: int| 0 <= t < r@.len() implies score_spec(*store, qs, #[trigger] r@[t])
            > 0 by {
            assert(fitems.contains(sv[t]));
            let mm = choose|mm: int| 0 <= mm < fitems.len() && fitems[mm] == sv[t];
            assert(fitems[mm].score > 0);
        }
        assert(no_dup_spec(r@));
        // an id that scored but was left out lost to every returned id
        assert forall|id: u64|
            #[trigger] score_spec(*store, qs, id) > 0 && !r@.contains(id) implies r@.len() == cap
            && (r@.len() > 0 ==> score_spec(*store, qs, id) <= score_spec(
            *store,
            qs,
            r@[r@.len() - 1],
        )) by {
            assert(sb_lookup(fitems, id) > 0);
            ScoreBoard::lemma_absent_zero(fitems, id);
            assert(sb_has(fitems, id));
            lemma_has_exists(fitems, id);
            let mm = choose|mm: int| 0 <= mm < fitems.len() && (#[trigger] fitems[mm]).id == id;
            assert(sv.contains(fitems[mm]));
            let tt = choose|tt: int| 0 <= tt < sv.len() && sv[tt] == fitems[mm];
            if tt < n_take {
                assert(r@[tt] == id);
                assert(false);
            }
            assert(n_take < sv.len());
            assert(n_take == cap);
            if r@.len() > 0 {
                ScoreBoard::lemma_entry_value(fitems, mm);
                assert(score_spec(*store, qs, id) == sv[tt].score as int);
                assert(sv[n_take - 1].score >= sv[tt].score);
                assert(score_spec(*store, qs, r@[r@.len() - 1]) == sv[n_take - 1].score as int);
            }
        }
    }
    r
}

/// Type-ahead lookup: the ids posted under the given prefix, in posting
/// order, capped, without scoring.
pub fn autocomplete(store: &Postings, prefix: &str, cap: usize) -> (r: Vec<u64>)
    requires
        store.wf(),
    ensures
        r@ == ({
            let ids = store.ids_of(Projection::Prefix, crate::text::fold_of(prefix@));
            ids.take(crate::text::min_spec(cap as int, ids.len() as int))
        }),
{
    let p = crate::text::normalize(prefix);
    let ids = store.get(Projection::Prefix, &p);
    let k = if ids.len() < cap {
        ids.len()
    } else {
        cap
    };
    take_ids(&ids, k)
}

/// Rank monotonicity: in a result ordered by non-increasing total
/// score, an id with a strictly higher score stands strictly earlier.
pub proof fn lemma_rank_monotonic(ps: Postings, q: Seq<char>, r: Seq<u64>, i: int, j: int)
    requires
        forall|a: int, b: int|
            0 <= a < b < r.len() ==> score_spec(ps, q, r[a]) >= score_spec(ps, q, r[b]),
        0 <= i < r.len(),
        0 <= j < r.len(),
        score_spec(ps, q, r[i]) > score_spec(ps, q, r[j]),
    ensures
        i < j,
{
    if j < i {
        assert(score_spec(ps, q, r[j]) >= score_spec(ps, q, r[i]));
    }
}

} // verus!

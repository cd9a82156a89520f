//! Inverted postings: a map from index terms to the entity ids posted
//! under them.
//!
//! A term is a projection tag plus a character sequence.  Ids keep their
//! insertion order, and posting an id under a term it already carries is
//! a no-op, so a postings value models `term -> set of ids` while still
//! answering lookups in a stable, first-posted-first order.

use vstd::prelude::*;
use crate::text::chars_eq;

verus! {

/// The index projections a term can belong to.
#[derive(Clone, Copy, PartialEq, Eq, Structural, Debug)]
pub enum Projection {
    /// The exact lowercased name.
    Exact,
    /// A prefix of the name or of one of its words.
    Prefix,
    /// A fixed-width character n-gram of the name.
    Ngram,
    /// The phonetic code of the name.
    Phonetic,
    /// A whole word of the name.
    Word,
}

struct PostingEntry {
    proj: Projection,
    term: Vec<char>,
    ids: Vec<u64>,
}

/// Adding an id to a posting list: a no-op if already present, else
/// appended at the end.
pub open spec fn add_id_spec(s: Seq<u64>, id: u64) -> Seq<u64> {
    if s.contains(id) {
        s
    } else {
        s.push(id)
    }
}

/// No id occurs twice.
pub open spec fn no_dup_spec(s: Seq<u64>) -> bool {
    forall|i: int, j: int| 0 <= i < j < s.len() ==> s[i] != s[j]
}


/// Appending the ids of `b` to `a` in order, skipping ids already
/// present: the order-keeping union of two posting lists.
pub open spec fn union_ord_spec(a: Seq<u64>, b: Seq<u64>) -> Seq<u64>
    decreases b.len(),
{
    if b.len() == 0 {
        a
    } else if a.contains(b[0]) {
        union_ord_spec(a, b.drop_first())
    } else {
        union_ord_spec(a.push(b[0]), b.drop_first())
    }
}

/// An inverted index from terms to posting lists.
pub struct Postings {
    entries: Vec<PostingEntry>,
}

impl Postings {
    /// First posting list stored under the key, scanning front to back.
    spec fn lookup(s: Seq<PostingEntry>, proj: Projection, term: Seq<char>) -> Seq<u64>
        decreases s.len(),
    {
        if s.len() == 0 {
            Seq::empty()
        } else if s[0].proj == proj && s[0].term@ == term {
            s[0].ids@
        } else {
            Self::lookup(s.drop_first(), proj, term)
        }
    }

    spec fn has_key(s: Seq<PostingEntry>, proj: Projection, term: Seq<char>) -> bool
        decreases s.len(),
    {
        if s.len() == 0 {
            false
        } else if s[0].proj == proj && s[0].term@ == term {
            true
        } else {
            Self::has_key(s.drop_first(), proj, term)
        }
    }

    spec fn unique_keys(s: Seq<PostingEntry>) -> bool
        decreases s.len(),
    {
        if s.len() == 0 {
            true
        } else {
            !Self::has_key(s.drop_first(), s[0].proj, s[0].term@) && Self::unique_keys(
                s.drop_first(),
            )
        }
    }

    /// Well-formedness: one entry per term, and no id posted twice under
    /// one term.
    pub closed spec fn wf(self) -> bool {
        Self::unique_keys(self.entries@) && (forall|i: int|
            0 <= i < self.entries@.len() ==> no_dup_spec(#[trigger] self.entries@[i].ids@))
    }

    /// The ids posted under a term, in posting order; empty if the term
    /// was never posted.
    pub closed spec fn ids_of(self, proj: Projection, term: Seq<char>) -> Seq<u64> {
        Self::lookup(self.entries@, proj, term)
    }

    /// Whether a term has an entry (its posting list may then still be
    /// read through `ids_of`).
    pub closed spec fn has_term(self, proj: Projection, term: Seq<char>) -> bool {
        Self::has_key(self.entries@, proj, term)
    }

    proof fn lemma_lookup_push(s: Seq<PostingEntry>, e: PostingEntry, proj: Projection, term: Seq<char>)
        ensures
            Self::has_key(s.push(e), proj, term) == (Self::has_key(s, proj, term) || (e.proj
                == proj && e.term@ == term)),
            Self::has_key(s, proj, term) ==> Self::lookup(s.push(e), proj, term) == Self::lookup(
                s,
                proj,
                term,
            ),
            !Self::has_key(s, proj, term) ==> Self::lookup(s, proj, term) == Seq::<u64>::empty(),
            !Self::has_key(s, proj, term) && e.proj == proj && e.term@ == term ==> Self::lookup(
                s.push(e),
                proj,
                term,
            ) == e.ids@,
            !Self::has_key(s, proj, term) && !(e.proj == proj && e.term@ == term)
                ==> Self::lookup(s.push(e), proj, term) == Seq::<u64>::empty(),
        decreases s.len(),
    {
        if s.len() == 0 {
            assert(!Self::has_key(s, proj, term));
            assert(Self::lookup(s, proj, term) == Seq::<u64>::empty());
            assert(s.push(e)[0] == e);
            assert(s.push(e).drop_first() =~= Seq::<PostingEntry>::empty());
            assert(!Self::has_key(s.push(e).drop_first(), proj, term));
            assert(Self::lookup(s.push(e).drop_first(), proj, term) == Seq::<u64>::empty());
        } else {
            assert(s.push(e)[0] == s[0]);
            assert(s.push(e).drop_first() =~= s.drop_first().push(e));
            Self::lemma_lookup_push(s.drop_first(), e, proj, term);
        }
    }

    proof fn lemma_unique_push(s: Seq<PostingEntry>, e: PostingEntry)
        requires
            Self::unique_keys(s),
            !Self::has_key(s, e.proj, e.term@),
        ensures
            Self::unique_keys(s.push(e)),
        decreases s.len(),
    {
        if s.len() == 0 {
            assert(s.push(e)[0] == e);
            assert(s.push(e).drop_first() =~= Seq::<PostingEntry>::empty());
            assert(!Self::has_key(s.push(e).drop_first(), e.proj, e.term@));
            assert(Self::unique_keys(s.push(e).drop_first()));
        } else {
            assert(s.push(e)[0] == s[0]);
            assert(s.push(e).drop_first() =~= s.drop_first().push(e));
            Self::lemma_unique_push(s.drop_first(), e);
            Self::lemma_lookup_push(s.drop_first(), e, s[0].proj, s[0].term@);
        }
    }

    proof fn lemma_has_key_at(s: Seq<PostingEntry>, m: int)
        requires
            0 <= m < s.len(),
        ensures
            Self::has_key(s, s[m].proj, s[m].term@),
        decreases s.len(),
    {
        if m == 0 {
        } else {
            assert(s.drop_first()[m - 1] == s[m]);
            Self::lemma_has_key_at(s.drop_first(), m - 1);
        }
    }

    proof fn lemma_lookup_update(
        s: Seq<PostingEntry>,
        j: int,
        e: PostingEntry,
        proj: Projection,
        term: Seq<char>,
    )
        requires
            0 <= j < s.len(),
            e.proj == s[j].proj,
            e.term@ == s[j].term@,
            Self::unique_keys(s),
        ensures
            Self::has_key(s.update(j, e), proj, term) == Self::has_key(s, proj, term),
            proj == s[j].proj && term == s[j].term@ ==> Self::lookup(s.update(j, e), proj, term)
                == e.ids@,
            !(proj == s[j].proj && term == s[j].term@) ==> Self::lookup(s.update(j, e), proj, term)
                == Self::lookup(s, proj, term),
        decreases s.len(),
    {
        if j == 0 {
            assert(s.update(0, e).len() == s.len());
            assert(s.update(0, e)[0] == e);
            assert(s.update(0, e).drop_first() =~= s.drop_first());
            if e.proj == proj && e.term@ == term {
                assert(Self::lookup(s.update(0, e), proj, term) == e.ids@);
            } else {
                assert(Self::lookup(s.update(0, e), proj, term) == Self::lookup(
                    s.drop_first(),
                    proj,
                    term,
                ));
                assert(Self::lookup(s, proj, term) == Self::lookup(s.drop_first(), proj, term));
            }
        } else {
            assert(s.update(j, e).len() == s.len());
            assert(s.update(j, e)[0] == s[0]);
            assert(s.update(j, e).drop_first() =~= s.drop_first().update(j - 1, e));
            assert(s.drop_first()[j - 1] == s[j]);
            if s[0].proj == s[j].proj && s[0].term@ == s[j].term@ {
                Self::lemma_has_key_at(s.drop_first(), j - 1);
                assert(false);
            }
            Self::lemma_lookup_update(s.drop_first(), j - 1, e, proj, term);
        }
    }

    proof fn lemma_unique_update(s: Seq<PostingEntry>, j: int, e: PostingEntry)
        requires
            0 <= j < s.len(),
            e.proj == s[j].proj,
            e.term@ == s[j].term@,
            Self::unique_keys(s),
        ensures
            Self::unique_keys(s.update(j, e)),
        decreases s.len(),
    {
        if s.len() == 0 {
        } else if j == 0 {
            assert(s.update(0, e)[0] == e);
            assert(s.update(0, e).drop_first() =~= s.drop_first());
            assert(!Self::has_key(s.drop_first(), e.proj, e.term@));
        } else {
            assert(s.update(j, e)[0] == s[0]);
            assert(s.update(j, e).drop_first() =~= s.drop_first().update(j - 1, e));
            assert(s.drop_first()[j - 1] == s[j]);
            Self::lemma_unique_update(s.drop_first(), j - 1, e);
            Self::lemma_lookup_update(s.drop_first(), j - 1, e, s[0].proj, s[0].term@);
        }
    }

    /// A posting list read back from a well-formed postings value never
    /// holds an id twice.
    pub proof fn lemma_ids_of_no_dup(self, proj: Projection, term: Seq<char>)
        requires
            self.wf(),
        ensures
            no_dup_spec(self.ids_of(proj, term)),
    {
        Self::lemma_lookup_no_dup(self.entries@, proj, term);
    }

    proof fn lemma_lookup_no_dup(s: Seq<PostingEntry>, proj: Projection, term: Seq<char>)
        requires
            forall|i: int| 0 <= i < s.len() ==> no_dup_spec(#[trigger] s[i].ids@),
        ensures
            no_dup_spec(Self::lookup(s, proj, term)),
        decreases s.len(),
    {
        if s.len() == 0 {
        } else if s[0].proj == proj && s[0].term@ == term {
        } else {
            assert(forall|i: int|
                0 <= i < s.drop_first().len() ==> no_dup_spec(
                    #[trigger] s.drop_first()[i].ids@,
                ));
            Self::lemma_lookup_no_dup(s.drop_first(), proj, term);
        }
    }

    /// An empty postings value: nothing posted under any term.
    pub fn new() -> (r: Postings)
        ensures
            r.wf(),
            forall|p: Projection, t: Seq<char>| #[trigger] r.ids_of(p, t) == Seq::<u64>::empty(),
            forall|p: Projection, t: Seq<char>| !(#[trigger] r.has_term(p, t)),
    {
        Postings { entries: Vec::new() }
    }

    /// Drops every posting; the value afterwards is as freshly created.
    pub fn clear(&mut self)
        ensures
            final(self).wf(),
            forall|p: Projection, t: Seq<char>|
                #[trigger] final(self).ids_of(p, t) == Seq::<u64>::empty(),
            forall|p: Projection, t: Seq<char>| !(#[trigger] final(self).has_term(p, t)),
    {
        self.entries.clear();
    }

    /// How many distinct terms carry a posting list.
    pub fn term_count(&self) -> (r: usize)
        ensures
            r == self.term_count_spec(),
    {
        self.entries.len()
    }

    /// The number of distinct terms posted so far.
    pub closed spec fn term_count_spec(self) -> nat {
        self.entries@.len()
    }

    /// Posts `id` under the term.  Idempotent: a second posting of the
    /// same id under the same term changes nothing; every other term's
    /// posting list is untouched.
    pub fn add(&mut self, proj: Projection, term: Vec<char>, id: u64)
        requires
            old(self).wf(),
        ensures
            final(self).wf(),
            forall|p: Projection, t: Seq<char>|
                !(p == proj && t == term@) ==> #[trigger] final(self).ids_of(p, t) == old(
                    self,
                ).ids_of(p, t),
            final(self).ids_of(proj, term@) == add_id_spec(old(self).ids_of(proj, term@), id),
            final(self).has_term(proj, term@),
            forall|p: Projection, t: Seq<char>|
                !(p == proj && t == term@) ==> #[trigger] final(self).has_term(p, t) == old(
                    self,
                ).has_term(p, t),
    {
        let ghost s0 = self.entries@;
        let n = self.entries.len();
        let mut j: usize = 0;
        proof {
            assert(s0.skip(0) =~= s0);
        }
        while j < n
            invariant
                self.entries@ == s0,
                s0 == old(self).entries@,
                Self::unique_keys(s0),
                forall|i: int| 0 <= i < s0.len() ==> no_dup_spec(#[trigger] s0[i].ids@),
                n == s0.len(),
                0 <= j <= n,
                forall|k: int|
                    0 <= k < j ==> !(s0[k].proj == proj && #[trigger] s0[k].term@ == term@),
                Self::lookup(s0, proj, term@) == Self::lookup(s0.skip(j as int), proj, term@),
                Self::has_key(s0, proj, term@) == Self::has_key(s0.skip(j as int), proj, term@),
            decreases n - j,
        {
            proof {
                assert(s0.skip(j as int)[0] == s0[j as int]);
                assert(s0.skip(j as int).drop_first() =~= s0.skip(j + 1));
            }
            let hit = self.entries[j].proj == proj && chars_eq(&self.entries[j].term, &term);
            if hit {
                let present = contains_u64(&self.entries[j].ids, id);
                if present {
                    proof {
                        assert(Self::lookup(s0, proj, term@) == s0[j as int].ids@);
                        assert(add_id_spec(self.ids_of(proj, term@), id) == self.ids_of(
                            proj,
                            term@,
                        ));
                    }
                    return ;
                }
                let mut new_ids = copy_ids(&self.entries[j].ids);
                new_ids.push(id);
                let ent = PostingEntry { proj, term, ids: new_ids };
                proof {
                    assert(Self::lookup(s0, proj, term@) == s0[j as int].ids@);
                    assert(no_dup_spec(ent.ids@));
                    Self::lemma_unique_update(s0, j as int, ent);
                }
                let ghost entg = ent;
                self.entries[j] = ent;
                proof {
                    assert(self.entries@ == s0.update(j as int, entg));
                    assert forall|p: Projection, t: Seq<char>| !(p == proj && t == term@) implies
                        #[trigger] self.ids_of(p, t) == Self::lookup(s0, p, t) by {
                        Self::lemma_lookup_update(s0, j as int, entg, p, t);
                    }
                    assert forall|p: Projection, t: Seq<char>| !(p == proj && t == term@) implies
                        #[trigger] self.has_term(p, t) == Self::has_key(s0, p, t) by {
                        Self::lemma_lookup_update(s0, j as int, entg, p, t);
                    }
                    Self::lemma_lookup_update(s0, j as int, entg, proj, term@);
                    assert(self.ids_of(proj, term@) == entg.ids@);
                    assert(entg.ids@ == s0[j as int].ids@.push(id));
                    assert(self.has_term(proj, term@));
                    assert(forall|i: int|
                        0 <= i < self.entries@.len() ==> no_dup_spec(
                            #[trigger] self.entries@[i].ids@,
                        ));
                }
                return ;
            }
            j = j + 1;
        }
        proof {
            assert(s0.skip(n as int) =~= Seq::<PostingEntry>::empty());
            assert(!Self::has_key(s0, proj, term@));
        }
        let mut ids: Vec<u64> = Vec::new();
        ids.push(id);
        let ent = PostingEntry { proj, term, ids };
        proof {
            Self::lemma_unique_push(s0, ent);
        }
        let ghost entg = ent;
        self.entries.push(ent);
        proof {
            assert(self.entries@ == s0.push(entg));
            assert forall|p: Projection, t: Seq<char>| !(p == proj && t == term@) implies
                #[trigger] self.ids_of(p, t) == Self::lookup(s0, p, t) by {
                Self::lemma_lookup_push(s0, entg, p, t);
            }
            assert forall|p: Projection, t: Seq<char>| !(p == proj && t == term@) implies
                #[trigger] self.has_term(p, t) == Self::has_key(s0, p, t) by {
                Self::lemma_lookup_push(s0, entg, p, t);
            }
            Self::lemma_lookup_push(s0, entg, proj, term@);
            assert(entg.ids@ =~= Seq::<u64>::empty().push(id));
            assert(self.ids_of(proj, term@) == add_id_spec(Self::lookup(s0, proj, term@), id));
            assert(self.has_term(proj, term@));
            assert(forall|i: int|
                0 <= i < self.entries@.len() ==> no_dup_spec(#[trigger] self.entries@[i].ids@));
        }
    }


    proof fn lemma_unique_pairwise(s: Seq<PostingEntry>)
        requires
            Self::unique_keys(s),
        ensures
            forall|i1: int, i2: int|
                0 <= i1 < i2 < s.len() ==> !((#[trigger] s[i1]).proj == (#[trigger] s[i2]).proj
                    && s[i1].term@ == s[i2].term@),
        decreases s.len(),
    {
        if s.len() == 0 {
        } else {
            Self::lemma_unique_pairwise(s.drop_first());
            assert forall|i1: int, i2: int| 0 <= i1 < i2 < s.len() implies !((
            #[trigger] s[i1]).proj == (#[trigger] s[i2]).proj && s[i1].term@ == s[i2].term@) by {
                if i1 == 0 {
                    assert(s.drop_first()[i2 - 1] == s[i2]);
                    Self::lemma_has_key_at(s.drop_first(), i2 - 1);
                    if s[0].proj == s[i2].proj && s[0].term@ == s[i2].term@ {
                        assert(Self::has_key(s.drop_first(), s[0].proj, s[0].term@));
                        assert(false);
                    }
                } else {
                    assert(s.drop_first()[i1 - 1] == s[i1]);
                    assert(s.drop_first()[i2 - 1] == s[i2]);
                }
            }
        }
    }

    proof fn lemma_lookup_at(s: Seq<PostingEntry>, j: int)
        requires
            0 <= j < s.len(),
            Self::unique_keys(s),
        ensures
            Self::lookup(s, s[j].proj, s[j].term@) == s[j].ids@,
            Self::has_key(s, s[j].proj, s[j].term@),
        decreases s.len(),
    {
        if j == 0 {
        } else {
            assert(s.drop_first()[j - 1] == s[j]);
            if s[0].proj == s[j].proj && s[0].term@ == s[j].term@ {
                Self::lemma_has_key_at(s.drop_first(), j - 1);
                assert(false);
            }
            Self::lemma_lookup_at(s.drop_first(), j - 1);
        }
    }

    /// Folds another postings value into this one, term by term: the
    /// other's ids are appended in their order, skipping ids already
    /// posted; terms the other does not hold are untouched.  Folding
    /// worker partials into the global index in a fixed chunk order
    /// thus reproduces the serial pass.
    pub fn merge_from(&mut self, other: &Postings)
        requires
            old(self).wf(),
            other.wf(),
        ensures
            final(self).wf(),
            forall|p: Projection, t: Seq<char>|
                #[trigger] final(self).ids_of(p, t) == union_ord_spec(
                    old(self).ids_of(p, t),
                    other.ids_of(p, t),
                ),
    {
        let ghost os = other.entries@;
        let n = other.entries.len();
        let mut j: usize = 0;
        proof {
            Self::lemma_unique_pairwise(os);
        }
        while j < n
            invariant
                self.wf(),
                other.wf(),
                os == other.entries@,
                forall|i1: int, i2: int|
                    0 <= i1 < i2 < os.len() ==> !((#[trigger] os[i1]).proj == (
                    #[trigger] os[i2]).proj && os[i1].term@ == os[i2].term@),
                n == os.len(),
                0 <= j <= n,
                forall|p: Projection, t: Seq<char>|
                    (exists|m: int| 0 <= m < j && (#[trigger] os[m]).proj == p && os[m].term@ == t)
                        ==> #[trigger] self.ids_of(p, t) == union_ord_spec(
                        old(self).ids_of(p, t),
                        other.ids_of(p, t),
                    ),
                forall|p: Projection, t: Seq<char>|
                    !(exists|m: int|
                        0 <= m < j && (#[trigger] os[m]).proj == p && os[m].term@ == t)
                        ==> #[trigger] self.ids_of(p, t) == old(self).ids_of(p, t),
            decreases n - j,
        {
            let kproj = other.entries[j].proj;
            let ghost kp = os[j as int].proj;
            let ghost kt = os[j as int].term@;
            let ghost bids = os[j as int].ids@;
            let ghost mid = *self;
            proof {
                Self::lemma_lookup_at(os, j as int);
                // this key was not among the already-folded entries
                if exists|m: int| 0 <= m < j && (#[trigger] os[m]).proj == kp && os[m].term@
                    == kt {
                    let m = choose|m: int|
                        0 <= m < j && (#[trigger] os[m]).proj == kp && os[m].term@ == kt;
                    let ghost ej = os[j as int];
                    assert(!((os[m]).proj == ej.proj && os[m].term@ == ej.term@));
                    assert(false);
                }
                assert(self.ids_of(kp, kt) == old(self).ids_of(kp, kt));
                assert(bids.skip(0) =~= bids);
            }
            let ids_len = other.entries[j].ids.len();
            let mut m: usize = 0;
            while m < ids_len
                invariant
                    self.wf(),
                    other.wf(),
                    os == other.entries@,
                    0 <= j < os.len(),
                    kp == os[j as int].proj,
                    kproj == kp,
                    kt == os[j as int].term@,
                    bids == os[j as int].ids@,
                    ids_len == bids.len(),
                    0 <= m <= ids_len,
                    union_ord_spec(old(self).ids_of(kp, kt), bids) == union_ord_spec(
                        self.ids_of(kp, kt),
                        bids.skip(m as int),
                    ),
                    forall|p: Projection, t: Seq<char>|
                        !(p == kp && t == kt) ==> #[trigger] self.ids_of(p, t) == mid.ids_of(p, t),
                decreases ids_len - m,
            {
                proof {
                    assert(bids.skip(m as int)[0] == bids[m as int]);
                    assert(bids.skip(m as int).drop_first() =~= bids.skip(m + 1));
                }
                let id = other.entries[j].ids[m];
                let term_copy = crate::text::copy_chars(&other.entries[j].term);
                let ghost pre = self.ids_of(kp, kt);
                self.add(kproj, term_copy, id);
                proof {
                    assert(self.ids_of(kp, kt) == add_id_spec(pre, id));
                    if pre.contains(id) {
                        assert(union_ord_spec(pre, bids.skip(m as int)) == union_ord_spec(
                            pre,
                            bids.skip(m + 1),
                        ));
                    } else {
                        assert(union_ord_spec(pre, bids.skip(m as int)) == union_ord_spec(
                            pre.push(id),
                            bids.skip(m + 1),
                        ));
                    }
                }
                m = m + 1;
            }
            proof {
                assert(bids.skip(ids_len as int) =~= Seq::<u64>::empty());
                assert(union_ord_spec(self.ids_of(kp, kt), Seq::<u64>::empty()) == self.ids_of(
                    kp,
                    kt,
                ));
                assert(self.ids_of(kp, kt) == union_ord_spec(
                    old(self).ids_of(kp, kt),
                    other.ids_of(kp, kt),
                ));
                assert(os[j as int].proj == kp && os[j as int].term@ == kt);
                assert forall|p: Projection, t: Seq<char>|
                    (exists|m2: int|
                        0 <= m2 < j + 1 && (#[trigger] os[m2]).proj == p && os[m2].term@ == t)
                    implies #[trigger] self.ids_of(p, t) == union_ord_spec(
                    old(self).ids_of(p, t),
                    other.ids_of(p, t),
                ) by {
                    if p == kp && t == kt {
                    } else {
                        let m2 = choose|m2: int|
                            0 <= m2 < j + 1 && (#[trigger] os[m2]).proj == p && os[m2].term@ == t;
                        assert(m2 < j);
                        assert(mid.ids_of(p, t) == union_ord_spec(
                            old(self).ids_of(p, t),
                            other.ids_of(p, t),
                        ));
                    }
                }
                assert forall|p: Projection, t: Seq<char>|
                    !(exists|m2: int|
                        0 <= m2 < j + 1 && (#[trigger] os[m2]).proj == p && os[m2].term@ == t)
                    implies #[trigger] self.ids_of(p, t) == old(self).ids_of(p, t) by {
                    assert(!(p == kp && t == kt));
                    assert(!(exists|m2: int|
                        0 <= m2 < j && (#[trigger] os[m2]).proj == p && os[m2].term@ == t));
                    assert(mid.ids_of(p, t) == old(self).ids_of(p, t));
                }
            }
            j = j + 1;
        }
        proof {
            assert forall|p: Projection, t: Seq<char>| #[trigger] self.ids_of(p, t)
                == union_ord_spec(old(self).ids_of(p, t), other.ids_of(p, t)) by {
                if exists|m: int| 0 <= m < n && (#[trigger] os[m]).proj == p && os[m].term@ == t {
                } else {
                    assert(self.ids_of(p, t) == old(self).ids_of(p, t));
                    Self::lemma_absent_empty(os, p, t);
                    assert(other.ids_of(p, t) == Seq::<u64>::empty());
                    assert(union_ord_spec(old(self).ids_of(p, t), Seq::<u64>::empty()) == old(
                        self,
                    ).ids_of(p, t));
                }
            }
        }
    }

    /// A key matched by no entry has an empty posting list.
    proof fn lemma_absent_empty(s: Seq<PostingEntry>, proj: Projection, term: Seq<char>)
        requires
            !(exists|m: int|
                0 <= m < s.len() && (#[trigger] s[m]).proj == proj && s[m].term@ == term),
        ensures
            Self::lookup(s, proj, term) == Seq::<u64>::empty(),
        decreases s.len(),
    {
        if s.len() == 0 {
        } else {
            assert(!(s[0].proj == proj && s[0].term@ == term));
            assert forall|m: int|
                0 <= m < s.drop_first().len() implies !((#[trigger] s.drop_first()[m]).proj == proj
                && s.drop_first()[m].term@ == term) by {
                assert(s.drop_first()[m] == s[m + 1]);
            }
            Self::lemma_absent_empty(s.drop_first(), proj, term);
        }
    }

    /// The posting list of a term, in posting order; empty if the term
    /// was never posted.
    pub fn get(&self, proj: Projection, term: &Vec<char>) -> (r: Vec<u64>)
        requires
            self.wf(),
        ensures
            r@ == self.ids_of(proj, term@),
            no_dup_spec(r@),
    {
        proof {
            self.lemma_ids_of_no_dup(proj, term@);
        }
        let ghost s0 = self.entries@;
        let n = self.entries.len();
        let mut j: usize = 0;
        proof {
            assert(s0.skip(0) =~= s0);
        }
        while j < n
            invariant
                self.wf(),
                self.entries@ == s0,
                no_dup_spec(self.ids_of(proj, term@)),
                n == s0.len(),
                0 <= j <= n,
                Self::lookup(s0, proj, term@) == Self::lookup(s0.skip(j as int), proj, term@),
            decreases n - j,
        {
            proof {
                assert(s0.skip(j as int)[0] == s0[j as int]);
                assert(s0.skip(j as int).drop_first() =~= s0.skip(j + 1));
            }
            let hit = self.entries[j].proj == proj && chars_eq(&self.entries[j].term, term);
            if hit {
                let r = copy_ids(&self.entries[j].ids);
                proof {
                    assert(Self::lookup(s0, proj, term@) == s0[j as int].ids@);
                }
                return r;
            }
            j = j + 1;
        }
        proof {
            assert(s0.skip(n as int) =~= Seq::<PostingEntry>::empty());
        }
        Vec::new()
    }
}

/// Whether an id already occurs in a posting list.
pub fn contains_u64(v: &Vec<u64>, id: u64) -> (r: bool)
    ensures
        r == v@.contains(id),
{
    let mut i: usize = 0;
    while i < v.len()
        invariant
            0 <= i <= v@.len(),
            forall|k: int| 0 <= k < i ==> v@[k] != id,
        decreases v@.len() - i,
    {
        if v[i] == id {
            return true;
        }
        i = i + 1;
    }
    proof {
        assert(forall|k: int| 0 <= k < v@.len() ==> v@[k] != id);
        assert(!v@.contains(id));
    }
    false
}

/// A copy of a posting list.
pub fn copy_ids(v: &Vec<u64>) -> (r: Vec<u64>)
    ensures
        r@ == v@,
{
    let mut r: Vec<u64> = Vec::new();
    let mut i: usize = 0;
    while i < v.len()
        invariant
            0 <= i <= v@.len(),
            r@ == v@.take(i as int),
        decreases v@.len() - i,
    {
        r.push(v[i]);
        proof {
            assert(v@.take(i + 1) =~= v@.take(i as int).push(v@[i as int]));
        }
        i = i + 1;
    }
    proof {
        assert(v@.take(v@.len() as int) =~= v@);
    }
    r
}

} // verus!

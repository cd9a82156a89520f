//! The indexing engine: derives, for a card or deck name, every index
//! term the owning entity id is posted under, and posts them.
//!
//! A name contributes five projections: its exact lowercased form, the
//! prefixes of the whole name and of each of its words, its character
//! n-grams, its phonetic code (only when non-empty), and its words.

use vstd::prelude::*;
use crate::text::fold_of;
use crate::text::tokens_spec;
use crate::text::prefixes_spec;
use crate::text::ngrams_spec;
use crate::text::normalize;
use crate::text::tokenize;
use crate::text::prefixes;
use crate::text::ngrams;
use crate::text::copy_chars;
use crate::metaphone::metaphone_spec;
use crate::metaphone::metaphone_folded;
use crate::postings::Projection;
use crate::postings::Postings;
use crate::postings::add_id_spec;

verus! {

/// One index term: a projection tag and the term text.
pub struct Term {
    pub proj: Projection,
    pub text: Vec<char>,
}

/// The keys of a term list, as projection / character-sequence pairs.
pub open spec fn keys_of(ts: Seq<Term>) -> Seq<(Projection, Seq<char>)> {
    ts.map_values(|e: Term| (e.proj, e.text@))
}

/// Tags every term of a projection's term list.
pub open spec fn tag_all(p: Projection, ts: Seq<Seq<char>>) -> Seq<(Projection, Seq<char>)> {
    ts.map_values(|t: Seq<char>| (p, t))
}

/// The prefix terms contributed by each word of a name, word by word.
pub open spec fn word_prefixes_spec(ws: Seq<Seq<char>>) -> Seq<Seq<char>>
    decreases ws.len(),
{
    if ws.len() == 0 {
        Seq::empty()
    } else {
        prefixes_spec(ws[0]) + word_prefixes_spec(ws.drop_first())
    }
}

/// The phonetic term of a name: absent when the code is empty.
pub open spec fn phonetic_part_spec(name: Seq<char>) -> Seq<(Projection, Seq<char>)> {
    if metaphone_spec(name).len() > 0 {
        seq![(Projection::Phonetic, metaphone_spec(name))]
    } else {
        Seq::empty()
    }
}

/// Every index term a name contributes, in derivation order: the exact
/// lowercased name, its words, the prefixes of each word, the prefixes
/// of the whole name, its n-grams, and its phonetic code if any.
pub open spec fn term_list_spec(name: Seq<char>) -> Seq<(Projection, Seq<char>)> {
    let low = fold_of(name);
    let words = tokens_spec(low);
    seq![(Projection::Exact, low)] + tag_all(Projection::Word, words) + tag_all(
        Projection::Prefix,
        word_prefixes_spec(words),
    ) + tag_all(Projection::Prefix, prefixes_spec(low)) + tag_all(
        Projection::Ngram,
        ngrams_spec(low),
    ) + phonetic_part_spec(name)
}

/// Whether a name is posted under a term: membership in its term list.
pub open spec fn posted_spec(name: Seq<char>, p: Projection, t: Seq<char>) -> bool {
    term_list_spec(name).contains((p, t))
}

proof fn lemma_word_prefixes_append(a: Seq<Seq<char>>, b: Seq<Seq<char>>)
    ensures
        word_prefixes_spec(a + b) == word_prefixes_spec(a) + word_prefixes_spec(b),
    decreases a.len(),
{
    if a.len() == 0 {
        assert(a + b =~= b);
        assert(word_prefixes_spec(a) + word_prefixes_spec(b) =~= word_prefixes_spec(b));
    } else {
        assert((a + b)[0] == a[0]);
        assert((a + b).drop_first() =~= a.drop_first() + b);
        lemma_word_prefixes_append(a.drop_first(), b);
        assert(prefixes_spec(a[0]) + (word_prefixes_spec(a.drop_first()) + word_prefixes_spec(b))
            =~= (prefixes_spec(a[0]) + word_prefixes_spec(a.drop_first()))
            + word_prefixes_spec(b));
    }
}

/// Derives the full term list of a name.
pub fn derive_terms(name: &str) -> (r: Vec<Term>)
    ensures
        keys_of(r@) == term_list_spec(name@),
{
    let low = normalize(name);
    let words = tokenize(&low);
    let ghost lw = fold_of(name@);
    let ghost ws = tokens_spec(lw);
    let mut out: Vec<Term> = Vec::new();

    let exact = copy_chars(&low);
    out.push(Term { proj: Projection::Exact, text: exact });
    let ghost s0 = seq![(Projection::Exact, lw)];
    proof {
        assert(keys_of(out@) =~= s0);
    }

    let mut i: usize = 0;
    while i < words.len()
        invariant
            low@ == lw,
            words.deep_view() == ws,
            0 <= i <= ws.len(),
            keys_of(out@) == s0 + tag_all(Projection::Word, ws.take(i as int)),
        decreases ws.len() - i,
    {
        let w = copy_chars(&words[i]);
        let ghost prev = keys_of(out@);
        out.push(Term { proj: Projection::Word, text: w });
        proof {
            assert(words@[i as int]@ == ws[i as int]);
            assert(keys_of(out@) =~= prev.push((Projection::Word, ws[i as int])));
            assert(tag_all(Projection::Word, ws.take(i + 1)) =~= tag_all(
                Projection::Word,
                ws.take(i as int),
            ).push((Projection::Word, ws[i as int])));
            assert(s0 + tag_all(Projection::Word, ws.take(i as int)).push(
                (Projection::Word, ws[i as int]),
            ) =~= (s0 + tag_all(Projection::Word, ws.take(i as int))).push(
                (Projection::Word, ws[i as int]),
            ));
        }
        i = i + 1;
    }
    proof {
        assert(ws.take(ws.len() as int) =~= ws);
    }
    let ghost s1 = s0 + tag_all(Projection::Word, ws);

    let mut i: usize = 0;
    proof {
        assert(ws.take(0) =~= Seq::<Seq<char>>::empty());
        assert(word_prefixes_spec(ws.take(0)) =~= Seq::<Seq<char>>::empty());
        assert(tag_all(Projection::Prefix, word_prefixes_spec(ws.take(0)))
            =~= Seq::<(Projection, Seq<char>)>::empty());
        assert(s1 + tag_all(Projection::Prefix, word_prefixes_spec(ws.take(0))) =~= s1);
    }
    while i < words.len()
        invariant
            low@ == lw,
            words.deep_view() == ws,
            0 <= i <= ws.len(),
            keys_of(out@) == s1 + tag_all(
                Projection::Prefix,
                word_prefixes_spec(ws.take(i as int)),
            ),
        decreases ws.len() - i,
    {
        let prefs = prefixes(&words[i]);
        let ghost pw = prefixes_spec(ws[i as int]);
        proof {
            assert(words@[i as int]@ == ws[i as int]);
            assert(prefs.deep_view() == pw);
        }
        let ghost base = s1 + tag_all(Projection::Prefix, word_prefixes_spec(ws.take(i as int)));
        let mut k: usize = 0;
        proof {
            assert(base + tag_all(Projection::Prefix, pw.take(0)) =~= base);
        }
        while k < prefs.len()
            invariant
                prefs.deep_view() == pw,
                0 <= k <= pw.len(),
                keys_of(out@) == base + tag_all(Projection::Prefix, pw.take(k as int)),
            decreases pw.len() - k,
        {
            let p = copy_chars(&prefs[k]);
            let ghost prev = keys_of(out@);
            out.push(Term { proj: Projection::Prefix, text: p });
            proof {
                assert(prefs@[k as int]@ == pw[k as int]);
                assert(keys_of(out@) =~= prev.push((Projection::Prefix, pw[k as int])));
                assert(tag_all(Projection::Prefix, pw.take(k + 1)) =~= tag_all(
                    Projection::Prefix,
                    pw.take(k as int),
                ).push((Projection::Prefix, pw[k as int])));
                assert(base + tag_all(Projection::Prefix, pw.take(k as int)).push(
                    (Projection::Prefix, pw[k as int]),
                ) =~= (base + tag_all(Projection::Prefix, pw.take(k as int))).push(
                    (Projection::Prefix, pw[k as int]),
                ));
            }
            k = k + 1;
        }
        proof {
            assert(pw.take(pw.len() as int) =~= pw);
            assert(ws.take(i + 1) =~= ws.take(i as int) + seq![ws[i as int]]);
            lemma_word_prefixes_append(ws.take(i as int), seq![ws[i as int]]);
            assert(seq![ws[i as int]].drop_first() =~= Seq::<Seq<char>>::empty());
            assert(seq![ws[i as int]][0] == ws[i as int]);
            assert(word_prefixes_spec(seq![ws[i as int]].drop_first()) =~= Seq::<Seq<char>>::empty());
            assert(pw + word_prefixes_spec(seq![ws[i as int]].drop_first()) =~= pw);
            assert(word_prefixes_spec(seq![ws[i as int]]) =~= pw);
            assert(word_prefixes_spec(ws.take(i + 1)) =~= word_prefixes_spec(ws.take(i as int))
                + pw);
            assert(tag_all(Projection::Prefix, word_prefixes_spec(ws.take(i as int)) + pw)
                =~= tag_all(Projection::Prefix, word_prefixes_spec(ws.take(i as int))) + tag_all(
                Projection::Prefix,
                pw,
            ));
            assert(s1 + (tag_all(Projection::Prefix, word_prefixes_spec(ws.take(i as int)))
                + tag_all(Projection::Prefix, pw)) =~= (s1 + tag_all(
                Projection::Prefix,
                word_prefixes_spec(ws.take(i as int)),
            )) + tag_all(Projection::Prefix, pw));
        }
        i = i + 1;
    }
    proof {
        assert(ws.take(ws.len() as int) =~= ws);
    }
    let ghost s2 = s1 + tag_all(Projection::Prefix, word_prefixes_spec(ws));

    let prefs2 = prefixes(&low);
    let ghost pn = prefixes_spec(lw);
    let mut k: usize = 0;
    proof {
        assert(s2 + tag_all(Projection::Prefix, pn.take(0)) =~= s2);
    }
    while k < prefs2.len()
        invariant
            prefs2.deep_view() == pn,
            0 <= k <= pn.len(),
            keys_of(out@) == s2 + tag_all(Projection::Prefix, pn.take(k as int)),
        decreases pn.len() - k,
    {
        let p = copy_chars(&prefs2[k]);
        let ghost prev = keys_of(out@);
        out.push(Term { proj: Projection::Prefix, text: p });
        proof {
            assert(prefs2@[k as int]@ == pn[k as int]);
            assert(keys_of(out@) =~= prev.push((Projection::Prefix, pn[k as int])));
            assert(tag_all(Projection::Prefix, pn.take(k + 1)) =~= tag_all(
                Projection::Prefix,
                pn.take(k as int),
            ).push((Projection::Prefix, pn[k as int])));
            assert(s2 + tag_all(Projection::Prefix, pn.take(k as int)).push(
                (Projection::Prefix, pn[k as int]),
            ) =~= (s2 + tag_all(Projection::Prefix, pn.take(k as int))).push(
                (Projection::Prefix, pn[k as int]),
            ));
        }
        k = k + 1;
    }
    proof {
        assert(pn.take(pn.len() as int) =~= pn);
    }
    let ghost s3 = s2 + tag_all(Projection::Prefix, pn);

    let grams = ngrams(&low);
    let ghost ng = ngrams_spec(lw);
    let mut k: usize = 0;
    proof {
        assert(s3 + tag_all(Projection::Ngram, ng.take(0)) =~= s3);
    }
    while k < grams.len()
        invariant
            grams.deep_view() == ng,
            0 <= k <= ng.len(),
            keys_of(out@) == s3 + tag_all(Projection::Ngram, ng.take(k as int)),
        decreases ng.len() - k,
    {
        let g = copy_chars(&grams[k]);
        let ghost prev = keys_of(out@);
        out.push(Term { proj: Projection::Ngram, text: g });
        proof {
            assert(grams@[k as int]@ == ng[k as int]);
            assert(keys_of(out@) =~= prev.push((Projection::Ngram, ng[k as int])));
            assert(tag_all(Projection::Ngram, ng.take(k + 1)) =~= tag_all(
                Projection::Ngram,
                ng.take(k as int),
            ).push((Projection::Ngram, ng[k as int])));
            assert(s3 + tag_all(Projection::Ngram, ng.take(k as int)).push(
                (Projection::Ngram, ng[k as int]),
            ) =~= (s3 + tag_all(Projection::Ngram, ng.take(k as int))).push(
                (Projection::Ngram, ng[k as int]),
            ));
        }
        k = k + 1;
    }
    proof {
        assert(ng.take(ng.len() as int) =~= ng);
    }
    let ghost s4 = s3 + tag_all(Projection::Ngram, ng);

    let code = metaphone_folded(&low);
    proof {
        assert(code@ == metaphone_spec(name@));
    }
    if code.len() > 0 {
        let ghost prev = keys_of(out@);
        let ghost cv = code@;
        out.push(Term { proj: Projection::Phonetic, text: code });
        proof {
            assert(keys_of(out@) =~= prev.push((Projection::Phonetic, cv)));
            assert(s4 + phonetic_part_spec(name@) =~= s4.push(
                (Projection::Phonetic, metaphone_spec(name@)),
            ));
        }
    } else {
        proof {
            assert(s4 + phonetic_part_spec(name@) =~= s4);
        }
    }
    proof {
        assert(keys_of(out@) =~= term_list_spec(name@));
    }
    out
}

/// Adding an id twice adds it once.
pub proof fn lemma_add_id_idempotent(s: Seq<u64>, id: u64)
    ensures
        add_id_spec(add_id_spec(s, id), id) == add_id_spec(s, id),
{
    if !s.contains(id) {
        assert(s.push(id)[s.len() as int] == id);
        assert(s.push(id).contains(id));
    }
}

proof fn lemma_contains_push_other(
    s: Seq<(Projection, Seq<char>)>,
    x: (Projection, Seq<char>),
    y: (Projection, Seq<char>),
)
    requires
        x != y,
    ensures
        s.push(x).contains(y) == s.contains(y),
{
    if s.contains(y) {
        let m = choose|m: int| 0 <= m < s.len() && s[m] == y;
        assert(s.push(x)[m] == y);
    }
    if s.push(x).contains(y) {
        let m = choose|m: int| 0 <= m < s.push(x).len() && s.push(x)[m] == y;
        assert(m < s.len());
        assert(s[m] == y);
    }
}

/// Posts an id under every term of a list.  Each listed term's posting
/// list gains the id once (idempotently); every other term is untouched.
pub fn post_all(store: &mut Postings, id: u64, terms: &Vec<Term>)
    requires
        old(store).wf(),
    ensures
        final(store).wf(),
        forall|p: Projection, t: Seq<char>|
            keys_of(terms@).contains((p, t)) ==> #[trigger] final(store).ids_of(p, t)
                == add_id_spec(old(store).ids_of(p, t), id),
        forall|p: Projection, t: Seq<char>|
            !keys_of(terms@).contains((p, t)) ==> #[trigger] final(store).ids_of(p, t) == old(
                store,
            ).ids_of(p, t),
{
    let n = terms.len();
    let mut j: usize = 0;
    proof {
        assert(keys_of(terms@.take(0)) =~= Seq::<(Projection, Seq<char>)>::empty());
    }
    while j < n
        invariant
            store.wf(),
            n == terms@.len(),
            0 <= j <= n,
            forall|p: Projection, t: Seq<char>|
                keys_of(terms@.take(j as int)).contains((p, t)) ==> #[trigger] store.ids_of(p, t)
                    == add_id_spec(old(store).ids_of(p, t), id),
            forall|p: Projection, t: Seq<char>|
                !keys_of(terms@.take(j as int)).contains((p, t)) ==> #[trigger] store.ids_of(p, t)
                    == old(store).ids_of(p, t),
        decreases n - j,
    {
        let proj = terms[j].proj;
        let text = copy_chars(&terms[j].text);
        let ghost key = (terms@[j as int].proj, terms@[j as int].text@);
        let ghost before = *store;
        store.add(proj, text, id);
        proof {
            assert(keys_of(terms@.take(j + 1)) =~= keys_of(terms@.take(j as int)).push(key));
            if keys_of(terms@.take(j as int)).contains(key) {
                lemma_add_id_idempotent(old(store).ids_of(key.0, key.1), id);
            }
            assert forall|p: Projection, t: Seq<char>|
                keys_of(terms@.take(j + 1)).contains((p, t)) implies #[trigger] store.ids_of(p, t)
                == add_id_spec(old(store).ids_of(p, t), id) by {
                if (p, t) == key {
                } else {
                    lemma_contains_push_other(keys_of(terms@.take(j as int)), key, (p, t));
                }
            }
            assert forall|p: Projection, t: Seq<char>|
                !keys_of(terms@.take(j + 1)).contains((p, t)) implies #[trigger] store.ids_of(p, t)
                == old(store).ids_of(p, t) by {
                assert((p, t) != key) by {
                    assert(keys_of(terms@.take(j + 1))[j as int] == key);
                }
                lemma_contains_push_other(keys_of(terms@.take(j as int)), key, (p, t));
            }
        }
        j = j + 1;
    }
    proof {
        assert(terms@.take(n as int) =~= terms@);
    }
}

/// Indexes one entity: derives every term of its name and posts its id
/// under each.  Posting is idempotent per term; nothing else changes.
pub fn index_name(store: &mut Postings, id: u64, name: &str)
    requires
        old(store).wf(),
    ensures
        final(store).wf(),
        forall|p: Projection, t: Seq<char>|
            posted_spec(name@, p, t) ==> #[trigger] final(store).ids_of(p, t) == add_id_spec(
                old(store).ids_of(p, t),
                id,
            ),
        forall|p: Projection, t: Seq<char>|
            !posted_spec(name@, p, t) ==> #[trigger] final(store).ids_of(p, t) == old(
                store,
            ).ids_of(p, t),
{
    let terms = derive_terms(name);
    post_all(store, id, &terms);
}

/// One corpus entity: the id to post and the display name it is
/// indexed under.
pub struct Entity {
    pub id: u64,
    pub name: String,
}

pub open spec fn corpus_view(es: Seq<Entity>) -> Seq<(u64, Seq<char>)> {
    es.map_values(|e: Entity| (e.id, e.name@))
}

/// The posting list a full indexing pass leaves under a term: entities
/// are folded in corpus order, each posting its id under every term of
/// its name, idempotently.
pub open spec fn build_ids_spec(
    corpus: Seq<(u64, Seq<char>)>,
    p: Projection,
    t: Seq<char>,
) -> Seq<u64>
    decreases corpus.len(),
{
    if corpus.len() == 0 {
        Seq::empty()
    } else {
        let prev = build_ids_spec(corpus.drop_last(), p, t);
        if posted_spec(corpus.last().1, p, t) {
            add_id_spec(prev, corpus.last().0)
        } else {
            prev
        }
    }
}

/// A full indexing pass: clears the store, then indexes every entity in
/// corpus order.  The result is a function of the corpus alone; nothing
/// of the store's earlier contents survives.
pub fn build_postings(store: &mut Postings, corpus: &Vec<Entity>)
    ensures
        final(store).wf(),
        forall|p: Projection, t: Seq<char>|
            #[trigger] final(store).ids_of(p, t) == build_ids_spec(corpus_view(corpus@), p, t),
{
    store.clear();
    let ghost cv = corpus_view(corpus@);
    let mut i: usize = 0;
    proof {
        assert forall|p: Projection, t: Seq<char>| #[trigger] store.ids_of(p, t) == build_ids_spec(
            cv.take(0),
            p,
            t,
        ) by {
            assert(cv.take(0) =~= Seq::<(u64, Seq<char>)>::empty());
            assert(build_ids_spec(cv.take(0), p, t) == Seq::<u64>::empty());
        }
    }
    while i < corpus.len()
        invariant
            cv == corpus_view(corpus@),
            cv.len() == corpus@.len(),
            0 <= i <= cv.len(),
            store.wf(),
            forall|p: Projection, t: Seq<char>|
                #[trigger] store.ids_of(p, t) == build_ids_spec(cv.take(i as int), p, t),
        decreases cv.len() - i,
    {
        let id = corpus[i].id;
        let ghost pre = *store;
        index_name(store, id, corpus[i].name.as_str());
        proof {
            assert(cv[i as int] == (corpus@[i as int].id, corpus@[i as int].name@));
            assert(cv.take(i + 1).drop_last() =~= cv.take(i as int));
            assert(cv.take(i + 1).last() == cv[i as int]);
            assert forall|p: Projection, t: Seq<char>| #[trigger] store.ids_of(p, t)
                == build_ids_spec(cv.take(i + 1), p, t) by {
                assert(pre.ids_of(p, t) == build_ids_spec(cv.take(i as int), p, t));
            }
        }
        i = i + 1;
    }
    proof {
        assert(cv.take(cv.len() as int) =~= cv);
    }
}

/// Round-trip law: an indexing pass is a function of the corpus alone,
/// so indexing, clearing, and re-indexing an unchanged corpus yields
/// identical posting lists for every term.
pub proof fn lemma_reindex_round_trip(
    first: Postings,
    second: Postings,
    corpus: Seq<(u64, Seq<char>)>,
)
    requires
        forall|p: Projection, t: Seq<char>|
            #[trigger] first.ids_of(p, t) == build_ids_spec(corpus, p, t),
        forall|p: Projection, t: Seq<char>|
            #[trigger] second.ids_of(p, t) == build_ids_spec(corpus, p, t),
    ensures
        forall|p: Projection, t: Seq<char>|
            #[trigger] first.ids_of(p, t) == second.ids_of(p, t),
{
}

/// What folding one more chunk into an already-built partial index
/// leaves under a term.
pub open spec fn merge_ids_spec(
    base: Seq<u64>,
    chunk: Seq<(u64, Seq<char>)>,
    p: Projection,
    t: Seq<char>,
) -> Seq<u64>
    decreases chunk.len(),
{
    if chunk.len() == 0 {
        base
    } else {
        let prev = merge_ids_spec(base, chunk.drop_last(), p, t);
        if posted_spec(chunk.last().1, p, t) {
            add_id_spec(prev, chunk.last().0)
        } else {
            prev
        }
    }
}

/// Chunked indexing law: splitting the corpus into two chunks, building
/// the first, and folding the second on top in chunk order leaves
/// exactly the postings of one pass over the whole corpus.  Merging
/// worker partials in chunk-index order therefore reproduces the
/// serial pass.
pub proof fn lemma_build_chunked(
    c1: Seq<(u64, Seq<char>)>,
    c2: Seq<(u64, Seq<char>)>,
    p: Projection,
    t: Seq<char>,
)
    ensures
        build_ids_spec(c1 + c2, p, t) == merge_ids_spec(build_ids_spec(c1, p, t), c2, p, t),
    decreases c2.len(),
{
    if c2.len() == 0 {
        assert(c1 + c2 =~= c1);
    } else {
        assert((c1 + c2).drop_last() =~= c1 + c2.drop_last());
        assert((c1 + c2).last() == c2.last());
        lemma_build_chunked(c1, c2.drop_last(), p, t);
    }
}

/// One entity record of the merge phase, keyed by a stable identity:
/// scalar fields come from the first-seen occurrence; collection fields
/// are extended by every later occurrence.
pub struct CardEntry {
    pub oracle_id: String,
    pub name: String,
    pub layout: String,
    pub main_image: Option<String>,
    pub sets: Vec<String>,
    pub tcgplayer_ids: Vec<u64>,
    pub prices: Vec<crate::deck::PriceTiers>,
}

/// The names of a set-membership list.
pub open spec fn name_views(s: Seq<String>) -> Seq<Seq<char>> {
    s.map_values(|x: String| x@)
}

/// Appending the names of `b` to `a` in order, skipping names already
/// present: the order-keeping union of two membership lists.
pub open spec fn union_names_spec(a: Seq<Seq<char>>, b: Seq<Seq<char>>) -> Seq<Seq<char>>
    decreases b.len(),
{
    if b.len() == 0 {
        a
    } else if a.contains(b[0]) {
        union_names_spec(a, b.drop_first())
    } else {
        union_names_spec(a.push(b[0]), b.drop_first())
    }
}

fn contains_name(v: &Vec<String>, x: &String) -> (r: bool)
    ensures
        r == name_views(v@).contains(x@),
{
    let mut i: usize = 0;
    while i < v.len()
        invariant
            0 <= i <= v@.len(),
            forall|k: int| 0 <= k < i ==> (#[trigger] v@[k])@ != x@,
        decreases v@.len() - i,
    {
        if crate::pricing::str_eq(v[i].as_str(), x.as_str()) {
            proof {
                assert(name_views(v@)[i as int] == v@[i as int]@);
            }
            return true;
        }
        i = i + 1;
    }
    proof {
        if name_views(v@).contains(x@) {
            let k = choose|k: int| 0 <= k < name_views(v@).len() && name_views(v@)[k] == x@;
            assert(v@[k]@ == x@);
            assert(false);
        }
    }
    false
}

/// Folds a later occurrence of the same identity into the first-seen
/// record: the scalar fields of the first occurrence stand; the later
/// occurrence only extends the collection fields (new set memberships
/// and marketplace ids in their order, price entries appended).
pub fn merge_entry(first: &mut CardEntry, later: &CardEntry)
    ensures
        final(first).oracle_id == old(first).oracle_id,
        final(first).name == old(first).name,
        final(first).layout == old(first).layout,
        final(first).main_image == old(first).main_image,
        name_views(final(first).sets@) == union_names_spec(
            name_views(old(first).sets@),
            name_views(later.sets@),
        ),
        final(first).tcgplayer_ids@ == crate::postings::union_ord_spec(
            old(first).tcgplayer_ids@,
            later.tcgplayer_ids@,
        ),
        final(first).prices@ == old(first).prices@ + later.prices@,
{
    let ghost bsets = name_views(later.sets@);
    let mut i: usize = 0;
    proof {
        assert(bsets.skip(0) =~= bsets);
    }
    while i < later.sets.len()
        invariant
            bsets == name_views(later.sets@),
            0 <= i <= bsets.len(),
            first.oracle_id == old(first).oracle_id,
            first.name == old(first).name,
            first.layout == old(first).layout,
            first.main_image == old(first).main_image,
            first.tcgplayer_ids == old(first).tcgplayer_ids,
            first.prices == old(first).prices,
            union_names_spec(name_views(old(first).sets@), bsets) == union_names_spec(
                name_views(first.sets@),
                bsets.skip(i as int),
            ),
        decreases bsets.len() - i,
    {
        proof {
            assert(bsets.skip(i as int)[0] == bsets[i as int]);
            assert(bsets.skip(i as int).drop_first() =~= bsets.skip(i + 1));
            assert(bsets[i as int] == later.sets@[i as int]@);
        }
        let present = contains_name(&first.sets, &later.sets[i]);
        if !present {
            let ghost prev = name_views(first.sets@);
            let copy = String::from_str(later.sets[i].as_str());
            first.sets.push(copy);
            proof {
                assert(name_views(first.sets@) =~~= prev.push(bsets[i as int]));
            }
        }
        i = i + 1;
    }
    proof {
        assert(bsets.skip(bsets.len() as int) =~= Seq::<Seq<char>>::empty());
    }

    let ghost bids = later.tcgplayer_ids@;
    let mut i: usize = 0;
    proof {
        assert(bids.skip(0) =~= bids);
    }
    while i < later.tcgplayer_ids.len()
        invariant
            bids == later.tcgplayer_ids@,
            0 <= i <= bids.len(),
            first.oracle_id == old(first).oracle_id,
            first.name == old(first).name,
            first.layout == old(first).layout,
            first.main_image == old(first).main_image,
            name_views(first.sets@) == union_names_spec(
                name_views(old(first).sets@),
                name_views(later.sets@),
            ),
            first.prices == old(first).prices,
            crate::postings::union_ord_spec(old(first).tcgplayer_ids@, bids)
                == crate::postings::union_ord_spec(first.tcgplayer_ids@, bids.skip(i as int)),
        decreases bids.len() - i,
    {
        proof {
            assert(bids.skip(i as int)[0] == bids[i as int]);
            assert(bids.skip(i as int).drop_first() =~= bids.skip(i + 1));
        }
        let id = later.tcgplayer_ids[i];
        let present = crate::postings::contains_u64(&first.tcgplayer_ids, id);
        if !present {
            first.tcgplayer_ids.push(id);
        }
        i = i + 1;
    }
    proof {
        assert(bids.skip(bids.len() as int) =~= Seq::<u64>::empty());
    }

    let mut i: usize = 0;
    proof {
        assert(first.prices@ + later.prices@.take(0) =~= first.prices@);
    }
    let ghost base = first.prices@;
    while i < later.prices.len()
        invariant
            0 <= i <= later.prices@.len(),
            first.oracle_id == old(first).oracle_id,
            first.name == old(first).name,
            first.layout == old(first).layout,
            first.main_image == old(first).main_image,
            name_views(first.sets@) == union_names_spec(
                name_views(old(first).sets@),
                name_views(later.sets@),
            ),
            first.tcgplayer_ids@ == crate::postings::union_ord_spec(
                old(first).tcgplayer_ids@,
                later.tcgplayer_ids@,
            ),
            base == old(first).prices@,
            first.prices@ == base + later.prices@.take(i as int),
        decreases later.prices@.len() - i,
    {
        first.prices.push(later.prices[i]);
        proof {
            assert(later.prices@.take(i + 1) =~= later.prices@.take(i as int).push(
                later.prices@[i as int],
            ));
            assert(base + later.prices@.take(i as int).push(later.prices@[i as int]) =~= (base
                + later.prices@.take(i as int)).push(later.prices@[i as int]));
        }
        i = i + 1;
    }
    proof {
        assert(later.prices@.take(later.prices@.len() as int) =~= later.prices@);
    }
}

proof fn lemma_concat_contains(
    a: Seq<(Projection, Seq<char>)>,
    b: Seq<(Projection, Seq<char>)>,
    x: (Projection, Seq<char>),
)
    ensures
        (a + b).contains(x) <==> (a.contains(x) || b.contains(x)),
{
    if (a + b).contains(x) {
        let i = choose|i: int| 0 <= i < (a + b).len() && (a + b)[i] == x;
        if i < a.len() {
            assert(a[i] == x);
        } else {
            assert(b[i - a.len()] == x);
        }
    }
    if a.contains(x) {
        let i = choose|i: int| 0 <= i < a.len() && a[i] == x;
        assert((a + b)[i] == x);
    }
    if b.contains(x) {
        let i = choose|i: int| 0 <= i < b.len() && b[i] == x;
        assert((a + b)[a.len() + i] == x);
    }
}

proof fn lemma_tag_all_contains(tag: Projection, xs: Seq<Seq<char>>, p: Projection, t: Seq<char>)
    ensures
        tag_all(tag, xs).contains((p, t)) <==> (p == tag && xs.contains(t)),
{
    if tag_all(tag, xs).contains((p, t)) {
        let i = choose|i: int| 0 <= i < tag_all(tag, xs).len() && tag_all(tag, xs)[i] == (p, t);
        assert(xs[i] == t);
    }
    if p == tag && xs.contains(t) {
        let i = choose|i: int| 0 <= i < xs.len() && xs[i] == t;
        assert(tag_all(tag, xs)[i] == (p, t));
    }
}

/// What each projection posts, spelled out: the exact lowercased name;
/// the name's words; the prefixes of the whole name or of one of its
/// words; the name's n-grams; and the phonetic code, only when it is
/// non-empty.
pub proof fn lemma_posted_characterization(name: Seq<char>, t: Seq<char>)
    ensures
        posted_spec(name, Projection::Exact, t) <==> t == fold_of(name),
        posted_spec(name, Projection::Word, t) <==> tokens_spec(fold_of(name)).contains(t),
        posted_spec(name, Projection::Prefix, t) <==> (prefixes_spec(fold_of(name)).contains(t)
            || word_prefixes_spec(tokens_spec(fold_of(name))).contains(t)),
        posted_spec(name, Projection::Ngram, t) <==> ngrams_spec(fold_of(name)).contains(t),
        posted_spec(name, Projection::Phonetic, t) <==> (metaphone_spec(name).len() > 0 && t
            == metaphone_spec(name)),
{
    let low = fold_of(name);
    let words = tokens_spec(low);
    let s1 = seq![(Projection::Exact, low)];
    let s2 = tag_all(Projection::Word, words);
    let s3 = tag_all(Projection::Prefix, word_prefixes_spec(words));
    let s4 = tag_all(Projection::Prefix, prefixes_spec(low));
    let s5 = tag_all(Projection::Ngram, ngrams_spec(low));
    let s6 = phonetic_part_spec(name);
    assert forall|p: Projection, tt: Seq<char>| #[trigger] posted_spec(name, p, tt) <==> (
    s1.contains((p, tt)) || s2.contains((p, tt)) || s3.contains((p, tt)) || s4.contains((p, tt))
        || s5.contains((p, tt)) || s6.contains((p, tt))) by {
        lemma_concat_contains(s1, s2, (p, tt));
        lemma_concat_contains(s1 + s2, s3, (p, tt));
        lemma_concat_contains(s1 + s2 + s3, s4, (p, tt));
        lemma_concat_contains(s1 + s2 + s3 + s4, s5, (p, tt));
        lemma_concat_contains(s1 + s2 + s3 + s4 + s5, s6, (p, tt));
    }
    assert forall|p: Projection, tt: Seq<char>| #[trigger] s1.contains((p, tt)) <==> (p
        == Projection::Exact && tt == low) by {
        if s1.contains((p, tt)) {
            let i = choose|i: int| 0 <= i < s1.len() && s1[i] == (p, tt);
            assert(i == 0);
        }
        if p == Projection::Exact && tt == low {
            assert(s1[0] == (p, tt));
        }
    }
    lemma_tag_all_contains(Projection::Word, words, Projection::Word, t);
    lemma_tag_all_contains(Projection::Prefix, word_prefixes_spec(words), Projection::Prefix, t);
    lemma_tag_all_contains(Projection::Prefix, prefixes_spec(low), Projection::Prefix, t);
    lemma_tag_all_contains(Projection::Ngram, ngrams_spec(low), Projection::Ngram, t);
    lemma_tag_all_contains(Projection::Word, words, Projection::Exact, t);
    lemma_tag_all_contains(Projection::Prefix, word_prefixes_spec(words), Projection::Exact, t);
    lemma_tag_all_contains(Projection::Prefix, prefixes_spec(low), Projection::Exact, t);
    lemma_tag_all_contains(Projection::Ngram, ngrams_spec(low), Projection::Exact, t);
    lemma_tag_all_contains(Projection::Word, words, Projection::Prefix, t);
    lemma_tag_all_contains(Projection::Ngram, ngrams_spec(low), Projection::Prefix, t);
    lemma_tag_all_contains(Projection::Word, words, Projection::Ngram, t);
    lemma_tag_all_contains(Projection::Prefix, word_prefixes_spec(words), Projection::Ngram, t);
    lemma_tag_all_contains(Projection::Prefix, prefixes_spec(low), Projection::Ngram, t);
    lemma_tag_all_contains(Projection::Word, words, Projection::Phonetic, t);
    lemma_tag_all_contains(
        Projection::Prefix,
        word_prefixes_spec(words),
        Projection::Phonetic,
        t,
    );
    lemma_tag_all_contains(Projection::Prefix, prefixes_spec(low), Projection::Phonetic, t);
    lemma_tag_all_contains(Projection::Ngram, ngrams_spec(low), Projection::Phonetic, t);
    if metaphone_spec(name).len() > 0 {
        assert forall|p: Projection, tt: Seq<char>| #[trigger] s6.contains((p, tt)) <==> (p
            == Projection::Phonetic && tt == metaphone_spec(name)) by {
            if s6.contains((p, tt)) {
                let i = choose|i: int| 0 <= i < s6.len() && s6[i] == (p, tt);
                assert(i == 0);
            }
            if p == Projection::Phonetic && tt == metaphone_spec(name) {
                assert(s6[0] == (p, tt));
            }
        }
    } else {
        assert(s6.len() == 0);
        assert(forall|p: Projection, tt: Seq<char>| !(#[trigger] s6.contains((p, tt))));
    }
}

} // verus!

//! The inverted index: term postings, document names, document sizes.
//!
//! Document ids are dense: the document with id `d` is described by
//! `doc_names[d]` and `doc_sizes[d]`, so the name map is a distinct-name
//! array and both directions of the bijection are lookups into it.

use vstd::prelude::*;
use crate::errors::IndexError;
use crate::records::{
    Record,
    record_comps,
    count_occ,
    rec_terms,
    spec_tf,
    lemma_count_occ_le_len,
    lemma_count_occ_add,
    lemma_count_occ_push,
    lemma_record_comps_take_step,
};
use crate::strings::{split_slash, split_comps};

verus! {

/// One document's entry in a posting: the document and how many of its
/// path components equal the posting's term.
#[derive(Clone, Copy, Debug)]
pub struct DocEntry {
    pub doc: u64,
    pub count: u64,
}

/// The posting of one term: the documents it occurs in, with counts.
#[derive(Debug)]
pub struct Posting {
    pub term: String,
    pub docs: Vec<DocEntry>,
}

/// The inverted index over a corpus of records.
#[derive(Debug)]
pub struct Index {
    pub postings: Vec<Posting>,
    pub doc_names: Vec<String>,
    pub doc_sizes: Vec<u64>,
}

/// Does some posting carry this term?
pub open spec fn has_term(ps: Seq<Posting>, t: Seq<char>) -> bool {
    exists|i: int| 0 <= i < ps.len() && ps[i].term@ == t
}

/// The posting entries of a term; empty if the term is unknown.
pub open spec fn term_docs(ps: Seq<Posting>, t: Seq<char>) -> Seq<DocEntry> {
    if has_term(ps, t) {
        ps[choose|i: int| 0 <= i < ps.len() && ps[i].term@ == t].docs@
    } else {
        Seq::empty()
    }
}

/// Is document `d` among these entries?
pub open spec fn has_doc(docs: Seq<DocEntry>, d: u64) -> bool {
    exists|i: int| 0 <= i < docs.len() && docs[i].doc == d
}

/// The count recorded for document `d`, or 0 if absent.
pub open spec fn doc_count_in(docs: Seq<DocEntry>, d: u64) -> u64 {
    if has_doc(docs, d) {
        docs[choose|i: int| 0 <= i < docs.len() && docs[i].doc == d].count
    } else {
        0
    }
}

/// Term frequency: occurrences of term `t` in document `d`.
pub open spec fn tf_of(ps: Seq<Posting>, t: Seq<char>, d: u64) -> u64 {
    doc_count_in(term_docs(ps, t), d)
}

/// Document frequency: the number of documents a term occurs in.
pub open spec fn df_of(ps: Seq<Posting>, t: Seq<char>) -> nat {
    term_docs(ps, t).len()
}

pub open spec fn terms_distinct(ps: Seq<Posting>) -> bool {
    forall|i: int, j: int| 0 <= i < j < ps.len() ==> ps[i].term@ != ps[j].term@
}

pub open spec fn docs_distinct(docs: Seq<DocEntry>) -> bool {
    forall|i: int, j: int| 0 <= i < j < docs.len() ==> docs[i].doc != docs[j].doc
}

/// A posting is well formed for a corpus of `n` documents.
pub open spec fn posting_wf(p: Posting, n: nat) -> bool {
    &&& docs_distinct(p.docs@)
    &&& p.docs@.len() >= 1
    &&& forall|i: int|
        0 <= i < p.docs@.len() ==> (#[trigger] p.docs@[i]).doc < n && p.docs@[i].count >= 1
}

/// All postings are well formed and carry distinct terms.
pub open spec fn postings_wf(ps: Seq<Posting>, n: nat) -> bool {
    &&& terms_distinct(ps)
    &&& forall|i: int| 0 <= i < ps.len() ==> posting_wf(#[trigger] ps[i], n)
}

/// The number of postings whose entries include document `d`: the
/// number of distinct terms occurring in `d`, once terms are distinct.
pub open spec fn num_terms_containing(ps: Seq<Posting>, d: u64) -> nat
    decreases ps.len(),
{
    if ps.len() == 0 {
        0
    } else {
        num_terms_containing(ps.drop_last(), d) + (if has_doc(ps.last().docs@, d) {
            1nat
        } else {
            0
        })
    }
}

impl Index {
    /// Number of documents in the corpus.
    pub open spec fn n(self) -> nat {
        self.doc_names@.len()
    }

    /// Structural well-formedness: names and sizes aligned, names
    /// distinct (the name map is a bijection), postings well formed.
    pub open spec fn wf(self) -> bool {
        &&& self.doc_sizes@.len() == self.doc_names@.len()
        &&& forall|i: int, j: int|
            0 <= i < j < self.doc_names@.len() ==> self.doc_names@[i]@ != self.doc_names@[j]@
        &&& postings_wf(self.postings@, self.n())
    }

    /// Every document's recorded size is the number of distinct terms
    /// occurring in it.
    pub open spec fn sizes_consistent(self) -> bool {
        forall|d: int|
            0 <= d < self.doc_sizes@.len() ==> self.doc_sizes@[d] == num_terms_containing(
                self.postings@,
                d as u64,
            )
    }

    /// The empty index: the state installed at service start.
    pub fn empty() -> (r: Index)
        ensures
            r.wf(),
            r.sizes_consistent(),
            r.n() == 0,
            r.postings@.len() == 0,
    {
        Index { postings: Vec::new(), doc_names: Vec::new(), doc_sizes: Vec::new() }
    }

    pub fn doc_count(&self) -> (r: usize)
        ensures
            r == self.n(),
    {
        self.doc_names.len()
    }

    pub fn doc_size(&self, d: usize) -> (r: u64)
        requires
            self.wf(),
            d < self.n(),
        ensures
            r == self.doc_sizes@[d as int],
    {
        self.doc_sizes[d]
    }

    pub fn doc_name(&self, d: usize) -> (r: &String)
        requires
            d < self.n(),
        ensures
            r@ == self.doc_names@[d as int]@,
    {
        &self.doc_names[d]
    }

    /// The reverse direction of the name bijection.
    pub fn doc_id(&self, name: &String) -> (r: Option<usize>)
        ensures
            match r {
                Some(d) => d < self.n() && self.doc_names@[d as int]@ == name@,
                None => forall|i: int|
                    0 <= i < self.doc_names@.len() ==> self.doc_names@[i]@ != name@,
            },
    {
        let mut i: usize = 0;
        while i < self.doc_names.len()
            invariant
                i <= self.doc_names@.len(),
                forall|j: int| 0 <= j < i ==> self.doc_names@[j]@ != name@,
            decreases self.doc_names@.len() - i,
        {
            if self.doc_names[i].eq(name) {
                return Some(i);
            }
            i = i + 1;
        }
        None
    }

    /// The `tf` and `df` of each query term for one document, in query
    /// order: all the per-document corpus statistics a scorer needs.
    pub fn term_stats(&self, terms: &Vec<String>, d: u64) -> (r: Vec<TermStat>)
        requires
            self.wf(),
            d < self.n(),
        ensures
            r@.len() == terms@.len(),
            forall|i: int|
                0 <= i < terms@.len() ==> (#[trigger] r@[i]).tf == tf_of(
                    self.postings@,
                    terms@[i]@,
                    d,
                ) && r@[i].df == df_of(self.postings@, terms@[i]@),
    {
        let mut r: Vec<TermStat> = Vec::new();
        let mut i: usize = 0;
        while i < terms.len()
            invariant
                self.wf(),
                d < self.n(),
                i <= terms@.len(),
                r@.len() == i,
                forall|q: int|
                    0 <= q < i ==> (#[trigger] r@[q]).tf == tf_of(self.postings@, terms@[q]@, d)
                        && r@[q].df == df_of(self.postings@, terms@[q]@),
            decreases terms@.len() - i,
        {
            let t = &terms[i];
            let st = match find_term(&self.postings, t) {
                None => {
                    proof {
                        assert(!has_term(self.postings@, t@));
                        assert(term_docs(self.postings@, t@) == Seq::<DocEntry>::empty());
                        assert(!has_doc(Seq::<DocEntry>::empty(), d));
                    }
                    TermStat { tf: 0, df: 0 }
                },
                Some(pi) => {
                    proof {
                        lemma_term_docs_at(self.postings@, pi as int);
                    }
                    let df = self.postings[pi].docs.len() as u64;
                    let tf = match find_doc(&self.postings[pi].docs, d) {
                        None => {
                            proof {
                                assert(!has_doc(self.postings@[pi as int].docs@, d));
                            }
                            0
                        },
                        Some(ei) => {
                            proof {
                                lemma_doc_count_at(self.postings@[pi as int].docs@, ei as int);
                            }
                            self.postings[pi].docs[ei].count
                        },
                    };
                    TermStat { tf, df }
                },
            };
            r.push(st);
            i = i + 1;
        }
        r
    }
}

/// Statistics of one query term: its occurrence count in the queried
/// document and its document frequency (both 0 when the term is
/// unknown to the corpus).
#[derive(Clone, Copy, Debug)]
pub struct TermStat {
    pub tf: u64,
    pub df: u64,
}

/// If the term of posting `i` is looked up, it is that posting that
/// answers: terms are distinct, so the witness is unique.
pub proof fn lemma_term_docs_at(ps: Seq<Posting>, i: int)
    requires
        terms_distinct(ps),
        0 <= i < ps.len(),
    ensures
        has_term(ps, ps[i].term@),
        term_docs(ps, ps[i].term@) == ps[i].docs@,
{
    assert(has_term(ps, ps[i].term@));
    let j = choose|j: int| 0 <= j < ps.len() && ps[j].term@ == ps[i].term@;
    assert(j == i);
}

pub proof fn lemma_doc_count_at(docs: Seq<DocEntry>, i: int)
    requires
        docs_distinct(docs),
        0 <= i < docs.len(),
    ensures
        has_doc(docs, docs[i].doc),
        doc_count_in(docs, docs[i].doc) == docs[i].count,
{
    assert(has_doc(docs, docs[i].doc));
    let j = choose|j: int| 0 <= j < docs.len() && docs[j].doc == docs[i].doc;
    assert(j == i);
}

/// A term's document frequency is exactly the number of documents it
/// occurs in: the IDF of the ranking formula is computed from this
/// count and the corpus size alone.
pub proof fn lemma_df_counts_documents(ps: Seq<Posting>, n: nat, t: Seq<char>)
    requires
        postings_wf(ps, n),
    ensures
        df_of(ps, t) == Set::new(|d: u64| d < n && tf_of(ps, t, d) > 0).len(),
{
    broadcast use vstd::seq_lib::group_seq_properties;

    let s = Set::new(|d: u64| d < n && tf_of(ps, t, d) > 0);
    if !has_term(ps, t) {
        assert(term_docs(ps, t) == Seq::<DocEntry>::empty());
        assert forall|d: u64| !s.contains(d) by {
            assert(!has_doc(Seq::<DocEntry>::empty(), d));
        }
        assert(s =~= Set::<u64>::empty());
    } else {
        let i = choose|i: int| 0 <= i < ps.len() && ps[i].term@ == t;
        lemma_term_docs_at(ps, i);
        let docs = ps[i].docs@;
        assert(posting_wf(ps[i], n));
        let ds = docs.map_values(|e: DocEntry| e.doc);
        assert(ds.no_duplicates()) by {
            assert(forall|a: int| 0 <= a < docs.len() ==> ds[a] == (#[trigger] docs[a]).doc);
        }
        ds.unique_seq_to_set();
        assert(s =~= ds.to_set()) by {
            assert forall|d: u64| s.contains(d) implies ds.to_set().contains(d) by {
                assert(has_doc(docs, d));
                let k = choose|k: int| 0 <= k < docs.len() && docs[k].doc == d;
                assert(ds[k] == d);
                assert(ds.contains(d));
            }
            assert forall|d: u64| ds.to_set().contains(d) implies s.contains(d) by {
                assert(ds.contains(d));
                let k = choose|k: int| 0 <= k < ds.len() && ds[k] == d;
                assert(docs[k].doc == d);
                lemma_doc_count_at(docs, k);
                assert(tf_of(ps, t, d) == docs[k].count);
            }
        }
        assert(ds.len() == docs.len());
    }
}

/// What the recorded document sizes count, in set form: the number of
/// postings containing a document is the cardinality of the set of
/// terms occurring in it.
pub proof fn lemma_ntc_is_term_set_card(ps: Seq<Posting>, d: u64)
    requires
        terms_distinct(ps),
    ensures
        Set::new(|t: Seq<char>| has_term(ps, t) && has_doc(term_docs(ps, t), d)).finite(),
        num_terms_containing(ps, d) == Set::new(
            |t: Seq<char>| has_term(ps, t) && has_doc(term_docs(ps, t), d),
        ).len(),
    decreases ps.len(),
{
    let s = Set::new(|t: Seq<char>| has_term(ps, t) && has_doc(term_docs(ps, t), d));
    if ps.len() == 0 {
        assert forall|t: Seq<char>| !s.contains(t) by {
            assert(!has_term(ps, t));
        }
        assert(s =~= Set::<Seq<char>>::empty());
    } else {
        let dl = ps.drop_last();
        let p = ps.last();
        assert(terms_distinct(dl)) by {
            assert(forall|i: int| 0 <= i < dl.len() ==> dl[i] == ps[i]);
        }
        lemma_ntc_is_term_set_card(dl, d);
        let s0 = Set::new(|t: Seq<char>| has_term(dl, t) && has_doc(term_docs(dl, t), d));
        assert(!has_term(dl, p.term@)) by {
            if has_term(dl, p.term@) {
                let j = choose|j: int| 0 <= j < dl.len() && dl[j].term@ == p.term@;
                assert(ps[j].term@ == ps[ps.len() - 1].term@);
            }
        }
        lemma_term_docs_at(ps, ps.len() - 1);
        assert(term_docs(ps, p.term@) == p.docs@);
        // other terms are answered the same way with or without the
        // last posting
        assert forall|t: Seq<char>| t != p.term@ implies (s.contains(t) <==> s0.contains(
            t,
        )) by {
            if has_term(ps, t) {
                let j = choose|j: int| 0 <= j < ps.len() && ps[j].term@ == t;
                assert(j < ps.len() - 1);
                assert(dl[j].term@ == t);
                lemma_term_docs_at(ps, j);
                lemma_term_docs_at(dl, j);
                assert(term_docs(ps, t) == term_docs(dl, t));
            } else {
                if has_term(dl, t) {
                    let j = choose|j: int| 0 <= j < dl.len() && dl[j].term@ == t;
                    assert(ps[j].term@ == t);
                }
            }
        }
        if has_doc(p.docs@, d) {
            assert(s.contains(p.term@));
            assert(!s0.contains(p.term@));
            assert(s =~= s0.insert(p.term@));
            assert(s.len() == s0.len() + 1);
        } else {
            assert(!s.contains(p.term@));
            assert(!s0.contains(p.term@));
            assert(s =~= s0);
        }
    }
}

/// In a corpus of `n` documents nothing is recorded for documents
/// beyond `n`.
pub proof fn lemma_tf_beyond_corpus(ps: Seq<Posting>, n: nat, t: Seq<char>, d: u64)
    requires
        postings_wf(ps, n),
        d >= n,
    ensures
        tf_of(ps, t, d) == 0,
{
    if has_term(ps, t) {
        let i = choose|i: int| 0 <= i < ps.len() && ps[i].term@ == t;
        assert(posting_wf(ps[i], n));
        assert(!has_doc(ps[i].docs@, d));
    }
}

pub proof fn lemma_ntc_beyond_corpus(ps: Seq<Posting>, n: nat, d: u64)
    requires
        postings_wf(ps, n),
        d >= n,
    ensures
        num_terms_containing(ps, d) == 0,
    decreases ps.len(),
{
    if ps.len() > 0 {
        assert(posting_wf(ps.last(), n));
        assert(!has_doc(ps.last().docs@, d));
        assert(postings_wf(ps.drop_last(), n)) by {
            assert(forall|i: int|
                0 <= i < ps.drop_last().len() ==> ps.drop_last()[i] == ps[i]);
        }
        lemma_ntc_beyond_corpus(ps.drop_last(), n, d);
    }
}

pub proof fn lemma_ntc_le_len(ps: Seq<Posting>, d: u64)
    ensures
        num_terms_containing(ps, d) <= ps.len(),
    decreases ps.len(),
{
    if ps.len() > 0 {
        lemma_ntc_le_len(ps.drop_last(), d);
    }
}

pub proof fn lemma_ntc_push(ps: Seq<Posting>, p: Posting, d: u64)
    ensures
        num_terms_containing(ps.push(p), d) == num_terms_containing(ps, d) + (if has_doc(
            p.docs@,
            d,
        ) {
            1nat
        } else {
            0
        }),
{
    assert(ps.push(p).drop_last() =~= ps);
    assert(ps.push(p).last() == p);
}

/// Replacing a posting without changing whether it contains `d` keeps
/// the count of postings containing `d`.
pub proof fn lemma_ntc_update_same(ps: Seq<Posting>, i: int, p: Posting, d: u64)
    requires
        0 <= i < ps.len(),
        has_doc(ps[i].docs@, d) == has_doc(p.docs@, d),
    ensures
        num_terms_containing(ps.update(i, p), d) == num_terms_containing(ps, d),
    decreases ps.len(),
{
    let ps2 = ps.update(i, p);
    if i == ps.len() - 1 {
        assert(ps2.drop_last() =~= ps.drop_last());
        assert(ps2.last() == p);
    } else {
        assert(ps2.drop_last() =~= ps.drop_last().update(i, p));
        assert(ps2.last() == ps.last());
        lemma_ntc_update_same(ps.drop_last(), i, p, d);
    }
}

/// Replacing a posting that did not contain `d` with one that does
/// raises the count of postings containing `d` by one.
pub proof fn lemma_ntc_update_add(ps: Seq<Posting>, i: int, p: Posting, d: u64)
    requires
        0 <= i < ps.len(),
        !has_doc(ps[i].docs@, d),
        has_doc(p.docs@, d),
    ensures
        num_terms_containing(ps.update(i, p), d) == num_terms_containing(ps, d) + 1,
    decreases ps.len(),
{
    let ps2 = ps.update(i, p);
    if i == ps.len() - 1 {
        assert(ps2.drop_last() =~= ps.drop_last());
        assert(ps2.last() == p);
    } else {
        assert(ps2.drop_last() =~= ps.drop_last().update(i, p));
        assert(ps2.last() == ps.last());
        lemma_ntc_update_add(ps.drop_last(), i, p, d);
    }
}

/// Linear scan for a name; the name map is small and dense.
pub fn contains_name(names: &Vec<String>, n: &String) -> (r: bool)
    ensures
        r == exists|i: int| 0 <= i < names@.len() && names@[i]@ == n@,
{
    let mut i: usize = 0;
    while i < names.len()
        invariant
            i <= names@.len(),
            forall|j: int| 0 <= j < i ==> names@[j]@ != n@,
        decreases names@.len() - i,
    {
        if names[i].eq(n) {
            return true;
        }
        i = i + 1;
    }
    false
}

fn find_term(postings: &Vec<Posting>, t: &String) -> (r: Option<usize>)
    ensures
        match r {
            Some(i) => i < postings@.len() && postings@[i as int].term@ == t@,
            None => forall|i: int| 0 <= i < postings@.len() ==> postings@[i].term@ != t@,
        },
{
    let mut i: usize = 0;
    while i < postings.len()
        invariant
            i <= postings@.len(),
            forall|j: int| 0 <= j < i ==> postings@[j].term@ != t@,
        decreases postings@.len() - i,
    {
        if postings[i].term.eq(t) {
            return Some(i);
        }
        i = i + 1;
    }
    None
}

fn find_doc(docs: &Vec<DocEntry>, d: u64) -> (r: Option<usize>)
    ensures
        match r {
            Some(i) => i < docs@.len() && docs@[i as int].doc == d,
            None => forall|i: int| 0 <= i < docs@.len() ==> docs@[i].doc != d,
        },
{
    let mut i: usize = 0;
    while i < docs.len()
        invariant
            i <= docs@.len(),
            forall|j: int| 0 <= j < i ==> docs@[j].doc != d,
        decreases docs@.len() - i,
    {
        if docs[i].doc == d {
            return Some(i);
        }
        i = i + 1;
    }
    None
}

/// Records one occurrence of component `t` in document `d`: the single
/// update step of the build loop. Returns whether this is the first
/// occurrence of `t` in `d`, i.e. whether `d`'s distinct-term count grew.
fn add_occurrence(postings: &mut Vec<Posting>, t: &String, d: u64, n: Ghost<nat>) -> (added: bool)
    requires
        postings_wf(old(postings)@, n@),
        d < n@,
        tf_of(old(postings)@, t@, d) < u64::MAX,
    ensures
        postings_wf(final(postings)@, n@),
        added == !has_doc(term_docs(old(postings)@, t@), d),
        tf_of(final(postings)@, t@, d) == tf_of(old(postings)@, t@, d) + 1,
        forall|t2: Seq<char>, d2: u64|
            !(t2 == t@ && d2 == d) ==> tf_of(final(postings)@, t2, d2) == tf_of(
                old(postings)@,
                t2,
                d2,
            ),
        forall|t2: Seq<char>|
            has_term(final(postings)@, t2) <==> (has_term(old(postings)@, t2) || t2 == t@),
        forall|d2: u64|
            num_terms_containing(final(postings)@, d2) == num_terms_containing(old(postings)@, d2)
                + (if d2 == d && added {
                1nat
            } else {
                0nat
            }),
{
    let ghost ps1 = postings@;
    match find_term(postings, t) {
        None => {
            let mut docs: Vec<DocEntry> = Vec::new();
            docs.push(DocEntry { doc: d, count: 1 });
            let newp = Posting { term: t.clone(), docs };
            postings.push(newp);
            proof {
                let ps2 = postings@;
                let e = DocEntry { doc: d, count: 1u64 };
                assert(newp.docs@ =~= seq![e]);
                assert(forall|i: int| 0 <= i < ps1.len() ==> ps2[i] == ps1[i]);
                assert(ps2[ps1.len() as int].term@ == t@);
                // the new term set
                assert forall|t2: Seq<char>|
                    has_term(ps2, t2) <==> (has_term(ps1, t2) || t2 == t@) by {
                    if has_term(ps1, t2) {
                        let j = choose|j: int| 0 <= j < ps1.len() && ps1[j].term@ == t2;
                        assert(ps2[j].term@ == t2);
                    }
                    if has_term(ps2, t2) && t2 != t@ {
                        let j = choose|j: int| 0 <= j < ps2.len() && ps2[j].term@ == t2;
                        assert(j < ps1.len());
                        assert(ps1[j].term@ == t2);
                    }
                }
                assert(terms_distinct(ps2)) by {
                    assert(forall|i: int| 0 <= i < ps1.len() ==> ps1[i].term@ != t@);
                }
                // entries of the new term
                assert(!has_term(ps1, t@));
                assert(tf_of(ps1, t@, d) == 0);
                assert(term_docs(ps2, t@) == seq![e]) by {
                    let j = choose|j: int| 0 <= j < ps2.len() && ps2[j].term@ == t@;
                    assert(j == ps1.len());
                }
                assert(seq![e][0].doc == d);
                assert(has_doc(seq![e], d));
                assert(doc_count_in(seq![e], d) == 1) by {
                    let k = choose|k: int| 0 <= k < seq![e].len() && seq![e][k].doc == d;
                    assert(k == 0);
                }
                assert(tf_of(ps2, t@, d) == 1);
                // frame: other terms and documents
                assert forall|t2: Seq<char>, d2: u64| !(t2 == t@ && d2 == d) implies tf_of(
                    ps2,
                    t2,
                    d2,
                ) == tf_of(ps1, t2, d2) by {
                    if t2 == t@ {
                        assert(!has_doc(seq![e], d2));
                        assert(doc_count_in(seq![e], d2) == 0);
                    } else {
                        if has_term(ps2, t2) {
                            let j = choose|j: int| 0 <= j < ps2.len() && ps2[j].term@ == t2;
                            assert(j < ps1.len());
                            lemma_term_docs_at(ps1, j);
                            assert(term_docs(ps2, t2) == ps1[j].docs@);
                        }
                    }
                }
                // well-formedness of the new posting
                assert(postings_wf(ps2, n@)) by {
                    assert(forall|i: int| 0 <= i < ps1.len() ==> posting_wf(#[trigger] ps2[i], n@));
                    assert(posting_wf(ps2[ps1.len() as int], n@));
                }
                // distinct-term counts
                assert forall|d2: u64|
                    num_terms_containing(ps2, d2) == num_terms_containing(ps1, d2) + (if d2 == d {
                        1nat
                    } else {
                        0nat
                    }) by {
                    lemma_ntc_push(ps1, ps2[ps1.len() as int], d2);
                    if d2 != d {
                        assert(!has_doc(seq![e], d2));
                    }
                }
            }
            true
        },
        Some(pi) => {
            let ghost told = postings@[pi as int].term@;
            proof {
                lemma_term_docs_at(ps1, pi as int);
            }
            let mut p = postings.remove(pi);
            let r = match find_doc(&p.docs, d) {
                None => {
                    p.docs.push(DocEntry { doc: d, count: 1 });
                    true
                },
                Some(ei) => {
                    let c = p.docs[ei].count;
                    proof {
                        lemma_doc_count_at(ps1[pi as int].docs@, ei as int);
                        assert(c == tf_of(ps1, t@, d));
                    }
                    let _ = p.docs.remove(ei);
                    p.docs.insert(ei, DocEntry { doc: d, count: c + 1 });
                    proof {
                        assert(p.docs@ =~= ps1[pi as int].docs@.update(
                            ei as int,
                            DocEntry { doc: d, count: (c + 1) as u64 },
                        ));
                    }
                    false
                },
            };
            postings.insert(pi, p);
            proof {
                let ps2 = postings@;
                let docs1 = ps1[pi as int].docs@;
                let docs2 = p.docs@;
                assert(ps2 =~= ps1.update(pi as int, p));
                assert(p.term@ == t@);
                assert(forall|i: int|
                    0 <= i < ps1.len() ==> (#[trigger] ps2[i]).term@ == ps1[i].term@);
                assert(terms_distinct(ps2));
                // the term set is unchanged
                assert forall|t2: Seq<char>|
                    has_term(ps2, t2) <==> (has_term(ps1, t2) || t2 == t@) by {
                    if has_term(ps1, t2) {
                        let j = choose|j: int| 0 <= j < ps1.len() && ps1[j].term@ == t2;
                        assert(ps2[j].term@ == t2);
                    }
                    if has_term(ps2, t2) {
                        let j = choose|j: int| 0 <= j < ps2.len() && ps2[j].term@ == t2;
                        assert(ps1[j].term@ == t2);
                    }
                    assert(has_term(ps1, t@));
                }
                lemma_term_docs_at(ps2, pi as int);
                assert(term_docs(ps2, t@) == docs2);
                // how the touched entry list changed
                assert(docs_distinct(docs1));
                if r {
                    assert(!has_doc(docs1, d));
                    assert(docs2 =~= docs1.push(DocEntry { doc: d, count: 1u64 }));
                    assert(docs_distinct(docs2));
                    assert(tf_of(ps1, t@, d) == 0);
                    assert(docs2[docs1.len() as int].doc == d);
                    assert(has_doc(docs2, d));
                    assert(doc_count_in(docs2, d) == 1) by {
                        let k = choose|k: int| 0 <= k < docs2.len() && docs2[k].doc == d;
                        assert(k == docs1.len());
                    }
                } else {
                    assert(docs_distinct(docs2)) by {
                        assert(forall|i: int|
                            0 <= i < docs1.len() ==> (#[trigger] docs2[i]).doc == docs1[i].doc);
                    }
                    assert(has_doc(docs2, d)) by {
                        let k = choose|k: int| 0 <= k < docs1.len() && docs1[k].doc == d;
                        assert(docs2[k].doc == d);
                    }
                    assert(has_doc(docs1, d));
                    assert(doc_count_in(docs2, d) == tf_of(ps1, t@, d) + 1) by {
                        let k0 = choose|k: int| 0 <= k < docs1.len() && docs1[k].doc == d;
                        let k = choose|k: int| 0 <= k < docs2.len() && docs2[k].doc == d;
                        assert(forall|i: int|
                            0 <= i < docs1.len() ==> (#[trigger] docs2[i]).doc == docs1[i].doc);
                        assert(k == k0);
                        assert(doc_count_in(docs1, d) == docs1[k0].count);
                    }
                }
                assert(tf_of(ps2, t@, d) == tf_of(ps1, t@, d) + 1);
                // frame: other terms and documents
                assert forall|t2: Seq<char>, d2: u64| !(t2 == t@ && d2 == d) implies tf_of(
                    ps2,
                    t2,
                    d2,
                ) == tf_of(ps1, t2, d2) by {
                    if t2 == t@ {
                        assert forall|dx: u64| dx != d implies doc_count_in(docs2, dx)
                            == doc_count_in(docs1, dx) by {
                            assert(forall|i: int|
                                0 <= i < docs1.len() ==> (#[trigger] docs2[i]).doc
                                    == docs1[i].doc);
                            if has_doc(docs1, dx) {
                                let k = choose|k: int|
                                    0 <= k < docs1.len() && docs1[k].doc == dx;
                                let k2 = choose|k: int|
                                    0 <= k < docs2.len() && docs2[k].doc == dx;
                                assert(docs2[k].doc == dx);
                                assert(k2 == k);
                                assert(docs2[k].count == docs1[k].count);
                            } else {
                                if has_doc(docs2, dx) {
                                    let k2 = choose|k: int|
                                        0 <= k < docs2.len() && docs2[k].doc == dx;
                                    assert(k2 < docs1.len());
                                    assert(docs1[k2].doc == dx);
                                }
                            }
                        }
                    } else {
                        if has_term(ps1, t2) {
                            let j = choose|j: int| 0 <= j < ps1.len() && ps1[j].term@ == t2;
                            assert(j != pi);
                            assert(ps2[j].term@ == t2);
                            lemma_term_docs_at(ps2, j);
                            lemma_term_docs_at(ps1, j);
                            assert(term_docs(ps2, t2) == term_docs(ps1, t2));
                        } else {
                            assert(!has_term(ps2, t2));
                        }
                    }
                }
                // well-formedness
                assert(postings_wf(ps2, n@)) by {
                    assert(posting_wf(p, n@));
                    assert(forall|i: int|
                        0 <= i < ps1.len() && i != pi ==> posting_wf(#[trigger] ps2[i], n@));
                }
                // distinct-term counts
                assert forall|d2: u64|
                    num_terms_containing(ps2, d2) == num_terms_containing(ps1, d2) + (if d2 == d
                        && r {
                        1nat
                    } else {
                        0nat
                    }) by {
                    assert(forall|i: int|
                        0 <= i < docs1.len() ==> (#[trigger] docs2[i]).doc == docs1[i].doc);
                    if d2 == d && r {
                        lemma_ntc_update_add(ps1, pi as int, p, d2);
                    } else {
                        assert(has_doc(docs1, d2) == has_doc(docs2, d2)) by {
                            if has_doc(docs1, d2) {
                                let k = choose|k: int|
                                    0 <= k < docs1.len() && docs1[k].doc == d2;
                                assert(docs2[k].doc == d2);
                            }
                            if has_doc(docs2, d2) {
                                let k = choose|k: int|
                                    0 <= k < docs2.len() && docs2[k].doc == d2;
                                if k < docs1.len() {
                                    assert(docs1[k].doc == d2);
                                } else {
                                    assert(r && d2 == d);
                                }
                            }
                        }
                        lemma_ntc_update_same(ps1, pi as int, p, d2);
                    }
                }
            }
            r
        },
    }
}

/// Two records share a display name.
pub open spec fn has_dup_names(records: Seq<Record>) -> bool {
    exists|i: int, j: int| 0 <= i < j < records.len() && records[i].name@ == records[j].name@
}

/// Machine limit: per-document occurrence counts are kept in 64 bits,
/// so no record may list more than `u64::MAX` path components.
pub open spec fn records_fit(records: Seq<Record>) -> bool {
    forall|d: int| 0 <= d < records.len() ==> (#[trigger] rec_terms(records[d])).len() <= u64::MAX
}

/// Decomposing the component stream of a record list at position `m`.
proof fn lemma_record_comps_split(files: Seq<Seq<char>>, m: int)
    requires
        0 <= m <= files.len(),
    ensures
        record_comps(files) == record_comps(files.take(m)) + record_comps(files.skip(m)),
    decreases m,
{
    if m == 0 {
        assert(files.take(0) =~= Seq::<Seq<char>>::empty());
        assert(files.skip(0) =~= files);
        assert(record_comps(Seq::<Seq<char>>::empty()) =~= Seq::<Seq<char>>::empty());
        assert(record_comps(files.take(0)) + record_comps(files) =~= record_comps(files));
    } else {
        lemma_record_comps_split(files, m - 1);
        lemma_record_comps_take_step(files, m - 1);
        assert(files.skip(m - 1).len() > 0);
        assert(files.skip(m - 1)[0] == files[m - 1]);
        assert(files.skip(m - 1).skip(1) =~= files.skip(m));
        assert(record_comps(files.skip(m - 1)) == split_comps(files[m - 1]) + record_comps(
            files.skip(m),
        ));
        assert((record_comps(files.take(m - 1)) + split_comps(files[m - 1])) + record_comps(
            files.skip(m),
        ) =~= record_comps(files.take(m - 1)) + (split_comps(files[m - 1]) + record_comps(
            files.skip(m),
        )));
    }
}

/// Decides the machine limit that `build` assumes: whether every
/// record's total component count fits the 64-bit occurrence counters.
pub fn records_fit_check(records: &Vec<Record>) -> (b: bool)
    ensures
        b == records_fit(records@),
{
    let mut k: usize = 0;
    while k < records.len()
        invariant
            k <= records@.len(),
            forall|d: int| 0 <= d < k ==> (#[trigger] rec_terms(records@[d])).len() <= u64::MAX,
        decreases records@.len() - k,
    {
        let rec = &records[k];
        let ghost files_v = records@[k as int].files.deep_view();
        let mut total: u64 = 0;
        let mut fi: usize = 0;
        proof {
            assert(files_v.take(0) =~= Seq::<Seq<char>>::empty());
            assert(record_comps(Seq::<Seq<char>>::empty()) =~= Seq::<Seq<char>>::empty());
        }
        while fi < rec.files.len()
            invariant
                fi <= rec.files@.len(),
                rec == &records@[k as int],
                k < records@.len(),
                files_v == records@[k as int].files.deep_view(),
                files_v.len() == rec.files@.len(),
                total == record_comps(files_v.take(fi as int)).len(),
            decreases rec.files@.len() - fi,
        {
            let comps = split_slash(rec.files[fi].as_str());
            let c = comps.len();
            proof {
                assert(files_v[fi as int] == rec.files@[fi as int]@);
                assert(comps.deep_view().len() == split_comps(files_v[fi as int]).len());
                lemma_record_comps_take_step(files_v, fi as int);
            }
            if c as u64 > u64::MAX - total {
                proof {
                    lemma_record_comps_split(files_v, fi + 1);
                    assert(rec_terms(records@[k as int]).len() > u64::MAX);
                }
                return false;
            }
            total = total + (c as u64);
            fi = fi + 1;
        }
        proof {
            assert(files_v.take(files_v.len() as int) =~= files_v);
            assert(rec_terms(records@[k as int]).len() <= u64::MAX);
        }
        k = k + 1;
    }
    true
}

impl Index {
    /// Builds the index from the record stream, assigning document ids
    /// densely in record order. Rejects a duplicate display name, and
    /// otherwise returns an index whose term frequencies are exactly
    /// those of the records and whose sizes count distinct terms.
    /// `records_fit_check` decides the machine limit assumed here.
    pub fn build(records: &Vec<Record>) -> (r: Result<Index, IndexError>)
        requires
            records_fit(records@),
        ensures
            match r {
                Ok(i) => {
                    &&& i.wf()
                    &&& i.sizes_consistent()
                    &&& !has_dup_names(records@)
                    &&& i.n() == records@.len()
                    &&& i.doc_sizes@.len() == records@.len()
                    &&& forall|d: int|
                        0 <= d < records@.len() ==> (#[trigger] i.doc_names@[d])@
                            == records@[d].name@
                    &&& forall|t: Seq<char>, d: u64|
                        d < records@.len() ==> tf_of(i.postings@, t, d) == spec_tf(
                            records@[d as int],
                            t,
                        )
                    &&& forall|t: Seq<char>|
                        has_term(i.postings@, t) <==> exists|d: int|
                            0 <= d < records@.len() && spec_tf(#[trigger] records@[d], t) > 0
                },
                Err(e) => e == IndexError::DuplicateDocument && has_dup_names(records@),
            },
    {
        let mut postings: Vec<Posting> = Vec::new();
        let mut doc_names: Vec<String> = Vec::new();
        let mut doc_sizes: Vec<u64> = Vec::new();
        let n = records.len();
        let mut k: usize = 0;
        while k < n
            invariant
                records_fit(records@),
                n == records@.len(),
                k <= n,
                doc_names@.len() == k,
                doc_sizes@.len() == k,
                forall|j: int| 0 <= j < k ==> (#[trigger] doc_names@[j])@ == records@[j].name@,
                forall|i: int, j: int| 0 <= i < j < k ==> doc_names@[i]@ != doc_names@[j]@,
                postings_wf(postings@, k as nat),
                forall|t: Seq<char>, dd: u64|
                    dd < k ==> tf_of(postings@, t, dd) == spec_tf(records@[dd as int], t),
                forall|dd: int|
                    0 <= dd < k ==> (#[trigger] doc_sizes@[dd]) == num_terms_containing(
                        postings@,
                        dd as u64,
                    ),
            decreases n - k,
        {
            let rec = &records[k];
            if contains_name(&doc_names, &rec.name) {
                proof {
                    let i = choose|i: int|
                        0 <= i < doc_names@.len() && doc_names@[i]@ == rec.name@;
                    assert(records@[i].name@ == records@[k as int].name@);
                }
                return Err(IndexError::DuplicateDocument);
            }
            doc_names.push(rec.name.clone());
            let d: u64 = k as u64;
            let ghost files_v = records@[k as int].files.deep_view();
            let ghost full = rec_terms(records@[k as int]);
            let mut unique: u64 = 0;
            let ghost mut processed: Seq<Seq<char>> = Seq::empty();
            proof {
                // nothing is recorded yet for the new document
                assert forall|t: Seq<char>| tf_of(postings@, t, d) == count_occ(processed, t) by {
                    lemma_tf_beyond_corpus(postings@, k as nat, t, d);
                }
                lemma_ntc_beyond_corpus(postings@, k as nat, d);
                assert(postings_wf(postings@, (k + 1) as nat));
                assert(files_v.take(0) =~= Seq::<Seq<char>>::empty());
                assert(processed =~= record_comps(files_v.take(0)));
            }
            let mut fi: usize = 0;
            while fi < rec.files.len()
                invariant
                    records_fit(records@),
                    n == records@.len(),
                    k < n,
                    d == k as u64,
                    rec == &records@[k as int],
                    files_v == records@[k as int].files.deep_view(),
                    full == rec_terms(records@[k as int]),
                    fi <= rec.files@.len(),
                    files_v.len() == rec.files@.len(),
                    doc_names@.len() == k + 1,
                    doc_sizes@.len() == k,
                    forall|j: int| 0 <= j < k + 1 ==> (#[trigger] doc_names@[j])@ == records@[j].name@,
                    forall|i: int, j: int| 0 <= i < j < k + 1 ==> doc_names@[i]@ != doc_names@[j]@,
                    postings_wf(postings@, (k + 1) as nat),
                    processed == record_comps(files_v.take(fi as int)),
                    forall|t: Seq<char>| tf_of(postings@, t, d) == count_occ(processed, t),
                    unique == num_terms_containing(postings@, d),
                    forall|t: Seq<char>, dd: u64|
                        dd < k ==> tf_of(postings@, t, dd) == spec_tf(records@[dd as int], t),
                    forall|dd: int|
                        0 <= dd < k ==> (#[trigger] doc_sizes@[dd]) == num_terms_containing(
                            postings@,
                            dd as u64,
                        ),
                decreases rec.files@.len() - fi,
            {
                let comps = split_slash(rec.files[fi].as_str());
                proof {
                    assert(files_v[fi as int] == rec.files@[fi as int]@);
                    assert(comps.deep_view() == split_comps(files_v[fi as int]));
                }
                let mut ci: usize = 0;
                while ci < comps.len()
                    invariant
                        records_fit(records@),
                        n == records@.len(),
                        k < n,
                        d == k as u64,
                        rec == &records@[k as int],
                        files_v == records@[k as int].files.deep_view(),
                        full == rec_terms(records@[k as int]),
                        fi < rec.files@.len(),
                        files_v.len() == rec.files@.len(),
                        ci <= comps@.len(),
                        comps.deep_view() == split_comps(files_v[fi as int]),
                        doc_names@.len() == k + 1,
                        doc_sizes@.len() == k,
                        forall|j: int|
                            0 <= j < k + 1 ==> (#[trigger] doc_names@[j])@ == records@[j].name@,
                        forall|i: int, j: int|
                            0 <= i < j < k + 1 ==> doc_names@[i]@ != doc_names@[j]@,
                        postings_wf(postings@, (k + 1) as nat),
                        processed == record_comps(files_v.take(fi as int)) + comps.deep_view()
                            .take(ci as int),
                        forall|t: Seq<char>| tf_of(postings@, t, d) == count_occ(processed, t),
                        unique == num_terms_containing(postings@, d),
                        forall|t: Seq<char>, dd: u64|
                            dd < k ==> tf_of(postings@, t, dd) == spec_tf(records@[dd as int], t),
                        forall|dd: int|
                            0 <= dd < k ==> (#[trigger] doc_sizes@[dd]) == num_terms_containing(
                                postings@,
                                dd as u64,
                            ),
                    decreases comps@.len() - ci,
                {
                    let t = &comps[ci];
                    proof {
                        // the occurrence about to be recorded still fits in
                        // the 64-bit count: what has been counted plus this
                        // occurrence is at most the record's component total
                        let cv = comps.deep_view();
                        lemma_record_comps_split(files_v, fi as int);
                        assert(files_v.skip(fi as int).len() > 0);
                        assert(files_v.skip(fi as int)[0] == files_v[fi as int]);
                        assert(files_v.skip(fi as int).skip(1) =~= files_v.skip(fi + 1));
                        assert(record_comps(files_v.skip(fi as int)) == split_comps(
                            files_v[fi as int],
                        ) + record_comps(files_v.skip(fi + 1)));
                        let rest = cv.skip(ci as int) + record_comps(files_v.skip(fi + 1));
                        assert(cv =~= cv.take(ci as int) + cv.skip(ci as int));
                        assert(full =~= processed + rest);
                        lemma_count_occ_add(processed, rest, t@);
                        assert(rest[0] == t@);
                        assert(count_occ(rest, t@) >= 1) by {
                            assert(count_occ(rest, t@) == 1 + count_occ(rest.skip(1), t@));
                        }
                        lemma_count_occ_le_len(full, t@);
                        assert(count_occ(processed, t@) + 1 <= full.len());
                        assert(tf_of(postings@, t@, d) < u64::MAX);
                    }
                    let ghost ps_before = postings@;
                    let added = add_occurrence(&mut postings, t, d, Ghost((k + 1) as nat));
                    proof {
                        let cv = comps.deep_view();
                        processed = processed.push(t@);
                        assert(cv.take(ci + 1) =~= cv.take(ci as int).push(cv[ci as int]));
                        assert(record_comps(files_v.take(fi as int)) + cv.take(ci + 1)
                            =~= processed);
                        assert forall|t2: Seq<char>|
                            tf_of(postings@, t2, d) == count_occ(processed, t2) by {
                            lemma_count_occ_push(processed.drop_last(), t@, t2);
                            assert(processed.drop_last() =~= processed.subrange(
                                0,
                                processed.len() - 1,
                            ));
                            assert(processed.drop_last().push(t@) =~= processed);
                            lemma_count_occ_push(
                                record_comps(files_v.take(fi as int)) + cv.take(ci as int),
                                t@,
                                t2,
                            );
                        }
                    }
                    if added {
                        let cap = postings.len();
                        proof {
                            lemma_ntc_le_len(postings@, d);
                            assert(unique + 1 <= cap);
                        }
                        unique = unique + 1;
                    }
                    ci = ci + 1;
                }
                proof {
                    let cv = comps.deep_view();
                    assert(cv.take(ci as int) =~= cv);
                    lemma_record_comps_take_step(files_v, fi as int);
                    assert(processed =~= record_comps(files_v.take(fi + 1)));
                }
                fi = fi + 1;
            }
            proof {
                assert(files_v.take(fi as int) =~= files_v);
                assert(processed == full);
            }
            doc_sizes.push(unique);
            k = k + 1;
        }
        let idx = Index { postings, doc_names, doc_sizes };
        proof {
            // a term is carried exactly when it occurs somewhere
            assert forall|t: Seq<char>|
                has_term(idx.postings@, t) <==> exists|dd: int|
                    0 <= dd < records@.len() && spec_tf(#[trigger] records@[dd], t) > 0 by {
                if has_term(idx.postings@, t) {
                    let j = choose|j: int|
                        0 <= j < idx.postings@.len() && idx.postings@[j].term@ == t;
                    lemma_term_docs_at(idx.postings@, j);
                    let p = idx.postings@[j];
                    assert(posting_wf(p, k as nat));
                    lemma_doc_count_at(p.docs@, 0);
                    let dd = p.docs@[0].doc;
                    assert(tf_of(idx.postings@, t, dd) == p.docs@[0].count);
                    assert(spec_tf(records@[dd as int], t) > 0);
                }
                if exists|dd: int| 0 <= dd < records@.len() && spec_tf(#[trigger] records@[dd], t)
                    > 0 {
                    let dd = choose|dd: int|
                        0 <= dd < records@.len() && spec_tf(#[trigger] records@[dd], t) > 0;
                    assert(tf_of(idx.postings@, t, dd as u64) == spec_tf(records@[dd], t));
                    assert(has_term(idx.postings@, t)) by {
                        if !has_term(idx.postings@, t) {
                            assert(term_docs(idx.postings@, t) == Seq::<DocEntry>::empty());
                            assert(tf_of(idx.postings@, t, dd as u64) == 0);
                        }
                    }
                }
            }
            // no two records share a name: the name column is distinct
            assert(!has_dup_names(records@)) by {
                if has_dup_names(records@) {
                    let (i, j) = choose|i: int, j: int|
                        0 <= i < j < records@.len() && records@[i].name@ == records@[j].name@;
                    assert(doc_names@[i]@ == doc_names@[j]@);
                }
            }
        }
        Ok(idx)
    }
}

} // verus!

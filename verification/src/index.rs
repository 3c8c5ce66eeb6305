//! The inverted index: for every term, the set of documents containing it
//! with per-document occurrence counts, plus every document's token count.
//!
//! A term appears in an entry's postings exactly when its count there is at
//! least one, so the document set and the frequency table of the design are
//! one structure here.

use vstd::prelude::*;
use crate::assoc::{
    find_key, lemma_find_key_at, lemma_find_key_none, lemma_find_key_props, lemma_find_key_push,
    lemma_find_key_update,
};
use crate::distance::{edit_distance, edit_distance_chars};
use crate::ranking::{
    clamp32, clamp_i64, contribution_scaled, div1000_trunc, idf_milli, idf_milli_exec,
    tf_norm_milli, tf_norm_milli_exec,
};
use crate::text::{chars_eq, clone_chars, text_tokens, tokenize_chars};
use vstd::set_lib::{lemma_len_subset, lemma_int_range, set_int_range};

verus! {

/// One document's occurrence count for one term.
#[derive(Clone, Copy)]
pub struct Posting {
    pub doc: usize,
    pub freq: usize,
}

/// An indexed term together with the documents that contain it.
pub struct TermEntry {
    pub term: Vec<char>,
    pub postings: Vec<Posting>,
}

/// A term's occurrence count within one document, collected while indexing.
pub struct TokenCount {
    pub term: Vec<char>,
    pub count: usize,
}

/// The key of a term entry: the term itself.
pub open spec fn term_key() -> spec_fn(TermEntry) -> Seq<char> {
    |e: TermEntry| e.term@
}

/// The key of a posting: the document it counts.
pub open spec fn posting_key() -> spec_fn(Posting) -> int {
    |p: Posting| p.doc as int
}

/// The key of a token count: the term it counts.
pub open spec fn tc_key() -> spec_fn(TokenCount) -> Seq<char> {
    |e: TokenCount| e.term@
}

/// The count a postings list records for document `d`, zero when absent.
pub open spec fn posting_freq(ps: Seq<Posting>, d: int) -> int {
    let i = find_key(ps, posting_key(), d);
    if i == -1 {
        0
    } else {
        ps[i].freq as int
    }
}

/// The count a token-count list records for term `t`, zero when absent.
pub open spec fn local_count(s: Seq<TokenCount>, t: Seq<char>) -> int {
    let i = find_key(s, tc_key(), t);
    if i == -1 {
        0
    } else {
        s[i].count as int
    }
}

/// How often term `t` occurs in a token sequence.
pub open spec fn count_of(toks: Seq<Seq<char>>, t: Seq<char>) -> int
    decreases toks.len(),
{
    if toks.len() == 0 {
        0
    } else {
        count_of(toks.drop_last(), t) + if toks.last() == t {
            1int
        } else {
            0int
        }
    }
}

/// Occurrence counts are between zero and the sequence length.
pub proof fn lemma_count_of_bounds(toks: Seq<Seq<char>>, t: Seq<char>)
    ensures
        0 <= count_of(toks, t) <= toks.len(),
    decreases toks.len(),
{
    if toks.len() == 0 {
    } else {
        lemma_count_of_bounds(toks.drop_last(), t);
    }
}

/// A token sequence contains a term exactly when its count is positive.
pub proof fn lemma_count_of_contains(toks: Seq<Seq<char>>, t: Seq<char>)
    ensures
        count_of(toks, t) > 0 <==> toks.contains(t),
    decreases toks.len(),
{
    lemma_count_of_bounds(toks, t);
    if toks.len() == 0 {
    } else {
        lemma_count_of_contains(toks.drop_last(), t);
        lemma_count_of_bounds(toks.drop_last(), t);
        if toks.last() == t {
            assert(toks[toks.len() - 1] == t);
        } else {
            if toks.contains(t) {
                let w = choose|w: int| 0 <= w < toks.len() && toks[w] == t;
                if w < toks.len() - 1 {
                    assert(toks.drop_last()[w] == t);
                }
            }
            if toks.drop_last().contains(t) {
                let w = choose|w: int| 0 <= w < toks.drop_last().len() && toks.drop_last()[w] == t;
                assert(toks[w] == t);
            }
        }
    }
}

/// Whether one of the first `k` token counts is for term `t`.
pub open spec fn seen(counts: Seq<TokenCount>, k: int, t: Seq<char>) -> bool {
    exists|j: int| 0 <= j < k && (#[trigger] counts[j].term@) == t
}

/// Inverted index over documents named by dense integer ids.
pub struct InvertedIndex {
    pub terms: Vec<TermEntry>,
    pub doc_lengths: Vec<usize>,
}

impl InvertedIndex {
    /// The number of document slots, padded ids included.
    pub open spec fn num_docs(&self) -> int {
        self.doc_lengths@.len() as int
    }

    /// The token count recorded for document `d`, zero outside the range.
    pub open spec fn spec_len(&self, d: int) -> int {
        if 0 <= d < self.doc_lengths@.len() {
            self.doc_lengths@[d] as int
        } else {
            0
        }
    }

    /// Where term `t` is kept, or -1.
    pub open spec fn term_index(&self, t: Seq<char>) -> int {
        find_key(self.terms@, term_key(), t)
    }

    /// Whether term `t` is indexed at all.
    pub open spec fn has_term(&self, t: Seq<char>) -> bool {
        self.term_index(t) != -1
    }

    /// How many documents contain term `t`.
    pub open spec fn doc_count(&self, t: Seq<char>) -> int {
        if self.has_term(t) {
            self.terms@[self.term_index(t)].postings@.len() as int
        } else {
            0
        }
    }

    /// How often term `t` occurs in document `d`.
    pub open spec fn freq(&self, t: Seq<char>, d: int) -> int {
        if self.has_term(t) {
            posting_freq(self.terms@[self.term_index(t)].postings@, d)
        } else {
            0
        }
    }

    /// A postings list is well formed when its documents are distinct,
    /// in range, and counted at least once each.
    pub open spec fn postings_wf(ps: Seq<Posting>, nd: int) -> bool {
        &&& (forall|i: int, j: int|
            0 <= i < j < ps.len() ==> (#[trigger] ps[i].doc) != (#[trigger] ps[j].doc))
        &&& (forall|i: int|
            0 <= i < ps.len() ==> (#[trigger] ps[i].freq) >= 1 && (ps[i].doc as int) < nd)
    }

    /// The index invariant: distinct terms, each with a well-formed,
    /// non-empty postings list.
    pub open spec fn wf(&self) -> bool {
        &&& (forall|i: int, j: int|
            0 <= i < j < self.terms@.len() ==> (#[trigger] self.terms@[i].term@) != (
            #[trigger] self.terms@[j].term@))
        &&& (forall|i: int|
            0 <= i < self.terms@.len() ==> Self::postings_wf(
                (#[trigger] self.terms@[i]).postings@,
                self.num_docs(),
            ) && self.terms@[i].postings@.len() >= 1)
    }

    /// An empty index.
    pub fn new() -> (r: Self)
        ensures
            r.wf(),
            r.terms@.len() == 0,
            r.num_docs() == 0,
    {
        InvertedIndex { terms: Vec::new(), doc_lengths: Vec::new() }
    }

    /// A term absent from every document of a well-formed index is not
    /// indexed, and a present one is.
    pub proof fn lemma_doc_count_zero(&self, t: Seq<char>)
        requires
            self.wf(),
        ensures
            self.doc_count(t) == 0 <==> !self.has_term(t),
    {
        lemma_find_key_props(self.terms@, term_key(), t);
    }
}

/// Finds the entry holding term `t`, if any.
fn find_term_pos(terms: &Vec<TermEntry>, t: &Vec<char>) -> (r: Option<usize>)
    ensures
        match r {
            Some(j) => find_key(terms@, term_key(), t@) == j,
            None => find_key(terms@, term_key(), t@) == -1,
        },
{
    let ghost k = term_key();
    let mut i: usize = 0;
    while i < terms.len()
        invariant
            i <= terms.len(),
            k == term_key(),
            forall|j: int| 0 <= j < i ==> k(terms@[j]) != t@,
        decreases terms.len() - i,
    {
        proof {
            assert(k(terms@[i as int]) == terms@[i as int].term@);
        }
        if chars_eq(&terms[i].term, t) {
            proof {
                lemma_find_key_at(terms@, k, t@, i as int);
            }
            return Some(i);
        }
        i = i + 1;
    }
    proof {
        lemma_find_key_none(terms@, k, t@);
    }
    None
}

/// Finds the posting for document `d`, if any.
fn find_posting_pos(ps: &Vec<Posting>, d: usize) -> (r: Option<usize>)
    ensures
        match r {
            Some(j) => find_key(ps@, posting_key(), d as int) == j,
            None => find_key(ps@, posting_key(), d as int) == -1,
        },
{
    let ghost k = posting_key();
    let mut i: usize = 0;
    while i < ps.len()
        invariant
            i <= ps.len(),
            k == posting_key(),
            forall|j: int| 0 <= j < i ==> k(ps@[j]) != d as int,
        decreases ps.len() - i,
    {
        proof {
            assert(k(ps@[i as int]) == ps@[i as int].doc as int);
        }
        if ps[i].doc == d {
            proof {
                lemma_find_key_at(ps@, k, d as int, i as int);
            }
            return Some(i);
        }
        i = i + 1;
    }
    proof {
        lemma_find_key_none(ps@, k, d as int);
    }
    None
}

/// Finds the token count for term `t`, if any.
fn find_tc_pos(counts: &Vec<TokenCount>, t: &Vec<char>) -> (r: Option<usize>)
    ensures
        match r {
            Some(j) => find_key(counts@, tc_key(), t@) == j,
            None => find_key(counts@, tc_key(), t@) == -1,
        },
{
    let ghost k = tc_key();
    let mut i: usize = 0;
    while i < counts.len()
        invariant
            i <= counts.len(),
            k == tc_key(),
            forall|j: int| 0 <= j < i ==> k(counts@[j]) != t@,
        decreases counts.len() - i,
    {
        proof {
            assert(k(counts@[i as int]) == counts@[i as int].term@);
        }
        if chars_eq(&counts[i].term, t) {
            proof {
                lemma_find_key_at(counts@, k, t@, i as int);
            }
            return Some(i);
        }
        i = i + 1;
    }
    proof {
        lemma_find_key_none(counts@, k, t@);
    }
    None
}

/// Counts each distinct token's occurrences in order of first appearance.
fn count_tokens(tokens: &Vec<Vec<char>>) -> (r: Vec<TokenCount>)
    ensures
        forall|t: Seq<char>| #[trigger] local_count(r@, t) == count_of(tokens.deep_view(), t),
        forall|a: int, b: int|
            0 <= a < b < r@.len() ==> (#[trigger] r@[a].term@) != (#[trigger] r@[b].term@),
        forall|a: int| 0 <= a < r@.len() ==> (#[trigger] r@[a].count) >= 1,
{
    let ghost toks = tokens.deep_view();
    let ghost k = tc_key();
    let mut r: Vec<TokenCount> = Vec::new();
    let mut i: usize = 0;
    proof {
        assert(toks.take(0) =~= Seq::<Seq<char>>::empty());
        assert forall|t: Seq<char>| #[trigger] local_count(r@, t) == count_of(
            toks.take(0),
            t,
        ) by {
            lemma_find_key_props(r@, k, t);
        }
    }
    while i < tokens.len()
        invariant
            i <= tokens.len(),
            toks == tokens.deep_view(),
            toks.len() == tokens@.len(),
            k == tc_key(),
            forall|t: Seq<char>| #[trigger] local_count(r@, t) == count_of(toks.take(i as int), t),
            forall|a: int, b: int|
                0 <= a < b < r@.len() ==> (#[trigger] r@[a].term@) != (#[trigger] r@[b].term@),
            forall|a: int| 0 <= a < r@.len() ==> (#[trigger] r@[a].count) >= 1 && r@[a].count <= i,
        decreases tokens.len() - i,
    {
        let ghost cur = toks[i as int];
        proof {
            assert(tokens@[i as int].deep_view() =~= tokens@[i as int]@);
            assert(toks.take(i + 1).drop_last() =~= toks.take(i as int));
            assert(toks.take(i + 1).last() == cur);
            lemma_count_of_bounds(toks.take(i as int), cur);
        }
        match find_tc_pos(&r, &tokens[i]) {
            Some(j) => {
                let ghost old_r = r@;
                proof {
                    lemma_find_key_props(old_r, k, cur);
                    assert(k(old_r[j as int]) == old_r[j as int].term@);
                    assert(old_r[j as int].term@ == cur);
                    assert(local_count(old_r, cur) == old_r[j as int].count);
                }
                let c = r[j].count;
                let term2 = clone_chars(&r[j].term);
                r.set(j, TokenCount { term: term2, count: c + 1 });
                proof {
                    let ghost newe = r@[j as int];
                    assert(k(newe) == newe.term@);
                    assert(newe.term@ == cur);
                    assert(r@ == old_r.update(j as int, newe));
                    assert forall|t: Seq<char>| #[trigger] local_count(r@, t) == count_of(
                        toks.take(i + 1),
                        t,
                    ) by {
                        assert(local_count(old_r, t) == count_of(toks.take(i as int), t));
                        assert(count_of(toks.take(i + 1), t) == count_of(toks.take(i as int), t)
                            + if cur == t { 1int } else { 0int });
                        lemma_find_key_update(old_r, k, t, j as int, newe);
                        lemma_find_key_props(old_r, k, t);
                        if t == cur {
                            assert(find_key(r@, k, t) == j);
                            assert(local_count(r@, t) == newe.count);
                        } else {
                            let f = find_key(old_r, k, t);
                            if f != -1 {
                                assert(k(old_r[f]) == old_r[f].term@);
                                assert(old_r[f].term@ == t);
                                assert(f != j);
                                assert(r@[f] == old_r[f]);
                                assert(local_count(r@, t) == old_r[f].count);
                            } else {
                                assert(local_count(r@, t) == 0);
                            }
                        }
                    }
                    assert forall|a: int, b: int|
                        0 <= a < b < r@.len() implies (#[trigger] r@[a].term@) != (
                    #[trigger] r@[b].term@) by {
                        assert(old_r[a].term@ != old_r[b].term@);
                        assert(r@[a].term@ == old_r[a].term@);
                        assert(r@[b].term@ == old_r[b].term@);
                    }
                }
            },
            None => {
                let ghost old_r = r@;
                proof {
                    lemma_find_key_props(old_r, k, cur);
                    assert(local_count(old_r, cur) == 0);
                }
                let term2 = clone_chars(&tokens[i]);
                r.push(TokenCount { term: term2, count: 1 });
                proof {
                    let ghost newe = r@[old_r.len() as int];
                    assert(k(newe) == newe.term@);
                    assert(newe.term@ == cur);
                    assert(r@ == old_r.push(newe));
                    assert forall|t: Seq<char>| #[trigger] local_count(r@, t) == count_of(
                        toks.take(i + 1),
                        t,
                    ) by {
                        assert(local_count(old_r, t) == count_of(toks.take(i as int), t));
                        assert(count_of(toks.take(i + 1), t) == count_of(toks.take(i as int), t)
                            + if cur == t { 1int } else { 0int });
                        lemma_find_key_push(old_r, k, t, newe);
                        lemma_find_key_props(old_r, k, t);
                        if t == cur {
                            assert(find_key(old_r, k, t) == -1);
                            assert(find_key(r@, k, t) == old_r.len() as int);
                            assert(local_count(r@, t) == 1);
                        } else {
                            let f = find_key(old_r, k, t);
                            if f != -1 {
                                assert(find_key(r@, k, t) == f);
                                assert(r@[f] == old_r[f]);
                                assert(local_count(r@, t) == old_r[f].count);
                            } else {
                                assert(k(newe) != t);
                                assert(find_key(r@, k, t) == -1);
                            }
                        }
                    }
                    assert forall|a: int, b: int|
                        0 <= a < b < r@.len() implies (#[trigger] r@[a].term@) != (
                    #[trigger] r@[b].term@) by {
                        if b < old_r.len() {
                            assert(old_r[a].term@ != old_r[b].term@);
                        } else {
                            assert(r@[b].term@ == cur);
                            assert(k(old_r[a]) == old_r[a].term@);
                        }
                    }
                }
            },
        }
        i = i + 1;
    }
    proof {
        assert(toks.take(toks.len() as int) =~= toks);
    }
    r
}

impl InvertedIndex {
    /// Indexes one document: pads unseen document slots with empty entries,
    /// records the document's token count, and adds the document to the
    /// postings of each of its distinct tokens with its occurrence count.
    /// The document id must not be indexed yet.
    pub fn add_document(&mut self, doc_id: usize, tokens: &Vec<Vec<char>>)
        requires
            old(self).wf(),
            doc_id < usize::MAX,
            forall|t: Seq<char>| #[trigger] old(self).freq(t, doc_id as int) == 0,
        ensures
            final(self).wf(),
            final(self).num_docs() == if old(self).num_docs() >= doc_id + 1 {
                old(self).num_docs()
            } else {
                doc_id + 1
            },
            final(self).spec_len(doc_id as int) == tokens@.len(),
            forall|d: int|
                d != doc_id ==> #[trigger] final(self).spec_len(d) == old(self).spec_len(d),
            forall|t: Seq<char>| #[trigger] final(self).freq(t, doc_id as int) == count_of(
                tokens.deep_view(),
                t,
            ),
            forall|t: Seq<char>, d: int|
                d != doc_id ==> #[trigger] final(self).freq(t, d) == old(self).freq(t, d),
            forall|t: Seq<char>| #[trigger] final(self).doc_count(t) == old(self).doc_count(t)
                + if count_of(tokens.deep_view(), t) > 0 {
                    1int
                } else {
                    0int
                },
            forall|t: Seq<char>| #[trigger] final(self).has_term(t) <==> (old(self).has_term(t)
                || count_of(tokens.deep_view(), t) > 0),
    {
        let ghost toks = tokens.deep_view();
        let ghost tk = term_key();
        let ghost pk = posting_key();
        let ghost ck = tc_key();
        while self.doc_lengths.len() < doc_id + 1
            invariant
                doc_id < usize::MAX,
                self.terms@ == old(self).terms@,
                old(self).num_docs() <= self.num_docs(),
                self.num_docs() <= if old(self).num_docs() >= doc_id + 1 {
                    old(self).num_docs()
                } else {
                    doc_id + 1
                },
                forall|d: int|
                    0 <= d < old(self).num_docs() ==> self.doc_lengths@[d] == old(
                        self,
                    ).doc_lengths@[d],
                forall|d: int|
                    old(self).num_docs() <= d < self.num_docs() ==> self.doc_lengths@[d] == 0,
            decreases doc_id + 1 - self.doc_lengths@.len(),
        {
            self.doc_lengths.push(0);
        }
        self.doc_lengths.set(doc_id, tokens.len());
        let ghost lens1 = self.doc_lengths@;
        proof {
            assert forall|t: Seq<char>, d: int| #[trigger] self.freq(t, d) == old(self).freq(
                t,
                d,
            ) by {
                assert(self.terms@ == old(self).terms@);
            }
            assert forall|t: Seq<char>| #[trigger] self.doc_count(t) == old(self).doc_count(t)
                && (self.has_term(t) <==> old(self).has_term(t)) by {
                assert(self.terms@ == old(self).terms@);
            }
        }
        let counts = count_tokens(tokens);
        let mut kidx: usize = 0;
        while kidx < counts.len()
            invariant
                kidx <= counts@.len(),
                tk == term_key(),
                pk == posting_key(),
                ck == tc_key(),
                toks == tokens.deep_view(),
                self.wf(),
                old(self).wf(),
                self.doc_lengths@ == lens1,
                doc_id < self.num_docs(),
                old(self).num_docs() <= self.num_docs(),
                forall|t: Seq<char>| #[trigger] old(self).freq(t, doc_id as int) == 0,
                forall|t: Seq<char>| #[trigger] local_count(counts@, t) == count_of(toks, t),
                forall|a: int, b: int|
                    0 <= a < b < counts@.len() ==> (#[trigger] counts@[a].term@) != (
                    #[trigger] counts@[b].term@),
                forall|a: int| 0 <= a < counts@.len() ==> (#[trigger] counts@[a].count) >= 1,
                forall|t: Seq<char>| #[trigger] self.freq(t, doc_id as int) == if seen(
                    counts@,
                    kidx as int,
                    t,
                ) {
                    count_of(toks, t)
                } else {
                    0
                },
                forall|t: Seq<char>, d: int|
                    d != doc_id ==> #[trigger] self.freq(t, d) == old(self).freq(t, d),
                forall|t: Seq<char>| #[trigger] self.doc_count(t) == old(self).doc_count(t)
                    + if seen(counts@, kidx as int, t) {
                        1int
                    } else {
                        0int
                    },
                forall|t: Seq<char>| #[trigger] self.has_term(t) <==> (old(self).has_term(t)
                    || seen(counts@, kidx as int, t)),
            decreases counts@.len() - kidx,
        {
            let ghost cur = counts@[kidx as int].term@;
            let ghost pre = *self;
            let cnt = counts[kidx].count;
            proof {
                // this token was not merged before: counts keys are distinct
                assert(!seen(counts@, kidx as int, cur));
                // so the document is not yet in this term's postings
                assert(pre.freq(cur, doc_id as int) == 0);
                assert(ck(counts@[kidx as int]) == cur);
                assert forall|j: int| 0 <= j < kidx implies ck(counts@[j]) != cur by {
                    assert(counts@[j].term@ != counts@[kidx as int].term@);
                }
                lemma_find_key_at(counts@, ck, cur, kidx as int);
                assert(local_count(counts@, cur) == cnt);
                assert(count_of(toks, cur) == cnt);
            }
            let p = Posting { doc: doc_id, freq: cnt };
            match find_term_pos(&self.terms, &counts[kidx].term) {
                Some(j) => {
                    proof {
                        lemma_find_key_props(pre.terms@, tk, cur);
                        assert(tk(pre.terms@[j as int]) == pre.terms@[j as int].term@);
                        assert(pre.terms@[j as int].term@ == cur);
                        assert(posting_freq(pre.terms@[j as int].postings@, doc_id as int) == 0);
                        lemma_find_key_props(pre.terms@[j as int].postings@, pk, doc_id as int);
                        assert(find_key(pre.terms@[j as int].postings@, pk, doc_id as int) == -1);
                    }
                    self.terms[j].postings.push(p);
                    proof {
                        let e2 = self.terms@[j as int];
                        let old_ps = pre.terms@[j as int].postings@;
                        assert(self.terms@ == pre.terms@.update(j as int, e2));
                        assert(e2.term@ == cur);
                        assert(e2.postings@ == old_ps.push(p));
                        assert(pk(p) == doc_id as int);
                        lemma_find_key_push(old_ps, pk, doc_id as int, p);
                        assert(posting_freq(e2.postings@, doc_id as int) == cnt);
                        assert forall|d: int| d != doc_id implies posting_freq(e2.postings@, d)
                            == posting_freq(old_ps, d) by {
                            lemma_find_key_push(old_ps, pk, d, p);
                            lemma_find_key_props(old_ps, pk, d);
                            let f = find_key(old_ps, pk, d);
                            if f != -1 {
                                assert(e2.postings@[f] == old_ps[f]);
                            }
                        }
                        assert(Self::postings_wf(e2.postings@, self.num_docs())) by {
                            lemma_find_key_props(old_ps, pk, doc_id as int);
                            assert forall|a: int| 0 <= a < old_ps.len() implies old_ps[a].doc
                                != doc_id by {
                                assert(pk(old_ps[a]) == old_ps[a].doc as int);
                            }
                            assert(Self::postings_wf(old_ps, pre.num_docs()));
                            assert forall|a: int, b: int|
                                0 <= a < b < e2.postings@.len() implies (
                            #[trigger] e2.postings@[a].doc) != (#[trigger] e2.postings@[b].doc) by {
                                if b < old_ps.len() {
                                } else {
                                    assert(e2.postings@[b].doc == doc_id);
                                    assert(e2.postings@[a] == old_ps[a]);
                                }
                            }
                        }
                        assert(self.wf()) by {
                            assert forall|a: int, b: int|
                                0 <= a < b < self.terms@.len() implies (
                            #[trigger] self.terms@[a].term@) != (#[trigger] self.terms@[b].term@) by {
                                assert(self.terms@[a].term@ == pre.terms@[a].term@);
                                assert(self.terms@[b].term@ == pre.terms@[b].term@);
                            }
                            assert forall|a: int| 0 <= a < self.terms@.len() implies Self::postings_wf(
                                (#[trigger] self.terms@[a]).postings@,
                                self.num_docs(),
                            ) && self.terms@[a].postings@.len() >= 1 by {
                                if a != j {
                                    assert(self.terms@[a] == pre.terms@[a]);
                                }
                            }
                        }
                        assert forall|t: Seq<char>| seen(counts@, kidx + 1, t) <==> (seen(
                            counts@,
                            kidx as int,
                            t,
                        ) || t == cur) by {
                            if seen(counts@, kidx + 1, t) {
                                let w = choose|w: int|
                                    0 <= w < kidx + 1 && (#[trigger] counts@[w].term@) == t;
                                if w < kidx {
                                    assert(seen(counts@, kidx as int, t));
                                }
                            }
                            if t == cur {
                                assert(counts@[kidx as int].term@ == t);
                            }
                        }
                        assert forall|t: Seq<char>, d: int| #[trigger] self.freq(t, d) == if t
                            == cur && d == doc_id {
                            count_of(toks, t)
                        } else {
                            pre.freq(t, d)
                        } by {
                            lemma_find_key_update(pre.terms@, tk, t, j as int, e2);
                            assert(self.term_index(t) == pre.term_index(t));
                            lemma_find_key_props(pre.terms@, tk, t);
                            let f = pre.term_index(t);
                            if f != -1 {
                                assert(tk(pre.terms@[f]) == pre.terms@[f].term@);
                                assert(pre.terms@[f].term@ == t);
                                if f == j {
                                    assert(t == cur);
                                    assert(self.terms@[f] == e2);
                                    if d != doc_id {
                                        assert(posting_freq(e2.postings@, d) == posting_freq(
                                            old_ps,
                                            d,
                                        ));
                                    }
                                } else {
                                    assert(self.terms@[f] == pre.terms@[f]);
                                }
                            } else {
                                assert(t != cur);
                            }
                        }
                        assert forall|t: Seq<char>| #[trigger] self.doc_count(t)
                            == old(self).doc_count(t) + if seen(counts@, kidx + 1, t) {
                            1int
                        } else {
                            0int
                        } by {
                            assert(pre.doc_count(t) == old(self).doc_count(t) + if seen(
                                counts@,
                                kidx as int,
                                t,
                            ) {
                                1int
                            } else {
                                0int
                            });
                            lemma_find_key_update(pre.terms@, tk, t, j as int, e2);
                            lemma_find_key_props(pre.terms@, tk, t);
                            let f = pre.term_index(t);
                            if f != -1 {
                                assert(tk(pre.terms@[f]) == pre.terms@[f].term@);
                                if f == j {
                                    assert(t == cur);
                                    assert(self.doc_count(t) == old_ps.len() + 1);
                                    assert(pre.doc_count(t) == old_ps.len());
                                    assert(!seen(counts@, kidx as int, cur));
                                } else {
                                    assert(self.terms@[f] == pre.terms@[f]);
                                    assert(self.doc_count(t) == pre.doc_count(t));
                                    assert(t != cur);
                                }
                            } else {
                                assert(t != cur);
                                assert(self.doc_count(t) == 0 && pre.doc_count(t) == 0);
                            }
                        }
                        assert forall|t: Seq<char>| #[trigger] self.has_term(t) <==> (old(
                            self,
                        ).has_term(t) || seen(counts@, kidx + 1, t)) by {
                            assert(pre.has_term(t) <==> (old(self).has_term(t) || seen(
                                counts@,
                                kidx as int,
                                t,
                            )));
                            lemma_find_key_update(pre.terms@, tk, t, j as int, e2);
                            if t == cur {
                                assert(pre.has_term(cur));
                            }
                        }
                    }
                },
                None => {
                    proof {
                        lemma_find_key_props(pre.terms@, tk, cur);
                        assert(!pre.has_term(cur));
                    }
                    let term2 = clone_chars(&counts[kidx].term);
                    let mut ps: Vec<Posting> = Vec::new();
                    ps.push(p);
                    self.terms.push(TermEntry { term: term2, postings: ps });
                    proof {
                        let e3 = self.terms@[pre.terms@.len() as int];
                        assert(self.terms@ == pre.terms@.push(e3));
                        assert(e3.term@ == cur);
                        assert(e3.postings@ =~= seq![p]);
                        assert(pk(p) == doc_id as int);
                        assert(find_key(e3.postings@, pk, doc_id as int) == 0);
                        assert(posting_freq(e3.postings@, doc_id as int) == cnt);
                        assert forall|d: int| d != doc_id implies posting_freq(e3.postings@, d)
                            == 0 by {
                            assert(e3.postings@.drop_first() =~= Seq::<Posting>::empty());
                            assert(find_key(Seq::<Posting>::empty(), pk, d) == -1);
                            assert(pk(e3.postings@[0]) == doc_id as int);
                        }
                        assert(self.wf()) by {
                            assert forall|a: int, b: int|
                                0 <= a < b < self.terms@.len() implies (
                            #[trigger] self.terms@[a].term@) != (#[trigger] self.terms@[b].term@) by {
                                if b < pre.terms@.len() {
                                    assert(self.terms@[a].term@ == pre.terms@[a].term@);
                                    assert(self.terms@[b].term@ == pre.terms@[b].term@);
                                } else {
                                    assert(self.terms@[b].term@ == cur);
                                    assert(self.terms@[a] == pre.terms@[a]);
                                    assert(tk(pre.terms@[a]) == pre.terms@[a].term@);
                                }
                            }
                            assert forall|a: int| 0 <= a < self.terms@.len() implies Self::postings_wf(
                                (#[trigger] self.terms@[a]).postings@,
                                self.num_docs(),
                            ) && self.terms@[a].postings@.len() >= 1 by {
                                if a < pre.terms@.len() {
                                    assert(self.terms@[a] == pre.terms@[a]);
                                } else {
                                    assert(self.terms@[a] == e3);
                                    assert forall|x: int, y: int|
                                        0 <= x < y < e3.postings@.len() implies (
                                    #[trigger] e3.postings@[x].doc) != (
                                    #[trigger] e3.postings@[y].doc) by {
                                    }
                                }
                            }
                        }
                        assert forall|t: Seq<char>| seen(counts@, kidx + 1, t) <==> (seen(
                            counts@,
                            kidx as int,
                            t,
                        ) || t == cur) by {
                            if seen(counts@, kidx + 1, t) {
                                let w = choose|w: int|
                                    0 <= w < kidx + 1 && (#[trigger] counts@[w].term@) == t;
                                if w < kidx {
                                    assert(seen(counts@, kidx as int, t));
                                }
                            }
                            if t == cur {
                                assert(counts@[kidx as int].term@ == t);
                            }
                        }
                        assert forall|t: Seq<char>, d: int| #[trigger] self.freq(t, d) == if t
                            == cur && d == doc_id {
                            count_of(toks, t)
                        } else {
                            pre.freq(t, d)
                        } by {
                            lemma_find_key_push(pre.terms@, tk, t, e3);
                            assert(tk(e3) == cur);
                            lemma_find_key_props(pre.terms@, tk, t);
                            let f = pre.term_index(t);
                            if f != -1 {
                                assert(self.term_index(t) == f);
                                assert(self.terms@[f] == pre.terms@[f]);
                                assert(tk(pre.terms@[f]) == t);
                                assert(t != cur);
                            } else if t == cur {
                                assert(self.term_index(t) == pre.terms@.len() as int);
                                assert(self.terms@[self.term_index(t)] == e3);
                                assert(pre.freq(t, d) == 0);
                            } else {
                                assert(self.term_index(t) == -1);
                            }
                        }
                        assert forall|t: Seq<char>| #[trigger] self.doc_count(t)
                            == old(self).doc_count(t) + if seen(counts@, kidx + 1, t) {
                            1int
                        } else {
                            0int
                        } by {
                            assert(pre.doc_count(t) == old(self).doc_count(t) + if seen(
                                counts@,
                                kidx as int,
                                t,
                            ) {
                                1int
                            } else {
                                0int
                            });
                            lemma_find_key_push(pre.terms@, tk, t, e3);
                            assert(tk(e3) == cur);
                            lemma_find_key_props(pre.terms@, tk, t);
                            let f = pre.term_index(t);
                            if f != -1 {
                                assert(self.term_index(t) == f);
                                assert(self.terms@[f] == pre.terms@[f]);
                                assert(tk(pre.terms@[f]) == t);
                                assert(t != cur);
                                assert(self.doc_count(t) == pre.doc_count(t));
                            } else if t == cur {
                                assert(self.term_index(t) == pre.terms@.len() as int);
                                assert(self.terms@[self.term_index(t)] == e3);
                                assert(self.doc_count(t) == 1);
                                assert(pre.doc_count(t) == 0);
                                assert(!seen(counts@, kidx as int, cur));
                            } else {
                                assert(self.term_index(t) == -1);
                                assert(self.doc_count(t) == 0 && pre.doc_count(t) == 0);
                            }
                        }
                        assert forall|t: Seq<char>| #[trigger] self.has_term(t) <==> (old(
                            self,
                        ).has_term(t) || seen(counts@, kidx as int, t) || t == cur) by {
                            assert(pre.has_term(t) <==> (old(self).has_term(t) || seen(
                                counts@,
                                kidx as int,
                                t,
                            )));
                            lemma_find_key_push(pre.terms@, tk, t, e3);
                            assert(tk(e3) == cur);
                            if t != cur && pre.term_index(t) != -1 {
                                assert(self.term_index(t) == pre.term_index(t));
                            }
                        }
                        assert forall|t: Seq<char>| #[trigger] self.has_term(t) <==> (old(
                            self,
                        ).has_term(t) || seen(counts@, kidx + 1, t)) by {
                        }
                    }
                },
            }
            kidx = kidx + 1;
        }
        proof {
            assert forall|t: Seq<char>| seen(counts@, counts@.len() as int, t) <==> count_of(
                toks,
                t,
            ) > 0 by {
                lemma_find_key_props(counts@, ck, t);
                lemma_count_of_bounds(toks, t);
                let f = find_key(counts@, ck, t);
                if f != -1 {
                    assert(ck(counts@[f]) == counts@[f].term@);
                    assert(counts@[f].term@ == t);
                    assert(local_count(counts@, t) == counts@[f].count);
                    assert(seen(counts@, counts@.len() as int, t));
                } else {
                    assert(local_count(counts@, t) == 0);
                    if seen(counts@, counts@.len() as int, t) {
                        let w = choose|w: int|
                            0 <= w < counts@.len() && (#[trigger] counts@[w].term@) == t;
                        assert(ck(counts@[w]) == t);
                    }
                }
            }
            assert(toks.len() == tokens@.len());
            assert forall|t: Seq<char>| #[trigger] self.freq(t, doc_id as int) == count_of(
                toks,
                t,
            ) by {
                assert(self.freq(t, doc_id as int) == if seen(counts@, counts@.len() as int, t) {
                    count_of(toks, t)
                } else {
                    0
                });
                lemma_count_of_bounds(toks, t);
            }
            assert forall|t: Seq<char>| #[trigger] self.doc_count(t) == old(self).doc_count(t)
                + if count_of(toks, t) > 0 {
                1int
            } else {
                0int
            } by {
                lemma_count_of_bounds(toks, t);
            }
            assert forall|t: Seq<char>| #[trigger] self.has_term(t) <==> (old(self).has_term(t)
                || count_of(toks, t) > 0) by {
                lemma_count_of_bounds(toks, t);
            }
        }
    }
}

impl InvertedIndex {
    /// Whether some of the first `jmax` indexed terms lies within edit
    /// distance `dist` of token `t` and occurs in document `d`.
    pub open spec fn fuzzy_match_upto(&self, t: Seq<char>, dist: int, d: int, jmax: int) -> bool {
        exists|j: int|
            0 <= j < jmax && edit_distance(t, (#[trigger] self.terms@[j]).term@) <= dist
                && posting_freq(self.terms@[j].postings@, d) > 0
    }

    /// Whether document `d` matches query token `t`: it contains the token
    /// itself, or, fuzzily, some indexed term within the distance bound.
    pub open spec fn token_match(&self, t: Seq<char>, fuzzy: bool, dist: int, d: int) -> bool {
        self.freq(t, d) > 0 || (fuzzy && self.fuzzy_match_upto(t, dist, d, self.terms@.len() as int))
    }

    /// Whether document `d` matches one of the first `imax` query tokens.
    pub open spec fn doc_matches_upto(
        &self,
        toks: Seq<Seq<char>>,
        fuzzy: bool,
        dist: int,
        d: int,
        imax: int,
    ) -> bool {
        exists|i: int| 0 <= i < imax && self.token_match(#[trigger] toks[i], fuzzy, dist, d)
    }

    /// Whether document `d` matches any query token: the match set takes the
    /// union over tokens.
    pub open spec fn doc_matches(
        &self,
        toks: Seq<Seq<char>>,
        fuzzy: bool,
        dist: int,
        d: int,
    ) -> bool {
        self.doc_matches_upto(toks, fuzzy, dist, d, toks.len() as int)
    }

    /// The ascending sequence of matching document ids below `nd`.
    pub open spec fn matched_upto(
        &self,
        toks: Seq<Seq<char>>,
        fuzzy: bool,
        dist: int,
        nd: int,
    ) -> Seq<usize>
        decreases nd,
    {
        if nd <= 0 {
            Seq::empty()
        } else {
            let prev = self.matched_upto(toks, fuzzy, dist, nd - 1);
            if self.doc_matches(toks, fuzzy, dist, nd - 1) {
                prev.push((nd - 1) as usize)
            } else {
                prev
            }
        }
    }

    /// The ascending sequence of all matching document ids.
    pub open spec fn matched_ids(&self, toks: Seq<Seq<char>>, fuzzy: bool, dist: int) -> Seq<
        usize,
    > {
        self.matched_upto(toks, fuzzy, dist, self.num_docs())
    }
}

/// A postings list records a positive count for `d` exactly when some
/// posting is for `d`, provided every count is at least one.
pub proof fn lemma_posting_freq_pos(ps: Seq<Posting>, d: int)
    requires
        forall|p: int| 0 <= p < ps.len() ==> (#[trigger] ps[p].freq) >= 1,
    ensures
        posting_freq(ps, d) > 0 <==> exists|p: int|
            0 <= p < ps.len() && ((#[trigger] ps[p].doc) as int) == d,
{
    let pk = posting_key();
    lemma_find_key_props(ps, pk, d);
    let f = find_key(ps, pk, d);
    if f != -1 {
        assert(pk(ps[f]) == ps[f].doc as int);
        assert(ps[f].doc as int == d);
    } else {
        if exists|p: int| 0 <= p < ps.len() && ((#[trigger] ps[p].doc) as int) == d {
            let w = choose|p: int| 0 <= p < ps.len() && ((#[trigger] ps[p].doc) as int) == d;
            assert(pk(ps[w]) == d);
        }
    }
}

/// Marks the documents of every posting in `ps`.
fn mark_postings(marks: &mut Vec<bool>, ps: &Vec<Posting>)
    requires
        forall|p: int|
            0 <= p < ps@.len() ==> (#[trigger] ps@[p].freq) >= 1 && (ps@[p].doc as int) < old(
                marks,
            )@.len(),
    ensures
        final(marks)@.len() == old(marks)@.len(),
        forall|d: int|
            0 <= d < old(marks)@.len() ==> final(marks)@[d] == (old(marks)@[d] || posting_freq(
                ps@,
                d,
            ) > 0),
{
    let mut p: usize = 0;
    while p < ps.len()
        invariant
            p <= ps@.len(),
            marks@.len() == old(marks)@.len(),
            forall|q: int|
                0 <= q < ps@.len() ==> (#[trigger] ps@[q].freq) >= 1 && (ps@[q].doc as int) < old(
                    marks,
                )@.len(),
            forall|d: int|
                0 <= d < old(marks)@.len() ==> marks@[d] == (old(marks)@[d] || exists|q: int|
                    0 <= q < p && ((#[trigger] ps@[q].doc) as int) == d),
        decreases ps@.len() - p,
    {
        proof {
            assert(ps@[p as int].freq >= 1);
        }
        let d = ps[p].doc;
        let ghost pre = marks@;
        marks.set(d, true);
        proof {
            assert forall|dd: int| 0 <= dd < old(marks)@.len() implies marks@[dd] == (old(
                marks,
            )@[dd] || exists|q: int| 0 <= q < p + 1 && ((#[trigger] ps@[q].doc) as int) == dd) by {
                if dd == d as int {
                    assert(ps@[p as int].doc as int == dd);
                } else {
                    assert(marks@[dd] == pre[dd]);
                    if exists|q: int| 0 <= q < p + 1 && ((#[trigger] ps@[q].doc) as int) == dd {
                        let w = choose|q: int|
                            0 <= q < p + 1 && ((#[trigger] ps@[q].doc) as int) == dd;
                        assert(w < p);
                    }
                }
            }
        }
        p = p + 1;
    }
    proof {
        assert forall|d: int| 0 <= d < old(marks)@.len() implies marks@[d] == (old(marks)@[d]
            || posting_freq(ps@, d) > 0) by {
            lemma_posting_freq_pos(ps@, d);
        }
    }
}

impl InvertedIndex {
    /// Finds every document matching the query: a document matches when it
    /// contains some query token, or, with `fuzzy`, some indexed term within
    /// edit distance `distance` of some query token. Returns the matching
    /// ids in ascending order.
    pub fn search(&self, query: &str, fuzzy: bool, distance: usize) -> (r: Vec<usize>)
        requires
            self.wf(),
        ensures
            r@ == self.matched_ids(text_tokens(query@), fuzzy, distance as int),
    {
        let ghost toks = text_tokens(query@);
        let ghost dist = distance as int;
        let q_tokens = tokenize_chars(query);
        let nd = self.doc_lengths.len();
        let mut marks: Vec<bool> = Vec::new();
        while marks.len() < nd
            invariant
                marks@.len() <= nd,
                forall|d: int| 0 <= d < marks@.len() ==> !(#[trigger] marks@[d]),
            decreases nd - marks@.len(),
        {
            marks.push(false);
        }
        let mut i: usize = 0;
        while i < q_tokens.len()
            invariant
                i <= q_tokens@.len(),
                self.wf(),
                toks == q_tokens.deep_view(),
                toks.len() == q_tokens@.len(),
                nd == self.num_docs(),
                marks@.len() == nd,
                dist == distance as int,
                forall|d: int|
                    0 <= d < nd ==> (#[trigger] marks@[d]) == self.doc_matches_upto(
                        toks,
                        fuzzy,
                        dist,
                        d,
                        i as int,
                    ),
            decreases q_tokens@.len() - i,
        {
            let ghost tv = toks[i as int];
            let ghost before = marks@;
            proof {
                assert(q_tokens@[i as int].deep_view() =~= q_tokens@[i as int]@);
            }
            match find_term_pos(&self.terms, &q_tokens[i]) {
                Some(j) => {
                    proof {
                        lemma_find_key_props(self.terms@, term_key(), tv);
                        assert(Self::postings_wf(self.terms@[j as int].postings@, self.num_docs()));
                    }
                    mark_postings(&mut marks, &self.terms[j].postings);
                    proof {
                        assert forall|d: int| 0 <= d < nd implies (#[trigger] marks@[d]) == (
                        before[d] || self.freq(tv, d) > 0) by {
                            assert(self.freq(tv, d) == posting_freq(
                                self.terms@[j as int].postings@,
                                d,
                            ));
                        }
                    }
                },
                None => {
                    proof {
                        assert forall|d: int| 0 <= d < nd implies (#[trigger] marks@[d]) == (
                        before[d] || self.freq(tv, d) > 0) by {
                            assert(self.freq(tv, d) == 0);
                        }
                    }
                },
            }
            if fuzzy {
                let ghost mid = marks@;
                let mut j: usize = 0;
                while j < self.terms.len()
                    invariant
                        j <= self.terms@.len(),
                        self.wf(),
                        nd == self.num_docs(),
                        marks@.len() == nd,
                        i < q_tokens@.len(),
                        toks == q_tokens.deep_view(),
                        toks.len() == q_tokens@.len(),
                        tv == toks[i as int],
                        tv == q_tokens@[i as int]@,
                        dist == distance as int,
                        mid.len() == nd,
                        forall|d: int|
                            0 <= d < nd ==> (#[trigger] marks@[d]) == (mid[d]
                                || self.fuzzy_match_upto(tv, dist, d, j as int)),
                    decreases self.terms@.len() - j,
                {
                    let ghost before_j = marks@;
                    let dd = edit_distance_chars(&q_tokens[i], &self.terms[j].term);
                    if dd <= distance {
                        proof {
                            assert(Self::postings_wf(
                                self.terms@[j as int].postings@,
                                self.num_docs(),
                            ));
                        }
                        mark_postings(&mut marks, &self.terms[j].postings);
                    }
                    proof {
                        assert forall|d: int| 0 <= d < nd implies (#[trigger] marks@[d]) == (mid[d]
                            || self.fuzzy_match_upto(tv, dist, d, j + 1)) by {
                            if self.fuzzy_match_upto(tv, dist, d, j + 1) {
                                let w = choose|w: int|
                                    0 <= w < j + 1 && edit_distance(
                                        tv,
                                        (#[trigger] self.terms@[w]).term@,
                                    ) <= dist && posting_freq(self.terms@[w].postings@, d) > 0;
                                if w < j {
                                    assert(self.fuzzy_match_upto(tv, dist, d, j as int));
                                }
                            }
                            if self.fuzzy_match_upto(tv, dist, d, j as int) {
                                assert(self.fuzzy_match_upto(tv, dist, d, j + 1));
                            }
                        }
                    }
                    j = j + 1;
                }
            }
            proof {
                assert forall|d: int| 0 <= d < nd implies (#[trigger] marks@[d])
                    == self.doc_matches_upto(toks, fuzzy, dist, d, i + 1) by {
                    assert(marks@[d] == (before[d] || self.token_match(tv, fuzzy, dist, d)));
                    if self.doc_matches_upto(toks, fuzzy, dist, d, i + 1) {
                        let w = choose|w: int|
                            0 <= w < i + 1 && self.token_match(#[trigger] toks[w], fuzzy, dist, d);
                        if w < i {
                            assert(self.doc_matches_upto(toks, fuzzy, dist, d, i as int));
                        }
                    }
                    if before[d] {
                        assert(self.doc_matches_upto(toks, fuzzy, dist, d, i as int));
                        let w = choose|w: int|
                            0 <= w < i && self.token_match(#[trigger] toks[w], fuzzy, dist, d);
                        assert(self.token_match(toks[w], fuzzy, dist, d) && 0 <= w < i + 1);
                        assert(self.doc_matches_upto(toks, fuzzy, dist, d, i + 1));
                    }
                    if self.token_match(tv, fuzzy, dist, d) {
                        assert(0 <= i < i + 1 && self.token_match(toks[i as int], fuzzy, dist, d));
                        assert(self.doc_matches_upto(toks, fuzzy, dist, d, i + 1));
                    }
                }
            }
            i = i + 1;
        }
        let mut r: Vec<usize> = Vec::new();
        let mut d: usize = 0;
        while d < nd
            invariant
                d <= nd,
                nd == self.num_docs(),
                marks@.len() == nd,
                toks.len() == q_tokens@.len(),
                forall|dd: int|
                    0 <= dd < nd ==> (#[trigger] marks@[dd]) == self.doc_matches_upto(
                        toks,
                        fuzzy,
                        dist,
                        dd,
                        toks.len() as int,
                    ),
                r@ == self.matched_upto(toks, fuzzy, dist, d as int),
            decreases nd - d,
        {
            if marks[d] {
                r.push(d);
            }
            d = d + 1;
        }
        r
    }
}

/// The sum of all documents' token counts, each count saturated at the
/// largest 32-bit value.
pub open spec fn sum_clamped(ls: Seq<usize>) -> int
    decreases ls.len(),
{
    if ls.len() == 0 {
        0
    } else {
        sum_clamped(ls.drop_last()) + clamp32(ls.last() as int)
    }
}

/// That sum saturated at a 56-bit bound, so that the common-denominator
/// BM25 arithmetic stays within 128 bits: the collection length BM25
/// normalizes with.
pub open spec fn total_clamped(ls: Seq<usize>) -> int {
    if sum_clamped(ls) > 0xffffffffffffff {
        0xffffffffffffff
    } else {
        sum_clamped(ls)
    }
}

/// The clamped sum is nonnegative and bounded by the count of entries
/// times the clamp.
pub proof fn lemma_sum_clamped_bounds(ls: Seq<usize>)
    ensures
        0 <= sum_clamped(ls) <= ls.len() * 0xffffffff,
    decreases ls.len(),
{
    if ls.len() == 0 {
    } else {
        lemma_sum_clamped_bounds(ls.drop_last());
    }
}

/// A well-formed postings list names at most `nd` documents: its entries
/// are distinct values below `nd`.
pub proof fn lemma_postings_le_docs(ps: Seq<Posting>, nd: int)
    requires
        InvertedIndex::postings_wf(ps, nd),
        0 <= nd,
    ensures
        ps.len() <= nd,
{
    let docs = ps.map_values(|p: Posting| p.doc as int);
    assert(docs.no_duplicates()) by {
        assert forall|i: int, j: int|
            0 <= i < docs.len() && 0 <= j < docs.len() && i != j implies docs[i] != docs[j] by {
            assert(ps[i].doc != ps[j].doc);
        }
    }
    docs.unique_seq_to_set();
    assert(docs.to_set().subset_of(set_int_range(0, nd))) by {
        assert forall|x: int| docs.to_set().contains(x) implies set_int_range(0, nd).contains(
            x,
        ) by {
            let w = choose|w: int| 0 <= w < docs.len() && docs[w] == x;
            assert(docs[w] == ps[w].doc as int);
            assert(ps[w].freq >= 1);
            assert(0 <= ps[w].doc < nd);
        }
    }
    lemma_int_range(0, nd);
    lemma_len_subset(docs.to_set(), set_int_range(0, nd));
}

impl InvertedIndex {
    /// The saturated total token count over all documents.
    pub fn total_len_clamped(&self) -> (r: u64)
        ensures
            r == total_clamped(self.doc_lengths@),
    {
        let mut acc: u128 = 0;
        let mut i: usize = 0;
        let n = self.doc_lengths.len();
        while i < n
            invariant
                i <= n,
                n == self.doc_lengths@.len(),
                acc == sum_clamped(self.doc_lengths@.take(i as int)),
                acc <= (i as int) * 0xffffffff,
            decreases n - i,
        {
            let l = self.doc_lengths[i];
            let lc: u128 = if l as u128 > 0xffffffff {
                0xffffffff
            } else {
                l as u128
            };
            proof {
                assert(self.doc_lengths@.take(i + 1).drop_last() =~= self.doc_lengths@.take(
                    i as int,
                ));
                assert(self.doc_lengths@.take(i + 1).last() == self.doc_lengths@[i as int]);
            }
            acc = acc + lc;
            i = i + 1;
        }
        proof {
            assert(self.doc_lengths@.take(n as int) =~= self.doc_lengths@);
        }
        if acc > 0xffffffffffffff {
            0xffffffffffffff
        } else {
            acc as u64
        }
    }

    /// One query term's BM25 contribution to document `d` in milli units:
    /// zero when the document lacks the term, otherwise the inverse document
    /// frequency times the normalized term frequency.
    pub open spec fn term_contribution(&self, t: Seq<char>, d: int, k1m: int, bm: int) -> int {
        if self.freq(t, d) > 0 {
            let idf = idf_milli(self.num_docs(), self.doc_count(t));
            let tfn = tf_norm_milli(
                self.freq(t, d),
                self.spec_len(d),
                total_clamped(self.doc_lengths@),
                self.num_docs(),
                k1m,
                bm,
            );
            div1000_trunc(idf * tfn)
        } else {
            0
        }
    }

    /// The unclamped BM25 score: the sum of the contributions of all query
    /// tokens, duplicates included.
    pub open spec fn bm25_sum(&self, toks: Seq<Seq<char>>, d: int, k1m: int, bm: int) -> int
        decreases toks.len(),
    {
        if toks.len() == 0 {
            0
        } else {
            self.bm25_sum(toks.drop_last(), d, k1m, bm) + self.term_contribution(
                toks.last(),
                d,
                k1m,
                bm,
            )
        }
    }

    /// The BM25 score of document `d` for the given query tokens, in milli
    /// units, saturated into the signed 64-bit range.
    pub open spec fn bm25_milli(&self, toks: Seq<Seq<char>>, d: int, k1m: int, bm: int) -> int {
        clamp_i64(self.bm25_sum(toks, d, k1m, bm))
    }

    /// Computes the BM25 score of a document for a tokenized query: for each
    /// query token the document contains, the inverse document frequency
    /// times the saturation-normalized term frequency, summed in milli
    /// units. Tokens absent from the document contribute exactly zero.
    pub fn calculate_bm25_score(
        &self,
        doc_id: usize,
        query_terms: &Vec<Vec<char>>,
        k1_milli: u64,
        b_milli: u64,
    ) -> (score: i64)
        requires
            self.wf(),
            k1_milli <= 131072,
            b_milli <= 1000,
        ensures
            score == self.bm25_milli(
                query_terms.deep_view(),
                doc_id as int,
                k1_milli as int,
                b_milli as int,
            ),
    {
        let ghost toks = query_terms.deep_view();
        let ghost k1g = k1_milli as int;
        let ghost bg = b_milli as int;
        let total = self.total_len_clamped();
        let mut acc: i128 = 0;
        let mut i: usize = 0;
        while i < query_terms.len()
            invariant
                i <= query_terms@.len(),
                self.wf(),
                k1_milli <= 131072,
                b_milli <= 1000,
                k1g == k1_milli as int,
                bg == b_milli as int,
                toks == query_terms.deep_view(),
                toks.len() == query_terms@.len(),
                total == total_clamped(self.doc_lengths@),
                acc == self.bm25_sum(toks.take(i as int), doc_id as int, k1g, bg),
                -((i as int) * 17592186044416) <= acc <= (i as int) * 17592186044416,
            decreases query_terms@.len() - i,
        {
            let ghost tv = toks[i as int];
            proof {
                assert(query_terms@[i as int].deep_view() =~= query_terms@[i as int]@);
                assert(toks.take(i + 1).drop_last() =~= toks.take(i as int));
                assert(toks.take(i + 1).last() == tv);
            }
            let ghost contribution = self.term_contribution(tv, doc_id as int, k1g, bg);
            match find_term_pos(&self.terms, &query_terms[i]) {
                Some(j) => {
                    proof {
                        lemma_find_key_props(self.terms@, term_key(), tv);
                        assert(self.terms@[j as int].term@ == tv);
                        assert(Self::postings_wf(self.terms@[j as int].postings@, self.num_docs()));
                    }
                    match find_posting_pos(&self.terms[j].postings, doc_id) {
                        Some(pi) => {
                            proof {
                                lemma_find_key_props(
                                    self.terms@[j as int].postings@,
                                    posting_key(),
                                    doc_id as int,
                                );
                                let pk = posting_key();
                                assert(pk(self.terms@[j as int].postings@[pi as int])
                                    == self.terms@[j as int].postings@[pi as int].doc as int);
                                assert(self.terms@[j as int].postings@[pi as int].doc == doc_id);
                                assert(doc_id < self.num_docs());
                                lemma_postings_le_docs(
                                    self.terms@[j as int].postings@,
                                    self.num_docs(),
                                );
                            }
                            let tf = self.terms[j].postings[pi].freq;
                            let len = self.doc_lengths[doc_id];
                            let nt = self.terms[j].postings.len();
                            let idf = idf_milli_exec(self.doc_lengths.len(), nt);
                            let tfn = tf_norm_milli_exec(
                                tf,
                                len,
                                total,
                                self.doc_lengths.len(),
                                k1_milli,
                                b_milli,
                            );
                            let contr = contribution_scaled(idf, tfn);
                            proof {
                                assert(self.freq(tv, doc_id as int) == tf);
                                assert(tf >= 1);
                                assert(self.doc_count(tv) == nt);
                                assert(self.spec_len(doc_id as int) == len);
                                assert(idf == idf_milli(self.num_docs(), nt as int));
                                assert(tfn == tf_norm_milli(
                                    tf as int,
                                    len as int,
                                    total as int,
                                    self.num_docs(),
                                    k1g,
                                    bg,
                                ));
                                assert(contribution == contr);
                            }
                            acc = acc + contr;
                        },
                        None => {
                            proof {
                                assert(self.freq(tv, doc_id as int) == 0);
                                assert(contribution == 0);
                            }
                        },
                    }
                },
                None => {
                    proof {
                        assert(self.freq(tv, doc_id as int) == 0);
                        assert(contribution == 0);
                    }
                },
            }
            proof {
                assert(self.bm25_sum(toks.take(i + 1), doc_id as int, k1g, bg) == self.bm25_sum(
                    toks.take(i as int),
                    doc_id as int,
                    k1g,
                    bg,
                ) + contribution);
            }
            i = i + 1;
        }
        proof {
            assert(toks.take(toks.len() as int) =~= toks);
        }
        if acc > i64::MAX as i128 {
            i64::MAX
        } else if acc < i64::MIN as i128 {
            i64::MIN
        } else {
            acc as i64
        }
    }
}

} // verus!

//! The query engine: owns the document store, the inverted index and the
//! attribute indexes, and answers ranked, filtered, paginated queries.
//!
//! Loading replaces all state at once; every query then reads the built
//! structures without mutating them.

use vstd::prelude::*;
use crate::assoc::{
    find_key, lemma_find_key_at, lemma_find_key_none, lemma_find_key_props, lemma_find_key_push,
    lemma_find_key_update,
};
use crate::index::{count_of, total_clamped, InvertedIndex, term_key};
use vstd::arithmetic::div_mod::{lemma_div_by_multiple, lemma_div_is_ordered};
use crate::facets::{acc_count, accs_wf, bump_acc, lex_lt, FacetAcc};
use crate::ranking::clamp_i64;
use crate::sorting::{rank_le, rank_le_at, sort_scored, Scored};
use crate::text::{chars_eq, chars_to_string, clone_chars, contains_chars, is_prefix,
    is_prefix_chars, is_substring, lemma_lex_total, lemma_lex_trans, lex_le, lex_le_chars,
    lower_seq, lower_text, str_chars, text_tokens, tokenize_chars};
use vstd::seq_lib::{to_multiset_build, to_multiset_insert};
use vstd::relations::sorted_by;

verus! {

/// A document as loaded into the engine. Its `score` field is output only:
/// each search result carries the computed score there, in milli units
/// (thousandths).
pub struct SearchDocument {
    pub id: String,
    pub title: String,
    pub content: String,
    pub tags: Vec<String>,
    pub category: String,
    pub score: i64,
    pub metadata: Option<Vec<(String, String)>>,
}

/// One boost entry: when `field` names the title pseudo-field, the
/// document's category, or one of its tags, the document's score is
/// multiplied by `factor_milli` thousandths.
pub struct BoostEntry {
    pub field: String,
    pub factor_milli: u64,
}

/// A parsed search request.
pub struct SearchQuery {
    pub query: String,
    pub filters: Option<SearchFilters>,
    pub limit: usize,
    pub offset: usize,
    pub boost_fields: Option<Vec<BoostEntry>>,
    pub fuzzy: bool,
    pub fuzzy_distance: Option<usize>,
}

/// Filters applied between matching and pagination. The date range is
/// accepted in the configuration but no date filtering is applied; the
/// score threshold is applied after scoring, in milli units.
pub struct SearchFilters {
    pub categories: Option<Vec<String>>,
    pub tags: Option<Vec<String>>,
    pub date_range: Option<DateRange>,
    pub score_threshold: Option<i64>,
}

/// An inclusive date range, kept as opaque strings.
pub struct DateRange {
    pub from: String,
    pub to: String,
}

/// One facet value with the number of scored documents carrying it.
pub struct FacetEntry {
    pub value: String,
    pub count: usize,
}

/// Facet counts over the scored, pre-pagination result set, each dimension
/// ordered by value.
pub struct FacetCounts {
    pub categories: Vec<FacetEntry>,
    pub tags: Vec<FacetEntry>,
}

/// One page of results: the requested slice of the ranked documents, the
/// total match count before pagination, and facets when filters were given.
pub struct SearchResult {
    pub documents: Vec<SearchDocument>,
    pub total: usize,
    pub facets: Option<FacetCounts>,
}

/// All documents carrying one attribute value.
pub struct Bucket {
    pub value: String,
    pub ids: Vec<usize>,
}

/// The key of a bucket: its attribute value.
pub open spec fn bucket_key() -> spec_fn(Bucket) -> Seq<char> {
    |b: Bucket| b.value@
}

/// Whether an id list mentions document `i`.
pub open spec fn ids_contain(ids: Seq<usize>, i: int) -> bool {
    exists|k: int| 0 <= k < ids.len() && ((#[trigger] ids[k]) as int) == i
}

/// Whether the bucket for value `v` mentions document `i`.
pub open spec fn bucket_member(bs: Seq<Bucket>, v: Seq<char>, i: int) -> bool {
    let f = find_key(bs, bucket_key(), v);
    f != -1 && ids_contain(bs[f].ids@, i)
}

/// Whether document `d` carries tag `v`.
pub open spec fn doc_has_tag(d: SearchDocument, v: Seq<char>) -> bool {
    exists|k: int| 0 <= k < d.tags@.len() && (#[trigger] d.tags@[k])@ == v
}

/// The tokens of a tag list, in order.
pub open spec fn tags_tokens(tags: Seq<Seq<char>>) -> Seq<Seq<char>>
    decreases tags.len(),
{
    if tags.len() == 0 {
        Seq::empty()
    } else {
        tags_tokens(tags.drop_last()) + text_tokens(tags.last())
    }
}

/// Every token of a document: title tokens, then content tokens, then the
/// tokens of each tag in order.
pub open spec fn doc_tokens(d: SearchDocument) -> Seq<Seq<char>> {
    text_tokens(d.title@) + text_tokens(d.content@) + tags_tokens(d.tags.deep_view())
}

/// The category index is sound and complete for `docs`: bucket values are
/// distinct, every listed id carries the bucket's value, and every document
/// is listed under its category.
pub open spec fn cat_wf(bs: Seq<Bucket>, docs: Seq<SearchDocument>) -> bool {
    &&& (forall|a: int, b: int|
        0 <= a < b < bs.len() ==> (#[trigger] bs[a].value@) != (#[trigger] bs[b].value@))
    &&& (forall|j: int, k: int|
        #![trigger bs[j].ids@[k]]
        0 <= j < bs.len() && 0 <= k < bs[j].ids@.len() ==> (bs[j].ids@[k] as int) < docs.len()
            && docs[bs[j].ids@[k] as int].category@ == bs[j].value@)
    &&& (forall|i: int| 0 <= i < docs.len() ==> bucket_member(bs, (#[trigger] docs[i]).category@, i))
}

/// The tag index is sound and complete for `docs`.
pub open spec fn tag_wf(bs: Seq<Bucket>, docs: Seq<SearchDocument>) -> bool {
    &&& (forall|a: int, b: int|
        0 <= a < b < bs.len() ==> (#[trigger] bs[a].value@) != (#[trigger] bs[b].value@))
    &&& (forall|j: int, k: int|
        #![trigger bs[j].ids@[k]]
        0 <= j < bs.len() && 0 <= k < bs[j].ids@.len() ==> (bs[j].ids@[k] as int) < docs.len()
            && doc_has_tag(docs[bs[j].ids@[k] as int], bs[j].value@))
    &&& (forall|i: int, k: int|
        #![trigger docs[i].tags@[k]]
        0 <= i < docs.len() && 0 <= k < docs[i].tags@.len() ==> bucket_member(
            bs,
            docs[i].tags@[k]@,
            i,
        ))
}

/// Tests two strings for equality of their character sequences.
fn string_eq(a: &String, b: &String) -> (r: bool)
    ensures
        r == (a@ == b@),
{
    a.eq(b)
}

/// Finds the bucket holding `v`, if any.
fn find_bucket_pos(bs: &Vec<Bucket>, v: &String) -> (r: Option<usize>)
    ensures
        match r {
            Some(j) => find_key(bs@, bucket_key(), v@) == j,
            None => find_key(bs@, bucket_key(), v@) == -1,
        },
{
    let ghost k = bucket_key();
    let mut i: usize = 0;
    while i < bs.len()
        invariant
            i <= bs.len(),
            k == bucket_key(),
            forall|j: int| 0 <= j < i ==> k(bs@[j]) != v@,
        decreases bs.len() - i,
    {
        proof {
            assert(k(bs@[i as int]) == bs@[i as int].value@);
        }
        if string_eq(&bs[i].value, v) {
            proof {
                lemma_find_key_at(bs@, k, v@, i as int);
            }
            return Some(i);
        }
        i = i + 1;
    }
    proof {
        lemma_find_key_none(bs@, k, v@);
    }
    None
}

/// Adds document `id` to the bucket for `value`, creating the bucket if the
/// value is new. Every other bucket membership is unchanged.
fn bucket_insert(bs: &mut Vec<Bucket>, value: String, id: usize)
    requires
        forall|a: int, b: int|
            0 <= a < b < old(bs)@.len() ==> (#[trigger] old(bs)@[a].value@)
                != (#[trigger] old(bs)@[b].value@),
    ensures
        forall|a: int, b: int|
            0 <= a < b < final(bs)@.len() ==> (#[trigger] final(bs)@[a].value@) != (
            #[trigger] final(bs)@[b].value@),
        forall|v: Seq<char>, x: int| #[trigger]
            bucket_member(final(bs)@, v, x) <==> (bucket_member(old(bs)@, v, x) || (v == value@
                && x == id)),
        forall|j: int, k: int|
            #![trigger final(bs)@[j].ids@[k]]
            0 <= j < final(bs)@.len() && 0 <= k < final(bs)@[j].ids@.len() ==> ((exists|j2: int,
                k2: int|
                0 <= j2 < old(bs)@.len() && 0 <= k2 < old(bs)@[j2].ids@.len()
                    && final(bs)@[j].ids@[k] == old(bs)@[j2].ids@[k2]
                    && final(bs)@[j].value@ == old(bs)@[j2].value@) || (final(bs)@[j].ids@[k] == id
                && final(bs)@[j].value@ == value@)),
{
    let ghost bk = bucket_key();
    let ghost pre = bs@;
    match find_bucket_pos(bs, &value) {
        Some(j) => {
            proof {
                lemma_find_key_props(pre, bk, value@);
                assert(bk(pre[j as int]) == pre[j as int].value@);
            }
            bs[j].ids.push(id);
            proof {
                let e2 = bs@[j as int];
                assert(bs@ == pre.update(j as int, e2));
                assert(e2.value@ == value@);
                assert(e2.ids@ == pre[j as int].ids@.push(id));
                assert forall|a: int, b: int|
                    0 <= a < b < bs@.len() implies (#[trigger] bs@[a].value@) != (
                #[trigger] bs@[b].value@) by {
                    assert(bs@[a].value@ == pre[a].value@);
                    assert(bs@[b].value@ == pre[b].value@);
                }
                assert forall|v: Seq<char>, x: int| #[trigger]
                    bucket_member(bs@, v, x) <==> (bucket_member(pre, v, x) || (v == value@ && x
                        == id)) by {
                    lemma_find_key_update(pre, bk, v, j as int, e2);
                    lemma_find_key_props(pre, bk, v);
                    let f = find_key(pre, bk, v);
                    if f != -1 {
                        assert(bk(pre[f]) == pre[f].value@);
                        if f == j {
                            assert(v == value@);
                            assert forall|x2: int|
                                ids_contain(e2.ids@, x2) <==> (ids_contain(pre[f].ids@, x2) || x2
                                    == id) by {
                                if ids_contain(e2.ids@, x2) {
                                    let w = choose|w: int|
                                        0 <= w < e2.ids@.len() && ((#[trigger] e2.ids@[w]) as int)
                                            == x2;
                                    if w < pre[f].ids@.len() {
                                        assert(ids_contain(pre[f].ids@, x2));
                                    }
                                }
                                if ids_contain(pre[f].ids@, x2) {
                                    let w = choose|w: int|
                                        0 <= w < pre[f].ids@.len() && ((#[trigger] pre[f].ids@[w])
                                            as int) == x2;
                                    assert(e2.ids@[w] as int == x2);
                                }
                                if x2 == id {
                                    assert(e2.ids@[pre[f].ids@.len() as int] as int == x2);
                                }
                            }
                        } else {
                            assert(bs@[f] == pre[f]);
                            assert(pre[f].value@ != value@);
                        }
                    } else {
                        assert(v != value@);
                    }
                }
            }
        },
        None => {
            proof {
                lemma_find_key_props(pre, bk, value@);
            }
            let mut ids: Vec<usize> = Vec::new();
            ids.push(id);
            bs.push(Bucket { value, ids });
            proof {
                let e3 = bs@[pre.len() as int];
                assert(bs@ == pre.push(e3));
                assert(e3.ids@ =~= seq![id]);
                assert forall|a: int, b: int|
                    0 <= a < b < bs@.len() implies (#[trigger] bs@[a].value@) != (
                #[trigger] bs@[b].value@) by {
                    if b < pre.len() {
                        assert(bs@[a].value@ == pre[a].value@);
                        assert(bs@[b].value@ == pre[b].value@);
                    } else {
                        assert(bs@[a] == pre[a]);
                        assert(bk(pre[a]) == pre[a].value@);
                    }
                }
                assert forall|v: Seq<char>, x: int| #[trigger]
                    bucket_member(bs@, v, x) <==> (bucket_member(pre, v, x) || (v == value@ && x
                        == id)) by {
                    lemma_find_key_push(pre, bk, v, e3);
                    assert(bk(e3) == e3.value@);
                    lemma_find_key_props(pre, bk, v);
                    let f = find_key(pre, bk, v);
                    if f != -1 {
                        assert(bk(pre[f]) == pre[f].value@);
                        assert(find_key(bs@, bk, v) == f);
                        assert(bs@[f] == pre[f]);
                        assert(v != value@);
                    } else if v == value@ {
                        assert(find_key(bs@, bk, v) == pre.len() as int);
                        assert forall|x2: int| ids_contain(e3.ids@, x2) <==> x2 == id by {
                            if ids_contain(e3.ids@, x2) {
                                let w = choose|w: int|
                                    0 <= w < e3.ids@.len() && ((#[trigger] e3.ids@[w]) as int)
                                        == x2;
                            }
                            if x2 == id {
                                assert(e3.ids@[0] as int == x2);
                            }
                        }
                        assert(!bucket_member(pre, v, x));
                    } else {
                        assert(find_key(bs@, bk, v) == -1);
                    }
                }
            }
        },
    }
}

/// Field-by-field agreement of two documents, the clone's score replaced.
pub open spec fn doc_like(a: SearchDocument, b: SearchDocument, score: int) -> bool {
    &&& a.id@ == b.id@
    &&& a.title@ == b.title@
    &&& a.content@ == b.content@
    &&& a.tags@ == b.tags@
    &&& a.category@ == b.category@
    &&& a.score == score
    &&& meta_like(a.metadata, b.metadata)
}

/// Agreement of two metadata fields.
pub open spec fn meta_like(
    a: Option<Vec<(String, String)>>,
    b: Option<Vec<(String, String)>>,
) -> bool {
    match a {
        Option::None => b is None,
        Option::Some(av) => b is Some && av@ == b->Some_0@,
    }
}

/// Copies a vector of strings.
fn clone_string_vec(v: &Vec<String>) -> (r: Vec<String>)
    ensures
        r@ == v@,
{
    let mut r: Vec<String> = Vec::new();
    let mut i: usize = 0;
    while i < v.len()
        invariant
            i <= v.len(),
            r@ == v@.take(i as int),
        decreases v.len() - i,
    {
        r.push(v[i].clone());
        proof {
            assert(v@.take(i + 1) =~= v@.take(i as int).push(v@[i as int]));
        }
        i = i + 1;
    }
    proof {
        assert(v@.take(v@.len() as int) =~= v@);
    }
    r
}

/// Copies a metadata mapping.
fn clone_meta(m: &Option<Vec<(String, String)>>) -> (r: Option<Vec<(String, String)>>)
    ensures
        meta_like(r, *m),
{
    match m {
        Option::None => Option::None,
        Option::Some(v) => {
            let mut r: Vec<(String, String)> = Vec::new();
            let mut i: usize = 0;
            while i < v.len()
                invariant
                    i <= v.len(),
                    r@ == v@.take(i as int),
                decreases v.len() - i,
            {
                let key = v[i].0.clone();
                let val = v[i].1.clone();
                r.push((key, val));
                proof {
                    assert(v@.take(i + 1) =~= v@.take(i as int).push(v@[i as int]));
                }
                i = i + 1;
            }
            proof {
                assert(v@.take(v@.len() as int) =~= v@);
            }
            Option::Some(r)
        },
    }
}

/// Copies a document, overwriting its score with the computed one.
fn clone_doc(d: &SearchDocument, score: i64) -> (r: SearchDocument)
    ensures
        doc_like(r, *d, score as int),
{
    SearchDocument {
        id: d.id.clone(),
        title: d.title.clone(),
        content: d.content.clone(),
        tags: clone_string_vec(&d.tags),
        category: d.category.clone(),
        score,
        metadata: clone_meta(&d.metadata),
    }
}

/// Collects every token of a document: title, content, then each tag.
fn doc_token_list(d: &SearchDocument) -> (r: Vec<Vec<char>>)
    ensures
        r.deep_view() == doc_tokens(*d),
{
    let mut r = tokenize_chars(d.title.as_str());
    let mut c = tokenize_chars(d.content.as_str());
    let ghost head = text_tokens(d.title@) + text_tokens(d.content@);
    r.append(&mut c);
    proof {
        assert(r.deep_view() =~~= head);
        assert(tags_tokens(d.tags.deep_view().take(0)) =~= Seq::<Seq<char>>::empty());
        assert(r.deep_view() =~~= head + tags_tokens(d.tags.deep_view().take(0)));
    }
    let mut k: usize = 0;
    while k < d.tags.len()
        invariant
            k <= d.tags@.len(),
            head == text_tokens(d.title@) + text_tokens(d.content@),
            r.deep_view() == head + tags_tokens(d.tags.deep_view().take(k as int)),
        decreases d.tags@.len() - k,
    {
        let ghost pre_deep = r.deep_view();
        let mut t = tokenize_chars(d.tags[k].as_str());
        let ghost t_deep = t.deep_view();
        r.append(&mut t);
        proof {
            let tv = d.tags.deep_view();
            assert(d.tags@[k as int].deep_view() =~= d.tags@[k as int]@);
            assert(tv.take(k + 1).drop_last() =~= tv.take(k as int));
            assert(tv.take(k + 1).last() == tv[k as int]);
            assert(r.deep_view() =~~= pre_deep + t_deep);
            assert(t_deep == text_tokens(tv[k as int]));
            assert(r.deep_view() =~~= head + tags_tokens(tv.take(k + 1)));
        }
        k = k + 1;
    }
    proof {
        assert(d.tags.deep_view().take(d.tags.deep_view().len() as int) =~= d.tags.deep_view());
        assert(r.deep_view() =~~= doc_tokens(*d));
    }
    r
}

/// The search engine: one generation of documents with the text and
/// attribute indexes built from them.
pub struct SearchOptimizer {
    pub documents: Vec<SearchDocument>,
    pub index: InvertedIndex,
    pub category_index: Vec<Bucket>,
    pub tag_index: Vec<Bucket>,
}

impl SearchOptimizer {
    /// The engine invariant: the inverted index records exactly the token
    /// counts of the loaded documents, and the attribute indexes list
    /// exactly the documents carrying each category and tag value.
    pub open spec fn wf(&self) -> bool {
        &&& self.index.wf()
        &&& self.index.num_docs() == self.documents@.len()
        &&& (forall|t: Seq<char>, d: int|
            0 <= d < self.documents@.len() ==> #[trigger] self.index.freq(t, d) == count_of(
                doc_tokens(self.documents@[d]),
                t,
            ))
        &&& (forall|d: int|
            0 <= d < self.documents@.len() ==> #[trigger] self.index.spec_len(d) == doc_tokens(
                self.documents@[d],
            ).len())
        &&& cat_wf(self.category_index@, self.documents@)
        &&& tag_wf(self.tag_index@, self.documents@)
    }

    /// An empty engine.
    pub fn new() -> (r: Self)
        ensures
            r.wf(),
            r.documents@.len() == 0,
            r.index.terms@.len() == 0,
            r.category_index@.len() == 0,
            r.tag_index@.len() == 0,
    {
        SearchOptimizer {
            documents: Vec::new(),
            index: InvertedIndex::new(),
            category_index: Vec::new(),
            tag_index: Vec::new(),
        }
    }

    /// Resets the engine to the state of a freshly constructed one.
    pub fn clear(&mut self)
        ensures
            final(self).wf(),
            final(self).documents@.len() == 0,
            final(self).index.terms@.len() == 0,
            final(self).category_index@.len() == 0,
            final(self).tag_index@.len() == 0,
    {
        self.documents = Vec::new();
        self.index = InvertedIndex::new();
        self.category_index = Vec::new();
        self.tag_index = Vec::new();
    }

    /// Replaces all engine state with the given documents: document `i` of
    /// the input becomes internal id `i`, its title, content and tags are
    /// tokenized into the inverted index, and its category and tags fill
    /// the attribute indexes. Returns how many documents were loaded.
    pub fn load_documents(&mut self, documents: Vec<SearchDocument>) -> (count: usize)
        ensures
            final(self).wf(),
            final(self).documents@ == documents@,
            count == documents@.len(),
    {
        self.documents = documents;
        self.index = InvertedIndex::new();
        self.category_index = Vec::new();
        self.tag_index = Vec::new();
        let ghost docs = self.documents@;
        let n = self.documents.len();
        proof {
            assert forall|t: Seq<char>, d: int| #[trigger] self.index.freq(t, d) == 0 by {
                assert(self.index.terms@ =~= Seq::<crate::index::TermEntry>::empty());
                assert(find_key(self.index.terms@, term_key(), t) == -1);
            }
            assert(docs.take(0) =~= Seq::<SearchDocument>::empty());
        }
        let mut i: usize = 0;
        while i < n
            invariant
                i <= n,
                n == docs.len(),
                self.documents@ == docs,
                self.index.wf(),
                self.index.num_docs() == i,
                forall|t: Seq<char>, d: int|
                    0 <= d < i ==> #[trigger] self.index.freq(t, d) == count_of(
                        doc_tokens(docs[d]),
                        t,
                    ),
                forall|t: Seq<char>, d: int|
                    i <= d ==> #[trigger] self.index.freq(t, d) == 0,
                forall|d: int|
                    0 <= d < i ==> #[trigger] self.index.spec_len(d) == doc_tokens(docs[d]).len(),
                cat_wf(self.category_index@, docs.take(i as int)),
                tag_wf(self.tag_index@, docs.take(i as int)),
            decreases n - i,
        {
            let ghost pre_index = self.index;
            let toks = doc_token_list(&self.documents[i]);
            self.index.add_document(i, &toks);
            proof {
                assert forall|t: Seq<char>, d: int|
                    0 <= d < i + 1 implies #[trigger] self.index.freq(t, d) == count_of(
                    doc_tokens(docs[d]),
                    t,
                ) by {
                    if d == i {
                        assert(self.index.freq(t, d) == count_of(toks.deep_view(), t));
                    } else {
                        assert(self.index.freq(t, d) == pre_index.freq(t, d));
                    }
                }
                assert forall|t: Seq<char>, d: int|
                    i + 1 <= d implies #[trigger] self.index.freq(t, d) == 0 by {
                    assert(self.index.freq(t, d) == pre_index.freq(t, d));
                }
            }
            let ghost pre_cat = self.category_index@;
            let cat = self.documents[i].category.clone();
            bucket_insert(&mut self.category_index, cat, i);
            proof {
                let bs = self.category_index@;
                let di = docs.take(i + 1);
                assert(di.drop_last() =~= docs.take(i as int));
                assert forall|j: int, k: int|
                    #![trigger bs[j].ids@[k]]
                    0 <= j < bs.len() && 0 <= k < bs[j].ids@.len() implies (bs[j].ids@[k] as int)
                    < di.len() && di[bs[j].ids@[k] as int].category@ == bs[j].value@ by {
                    assert(0 <= j < bs.len() && 0 <= k < bs[j].ids@.len());
                }
                assert forall|x: int| 0 <= x < di.len() implies bucket_member(
                    bs,
                    (#[trigger] di[x]).category@,
                    x,
                ) by {
                    if x < i {
                        assert(bucket_member(pre_cat, docs.take(i as int)[x].category@, x));
                        assert(di[x] == docs.take(i as int)[x]);
                    } else {
                        assert(di[x] == docs[i as int]);
                        assert(bucket_member(bs, docs[i as int].category@, i as int));
                    }
                }
                assert(cat_wf(bs, di));
            }
            let mut k: usize = 0;
            let nt = self.documents[i].tags.len();
            let ghost idx_snap = self.index;
            let ghost cat_snap = self.category_index@;
            proof {
                assert forall|x: int, kk: int|
                    #![trigger docs[x].tags@[kk]]
                    0 <= x < i && 0 <= kk < docs[x].tags@.len() implies bucket_member(
                    self.tag_index@,
                    docs[x].tags@[kk]@,
                    x,
                ) by {
                    assert(docs.take(i as int)[x] == docs[x]);
                    assert(docs.take(i as int)[x].tags@[kk] == docs[x].tags@[kk]);
                }
                assert forall|j: int, kk: int|
                    #![trigger self.tag_index@[j].ids@[kk]]
                    0 <= j < self.tag_index@.len() && 0 <= kk
                        < self.tag_index@[j].ids@.len() implies (self.tag_index@[j].ids@[kk]
                    as int) < i + 1 && doc_has_tag(
                    docs[self.tag_index@[j].ids@[kk] as int],
                    self.tag_index@[j].value@,
                ) by {
                    assert(0 <= j < self.tag_index@.len() && 0 <= kk
                        < self.tag_index@[j].ids@.len());
                    let id = self.tag_index@[j].ids@[kk] as int;
                    assert(docs.take(i as int)[id] == docs[id]);
                }
            }
            while k < nt
                invariant
                    k <= nt,
                    i < n,
                    n == docs.len(),
                    self.documents@ == docs,
                    self.index == idx_snap,
                    self.category_index@ == cat_snap,
                    nt == docs[i as int].tags@.len(),
                    forall|a: int, b: int|
                        0 <= a < b < self.tag_index@.len() ==> (
                        #[trigger] self.tag_index@[a].value@) != (
                        #[trigger] self.tag_index@[b].value@),
                    forall|j: int, kk: int|
                        #![trigger self.tag_index@[j].ids@[kk]]
                        0 <= j < self.tag_index@.len() && 0 <= kk < self.tag_index@[j].ids@.len()
                            ==> (self.tag_index@[j].ids@[kk] as int) < i + 1 && doc_has_tag(
                            docs[self.tag_index@[j].ids@[kk] as int],
                            self.tag_index@[j].value@,
                        ),
                    forall|x: int, kk: int|
                        #![trigger docs[x].tags@[kk]]
                        0 <= x < i && 0 <= kk < docs[x].tags@.len() ==> bucket_member(
                            self.tag_index@,
                            docs[x].tags@[kk]@,
                            x,
                        ),
                    forall|kk: int|
                        0 <= kk < k ==> bucket_member(
                            self.tag_index@,
                            (#[trigger] docs[i as int].tags@[kk])@,
                            i as int,
                        ),
                decreases nt - k,
            {
                let ghost pre_tag = self.tag_index@;
                let tagv = self.documents[i].tags[k].clone();
                bucket_insert(&mut self.tag_index, tagv, i);
                proof {
                    let bs = self.tag_index@;
                    assert forall|j: int, kk: int|
                        #![trigger bs[j].ids@[kk]]
                        0 <= j < bs.len() && 0 <= kk < bs[j].ids@.len() implies (bs[j].ids@[kk]
                        as int) < i + 1 && doc_has_tag(
                        docs[bs[j].ids@[kk] as int],
                        bs[j].value@,
                    ) by {
                        assert(0 <= j < bs.len() && 0 <= kk < bs[j].ids@.len());
                        assert(docs[i as int].tags@[k as int]@ == docs[i as int].tags@[k as int]@);
                    }
                }
                k = k + 1;
            }
            proof {
                let bs = self.tag_index@;
                let di = docs.take(i + 1);
                assert(di.drop_last() =~= docs.take(i as int));
                assert forall|j: int, kk: int|
                    #![trigger bs[j].ids@[kk]]
                    0 <= j < bs.len() && 0 <= kk < bs[j].ids@.len() implies (bs[j].ids@[kk] as int)
                    < di.len() && doc_has_tag(di[bs[j].ids@[kk] as int], bs[j].value@) by {
                    assert(0 <= j < bs.len() && 0 <= kk < bs[j].ids@.len());
                    let id = bs[j].ids@[kk] as int;
                    assert(di[id] == docs[id]);
                }
                assert forall|x: int, kk: int|
                    #![trigger di[x].tags@[kk]]
                    0 <= x < di.len() && 0 <= kk < di[x].tags@.len() implies bucket_member(
                    bs,
                    di[x].tags@[kk]@,
                    x,
                ) by {
                    assert(di[x] == docs[x]);
                    if x < i {
                        assert(bucket_member(bs, docs[x].tags@[kk]@, x));
                    } else {
                        assert(bucket_member(bs, docs[i as int].tags@[kk]@, i as int));
                    }
                }
                assert(tag_wf(bs, di));
            }
            i = i + 1;
        }
        proof {
            assert(docs.take(n as int) =~= docs);
        }
        n
    }
}

/// Whether one of the requested values is the given one.
pub open spec fn matches_any(vals: Seq<String>, v: Seq<char>) -> bool {
    exists|k: int| 0 <= k < vals.len() && (#[trigger] vals[k])@ == v
}

/// Whether document `d` passes the category and tag filters: within one
/// dimension the requested values are alternatives, and both dimensions
/// must hold when both are present.
pub open spec fn passes_filters(docs: Seq<SearchDocument>, f: SearchFilters, d: int) -> bool {
    &&& (match f.categories {
        Option::Some(cs) => matches_any(cs@, docs[d].category@),
        Option::None => true,
    })
    &&& (match f.tags {
        Option::Some(ts) => exists|k: int|
            0 <= k < ts@.len() && doc_has_tag(docs[d], (#[trigger] ts@[k])@),
        Option::None => true,
    })
}

/// The subsequence of `ids` passing the filters, in order.
pub open spec fn filtered_ids_rec(
    docs: Seq<SearchDocument>,
    f: SearchFilters,
    ids: Seq<usize>,
) -> Seq<usize>
    decreases ids.len(),
{
    if ids.len() == 0 {
        Seq::empty()
    } else {
        let prev = filtered_ids_rec(docs, f, ids.drop_last());
        if passes_filters(docs, f, ids.last() as int) {
            prev.push(ids.last())
        } else {
            prev
        }
    }
}

/// In a sound and complete category index, bucket membership is exactly
/// carrying the category.
proof fn lemma_cat_member_iff(bs: Seq<Bucket>, docs: Seq<SearchDocument>, v: Seq<char>, x: int)
    requires
        cat_wf(bs, docs),
    ensures
        bucket_member(bs, v, x) <==> (0 <= x < docs.len() && docs[x].category@ == v),
{
    let bk = bucket_key();
    lemma_find_key_props(bs, bk, v);
    let f = find_key(bs, bk, v);
    if f != -1 {
        assert(bk(bs[f]) == bs[f].value@);
        if ids_contain(bs[f].ids@, x) {
            let w = choose|w: int| 0 <= w < bs[f].ids@.len() && ((#[trigger] bs[f].ids@[w]) as int)
                == x;
            assert((bs[f].ids@[w] as int) < docs.len() && docs[bs[f].ids@[w] as int].category@
                == bs[f].value@);
        }
    }
    if 0 <= x < docs.len() && docs[x].category@ == v {
        assert(bucket_member(bs, docs[x].category@, x));
    }
}

/// In a sound and complete tag index, bucket membership is exactly carrying
/// the tag.
proof fn lemma_tag_member_iff(bs: Seq<Bucket>, docs: Seq<SearchDocument>, v: Seq<char>, x: int)
    requires
        tag_wf(bs, docs),
    ensures
        bucket_member(bs, v, x) <==> (0 <= x < docs.len() && doc_has_tag(docs[x], v)),
{
    let bk = bucket_key();
    lemma_find_key_props(bs, bk, v);
    let f = find_key(bs, bk, v);
    if f != -1 {
        assert(bk(bs[f]) == bs[f].value@);
        if ids_contain(bs[f].ids@, x) {
            let w = choose|w: int| 0 <= w < bs[f].ids@.len() && ((#[trigger] bs[f].ids@[w]) as int)
                == x;
            assert((bs[f].ids@[w] as int) < docs.len() && doc_has_tag(
                docs[bs[f].ids@[w] as int],
                bs[f].value@,
            ));
        }
    }
    if 0 <= x < docs.len() && doc_has_tag(docs[x], v) {
        let w = choose|w: int| 0 <= w < docs[x].tags@.len() && (#[trigger] docs[x].tags@[w])@ == v;
        assert(bucket_member(bs, docs[x].tags@[w]@, x));
    }
}

/// Marks every id in the list.
fn mark_ids(marks: &mut Vec<bool>, ids: &Vec<usize>)
    requires
        forall|p: int| 0 <= p < ids@.len() ==> ((#[trigger] ids@[p]) as int) < old(marks)@.len(),
    ensures
        final(marks)@.len() == old(marks)@.len(),
        forall|d: int|
            0 <= d < old(marks)@.len() ==> (#[trigger] final(marks)@[d]) == (old(marks)@[d]
                || ids_contain(ids@, d)),
{
    let mut p: usize = 0;
    while p < ids.len()
        invariant
            p <= ids@.len(),
            marks@.len() == old(marks)@.len(),
            forall|q: int|
                0 <= q < ids@.len() ==> ((#[trigger] ids@[q]) as int) < old(marks)@.len(),
            forall|d: int|
                0 <= d < old(marks)@.len() ==> marks@[d] == (old(marks)@[d] || exists|q: int|
                    0 <= q < p && ((#[trigger] ids@[q]) as int) == d),
        decreases ids@.len() - p,
    {
        let d = ids[p];
        let ghost pre = marks@;
        marks.set(d, true);
        proof {
            assert forall|dd: int| 0 <= dd < old(marks)@.len() implies marks@[dd] == (old(
                marks,
            )@[dd] || exists|q: int| 0 <= q < p + 1 && ((#[trigger] ids@[q]) as int) == dd) by {
                if dd == d as int {
                    assert(ids@[p as int] as int == dd);
                } else {
                    assert(marks@[dd] == pre[dd]);
                    if exists|q: int| 0 <= q < p + 1 && ((#[trigger] ids@[q]) as int) == dd {
                        let w = choose|q: int| 0 <= q < p + 1 && ((#[trigger] ids@[q]) as int)
                            == dd;
                        assert(w < p);
                    }
                }
            }
        }
        p = p + 1;
    }
}

/// Marks every document in any bucket of one of the wanted values.
fn union_marks(bs: &Vec<Bucket>, wanted: &Vec<String>, nd: usize) -> (marks: Vec<bool>)
    requires
        forall|j: int, k: int|
            #![trigger bs@[j].ids@[k]]
            0 <= j < bs@.len() && 0 <= k < bs@[j].ids@.len() ==> (bs@[j].ids@[k] as int) < nd,
    ensures
        marks@.len() == nd,
        forall|d: int|
            0 <= d < nd ==> (#[trigger] marks@[d]) == exists|k: int|
                0 <= k < wanted@.len() && bucket_member(bs@, (#[trigger] wanted@[k])@, d),
{
    let mut marks: Vec<bool> = Vec::new();
    while marks.len() < nd
        invariant
            marks@.len() <= nd,
            forall|d: int| 0 <= d < marks@.len() ==> !(#[trigger] marks@[d]),
        decreases nd - marks@.len(),
    {
        marks.push(false);
    }
    let mut w: usize = 0;
    while w < wanted.len()
        invariant
            w <= wanted@.len(),
            marks@.len() == nd,
            forall|j: int, k: int|
                #![trigger bs@[j].ids@[k]]
                0 <= j < bs@.len() && 0 <= k < bs@[j].ids@.len() ==> (bs@[j].ids@[k] as int) < nd,
            forall|d: int|
                0 <= d < nd ==> (#[trigger] marks@[d]) == exists|k: int|
                    0 <= k < w && bucket_member(bs@, (#[trigger] wanted@[k])@, d),
        decreases wanted@.len() - w,
    {
        let ghost pre = marks@;
        let ghost wv = wanted@[w as int]@;
        match find_bucket_pos(bs, &wanted[w]) {
            Some(j) => {
                proof {
                    lemma_find_key_props(bs@, bucket_key(), wv);
                    assert(0 <= j < bs@.len());
                    assert(forall|k: int|
                        0 <= k < bs@[j as int].ids@.len() ==> ((#[trigger] bs@[j as int].ids@[k])
                            as int) < nd);
                }
                mark_ids(&mut marks, &bs[j].ids);
                proof {
                    assert forall|d: int| 0 <= d < nd implies (#[trigger] marks@[d]) == (pre[d]
                        || bucket_member(bs@, wv, d)) by {
                        assert(marks@[d] == (pre[d] || ids_contain(bs@[j as int].ids@, d)));
                        assert(find_key(bs@, bucket_key(), wv) == j);
                        assert(bucket_member(bs@, wv, d) == ids_contain(bs@[j as int].ids@, d));
                    }
                }
            },
            None => {
                proof {
                    assert forall|d: int| 0 <= d < nd implies (#[trigger] marks@[d]) == (pre[d]
                        || bucket_member(bs@, wv, d)) by {
                        assert(find_key(bs@, bucket_key(), wv) == -1);
                        assert(!bucket_member(bs@, wv, d));
                    }
                }
            },
        }
        proof {
            assert forall|d: int| 0 <= d < nd implies (#[trigger] marks@[d]) == exists|k: int|
                0 <= k < w + 1 && bucket_member(bs@, (#[trigger] wanted@[k])@, d) by {
                if marks@[d] {
                    if pre[d] {
                        let k0 = choose|k: int|
                            0 <= k < w && bucket_member(bs@, (#[trigger] wanted@[k])@, d);
                        assert(0 <= k0 < w + 1 && bucket_member(bs@, wanted@[k0]@, d));
                    } else {
                        assert(bucket_member(bs@, wanted@[w as int]@, d));
                    }
                } else {
                    if exists|k: int|
                        0 <= k < w + 1 && bucket_member(bs@, (#[trigger] wanted@[k])@, d) {
                        let k0 = choose|k: int|
                            0 <= k < w + 1 && bucket_member(bs@, (#[trigger] wanted@[k])@, d);
                        if k0 < w {
                            assert(exists|k: int|
                                0 <= k < w && bucket_member(bs@, (#[trigger] wanted@[k])@, d));
                        } else {
                            assert(bucket_member(bs@, wv, d));
                        }
                        assert(false);
                    }
                }
            }
        }
        w = w + 1;
    }
    marks
}

impl SearchOptimizer {
    /// Intersects the candidates with the requested category and tag
    /// buckets: a candidate survives when it carries one of the requested
    /// categories (if any were requested) and one of the requested tags
    /// (if any were requested). Order is kept.
    pub fn apply_filters(&self, ids: Vec<usize>, f: &SearchFilters) -> (r: Vec<usize>)
        requires
            self.wf(),
            forall|p: int|
                0 <= p < ids@.len() ==> ((#[trigger] ids@[p]) as int) < self.documents@.len(),
        ensures
            r@ == filtered_ids_rec(self.documents@, *f, ids@),
    {
        let nd = self.documents.len();
        let ghost docs = self.documents@;
        let cat_marks = match &f.categories {
            Option::Some(cs) => Option::Some(union_marks(&self.category_index, cs, nd)),
            Option::None => Option::None,
        };
        let tag_marks = match &f.tags {
            Option::Some(ts) => Option::Some(union_marks(&self.tag_index, ts, nd)),
            Option::None => Option::None,
        };
        let mut r: Vec<usize> = Vec::new();
        let mut i: usize = 0;
        proof {
            assert(ids@.take(0) =~= Seq::<usize>::empty());
        }
        while i < ids.len()
            invariant
                i <= ids@.len(),
                self.wf(),
                nd == docs.len(),
                docs == self.documents@,
                forall|p: int| 0 <= p < ids@.len() ==> ((#[trigger] ids@[p]) as int) < nd,
                r@ == filtered_ids_rec(docs, *f, ids@.take(i as int)),
                match cat_marks {
                    Option::Some(m) => f.categories is Some && m@.len() == nd && (forall|d: int|
                        0 <= d < nd ==> (#[trigger] m@[d]) == exists|k: int|
                            0 <= k < f.categories->Some_0@.len() && bucket_member(
                                self.category_index@,
                                (#[trigger] f.categories->Some_0@[k])@,
                                d,
                            )),
                    Option::None => f.categories is None,
                },
                match tag_marks {
                    Option::Some(m) => f.tags is Some && m@.len() == nd && (forall|d: int|
                        0 <= d < nd ==> (#[trigger] m@[d]) == exists|k: int|
                            0 <= k < f.tags->Some_0@.len() && bucket_member(
                                self.tag_index@,
                                (#[trigger] f.tags->Some_0@[k])@,
                                d,
                            )),
                    Option::None => f.tags is None,
                },
            decreases ids@.len() - i,
        {
            let d = ids[i];
            let cat_ok = match &cat_marks {
                Option::Some(m) => m[d],
                Option::None => true,
            };
            let tag_ok = match &tag_marks {
                Option::Some(m) => m[d],
                Option::None => true,
            };
            proof {
                if f.categories is Some {
                    let cs = f.categories->Some_0;
                    assert forall|k: int| 0 <= k < cs@.len() implies (bucket_member(
                        self.category_index@,
                        (#[trigger] cs@[k])@,
                        d as int,
                    ) <==> docs[d as int].category@ == cs@[k]@) by {
                        lemma_cat_member_iff(self.category_index@, docs, cs@[k]@, d as int);
                    }
                    assert(cat_ok == matches_any(cs@, docs[d as int].category@));
                }
                if f.tags is Some {
                    let ts = f.tags->Some_0;
                    assert forall|k: int| 0 <= k < ts@.len() implies (bucket_member(
                        self.tag_index@,
                        (#[trigger] ts@[k])@,
                        d as int,
                    ) <==> doc_has_tag(docs[d as int], ts@[k]@)) by {
                        lemma_tag_member_iff(self.tag_index@, docs, ts@[k]@, d as int);
                    }
                }
                assert((cat_ok && tag_ok) == passes_filters(docs, *f, d as int));
                assert(ids@.take(i + 1).drop_last() =~= ids@.take(i as int));
                assert(ids@.take(i + 1).last() == d);
            }
            if cat_ok && tag_ok {
                r.push(d);
            }
            i = i + 1;
        }
        proof {
            assert(ids@.take(ids@.len() as int) =~= ids@);
        }
        r
    }
}

/// The BM25 term-frequency saturation parameter, in milli units.
pub const BM25_K1_MILLI: u64 = 1200;

/// The BM25 length-normalization strength, in milli units.
pub const BM25_B_MILLI: u64 = 750;

/// The fuzzy edit-distance bound used when the query names none.
pub const DEFAULT_FUZZY_DISTANCE: usize = 2;

/// The key of a boost entry: the field or value it boosts.
pub open spec fn boost_key() -> spec_fn(BoostEntry) -> Seq<char> {
    |e: BoostEntry| e.field@
}

/// One multiplicative boost: the score times `f` thousandths, saturated,
/// rounding toward zero.
pub open spec fn apply_boost_milli(s: int, f: int) -> int {
    if s >= 0 {
        clamp_i64(s * f / 1000)
    } else {
        clamp_i64(-((-s) * f / 1000))
    }
}

/// Boosts `s` by the configured factor for `key`, if one is configured.
pub open spec fn boost_step(bs: Seq<BoostEntry>, key: Seq<char>, s: int) -> int {
    let f = find_key(bs, boost_key(), key);
    if f == -1 {
        s
    } else {
        apply_boost_milli(s, bs[f].factor_milli as int)
    }
}

/// Applies the boosts of each tag, in tag order.
pub open spec fn tag_boosts(bs: Seq<BoostEntry>, tags: Seq<Seq<char>>, s: int) -> int
    decreases tags.len(),
{
    if tags.len() == 0 {
        s
    } else {
        tag_boosts(bs, tags.drop_first(), boost_step(bs, tags[0], s))
    }
}

/// The full boost chain: the title boost when the lowercased query text
/// occurs in the lowercased title, then the category boost, then each
/// matching tag boost in tag order. Boosts compound.
pub open spec fn boost_all(
    bs: Seq<BoostEntry>,
    query_lower: Seq<char>,
    doc: SearchDocument,
    s: int,
) -> int {
    let ft = find_key(bs, boost_key(), "title"@);
    let s1 = if ft != -1 && is_substring(query_lower, lower_seq(doc.title@)) {
        apply_boost_milli(s, bs[ft].factor_milli as int)
    } else {
        s
    };
    let s2 = boost_step(bs, doc.category@, s1);
    tag_boosts(bs, doc.tags.deep_view(), s2)
}

/// Computes one multiplicative boost exactly.
fn apply_boost_exec(s: i64, f: u64) -> (r: i64)
    ensures
        r == apply_boost_milli(s as int, f as int),
{
    if s >= 0 {
        proof {
            assert((s as int) * (f as int) <= 0x7fffffffffffffff * 0xffffffffffffffff)
                by (nonlinear_arith)
                requires
                    0 <= s <= 0x7fffffffffffffff,
                    0 <= f <= 0xffffffffffffffff,
            {}
        }
        let mag: u128 = (s as u128) * (f as u128);
        let q: u128 = mag / 1000;
        if q > i64::MAX as u128 {
            i64::MAX
        } else {
            q as i64
        }
    } else {
        let neg: i128 = -(s as i128);
        proof {
            assert((neg as int) * (f as int) <= 0x8000000000000000 * 0xffffffffffffffff)
                by (nonlinear_arith)
                requires
                    0 <= neg <= 0x8000000000000000,
                    0 <= f <= 0xffffffffffffffff,
            {}
        }
        let mag: u128 = (neg as u128) * (f as u128);
        let q: u128 = mag / 1000;
        if q >= 9223372036854775808 {
            i64::MIN
        } else {
            -(q as i64)
        }
    }
}

/// Finds the boost entry for `key`, if any.
fn find_boost_pos(bs: &Vec<BoostEntry>, key: &String) -> (r: Option<usize>)
    ensures
        match r {
            Some(j) => find_key(bs@, boost_key(), key@) == j,
            None => find_key(bs@, boost_key(), key@) == -1,
        },
{
    let ghost k = boost_key();
    let mut i: usize = 0;
    while i < bs.len()
        invariant
            i <= bs.len(),
            k == boost_key(),
            forall|j: int| 0 <= j < i ==> k(bs@[j]) != key@,
        decreases bs.len() - i,
    {
        proof {
            assert(k(bs@[i as int]) == bs@[i as int].field@);
        }
        if string_eq(&bs[i].field, key) {
            proof {
                lemma_find_key_at(bs@, k, key@, i as int);
            }
            return Some(i);
        }
        i = i + 1;
    }
    proof {
        lemma_find_key_none(bs@, k, key@);
    }
    None
}

/// Applies the configured boosts to one document's base score: title when
/// the lowercased query occurs in the title, then category, then each tag.
fn apply_boost(doc: &SearchDocument, q_lower: &Vec<char>, bs: &Vec<BoostEntry>, base: i64) -> (r:
    i64)
    ensures
        r == boost_all(bs@, q_lower@, *doc, base as int),
{
    let ghost bk = boost_key();
    let mut s = base;
    let title_key = "title".to_owned();
    match find_boost_pos(bs, &title_key) {
        Some(j) => {
            proof {
                lemma_find_key_props(bs@, bk, "title"@);
            }
            let tl = lower_text(doc.title.as_str());
            if contains_chars(&tl, q_lower) {
                s = apply_boost_exec(s, bs[j].factor_milli);
            }
        },
        None => {},
    }
    let ghost s1 = s as int;
    match find_boost_pos(bs, &doc.category) {
        Some(j) => {
            proof {
                lemma_find_key_props(bs@, bk, doc.category@);
            }
            s = apply_boost_exec(s, bs[j].factor_milli);
        },
        None => {},
    }
    proof {
        assert(s == boost_step(bs@, doc.category@, s1));
    }
    let ghost s2 = s as int;
    let ghost tv = doc.tags.deep_view();
    let mut k: usize = 0;
    proof {
        assert(tv.skip(0) =~= tv);
    }
    while k < doc.tags.len()
        invariant
            k <= doc.tags@.len(),
            bk == boost_key(),
            tv == doc.tags.deep_view(),
            tv.len() == doc.tags@.len(),
            tag_boosts(bs@, tv.skip(k as int), s as int) == tag_boosts(bs@, tv, s2),
        decreases doc.tags@.len() - k,
    {
        let ghost prev_s = s as int;
        proof {
            assert(tv.skip(k as int)[0] == tv[k as int]);
            assert(tv.skip(k as int).drop_first() =~= tv.skip(k + 1));
            assert(doc.tags@[k as int].deep_view() =~= doc.tags@[k as int]@);
        }
        match find_boost_pos(bs, &doc.tags[k]) {
            Some(j) => {
                proof {
                    lemma_find_key_props(bs@, bk, tv[k as int]);
                }
                s = apply_boost_exec(s, bs[j].factor_milli);
            },
            None => {},
        }
        proof {
            assert(s == boost_step(bs@, tv[k as int], prev_s));
            assert(tag_boosts(bs@, tv.skip(k as int), prev_s) == tag_boosts(
                bs@,
                tv.skip(k + 1),
                s as int,
            ));
        }
        k = k + 1;
    }
    proof {
        assert(tv.skip(tv.len() as int) =~= Seq::<Seq<char>>::empty());
    }
    s
}

impl SearchOptimizer {
    /// The fuzzy distance bound a query asks for (two when unspecified).
    pub open spec fn fuzz_dist(q: SearchQuery) -> int {
        match q.fuzzy_distance {
            Option::Some(x) => x as int,
            Option::None => DEFAULT_FUZZY_DISTANCE as int,
        }
    }

    /// The base BM25 score of document `d` for the query, in milli units.
    pub open spec fn base_score(&self, q: SearchQuery, d: int) -> int {
        self.index.bm25_milli(
            text_tokens(q.query@),
            d,
            BM25_K1_MILLI as int,
            BM25_B_MILLI as int,
        )
    }

    /// The document's final score: the BM25 score run through the boost
    /// chain when boosts are configured.
    pub open spec fn final_score(&self, q: SearchQuery, d: int) -> int {
        match q.boost_fields {
            Option::None => self.base_score(q, d),
            Option::Some(bs) => boost_all(
                bs@,
                lower_seq(q.query@),
                self.documents@[d],
                self.base_score(q, d),
            ),
        }
    }

    /// Whether document `d` clears the score threshold, if one was given.
    pub open spec fn survives(&self, q: SearchQuery, d: int) -> bool {
        match q.filters {
            Option::None => true,
            Option::Some(f) => match f.score_threshold {
                Option::None => true,
                Option::Some(th) => self.final_score(q, d) >= th,
            },
        }
    }

    /// The candidates scored, dropping those under the threshold.
    pub open spec fn scored_rec(&self, q: SearchQuery, ids: Seq<usize>) -> Seq<Scored>
        decreases ids.len(),
    {
        if ids.len() == 0 {
            Seq::empty()
        } else {
            let prev = self.scored_rec(q, ids.drop_last());
            let d = ids.last() as int;
            if self.survives(q, d) {
                prev.push(Scored { doc: ids.last(), score: self.final_score(q, d) as i64 })
            } else {
                prev
            }
        }
    }

    /// The match set after filtering, in ascending id order.
    pub open spec fn spec_filtered(&self, q: SearchQuery) -> Seq<usize> {
        let m = self.index.matched_ids(text_tokens(q.query@), q.fuzzy, Self::fuzz_dist(q));
        match q.filters {
            Option::None => m,
            Option::Some(f) => filtered_ids_rec(self.documents@, f, m),
        }
    }

    /// The scored, thresholded result set, before sorting.
    pub open spec fn spec_scored(&self, q: SearchQuery) -> Seq<Scored> {
        self.scored_rec(q, self.spec_filtered(q))
    }

    /// The ranked result list: the scored set in descending score order,
    /// ties by ascending internal id.
    pub open spec fn spec_ranked(&self, q: SearchQuery) -> Seq<Scored> {
        self.spec_scored(q).sort_by(rank_le())
    }

    /// Where the requested page starts in the ranked list.
    pub open spec fn page_start(q: SearchQuery, total: int) -> int {
        if q.offset <= total {
            q.offset as int
        } else {
            total
        }
    }

    /// Where the requested page ends.
    pub open spec fn page_end(q: SearchQuery, total: int) -> int {
        if Self::page_start(q, total) + q.limit <= total {
            Self::page_start(q, total) + q.limit
        } else {
            total
        }
    }
}

/// Every id below `nd` stays below `nd` through the match-set construction.
pub proof fn lemma_matched_range(
    idx: InvertedIndex,
    toks: Seq<Seq<char>>,
    fuzzy: bool,
    dist: int,
    nd: int,
)
    requires
        0 <= nd <= idx.num_docs(),
    ensures
        forall|k: int|
            0 <= k < idx.matched_upto(toks, fuzzy, dist, nd).len() ==> (
            #[trigger] idx.matched_upto(toks, fuzzy, dist, nd)[k]) < nd,
    decreases nd,
{
    if nd > 0 {
        lemma_matched_range(idx, toks, fuzzy, dist, nd - 1);
        let prev = idx.matched_upto(toks, fuzzy, dist, nd - 1);
        let cur = idx.matched_upto(toks, fuzzy, dist, nd);
        assert forall|k: int| 0 <= k < cur.len() implies (#[trigger] cur[k]) < nd by {
            if k < prev.len() {
                assert(cur[k] == prev[k]);
            } else {
                assert(cur[k] == (nd - 1) as usize);
            }
        }
    }
}

/// Filtering keeps every id under any bound the input respects.
pub proof fn lemma_filtered_range(
    docs: Seq<SearchDocument>,
    f: SearchFilters,
    ids: Seq<usize>,
    bound: int,
)
    requires
        forall|k: int| 0 <= k < ids.len() ==> ((#[trigger] ids[k]) as int) < bound,
    ensures
        forall|k: int|
            0 <= k < filtered_ids_rec(docs, f, ids).len() ==> ((#[trigger] filtered_ids_rec(
                docs,
                f,
                ids,
            )[k]) as int) < bound,
    decreases ids.len(),
{
    if ids.len() > 0 {
        assert forall|k: int| 0 <= k < ids.drop_last().len() implies ((#[trigger] ids.drop_last(
        )[k]) as int) < bound by {
            assert(ids.drop_last()[k] == ids[k]);
        }
        lemma_filtered_range(docs, f, ids.drop_last(), bound);
        let prev = filtered_ids_rec(docs, f, ids.drop_last());
        let cur = filtered_ids_rec(docs, f, ids);
        assert forall|k: int| 0 <= k < cur.len() implies ((#[trigger] cur[k]) as int) < bound by {
            if k < prev.len() {
                assert(cur[k] == prev[k]);
            } else {
                assert(cur[k] == ids.last());
            }
        }
    }
}

impl SearchOptimizer {
    /// Every scored entry keeps its id under any bound the ids respect.
    proof fn lemma_scored_range(&self, q: SearchQuery, ids: Seq<usize>, bound: int)
        requires
            forall|k: int| 0 <= k < ids.len() ==> ((#[trigger] ids[k]) as int) < bound,
        ensures
            forall|k: int|
                0 <= k < self.scored_rec(q, ids).len() ==> ((#[trigger] self.scored_rec(
                    q,
                    ids,
                )[k]).doc as int) < bound,
        decreases ids.len(),
    {
        if ids.len() > 0 {
            assert forall|k: int| 0 <= k < ids.drop_last().len() implies ((
            #[trigger] ids.drop_last()[k]) as int) < bound by {
                assert(ids.drop_last()[k] == ids[k]);
            }
            self.lemma_scored_range(q, ids.drop_last(), bound);
            let prev = self.scored_rec(q, ids.drop_last());
            let cur = self.scored_rec(q, ids);
            assert forall|k: int| 0 <= k < cur.len() implies ((#[trigger] cur[k]).doc as int)
                < bound by {
                if k < prev.len() {
                    assert(cur[k] == prev[k]);
                } else {
                    assert(cur[k].doc == ids.last());
                }
            }
        }
    }

    /// Every ranked entry names a loaded document.
    pub proof fn lemma_ranked_range(&self, q: SearchQuery)
        requires
            self.wf(),
        ensures
            forall|k: int|
                0 <= k < self.spec_ranked(q).len() ==> ((#[trigger] self.spec_ranked(q)[k]).doc
                    as int) < self.documents@.len(),
            self.spec_ranked(q).len() == self.spec_scored(q).len(),
    {
        let toks = text_tokens(q.query@);
        let nd = self.documents@.len() as int;
        lemma_matched_range(self.index, toks, q.fuzzy, Self::fuzz_dist(q), self.index.num_docs());
        let m = self.index.matched_ids(toks, q.fuzzy, Self::fuzz_dist(q));
        match q.filters {
            Option::None => {},
            Option::Some(f) => {
                lemma_filtered_range(self.documents@, f, m, nd);
            },
        }
        self.lemma_scored_range(q, self.spec_filtered(q), nd);
        let scored = self.spec_scored(q);
        let rel = rank_le();
        crate::sorting::lemma_rank_total();
        scored.lemma_sort_by_ensures(rel);
        broadcast use vstd::seq_lib::group_to_multiset_ensures;

        assert forall|k: int| 0 <= k < self.spec_ranked(q).len() implies ((
        #[trigger] self.spec_ranked(q)[k]).doc as int) < self.documents@.len() by {
            let e = self.spec_ranked(q)[k];
            assert(self.spec_ranked(q).contains(e));
            assert(self.spec_ranked(q).to_multiset().count(e) > 0);
            assert(scored.to_multiset().count(e) > 0);
            assert(scored.contains(e));
            let w = choose|w: int| 0 <= w < scored.len() && scored[w] == e;
        }
        assert(self.spec_ranked(q).to_multiset().len() == scored.to_multiset().len());
    }

    /// Answers a query through the full pipeline: match the tokenized query
    /// text (fuzzily when asked), intersect with the requested category and
    /// tag buckets, score every survivor with boosted BM25, drop scores
    /// under the threshold, sort by descending score with ascending-id
    /// ties, and slice the requested page. The total counts all ranked
    /// documents before pagination; an offset at or past the total yields
    /// an empty page, never an error. Facets are computed exactly when
    /// filters were supplied.
    pub fn search(&self, q: &SearchQuery) -> (r: SearchResult)
        requires
            self.wf(),
        ensures
            ({
                let ranked = self.spec_ranked(*q);
                let total = ranked.len() as int;
                let start = Self::page_start(*q, total);
                let end = Self::page_end(*q, total);
                &&& r.total == total
                &&& r.documents@.len() == end - start
                &&& (forall|k: int|
                    0 <= k < end - start ==> {
                        let e = ranked[start + k];
                        0 <= e.doc < self.documents@.len() && doc_like(
                            #[trigger] r.documents@[k],
                            self.documents@[e.doc as int],
                            e.score as int,
                        )
                    })
                &&& (r.facets is Some <==> q.filters is Some)
                &&& (match r.facets {
                    Option::Some(fc) => cat_facets_ok(
                        fc.categories@,
                        self.documents@,
                        self.spec_scored(*q),
                    ) && tag_facets_ok(fc.tags@, self.documents@, self.spec_scored(*q)),
                    Option::None => true,
                })
            }),
    {
        let fd = match q.fuzzy_distance {
            Option::Some(x) => x,
            Option::None => DEFAULT_FUZZY_DISTANCE,
        };
        let matched = self.index.search(q.query.as_str(), q.fuzzy, fd);
        proof {
            lemma_matched_range(
                self.index,
                text_tokens(q.query@),
                q.fuzzy,
                Self::fuzz_dist(*q),
                self.index.num_docs(),
            );
        }
        let ids = match &q.filters {
            Option::Some(f) => {
                let filtered = self.apply_filters(matched, f);
                proof {
                    lemma_filtered_range(
                        self.documents@,
                        *f,
                        self.index.matched_ids(text_tokens(q.query@), q.fuzzy, Self::fuzz_dist(*q)),
                        self.documents@.len() as int,
                    );
                }
                filtered
            },
            Option::None => matched,
        };
        proof {
            assert(ids@ == self.spec_filtered(*q));
        }
        let q_lower = lower_text(q.query.as_str());
        let toks = tokenize_chars(q.query.as_str());
        let mut scored: Vec<Scored> = Vec::new();
        let mut i: usize = 0;
        proof {
            assert(ids@.take(0) =~= Seq::<usize>::empty());
        }
        while i < ids.len()
            invariant
                i <= ids@.len(),
                self.wf(),
                ids@ == self.spec_filtered(*q),
                forall|k: int|
                    0 <= k < ids@.len() ==> ((#[trigger] ids@[k]) as int) < self.documents@.len(),
                q_lower@ == lower_seq(q.query@),
                toks.deep_view() == text_tokens(q.query@),
                scored@ == self.scored_rec(*q, ids@.take(i as int)),
            decreases ids@.len() - i,
        {
            let d = ids[i];
            let base = self.index.calculate_bm25_score(d, &toks, BM25_K1_MILLI, BM25_B_MILLI);
            let s = match &q.boost_fields {
                Option::Some(bs) => apply_boost(&self.documents[d], &q_lower, bs, base),
                Option::None => base,
            };
            proof {
                assert(s == self.final_score(*q, d as int));
                assert(ids@.take(i + 1).drop_last() =~= ids@.take(i as int));
                assert(ids@.take(i + 1).last() == d);
            }
            let keep = match &q.filters {
                Option::Some(f) => match f.score_threshold {
                    Option::Some(th) => s >= th,
                    Option::None => true,
                },
                Option::None => true,
            };
            proof {
                assert(keep == self.survives(*q, d as int));
            }
            if keep {
                scored.push(Scored { doc: d, score: s });
            }
            i = i + 1;
        }
        proof {
            assert(ids@.take(ids@.len() as int) =~= ids@);
            assert(scored@ == self.spec_scored(*q));
        }
        proof {
            self.lemma_scored_range(*q, ids@, self.documents@.len() as int);
        }
        let facets = match &q.filters {
            Option::Some(_) => Option::Some(self.calculate_facets(&scored)),
            Option::None => Option::None,
        };
        let sorted = sort_scored(scored);
        proof {
            assert(sorted@ == self.spec_ranked(*q));
            self.lemma_ranked_range(*q);
        }
        let total = sorted.len();
        let start = if q.offset <= total {
            q.offset
        } else {
            total
        };
        let end = if q.limit <= total - start {
            start + q.limit
        } else {
            total
        };
        let mut out: Vec<SearchDocument> = Vec::new();
        let mut k: usize = start;
        while k < end
            invariant
                self.wf(),
                start <= k <= end <= total,
                total == sorted@.len(),
                sorted@ == self.spec_ranked(*q),
                forall|p: int|
                    0 <= p < sorted@.len() ==> ((#[trigger] sorted@[p]).doc as int)
                        < self.documents@.len(),
                out@.len() == k - start,
                forall|p: int|
                    0 <= p < out@.len() ==> doc_like(
                        #[trigger] out@[p],
                        self.documents@[sorted@[start + p].doc as int],
                        sorted@[start + p].score as int,
                    ),
            decreases end - k,
        {
            let e = sorted[k];
            let doc = clone_doc(&self.documents[e.doc], e.score);
            out.push(doc);
            k = k + 1;
        }
        SearchResult { documents: out, total, facets }
    }
}

/// Saturation at the largest `usize`.
pub open spec fn clamp_usize(x: int) -> int {
    if x > usize::MAX {
        usize::MAX as int
    } else {
        x
    }
}

/// How many scored documents carry category `v`.
pub open spec fn cat_count(docs: Seq<SearchDocument>, scored: Seq<Scored>, v: Seq<char>) -> int
    decreases scored.len(),
{
    if scored.len() == 0 {
        0
    } else {
        cat_count(docs, scored.drop_last(), v) + if docs[scored.last().doc as int].category@
            == v {
            1int
        } else {
            0int
        }
    }
}

/// How often tag `v` occurs over the scored documents' tag lists, each
/// occurrence counted.
pub open spec fn tag_count(docs: Seq<SearchDocument>, scored: Seq<Scored>, v: Seq<char>) -> int
    decreases scored.len(),
{
    if scored.len() == 0 {
        0
    } else {
        tag_count(docs, scored.drop_last(), v) + tag_occurrences(
            docs[scored.last().doc as int],
            v,
        )
    }
}

/// How often `v` occurs in one document's tag list.
pub open spec fn tag_occurrences(d: SearchDocument, v: Seq<char>) -> int {
    count_of(d.tags.deep_view(), v)
}

/// Facet entries strictly ascending by value.
pub open spec fn facet_sorted(entries: Seq<FacetEntry>) -> bool {
    forall|a: int, b: int|
        0 <= a < b < entries.len() ==> lex_lt(
            (#[trigger] entries[a]).value@,
            (#[trigger] entries[b]).value@,
        )
}

/// The category facet list is exactly the category breakdown of the scored
/// set: ordered by value, each count the (saturated) number of scored
/// documents with that category, and every occurring category listed.
pub open spec fn cat_facets_ok(
    entries: Seq<FacetEntry>,
    docs: Seq<SearchDocument>,
    scored: Seq<Scored>,
) -> bool {
    &&& facet_sorted(entries)
    &&& (forall|j: int|
        0 <= j < entries.len() ==> ((#[trigger] entries[j]).count as int == clamp_usize(
            cat_count(docs, scored, entries[j].value@),
        ) && cat_count(docs, scored, entries[j].value@) > 0))
    &&& (forall|v: Seq<char>|
        #[trigger] cat_count(docs, scored, v) > 0 ==> exists|j: int|
            0 <= j < entries.len() && (#[trigger] entries[j]).value@ == v)
}

/// The tag facet list is exactly the tag breakdown of the scored set.
pub open spec fn tag_facets_ok(
    entries: Seq<FacetEntry>,
    docs: Seq<SearchDocument>,
    scored: Seq<Scored>,
) -> bool {
    &&& facet_sorted(entries)
    &&& (forall|j: int|
        0 <= j < entries.len() ==> ((#[trigger] entries[j]).count as int == clamp_usize(
            tag_count(docs, scored, entries[j].value@),
        ) && tag_count(docs, scored, entries[j].value@) > 0))
    &&& (forall|v: Seq<char>|
        #[trigger] tag_count(docs, scored, v) > 0 ==> exists|j: int|
            0 <= j < entries.len() && (#[trigger] entries[j]).value@ == v)
}

/// Converts an accumulator into facet entries.
fn accs_to_entries(accs: Vec<FacetAcc>) -> (r: Vec<FacetEntry>)
    ensures
        r@.len() == accs@.len(),
        forall|j: int|
            0 <= j < accs@.len() ==> (#[trigger] r@[j]).value@ == accs@[j].chars@ && r@[j].count
                == accs@[j].count,
{
    let mut r: Vec<FacetEntry> = Vec::new();
    let mut j: usize = 0;
    while j < accs.len()
        invariant
            j <= accs@.len(),
            r@.len() == j,
            forall|k: int|
                0 <= k < j ==> (#[trigger] r@[k]).value@ == accs@[k].chars@ && r@[k].count
                    == accs@[k].count,
        decreases accs@.len() - j,
    {
        let value = chars_to_string(&accs[j].chars);
        r.push(FacetEntry { value, count: accs[j].count });
        j = j + 1;
    }
    r
}

impl SearchOptimizer {
    /// Counts, over the scored result set, how many documents fall into
    /// each category value and each tag value, both breakdowns ordered by
    /// value.
    pub fn calculate_facets(&self, scored: &Vec<Scored>) -> (fc: FacetCounts)
        requires
            self.wf(),
            forall|p: int|
                0 <= p < scored@.len() ==> ((#[trigger] scored@[p]).doc as int)
                    < self.documents@.len(),
        ensures
            cat_facets_ok(fc.categories@, self.documents@, scored@),
            tag_facets_ok(fc.tags@, self.documents@, scored@),
    {
        let ghost docs = self.documents@;
        let mut cats: Vec<FacetAcc> = Vec::new();
        let mut tags: Vec<FacetAcc> = Vec::new();
        let mut i: usize = 0;
        proof {
            assert(scored@.take(0) =~= Seq::<Scored>::empty());
            assert forall|v: Seq<char>| #[trigger] acc_count(cats@, v) == clamp_usize(
                cat_count(docs, scored@.take(0), v),
            ) by {}
            assert forall|v: Seq<char>| #[trigger] acc_count(tags@, v) == clamp_usize(
                tag_count(docs, scored@.take(0), v),
            ) by {}
        }
        while i < scored.len()
            invariant
                i <= scored@.len(),
                self.wf(),
                docs == self.documents@,
                forall|p: int|
                    0 <= p < scored@.len() ==> ((#[trigger] scored@[p]).doc as int) < docs.len(),
                accs_wf(cats@),
                accs_wf(tags@),
                forall|v: Seq<char>| #[trigger]
                    acc_count(cats@, v) == clamp_usize(cat_count(docs, scored@.take(i as int), v)),
                forall|v: Seq<char>| #[trigger]
                    acc_count(tags@, v) == clamp_usize(tag_count(docs, scored@.take(i as int), v)),
            decreases scored@.len() - i,
        {
            let d = scored[i].doc;
            proof {
                assert(scored@.take(i + 1).drop_last() =~= scored@.take(i as int));
                assert(scored@.take(i + 1).last() == scored@[i as int]);
            }
            let cat_chars = str_chars(self.documents[d].category.as_str());
            let ghost pre_cats = cats@;
            bump_acc(&mut cats, &cat_chars);
            proof {
                assert forall|v: Seq<char>| #[trigger] acc_count(cats@, v) == clamp_usize(
                    cat_count(docs, scored@.take(i + 1), v),
                ) by {
                    assert(acc_count(pre_cats, v) == clamp_usize(
                        cat_count(docs, scored@.take(i as int), v),
                    ));
                    crate::index::lemma_count_of_bounds(Seq::<Seq<char>>::empty(), v);
                    lemma_cat_count_nonneg(docs, scored@.take(i as int), v);
                }
            }
            let nt = self.documents[d].tags.len();
            let mut k: usize = 0;
            proof {
                assert(docs[d as int].tags.deep_view().take(0) =~= Seq::<Seq<char>>::empty());
            }
            while k < nt
                invariant
                    k <= nt,
                    i < scored@.len(),
                    self.wf(),
                    docs == self.documents@,
                    d == scored@[i as int].doc,
                    (d as int) < docs.len(),
                    nt == docs[d as int].tags@.len(),
                    nt == docs[d as int].tags.deep_view().len(),
                    accs_wf(tags@),
                    forall|v: Seq<char>| #[trigger]
                        acc_count(tags@, v) == clamp_usize(
                            tag_count(docs, scored@.take(i as int), v) + count_of(
                                docs[d as int].tags.deep_view().take(k as int),
                                v,
                            ),
                        ),
                decreases nt - k,
            {
                let tag_chars = str_chars(self.documents[d].tags[k].as_str());
                let ghost pre_tags = tags@;
                let ghost tv = docs[d as int].tags.deep_view();
                proof {
                    assert(docs[d as int].tags@[k as int].deep_view() =~= docs[d as int].tags@[k as int]@);
                    assert(tv.take(k + 1).drop_last() =~= tv.take(k as int));
                    assert(tv.take(k + 1).last() == tv[k as int]);
                }
                bump_acc(&mut tags, &tag_chars);
                proof {
                    assert forall|v: Seq<char>| #[trigger] acc_count(tags@, v) == clamp_usize(
                        tag_count(docs, scored@.take(i as int), v) + count_of(tv.take(k + 1), v),
                    ) by {
                        assert(acc_count(pre_tags, v) == clamp_usize(
                            tag_count(docs, scored@.take(i as int), v) + count_of(
                                tv.take(k as int),
                                v,
                            ),
                        ));
                        lemma_tag_count_nonneg(docs, scored@.take(i as int), v);
                        crate::index::lemma_count_of_bounds(tv.take(k as int), v);
                    }
                }
                k = k + 1;
            }
            proof {
                let tv = docs[d as int].tags.deep_view();
                assert(tv.take(tv.len() as int) =~= tv);
                assert forall|v: Seq<char>| #[trigger] acc_count(tags@, v) == clamp_usize(
                    tag_count(docs, scored@.take(i + 1), v),
                ) by {
                    assert(acc_count(tags@, v) == clamp_usize(
                        tag_count(docs, scored@.take(i as int), v) + count_of(tv, v),
                    ));
                }
            }
            i = i + 1;
        }
        proof {
            assert(scored@.take(scored@.len() as int) =~= scored@);
        }
        let categories = accs_to_entries(cats);
        let tag_entries = accs_to_entries(tags);
        proof {
            lemma_entries_ok_cat(cats@, categories@, docs, scored@);
            lemma_entries_ok_tag(tags@, tag_entries@, docs, scored@);
        }
        FacetCounts { categories, tags: tag_entries }
    }
}

/// Category counts are nonnegative.
pub proof fn lemma_cat_count_nonneg(docs: Seq<SearchDocument>, scored: Seq<Scored>, v: Seq<char>)
    ensures
        cat_count(docs, scored, v) >= 0,
    decreases scored.len(),
{
    if scored.len() > 0 {
        lemma_cat_count_nonneg(docs, scored.drop_last(), v);
    }
}

/// Tag counts are nonnegative.
pub proof fn lemma_tag_count_nonneg(docs: Seq<SearchDocument>, scored: Seq<Scored>, v: Seq<char>)
    ensures
        tag_count(docs, scored, v) >= 0,
    decreases scored.len(),
{
    if scored.len() > 0 {
        lemma_tag_count_nonneg(docs, scored.drop_last(), v);
        crate::index::lemma_count_of_bounds(docs[scored.last().doc as int].tags.deep_view(), v);
    }
}

/// Converted category entries satisfy the facet contract.
proof fn lemma_entries_ok_cat(
    accs: Seq<FacetAcc>,
    entries: Seq<FacetEntry>,
    docs: Seq<SearchDocument>,
    scored: Seq<Scored>,
)
    requires
        accs_wf(accs),
        entries.len() == accs.len(),
        forall|j: int|
            0 <= j < accs.len() ==> (#[trigger] entries[j]).value@ == accs[j].chars@
                && entries[j].count == accs[j].count,
        forall|v: Seq<char>| #[trigger] acc_count(accs, v) == clamp_usize(cat_count(docs, scored, v)),
    ensures
        cat_facets_ok(entries, docs, scored),
{
    assert forall|a: int, b: int|
        0 <= a < b < entries.len() implies lex_lt(
        (#[trigger] entries[a]).value@,
        (#[trigger] entries[b]).value@,
    ) by {
        assert(lex_lt(accs[a].chars@, accs[b].chars@));
    }
    assert forall|a: int, b: int|
        0 <= a < b < accs.len() implies (#[trigger] accs[a]).chars@ != (
    #[trigger] accs[b]).chars@ by {
        assert(lex_lt(accs[a].chars@, accs[b].chars@));
    }
    assert forall|j: int| 0 <= j < entries.len() implies ((#[trigger] entries[j]).count as int
        == clamp_usize(cat_count(docs, scored, entries[j].value@)) && cat_count(
        docs,
        scored,
        entries[j].value@,
    ) > 0) by {
        crate::facets::lemma_acc_count_unique_pub(accs, j);
        lemma_cat_count_nonneg(docs, scored, entries[j].value@);
        assert(acc_count(accs, accs[j].chars@) == accs[j].count);
        assert(accs[j].count >= 1);
    }
    assert forall|v: Seq<char>| #[trigger] cat_count(docs, scored, v) > 0 implies exists|j: int|
        0 <= j < entries.len() && (#[trigger] entries[j]).value@ == v by {
        assert(acc_count(accs, v) > 0);
        crate::facets::lemma_acc_count_present(accs, v);
        let w = choose|w: int| 0 <= w < accs.len() && (#[trigger] accs[w]).chars@ == v;
        assert(entries[w].value@ == v);
    }
}

/// Converted tag entries satisfy the facet contract.
proof fn lemma_entries_ok_tag(
    accs: Seq<FacetAcc>,
    entries: Seq<FacetEntry>,
    docs: Seq<SearchDocument>,
    scored: Seq<Scored>,
)
    requires
        accs_wf(accs),
        entries.len() == accs.len(),
        forall|j: int|
            0 <= j < accs.len() ==> (#[trigger] entries[j]).value@ == accs[j].chars@
                && entries[j].count == accs[j].count,
        forall|v: Seq<char>| #[trigger] acc_count(accs, v) == clamp_usize(tag_count(docs, scored, v)),
    ensures
        tag_facets_ok(entries, docs, scored),
{
    assert forall|a: int, b: int|
        0 <= a < b < entries.len() implies lex_lt(
        (#[trigger] entries[a]).value@,
        (#[trigger] entries[b]).value@,
    ) by {
        assert(lex_lt(accs[a].chars@, accs[b].chars@));
    }
    assert forall|a: int, b: int|
        0 <= a < b < accs.len() implies (#[trigger] accs[a]).chars@ != (
    #[trigger] accs[b]).chars@ by {
        assert(lex_lt(accs[a].chars@, accs[b].chars@));
    }
    assert forall|j: int| 0 <= j < entries.len() implies ((#[trigger] entries[j]).count as int
        == clamp_usize(tag_count(docs, scored, entries[j].value@)) && tag_count(
        docs,
        scored,
        entries[j].value@,
    ) > 0) by {
        crate::facets::lemma_acc_count_unique_pub(accs, j);
        lemma_tag_count_nonneg(docs, scored, entries[j].value@);
        assert(acc_count(accs, accs[j].chars@) == accs[j].count);
        assert(accs[j].count >= 1);
    }
    assert forall|v: Seq<char>| #[trigger] tag_count(docs, scored, v) > 0 implies exists|j: int|
        0 <= j < entries.len() && (#[trigger] entries[j]).value@ == v by {
        assert(acc_count(accs, v) > 0);
        crate::facets::lemma_acc_count_present(accs, v);
        let w = choose|w: int| 0 <= w < accs.len() && (#[trigger] accs[w]).chars@ == v;
        assert(entries[w].value@ == v);
    }
}

/// A term suggestion candidate: the term with how many documents hold it.
pub struct SuggestEntry {
    pub term: Vec<char>,
    pub count: usize,
}

/// The mathematical value of a candidate.
pub open spec fn sugg_view(e: SuggestEntry) -> (Seq<char>, int) {
    (e.term@, e.count as int)
}

/// The view map as a relation value.
pub open spec fn sugg_view_fn() -> spec_fn(SuggestEntry) -> (Seq<char>, int) {
    |e: SuggestEntry| sugg_view(e)
}

/// Suggestion order: more documents first, ties by ascending term.
pub open spec fn sugg_le_v(a: (Seq<char>, int), b: (Seq<char>, int)) -> bool {
    a.1 > b.1 || (a.1 == b.1 && lex_le(a.0, b.0))
}

/// The suggestion order is total.
proof fn lemma_sugg_total(a: (Seq<char>, int), b: (Seq<char>, int))
    ensures
        sugg_le_v(a, b) || sugg_le_v(b, a),
{
    lemma_lex_total(a.0, b.0);
}

/// The suggestion order is transitive.
proof fn lemma_sugg_trans(a: (Seq<char>, int), b: (Seq<char>, int), c: (Seq<char>, int))
    requires
        sugg_le_v(a, b),
        sugg_le_v(b, c),
    ensures
        sugg_le_v(a, c),
{
    if a.1 == b.1 && b.1 == c.1 {
        lemma_lex_trans(a.0, b.0, c.0);
    }
}

/// Decides the suggestion order.
fn sugg_le_exec(a: &SuggestEntry, b: &SuggestEntry) -> (r: bool)
    ensures
        r == sugg_le_v(sugg_view(*a), sugg_view(*b)),
{
    if a.count > b.count {
        true
    } else if a.count == b.count {
        lex_le_chars(&a.term, &b.term)
    } else {
        false
    }
}

/// The position of the first entry not at or before `x` in the suggestion
/// order.
fn sugg_scan(out: &Vec<SuggestEntry>, x: &SuggestEntry) -> (pos: usize)
    ensures
        pos <= out@.len(),
        forall|q: int|
            0 <= q < pos ==> sugg_le_v(sugg_view(#[trigger] out@[q]), sugg_view(*x)),
        pos < out@.len() ==> !sugg_le_v(sugg_view(out@[pos as int]), sugg_view(*x)),
{
    let mut pos: usize = 0;
    while pos < out.len()
        invariant
            pos <= out@.len(),
            forall|q: int|
                0 <= q < pos ==> sugg_le_v(sugg_view(#[trigger] out@[q]), sugg_view(*x)),
        decreases out@.len() - pos,
    {
        if !sugg_le_exec(&out[pos], x) {
            return pos;
        }
        pos = pos + 1;
    }
    pos
}

/// Sorts candidates by descending document count, ties by ascending term.
fn sort_suggest(input: Vec<SuggestEntry>) -> (r: Vec<SuggestEntry>)
    requires
        forall|a: int, b: int|
            0 <= a < b < input@.len() ==> sugg_view(#[trigger] input@[a]).0 != sugg_view(
                #[trigger] input@[b],
            ).0,
    ensures
        r@.len() == input@.len(),
        forall|a: int, b: int|
            0 <= a < b < r@.len() ==> sugg_le_v(
                sugg_view(#[trigger] r@[a]),
                sugg_view(#[trigger] r@[b]),
            ),
        forall|a: int, b: int|
            0 <= a < b < r@.len() ==> sugg_view(#[trigger] r@[a]).0 != sugg_view(
                #[trigger] r@[b],
            ).0,
        r@.map_values(sugg_view_fn()).to_multiset() == input@.map_values(
            sugg_view_fn(),
        ).to_multiset(),
{
    let ghost f = sugg_view_fn();
    let mut out: Vec<SuggestEntry> = Vec::new();
    let mut i: usize = 0;
    proof {
        broadcast use to_multiset_insert;
        broadcast use to_multiset_build;

        assert(input@.take(0) =~= Seq::<SuggestEntry>::empty());
        assert(out@.map_values(f).to_multiset() =~= input@.take(0).map_values(f).to_multiset());
    }
    while i < input.len()
        invariant
            i <= input@.len(),
            f == sugg_view_fn(),
            out@.len() == i,
            forall|a: int, b: int|
                0 <= a < b < input@.len() ==> sugg_view(#[trigger] input@[a]).0 != sugg_view(
                    #[trigger] input@[b],
                ).0,
            forall|a: int, b: int|
                0 <= a < b < out@.len() ==> sugg_le_v(
                    sugg_view(#[trigger] out@[a]),
                    sugg_view(#[trigger] out@[b]),
                ),
            forall|a: int, b: int|
                0 <= a < b < out@.len() ==> sugg_view(#[trigger] out@[a]).0 != sugg_view(
                    #[trigger] out@[b],
                ).0,
            out@.map_values(f).to_multiset() == input@.take(i as int).map_values(
                f,
            ).to_multiset(),
        decreases input@.len() - i,
    {
        let x = SuggestEntry { term: clone_chars(&input[i].term), count: input[i].count };
        let ghost xv = sugg_view(x);
        proof {
            assert(xv == sugg_view(input@[i as int]));
        }
        let pos = sugg_scan(&out, &x);
        let ghost before = out@;
        proof {
            broadcast use vstd::seq_lib::group_to_multiset_ensures;

            assert forall|q: int| 0 <= q < before.len() implies sugg_view(
                #[trigger] before[q],
            ).0 != xv.0 by {
                let bv = before.map_values(f);
                assert(bv[q] == f(before[q]));
                assert(bv.contains(f(before[q])));
                assert(bv.to_multiset().count(f(before[q])) > 0);
                let tv = input@.take(i as int).map_values(f);
                assert(tv.to_multiset().count(f(before[q])) > 0);
                assert(tv.contains(f(before[q])));
                let w = choose|w: int| 0 <= w < tv.len() && tv[w] == f(before[q]);
                assert(f(input@.take(i as int)[w]) == f(before[q]));
                assert(input@.take(i as int)[w] == input@[w]);
                assert(sugg_view(input@[w]).0 == sugg_view(before[q]).0);
                if sugg_view(before[q]).0 == xv.0 {
                    assert(sugg_view(input@[w]).0 == sugg_view(input@[i as int]).0);
                    assert(false);
                }
            }
        }
        out.insert(pos, x);
        proof {
            broadcast use to_multiset_insert;
            broadcast use to_multiset_build;

            before.insert_ensures(pos as int, x);
            assert(out@.map_values(f) =~= before.map_values(f).insert(pos as int, f(x)));
            assert(input@.take(i + 1) =~= input@.take(i as int).push(input@[i as int]));
            assert(input@.take(i + 1).map_values(f) =~= input@.take(i as int).map_values(f).push(
                f(input@[i as int]),
            ));
            assert(f(x) == f(input@[i as int]));
            assert(out@.map_values(f).to_multiset() =~= input@.take(i + 1).map_values(
                f,
            ).to_multiset());
            if pos < before.len() {
                lemma_sugg_total(xv, sugg_view(before[pos as int]));
            }
            assert forall|a: int, b: int|
                0 <= a < b < out@.len() implies sugg_le_v(
                sugg_view(#[trigger] out@[a]),
                sugg_view(#[trigger] out@[b]),
            ) by {
                if a < pos && b < pos {
                    assert(out@[a] == before[a] && out@[b] == before[b]);
                } else if a < pos && b == pos {
                    assert(out@[a] == before[a] && out@[b] == x);
                } else if a < pos && b > pos {
                    assert(out@[a] == before[a] && out@[b] == before[b - 1]);
                } else if a == pos && b > pos {
                    assert(out@[a] == x && out@[b] == before[b - 1]);
                    assert(sugg_le_v(xv, sugg_view(before[pos as int])));
                    if b - 1 > pos {
                        assert(sugg_le_v(
                            sugg_view(before[pos as int]),
                            sugg_view(before[b - 1]),
                        ));
                        lemma_sugg_trans(
                            xv,
                            sugg_view(before[pos as int]),
                            sugg_view(before[b - 1]),
                        );
                    }
                } else {
                    assert(out@[a] == before[a - 1] && out@[b] == before[b - 1]);
                }
            }
            assert forall|a: int, b: int|
                0 <= a < b < out@.len() implies sugg_view(#[trigger] out@[a]).0 != sugg_view(
                #[trigger] out@[b],
            ).0 by {
                if a < pos && b < pos {
                    assert(out@[a] == before[a] && out@[b] == before[b]);
                } else if a < pos && b == pos {
                    assert(out@[a] == before[a] && out@[b] == x);
                } else if a < pos && b > pos {
                    assert(out@[a] == before[a] && out@[b] == before[b - 1]);
                } else if a == pos && b > pos {
                    assert(out@[a] == x && out@[b] == before[b - 1]);
                } else {
                    assert(out@[a] == before[a - 1] && out@[b] == before[b - 1]);
                }
            }
        }
        i = i + 1;
    }
    proof {
        assert(input@.take(input@.len() as int) =~= input@);
    }
    out
}

impl SearchOptimizer {
    /// Autocomplete: the indexed terms beginning with the lowercased prefix,
    /// ranked by how many documents contain each (descending, ties by
    /// ascending term), cut to the first `limit`. Every term left out,
    /// though matching, ranks at or after everything returned.
    #[verifier::rlimit(100)]
    pub fn get_suggestions(&self, prefix: &str, limit: usize) -> (r: Vec<String>)
        requires
            self.wf(),
        ensures
            r@.len() <= limit,
            forall|k: int|
                0 <= k < r@.len() ==> self.index.has_term((#[trigger] r@[k])@) && is_prefix(
                    lower_seq(prefix@),
                    r@[k]@,
                ),
            forall|a: int, b: int|
                0 <= a < b < r@.len() ==> sugg_le_v(
                    ((#[trigger] r@[a])@, self.index.doc_count(r@[a]@)),
                    ((#[trigger] r@[b])@, self.index.doc_count(r@[b]@)),
                ),
            forall|a: int, b: int| 0 <= a < b < r@.len() ==> (#[trigger] r@[a])@ != (
                #[trigger] r@[b])@,
            forall|t: Seq<char>|
                (#[trigger] self.index.has_term(t)) && is_prefix(lower_seq(prefix@), t) && !(
                exists|k: int| 0 <= k < r@.len() && (#[trigger] r@[k])@ == t) ==> (r@.len()
                    == limit && forall|k: int|
                    0 <= k < r@.len() ==> sugg_le_v(
                        ((#[trigger] r@[k])@, self.index.doc_count(r@[k]@)),
                        (t, self.index.doc_count(t)),
                    )),
    {
        let ghost tk = term_key();
        let pl = lower_text(prefix);
        let mut cands: Vec<SuggestEntry> = Vec::new();
        let mut j: usize = 0;
        while j < self.index.terms.len()
            invariant
                j <= self.index.terms@.len(),
                self.wf(),
                tk == term_key(),
                pl@ == lower_seq(prefix@),
                forall|k: int|
                    0 <= k < cands@.len() ==> self.index.has_term(
                        sugg_view(#[trigger] cands@[k]).0,
                    ) && is_prefix(pl@, sugg_view(cands@[k]).0) && sugg_view(cands@[k]).1
                        == self.index.doc_count(sugg_view(cands@[k]).0),
                forall|jj: int|
                    0 <= jj < j && is_prefix(pl@, (#[trigger] self.index.terms@[jj]).term@)
                        ==> exists|k: int|
                        0 <= k < cands@.len() && sugg_view(#[trigger] cands@[k]).0
                            == self.index.terms@[jj].term@,
                forall|a: int, b: int|
                    0 <= a < b < cands@.len() ==> sugg_view(#[trigger] cands@[a]).0 != sugg_view(
                        #[trigger] cands@[b],
                    ).0,
                forall|k: int|
                    0 <= k < cands@.len() ==> exists|jj: int|
                        0 <= jj < j && sugg_view(#[trigger] cands@[k]).0
                            == self.index.terms@[jj].term@,
            decreases self.index.terms@.len() - j,
        {
            proof {
                assert(tk(self.index.terms@[j as int]) == self.index.terms@[j as int].term@);
                assert forall|jj: int| 0 <= jj < j implies tk(self.index.terms@[jj])
                    != self.index.terms@[j as int].term@ by {
                    assert(self.index.terms@[jj].term@ != self.index.terms@[j as int].term@);
                }
                lemma_find_key_at(self.index.terms@, tk, self.index.terms@[j as int].term@, j as int);
            }
            if is_prefix_chars(&pl, &self.index.terms[j].term) {
                let ghost pre = cands@;
                cands.push(
                    SuggestEntry {
                        term: clone_chars(&self.index.terms[j].term),
                        count: self.index.terms[j].postings.len(),
                    },
                );
                proof {
                    assert forall|jj: int|
                        0 <= jj < j + 1 && is_prefix(
                            pl@,
                            (#[trigger] self.index.terms@[jj]).term@,
                        ) implies exists|k: int|
                        0 <= k < cands@.len() && sugg_view(#[trigger] cands@[k]).0
                            == self.index.terms@[jj].term@ by {
                        if jj < j {
                            let w = choose|k: int|
                                0 <= k < pre.len() && sugg_view(#[trigger] pre[k]).0
                                    == self.index.terms@[jj].term@;
                            assert(sugg_view(cands@[w]).0 == self.index.terms@[jj].term@);
                        } else {
                            assert(sugg_view(cands@[pre.len() as int]).0
                                == self.index.terms@[j as int].term@);
                        }
                    }
                    assert forall|a: int, b: int|
                        0 <= a < b < cands@.len() implies sugg_view(#[trigger] cands@[a]).0
                        != sugg_view(#[trigger] cands@[b]).0 by {
                        if b < pre.len() {
                            assert(cands@[a] == pre[a] && cands@[b] == pre[b]);
                        } else {
                            assert(cands@[b].term@ == self.index.terms@[j as int].term@);
                            assert(cands@[a] == pre[a]);
                            let jj = choose|jj: int|
                                0 <= jj < j && sugg_view(#[trigger] pre[a]).0
                                    == self.index.terms@[jj].term@;
                            assert(self.index.terms@[jj].term@
                                != self.index.terms@[j as int].term@);
                        }
                    }
                    assert forall|k: int| 0 <= k < cands@.len() implies exists|jj: int|
                        0 <= jj < j + 1 && sugg_view(#[trigger] cands@[k]).0
                            == self.index.terms@[jj].term@ by {
                        if k < pre.len() {
                            let jj = choose|jj: int|
                                0 <= jj < j && sugg_view(#[trigger] pre[k]).0
                                    == self.index.terms@[jj].term@;
                            assert(0 <= jj < j + 1 && sugg_view(cands@[k]).0
                                == self.index.terms@[jj].term@);
                        } else {
                            assert(sugg_view(cands@[k]).0 == self.index.terms@[j as int].term@);
                        }
                    }
                }
            } else {
                proof {
                    assert(!is_prefix(pl@, self.index.terms@[j as int].term@));
                }
            }
            j = j + 1;
        }
        let sorted = sort_suggest(cands);
        let ghost f = sugg_view_fn();
        proof {
            broadcast use vstd::seq_lib::group_to_multiset_ensures;

            assert forall|k: int| 0 <= k < sorted@.len() implies exists|k2: int|
                0 <= k2 < cands@.len() && sugg_view(#[trigger] sorted@[k]) == sugg_view(
                    cands@[k2],
                ) by {
                let sv = sorted@.map_values(f);
                assert(sv[k] == f(sorted@[k]));
                assert(sv.contains(f(sorted@[k])));
                assert(sv.to_multiset().count(f(sorted@[k])) > 0);
                assert(cands@.map_values(f).to_multiset().count(f(sorted@[k])) > 0);
                assert(cands@.map_values(f).contains(f(sorted@[k])));
                let w = choose|w: int|
                    0 <= w < cands@.map_values(f).len() && cands@.map_values(f)[w] == f(
                        sorted@[k],
                    );
                assert(sugg_view(cands@[w]) == f(sorted@[k]));
            }
            assert forall|k2: int| 0 <= k2 < cands@.len() implies exists|k: int|
                0 <= k < sorted@.len() && sugg_view(#[trigger] sorted@[k]) == sugg_view(
                    #[trigger] cands@[k2],
                ) by {
                let cv = cands@.map_values(f);
                assert(cv[k2] == f(cands@[k2]));
                assert(cv.contains(f(cands@[k2])));
                assert(cv.to_multiset().count(f(cands@[k2])) > 0);
                assert(sorted@.map_values(f).to_multiset().count(f(cands@[k2])) > 0);
                assert(sorted@.map_values(f).contains(f(cands@[k2])));
                let w = choose|w: int|
                    0 <= w < sorted@.map_values(f).len() && sorted@.map_values(f)[w] == f(
                        cands@[k2],
                    );
                assert(sugg_view(sorted@[w]) == f(cands@[k2]));
            }
        }
        let mut r: Vec<String> = Vec::new();
        let mut k: usize = 0;
        while k < sorted.len() && k < limit
            invariant
                k <= sorted@.len(),
                k <= limit,
                r@.len() == k,
                forall|p: int| 0 <= p < k ==> (#[trigger] r@[p])@ == sugg_view(sorted@[p]).0,
            decreases sorted@.len() - k,
        {
            let s = chars_to_string(&sorted[k].term);
            r.push(s);
            k = k + 1;
        }
        proof {
            assert(r@.len() == if sorted@.len() <= limit {
                sorted@.len() as int
            } else {
                limit as int
            });
            assert forall|p: int| 0 <= p < r@.len() implies self.index.has_term((
            #[trigger] r@[p])@) && is_prefix(lower_seq(prefix@), r@[p]@) && self.index.doc_count(
                r@[p]@,
            ) == sugg_view(sorted@[p]).1 by {
                let w = choose|k2: int|
                    0 <= k2 < cands@.len() && sugg_view(#[trigger] sorted@[p]) == sugg_view(
                        cands@[k2],
                    );
            }
            assert forall|t: Seq<char>|
                (#[trigger] self.index.has_term(t)) && is_prefix(lower_seq(prefix@), t) && !(
                exists|k2: int| 0 <= k2 < r@.len() && (#[trigger] r@[k2])@ == t) implies (r@.len()
                    == limit && forall|k2: int|
                    0 <= k2 < r@.len() ==> sugg_le_v(
                        ((#[trigger] r@[k2])@, self.index.doc_count(r@[k2]@)),
                        (t, self.index.doc_count(t)),
                    )) by {
                let ti = self.index.term_index(t);
                lemma_find_key_props(self.index.terms@, tk, t);
                assert(tk(self.index.terms@[ti]) == self.index.terms@[ti].term@);
                assert(self.index.terms@[ti].term@ == t);
                assert(is_prefix(pl@, self.index.terms@[ti].term@));
                let kc = choose|kc: int|
                    0 <= kc < cands@.len() && sugg_view(#[trigger] cands@[kc]).0 == t;
                let ks = choose|ks: int|
                    0 <= ks < sorted@.len() && sugg_view(#[trigger] sorted@[ks]) == sugg_view(
                        cands@[kc],
                    );
                if ks < r@.len() {
                    assert((#[trigger] r@[ks])@ == t);
                    assert(false);
                }
                assert(r@.len() == limit);
                assert forall|k2: int| 0 <= k2 < r@.len() implies sugg_le_v(
                    ((#[trigger] r@[k2])@, self.index.doc_count(r@[k2]@)),
                    (t, self.index.doc_count(t)),
                ) by {
                    assert(sugg_le_v(sugg_view(sorted@[k2]), sugg_view(sorted@[ks])));
                    assert(sugg_view(sorted@[ks]).1 == self.index.doc_count(t));
                }
            }
        }
        r
    }
}

/// One externally named document with its score, as batch scoring returns
/// it.
pub struct ScoredId {
    pub id: String,
    pub score: i64,
}

/// Summary statistics of the built index.
pub struct IndexStats {
    pub total_documents: usize,
    pub total_terms: usize,
    pub avg_document_length_milli: u64,
    pub categories: usize,
    pub tags: usize,
}

impl SearchOptimizer {
    /// The exact-match BM25 scores of all matching documents for one query.
    pub open spec fn bscore_rec(&self, toks: Seq<Seq<char>>, ids: Seq<usize>) -> Seq<Scored>
        decreases ids.len(),
    {
        if ids.len() == 0 {
            Seq::empty()
        } else {
            self.bscore_rec(toks, ids.drop_last()).push(
                Scored {
                    doc: ids.last(),
                    score: self.index.bm25_milli(
                        toks,
                        ids.last() as int,
                        BM25_K1_MILLI as int,
                        BM25_B_MILLI as int,
                    ) as i64,
                },
            )
        }
    }

    /// The ranked exact-match scores for one query text: every matching
    /// document, scored without boosts, fuzzing or thresholds, sorted.
    pub open spec fn batch_ranked(&self, query: Seq<char>) -> Seq<Scored> {
        let toks = text_tokens(query);
        self.bscore_rec(toks, self.index.matched_ids(toks, false, 0)).sort_by(rank_le())
    }

    /// Every batch entry names a loaded document.
    proof fn lemma_batch_range(&self, query: Seq<char>)
        requires
            self.wf(),
        ensures
            forall|k: int|
                0 <= k < self.batch_ranked(query).len() ==> ((#[trigger] self.batch_ranked(
                    query,
                )[k]).doc as int) < self.documents@.len(),
    {
        let toks = text_tokens(query);
        lemma_matched_range(self.index, toks, false, 0, self.index.num_docs());
        let ids = self.index.matched_ids(toks, false, 0);
        self.lemma_bscore_range(toks, ids, self.documents@.len() as int);
        let scored = self.bscore_rec(toks, ids);
        crate::sorting::lemma_rank_total();
        scored.lemma_sort_by_ensures(rank_le());
        broadcast use vstd::seq_lib::group_to_multiset_ensures;

        assert forall|k: int| 0 <= k < self.batch_ranked(query).len() implies ((
        #[trigger] self.batch_ranked(query)[k]).doc as int) < self.documents@.len() by {
            let e = self.batch_ranked(query)[k];
            assert(self.batch_ranked(query).contains(e));
            assert(self.batch_ranked(query).to_multiset().count(e) > 0);
            assert(scored.to_multiset().count(e) > 0);
            assert(scored.contains(e));
            let w = choose|w: int| 0 <= w < scored.len() && scored[w] == e;
        }
    }

    /// Batch scores keep ids under any bound the inputs respect.
    proof fn lemma_bscore_range(&self, toks: Seq<Seq<char>>, ids: Seq<usize>, bound: int)
        requires
            forall|k: int| 0 <= k < ids.len() ==> ((#[trigger] ids[k]) as int) < bound,
        ensures
            forall|k: int|
                0 <= k < self.bscore_rec(toks, ids).len() ==> ((#[trigger] self.bscore_rec(
                    toks,
                    ids,
                )[k]).doc as int) < bound,
        decreases ids.len(),
    {
        if ids.len() > 0 {
            assert forall|k: int| 0 <= k < ids.drop_last().len() implies ((
            #[trigger] ids.drop_last()[k]) as int) < bound by {
                assert(ids.drop_last()[k] == ids[k]);
            }
            self.lemma_bscore_range(toks, ids.drop_last(), bound);
            let prev = self.bscore_rec(toks, ids.drop_last());
            let cur = self.bscore_rec(toks, ids);
            assert forall|k: int| 0 <= k < cur.len() implies ((#[trigger] cur[k]).doc as int)
                < bound by {
                if k < prev.len() {
                    assert(cur[k] == prev[k]);
                } else {
                    assert(cur[k].doc == ids.last());
                }
            }
        }
    }

    /// A result row is the ranked exact-match scoring of one query.
    pub open spec fn batch_row_ok(&self, query: Seq<char>, row: Seq<ScoredId>) -> bool {
        let ranked = self.batch_ranked(query);
        &&& row.len() == ranked.len()
        &&& (forall|k: int|
            0 <= k < ranked.len() ==> 0 <= ranked[k].doc < self.documents@.len() && (
            #[trigger] row[k]).id@ == self.documents@[ranked[k].doc as int].id@ && row[k].score
                == ranked[k].score)
    }

    /// Scores several queries at once: for each query text, every document
    /// containing one of its tokens exactly (no fuzzing, no filters, no
    /// pagination), with its plain BM25 score, ranked descending.
    pub fn batch_score(&self, queries: &Vec<String>) -> (r: Vec<Vec<ScoredId>>)
        requires
            self.wf(),
        ensures
            r@.len() == queries@.len(),
            forall|qi: int|
                0 <= qi < queries@.len() ==> self.batch_row_ok(
                    queries@[qi]@,
                    (#[trigger] r@[qi])@,
                ),
    {
        let mut r: Vec<Vec<ScoredId>> = Vec::new();
        let mut qi: usize = 0;
        while qi < queries.len()
            invariant
                qi <= queries@.len(),
                self.wf(),
                r@.len() == qi,
                forall|p: int|
                    0 <= p < qi ==> self.batch_row_ok(queries@[p]@, (#[trigger] r@[p])@),
            decreases queries@.len() - qi,
        {
            let ghost qv = queries@[qi as int]@;
            let toks = tokenize_chars(queries[qi].as_str());
            let ids = self.index.search(queries[qi].as_str(), false, 0);
            proof {
                lemma_matched_range(self.index, text_tokens(qv), false, 0, self.index.num_docs());
            }
            let mut scored: Vec<Scored> = Vec::new();
            let mut i: usize = 0;
            proof {
                assert(ids@.take(0) =~= Seq::<usize>::empty());
            }
            while i < ids.len()
                invariant
                    i <= ids@.len(),
                    self.wf(),
                    toks.deep_view() == text_tokens(qv),
                    ids@ == self.index.matched_ids(text_tokens(qv), false, 0),
                    forall|k: int|
                        0 <= k < ids@.len() ==> ((#[trigger] ids@[k]) as int)
                            < self.documents@.len(),
                    scored@ == self.bscore_rec(text_tokens(qv), ids@.take(i as int)),
                decreases ids@.len() - i,
            {
                let d = ids[i];
                let sc = self.index.calculate_bm25_score(d, &toks, BM25_K1_MILLI, BM25_B_MILLI);
                proof {
                    assert(ids@.take(i + 1).drop_last() =~= ids@.take(i as int));
                    assert(ids@.take(i + 1).last() == d);
                }
                scored.push(Scored { doc: d, score: sc });
                i = i + 1;
            }
            proof {
                assert(ids@.take(ids@.len() as int) =~= ids@);
                self.lemma_bscore_range(
                    text_tokens(qv),
                    ids@,
                    self.documents@.len() as int,
                );
            }
            let sorted = sort_scored(scored);
            proof {
                assert(sorted@ == self.batch_ranked(qv));
                self.lemma_batch_range(qv);
            }
            let mut row: Vec<ScoredId> = Vec::new();
            let mut k: usize = 0;
            while k < sorted.len()
                invariant
                    k <= sorted@.len(),
                    self.wf(),
                    sorted@ == self.batch_ranked(qv),
                    forall|p: int|
                        0 <= p < sorted@.len() ==> ((#[trigger] sorted@[p]).doc as int)
                            < self.documents@.len(),
                    row@.len() == k,
                    forall|p: int|
                        0 <= p < k ==> (#[trigger] row@[p]).id@
                            == self.documents@[sorted@[p].doc as int].id@ && row@[p].score
                            == sorted@[p].score,
                decreases sorted@.len() - k,
            {
                let e = sorted[k];
                let id = self.documents[e.doc].id.clone();
                row.push(ScoredId { id, score: e.score });
                k = k + 1;
            }
            let ghost pre_r = r@;
            r.push(row);
            proof {
                assert(self.batch_row_ok(qv, row@)) by {
                    assert(sorted@ == self.batch_ranked(qv));
                    assert(row@.len() == sorted@.len());
                }
                assert forall|p: int|
                    0 <= p < qi + 1 implies self.batch_row_ok(
                    queries@[p]@,
                    (#[trigger] r@[p])@,
                ) by {
                    if p < qi {
                        assert(r@[p] == pre_r[p]);
                    } else {
                        assert(r@[p] == row);
                        assert(queries@[p]@ == qv);
                    }
                }
            }
            qi = qi + 1;
        }
        r
    }

    /// Reports the index statistics: document, distinct-term, category and
    /// tag-value counts, and the average document token length in milli
    /// units (zero for an empty collection).
    pub fn get_index_stats(&self) -> (st: IndexStats)
        requires
            self.wf(),
        ensures
            st.total_documents == self.documents@.len(),
            st.total_terms == self.index.terms@.len(),
            st.avg_document_length_milli as int == if self.documents@.len() == 0 {
                0int
            } else {
                1000 * total_clamped(self.index.doc_lengths@) / (self.documents@.len() as int)
            },
            st.categories == self.category_index@.len(),
            st.tags == self.tag_index@.len(),
    {
        let nd = self.documents.len();
        let avg: u64 = if nd == 0 {
            0
        } else {
            let t = self.index.total_len_clamped();
            let a: u128 = 1000 * (t as u128) / (nd as u128);
            proof {
                crate::index::lemma_sum_clamped_bounds(self.index.doc_lengths@);
                assert(1000 * (t as int) <= 1000 * ((nd as int) * 0xffffffff)) by (nonlinear_arith)
                    requires
                        0 <= t as int <= (nd as int) * 0xffffffff,
                {}
                assert(1000 * ((nd as int) * 0xffffffff) == (1000 * 0xffffffff) * (nd as int))
                    by (nonlinear_arith)
                {}
                lemma_div_is_ordered(
                    1000 * (t as int),
                    (1000 * 0xffffffff) * (nd as int),
                    nd as int,
                );
                lemma_div_by_multiple(1000int * 0xffffffff, nd as int);
                assert(a <= 1000 * 0xffffffff);
            }
            a as u64
        };
        IndexStats {
            total_documents: nd,
            total_terms: self.index.terms.len(),
            avg_document_length_milli: avg,
            categories: self.category_index.len(),
            tags: self.tag_index.len(),
        }
    }
}

} // verus!

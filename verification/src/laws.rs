//! The library's laws: general properties of the engine proved once and for
//! all, stated over the same specification functions that the executable
//! functions' contracts use.

use vstd::prelude::*;
use crate::engine::{
    cat_count, doc_tokens, lemma_cat_count_nonneg, lemma_tag_count_nonneg, tag_count,
    tag_occurrences, FacetEntry, SearchDocument, SearchOptimizer, SearchQuery,
};
use crate::index::{count_of, lemma_count_of_contains, InvertedIndex};
use crate::sorting::{rank_le, Scored};
use crate::text::text_tokens;

verus! {

/// A slot count, being a vector length, fits in a `usize`.
proof fn proof_num_docs_bound(e: &SearchOptimizer)
    ensures
        e.index.num_docs() <= usize::MAX,
{
    assert(e.index.doc_lengths@.len() == e.index.doc_lengths.len());
}

/// A document is in the ascending match list exactly when it matches and
/// is in range.
proof fn lemma_matched_contains(
    idx: InvertedIndex,
    toks: Seq<Seq<char>>,
    fuzzy: bool,
    dist: int,
    nd: int,
    d: int,
)
    requires
        0 <= nd <= usize::MAX,
    ensures
        (exists|k: int|
            0 <= k < idx.matched_upto(toks, fuzzy, dist, nd).len() && (#[trigger] idx.matched_upto(
                toks,
                fuzzy,
                dist,
                nd,
            )[k]) as int == d) <==> (0 <= d < nd && idx.doc_matches(toks, fuzzy, dist, d)),
    decreases nd,
{
    if nd == 0 {
    } else {
        lemma_matched_contains(idx, toks, fuzzy, dist, nd - 1, d);
        let prev = idx.matched_upto(toks, fuzzy, dist, nd - 1);
        let cur = idx.matched_upto(toks, fuzzy, dist, nd);
        if exists|k: int| 0 <= k < cur.len() && (#[trigger] cur[k]) as int == d {
            let k = choose|k: int| 0 <= k < cur.len() && (#[trigger] cur[k]) as int == d;
            if k < prev.len() {
                assert(cur[k] == prev[k]);
            } else {
                assert(cur[k] as int == nd - 1);
            }
        }
        if 0 <= d < nd && idx.doc_matches(toks, fuzzy, dist, d) {
            if d < nd - 1 {
                let k = choose|k: int| 0 <= k < prev.len() && (#[trigger] prev[k]) as int == d;
                assert(cur[k] as int == d);
            } else {
                assert(idx.doc_matches(toks, fuzzy, dist, nd - 1));
                assert(cur[prev.len() as int] as int == d);
            }
        }
    }
}

/// A document is in the filtered list exactly when it was a candidate and
/// passes the filters.
proof fn lemma_filtered_contains(
    docs: Seq<SearchDocument>,
    f: crate::engine::SearchFilters,
    ids: Seq<usize>,
    d: int,
)
    ensures
        (exists|k: int|
            0 <= k < crate::engine::filtered_ids_rec(docs, f, ids).len() && (
            #[trigger] crate::engine::filtered_ids_rec(docs, f, ids)[k]) as int == d) <==> ((
        exists|k: int| 0 <= k < ids.len() && (#[trigger] ids[k]) as int == d)
            && crate::engine::passes_filters(docs, f, d)),
    decreases ids.len(),
{
    let cur = crate::engine::filtered_ids_rec(docs, f, ids);
    if ids.len() == 0 {
    } else {
        lemma_filtered_contains(docs, f, ids.drop_last(), d);
        let prev = crate::engine::filtered_ids_rec(docs, f, ids.drop_last());
        if exists|k: int| 0 <= k < cur.len() && (#[trigger] cur[k]) as int == d {
            let k = choose|k: int| 0 <= k < cur.len() && (#[trigger] cur[k]) as int == d;
            if k < prev.len() {
                assert(cur[k] == prev[k]);
                let k2 = choose|k2: int|
                    0 <= k2 < ids.drop_last().len() && (#[trigger] ids.drop_last()[k2]) as int
                        == d;
                assert(ids[k2] as int == d);
            } else {
                assert(cur[k] == ids.last());
                assert(ids[ids.len() - 1] as int == d);
            }
        }
        if (exists|k: int| 0 <= k < ids.len() && (#[trigger] ids[k]) as int == d)
            && crate::engine::passes_filters(docs, f, d) {
            let k = choose|k: int| 0 <= k < ids.len() && (#[trigger] ids[k]) as int == d;
            if k < ids.len() - 1 {
                assert(ids.drop_last()[k] as int == d);
                let k2 = choose|k2: int|
                    0 <= k2 < prev.len() && (#[trigger] prev[k2]) as int == d;
                assert(cur[k2] as int == d);
            } else {
                assert(ids.last() as int == d);
                assert(cur[cur.len() - 1] as int == d);
            }
        }
    }
}

impl SearchOptimizer {
    /// A surviving candidate appears among the scored entries.
    proof fn lemma_scored_contains(&self, q: SearchQuery, ids: Seq<usize>, d: int)
        requires
            exists|k: int| 0 <= k < ids.len() && (#[trigger] ids[k]) as int == d,
            self.survives(q, d),
        ensures
            exists|k: int|
                0 <= k < self.scored_rec(q, ids).len() && (#[trigger] self.scored_rec(
                    q,
                    ids,
                )[k]).doc as int == d,
        decreases ids.len(),
    {
        let cur = self.scored_rec(q, ids);
        let k = choose|k: int| 0 <= k < ids.len() && (#[trigger] ids[k]) as int == d;
        if k < ids.len() - 1 {
            assert(ids.drop_last()[k] as int == d);
            self.lemma_scored_contains(q, ids.drop_last(), d);
            let prev = self.scored_rec(q, ids.drop_last());
            let k2 = choose|k2: int|
                0 <= k2 < prev.len() && (#[trigger] prev[k2]).doc as int == d;
            assert(cur[k2] == prev[k2]);
        } else {
            assert(ids.last() as int == d);
            assert(self.survives(q, ids.last() as int));
            assert(cur[cur.len() - 1].doc as int == d);
        }
    }
}

/// Recall: a document loaded into a well-formed engine appears in the
/// unfiltered result set of any query sharing a token with it.
pub proof fn lemma_recall(e: &SearchOptimizer, q: SearchQuery, d: int, t: Seq<char>)
    requires
        e.wf(),
        q.filters is None,
        0 <= d < e.documents@.len(),
        doc_tokens(e.documents@[d]).contains(t),
        text_tokens(q.query@).contains(t),
    ensures
        exists|k: int|
            0 <= k < e.spec_ranked(q).len() && (#[trigger] e.spec_ranked(q)[k]).doc as int == d,
{
    let toks = text_tokens(q.query@);
    lemma_count_of_contains(doc_tokens(e.documents@[d]), t);
    assert(e.index.freq(t, d) > 0);
    let w = choose|w: int| 0 <= w < toks.len() && toks[w] == t;
    assert(e.index.token_match(toks[w], q.fuzzy, SearchOptimizer::fuzz_dist(q), d));
    assert(e.index.doc_matches(toks, q.fuzzy, SearchOptimizer::fuzz_dist(q), d));
    proof_num_docs_bound(e);
    lemma_matched_contains(
        e.index,
        toks,
        q.fuzzy,
        SearchOptimizer::fuzz_dist(q),
        e.index.num_docs(),
        d,
    );
    assert(e.spec_filtered(q) == e.index.matched_ids(toks, q.fuzzy, SearchOptimizer::fuzz_dist(q)));
    assert(e.survives(q, d));
    e.lemma_scored_contains(q, e.spec_filtered(q), d);
    let scored = e.spec_scored(q);
    crate::sorting::lemma_rank_total();
    scored.lemma_sort_by_ensures(rank_le());
    broadcast use vstd::seq_lib::group_to_multiset_ensures;

    let k = choose|k: int| 0 <= k < scored.len() && (#[trigger] scored[k]).doc as int == d;
    let el = scored[k];
    assert(scored.contains(el));
    assert(scored.to_multiset().count(el) > 0);
    assert(e.spec_ranked(q).to_multiset().count(el) > 0);
    assert(e.spec_ranked(q).contains(el));
    let k2 = choose|k2: int| 0 <= k2 < e.spec_ranked(q).len() && e.spec_ranked(q)[k2] == el;
    assert(e.spec_ranked(q)[k2].doc as int == d);
}

/// A zero limit slices an empty page, whatever the total.
pub proof fn lemma_zero_limit(q: SearchQuery, total: int)
    requires
        q.limit == 0,
        0 <= total,
    ensures
        SearchOptimizer::page_end(q, total) == SearchOptimizer::page_start(q, total),
{
}

/// An offset at or past the total slices an empty page at the end.
pub proof fn lemma_offset_past_end(q: SearchQuery, total: int)
    requires
        0 <= total <= q.offset,
    ensures
        SearchOptimizer::page_start(q, total) == total,
        SearchOptimizer::page_end(q, total) == total,
{
}

/// The BM25 sum of tokens all absent from a document is zero.
proof fn lemma_bm25_sum_zero(idx: &InvertedIndex, toks: Seq<Seq<char>>, d: int, k1m: int, bm: int)
    requires
        forall|i: int| 0 <= i < toks.len() ==> idx.freq(#[trigger] toks[i], d) == 0,
    ensures
        idx.bm25_sum(toks, d, k1m, bm) == 0,
    decreases toks.len(),
{
    if toks.len() > 0 {
        assert forall|i: int| 0 <= i < toks.drop_last().len() implies idx.freq(
            #[trigger] toks.drop_last()[i],
            d,
        ) == 0 by {
            assert(toks.drop_last()[i] == toks[i]);
        }
        lemma_bm25_sum_zero(idx, toks.drop_last(), d, k1m, bm);
        assert(idx.freq(toks[toks.len() - 1], d) == 0);
        assert(idx.term_contribution(toks.last(), d, k1m, bm) == 0);
    }
}

/// The BM25 score of a document containing none of the query tokens is
/// exactly zero.
pub proof fn lemma_bm25_zero(idx: &InvertedIndex, toks: Seq<Seq<char>>, d: int, k1m: int, bm: int)
    requires
        forall|i: int| 0 <= i < toks.len() ==> idx.freq(#[trigger] toks[i], d) == 0,
    ensures
        idx.bm25_milli(toks, d, k1m, bm) == 0,
{
    lemma_bm25_sum_zero(idx, toks, d, k1m, bm);
}

/// A query whose tokens occur in no loaded document ranks nothing: after a
/// reload, terms only present before the reload yield empty results.
pub proof fn lemma_vanished_terms(e: &SearchOptimizer, q: SearchQuery)
    requires
        e.wf(),
        !q.fuzzy,
        forall|i: int, d: int|
            0 <= i < text_tokens(q.query@).len() && 0 <= d < e.documents@.len() ==> count_of(
                doc_tokens(#[trigger] e.documents@[d]),
                #[trigger] text_tokens(q.query@)[i],
            ) == 0,
    ensures
        e.spec_ranked(q).len() == 0,
{
    let toks = text_tokens(q.query@);
    let dist = SearchOptimizer::fuzz_dist(q);
    assert forall|d: int| 0 <= d < e.documents@.len() implies !e.index.doc_matches(
        toks,
        false,
        dist,
        d,
    ) by {
        if e.index.doc_matches(toks, false, dist, d) {
            let i = choose|i: int|
                0 <= i < toks.len() && e.index.token_match(#[trigger] toks[i], false, dist, d);
            assert(e.index.freq(toks[i], d) == count_of(doc_tokens(e.documents@[d]), toks[i]));
        }
    }
    if e.spec_filtered(q).len() > 0 {
        let d: int = 0;
        lemma_matched_range_public(e, q);
        let id = e.spec_filtered(q)[d] as int;
        match q.filters {
            Option::None => {
                proof_num_docs_bound(e);
                lemma_matched_contains(e.index, toks, false, dist, e.index.num_docs(), id);
                assert(e.index.matched_ids(toks, false, dist)[d] as int == id);
            },
            Option::Some(f) => {
                lemma_filtered_contains(
                    e.documents@,
                    f,
                    e.index.matched_ids(toks, false, dist),
                    id,
                );
                assert(crate::engine::filtered_ids_rec(
                    e.documents@,
                    f,
                    e.index.matched_ids(toks, false, dist),
                )[d] as int == id);
                proof_num_docs_bound(e);
                lemma_matched_contains(e.index, toks, false, dist, e.index.num_docs(), id);
            },
        }
        assert(false);
    }
    assert(e.spec_filtered(q).len() == 0);
    assert(e.spec_filtered(q) =~= Seq::<usize>::empty());
    assert(e.spec_scored(q).len() == 0);
    e.lemma_ranked_range(q);
}

/// Helper: matched and filtered ids name loaded documents.
proof fn lemma_matched_range_public(e: &SearchOptimizer, q: SearchQuery)
    requires
        e.wf(),
    ensures
        forall|k: int|
            0 <= k < e.spec_filtered(q).len() ==> ((#[trigger] e.spec_filtered(q)[k]) as int)
                < e.documents@.len(),
{
    let toks = text_tokens(q.query@);
    let dist = SearchOptimizer::fuzz_dist(q);
    crate::engine::lemma_matched_range(e.index, toks, q.fuzzy, dist, e.index.num_docs());
    match q.filters {
        Option::None => {},
        Option::Some(f) => {
            crate::engine::lemma_filtered_range(
                e.documents@,
                f,
                e.index.matched_ids(toks, q.fuzzy, dist),
                e.documents@.len() as int,
            );
        },
    }
}

/// A cleared or freshly built engine ranks nothing for any query.
pub proof fn lemma_empty_engine(e: &SearchOptimizer, q: SearchQuery)
    requires
        e.wf(),
        e.documents@.len() == 0,
    ensures
        e.spec_ranked(q).len() == 0,
{
    let toks = text_tokens(q.query@);
    let dist = SearchOptimizer::fuzz_dist(q);
    assert(e.index.matched_ids(toks, q.fuzzy, dist) =~= Seq::<usize>::empty());
    match q.filters {
        Option::None => {},
        Option::Some(f) => {
            assert(crate::engine::filtered_ids_rec(e.documents@, f, Seq::<usize>::empty())
                =~= Seq::<usize>::empty());
        },
    }
    assert(e.spec_scored(q).len() == 0);
    e.lemma_ranked_range(q);
}

/// The sum of the category counts named by a facet entry list.
pub open spec fn entries_cat_sum(
    entries: Seq<FacetEntry>,
    docs: Seq<SearchDocument>,
    scored: Seq<Scored>,
) -> int
    decreases entries.len(),
{
    if entries.len() == 0 {
        0
    } else {
        entries_cat_sum(entries.drop_last(), docs, scored) + cat_count(
            docs,
            scored,
            entries.last().value@,
        )
    }
}

/// The sum of the tag counts named by a facet entry list.
pub open spec fn entries_tag_sum(
    entries: Seq<FacetEntry>,
    docs: Seq<SearchDocument>,
    scored: Seq<Scored>,
) -> int
    decreases entries.len(),
{
    if entries.len() == 0 {
        0
    } else {
        entries_tag_sum(entries.drop_last(), docs, scored) + tag_count(
            docs,
            scored,
            entries.last().value@,
        )
    }
}

/// How many entries carry value `v`.
pub open spec fn count_value(entries: Seq<FacetEntry>, v: Seq<char>) -> int
    decreases entries.len(),
{
    if entries.len() == 0 {
        0
    } else {
        count_value(entries.drop_last(), v) + if entries.last().value@ == v {
            1int
        } else {
            0int
        }
    }
}

/// With distinct values, a present value is counted exactly once.
proof fn lemma_count_value_one(entries: Seq<FacetEntry>, v: Seq<char>)
    requires
        forall|a: int, b: int|
            0 <= a < b < entries.len() ==> (#[trigger] entries[a].value@) != (
            #[trigger] entries[b].value@),
    ensures
        count_value(entries, v) == if exists|j: int|
            0 <= j < entries.len() && (#[trigger] entries[j].value@) == v {
            1int
        } else {
            0int
        },
    decreases entries.len(),
{
    if entries.len() == 0 {
    } else {
        let prev = entries.drop_last();
        assert forall|a: int, b: int|
            0 <= a < b < prev.len() implies (#[trigger] prev[a].value@) != (
        #[trigger] prev[b].value@) by {
            assert(entries[a].value@ != entries[b].value@);
        }
        lemma_count_value_one(prev, v);
        if entries.last().value@ == v {
            assert(entries[entries.len() - 1].value@ == v);
            if exists|j: int| 0 <= j < prev.len() && (#[trigger] prev[j].value@) == v {
                let j = choose|j: int| 0 <= j < prev.len() && (#[trigger] prev[j].value@) == v;
                assert(entries[j].value@ == entries[entries.len() - 1].value@);
                assert(false);
            }
        } else {
            if exists|j: int| 0 <= j < entries.len() && (#[trigger] entries[j].value@) == v {
                let j = choose|j: int|
                    0 <= j < entries.len() && (#[trigger] entries[j].value@) == v;
                assert(j < prev.len());
                assert(prev[j].value@ == v);
            }
            if exists|j: int| 0 <= j < prev.len() && (#[trigger] prev[j].value@) == v {
                let j = choose|j: int| 0 <= j < prev.len() && (#[trigger] prev[j].value@) == v;
                assert(entries[j].value@ == v);
            }
        }
    }
}

/// Peeling the last scored document off every entry's category count.
proof fn lemma_cat_sum_step(
    entries: Seq<FacetEntry>,
    docs: Seq<SearchDocument>,
    scored: Seq<Scored>,
)
    requires
        scored.len() > 0,
    ensures
        entries_cat_sum(entries, docs, scored) == entries_cat_sum(
            entries,
            docs,
            scored.drop_last(),
        ) + count_value(entries, docs[scored.last().doc as int].category@),
    decreases entries.len(),
{
    if entries.len() > 0 {
        lemma_cat_sum_step(entries.drop_last(), docs, scored);
    }
}

/// Peeling the last scored document off every entry's tag count.
proof fn lemma_tag_sum_step(
    entries: Seq<FacetEntry>,
    docs: Seq<SearchDocument>,
    scored: Seq<Scored>,
)
    requires
        scored.len() > 0,
    ensures
        entries_tag_sum(entries, docs, scored) == entries_tag_sum(
            entries,
            docs,
            scored.drop_last(),
        ) + entries_occ_sum(entries, docs[scored.last().doc as int].tags.deep_view()),
    decreases entries.len(),
{
    if entries.len() > 0 {
        lemma_tag_sum_step(entries.drop_last(), docs, scored);
    }
}

/// The sum over entries of how often each entry's value occurs in one tag
/// list.
pub open spec fn entries_occ_sum(entries: Seq<FacetEntry>, tags: Seq<Seq<char>>) -> int
    decreases entries.len(),
{
    if entries.len() == 0 {
        0
    } else {
        entries_occ_sum(entries.drop_last(), tags) + count_of(tags, entries.last().value@)
    }
}

/// Peeling the last tag off every entry's occurrence count.
proof fn lemma_occ_sum_step(entries: Seq<FacetEntry>, tags: Seq<Seq<char>>)
    requires
        tags.len() > 0,
    ensures
        entries_occ_sum(entries, tags) == entries_occ_sum(entries, tags.drop_last())
            + count_value(entries, tags.last()),
    decreases entries.len(),
{
    if entries.len() > 0 {
        lemma_occ_sum_step(entries.drop_last(), tags);
    }
}

/// When every tag of the list is counted exactly once by the entries, the
/// occurrence sum is the list's length.
proof fn lemma_occ_sum_full(entries: Seq<FacetEntry>, tags: Seq<Seq<char>>)
    requires
        forall|i: int| 0 <= i < tags.len() ==> count_value(entries, #[trigger] tags[i]) == 1,
    ensures
        entries_occ_sum(entries, tags) == tags.len(),
    decreases tags.len(),
{
    if tags.len() == 0 {
        assert(tags =~= Seq::<Seq<char>>::empty());
        lemma_occ_empty(entries);
    } else {
        assert forall|i: int| 0 <= i < tags.drop_last().len() implies count_value(
            entries,
            #[trigger] tags.drop_last()[i],
        ) == 1 by {
            assert(tags.drop_last()[i] == tags[i]);
        }
        lemma_occ_sum_full(entries, tags.drop_last());
        lemma_occ_sum_step(entries, tags);
        assert(tags[tags.len() - 1] == tags.last());
        assert(count_value(entries, tags.last()) == 1);
    }
}

/// Occurrence sums over an empty tag list vanish.
proof fn lemma_occ_empty(entries: Seq<FacetEntry>)
    ensures
        entries_occ_sum(entries, Seq::<Seq<char>>::empty()) == 0,
    decreases entries.len(),
{
    if entries.len() > 0 {
        lemma_occ_empty(entries.drop_last());
    }
}

/// Category sums over an empty scored set vanish.
proof fn lemma_cat_sum_empty(entries: Seq<FacetEntry>, docs: Seq<SearchDocument>)
    ensures
        entries_cat_sum(entries, docs, Seq::<Scored>::empty()) == 0,
    decreases entries.len(),
{
    if entries.len() > 0 {
        lemma_cat_sum_empty(entries.drop_last(), docs);
    }
}

/// Tag sums over an empty scored set vanish.
proof fn lemma_tag_sum_empty(entries: Seq<FacetEntry>, docs: Seq<SearchDocument>)
    ensures
        entries_tag_sum(entries, docs, Seq::<Scored>::empty()) == 0,
    decreases entries.len(),
{
    if entries.len() > 0 {
        lemma_tag_sum_empty(entries.drop_last(), docs);
    }
}

/// The inductive core of the category sum: each occurring value counted
/// exactly once.
proof fn lemma_cat_sum_inner(
    entries: Seq<FacetEntry>,
    docs: Seq<SearchDocument>,
    scored: Seq<Scored>,
)
    requires
        forall|v: Seq<char>|
            #[trigger] cat_count(docs, scored, v) > 0 ==> count_value(entries, v) == 1,
    ensures
        entries_cat_sum(entries, docs, scored) == scored.len(),
    decreases scored.len(),
{
    if scored.len() == 0 {
        assert(scored =~= Seq::<Scored>::empty());
        lemma_cat_sum_empty(entries, docs);
    } else {
        let s2 = scored.drop_last();
        let cv = docs[scored.last().doc as int].category@;
        assert forall|v: Seq<char>| #[trigger] cat_count(docs, s2, v) > 0 implies count_value(
            entries,
            v,
        ) == 1 by {
            lemma_cat_count_nonneg(docs, s2, v);
            assert(cat_count(docs, scored, v) > 0);
        }
        lemma_cat_sum_inner(entries, docs, s2);
        lemma_cat_sum_step(entries, docs, scored);
        lemma_cat_count_nonneg(docs, s2, cv);
        assert(cat_count(docs, scored, cv) > 0);
        assert(count_value(entries, cv) == 1);
    }
}

/// Category facet counts sum exactly to the scored document count: each
/// document has exactly one category, and a complete, duplicate-free facet
/// list counts each document once.
pub proof fn lemma_category_counts_sum(
    entries: Seq<FacetEntry>,
    docs: Seq<SearchDocument>,
    scored: Seq<Scored>,
)
    requires
        forall|a: int, b: int|
            0 <= a < b < entries.len() ==> (#[trigger] entries[a].value@) != (
            #[trigger] entries[b].value@),
        forall|v: Seq<char>|
            #[trigger] cat_count(docs, scored, v) > 0 ==> exists|j: int|
                0 <= j < entries.len() && (#[trigger] entries[j].value@) == v,
    ensures
        entries_cat_sum(entries, docs, scored) == scored.len(),
{
    assert forall|v: Seq<char>| #[trigger] cat_count(docs, scored, v) > 0 implies count_value(
        entries,
        v,
    ) == 1 by {
        lemma_count_value_one(entries, v);
    }
    lemma_cat_sum_inner(entries, docs, scored);
}

/// The inductive core of the tag sum.
proof fn lemma_tag_sum_inner(
    entries: Seq<FacetEntry>,
    docs: Seq<SearchDocument>,
    scored: Seq<Scored>,
)
    requires
        forall|v: Seq<char>|
            #[trigger] tag_count(docs, scored, v) > 0 ==> count_value(entries, v) == 1,
    ensures
        entries_tag_sum(entries, docs, scored) == total_tag_occurrences(docs, scored),
    decreases scored.len(),
{
    if scored.len() == 0 {
        assert(scored =~= Seq::<Scored>::empty());
        lemma_tag_sum_empty(entries, docs);
    } else {
        let s2 = scored.drop_last();
        let dl = docs[scored.last().doc as int];
        assert forall|v: Seq<char>| #[trigger] tag_count(docs, s2, v) > 0 implies count_value(
            entries,
            v,
        ) == 1 by {
            lemma_tag_count_nonneg(docs, s2, v);
            crate::index::lemma_count_of_bounds(dl.tags.deep_view(), v);
            assert(tag_count(docs, scored, v) > 0);
        }
        lemma_tag_sum_inner(entries, docs, s2);
        lemma_tag_sum_step(entries, docs, scored);
        assert forall|i: int| 0 <= i < dl.tags.deep_view().len() implies count_value(
            entries,
            #[trigger] dl.tags.deep_view()[i],
        ) == 1 by {
            let tv = dl.tags.deep_view()[i];
            lemma_count_of_contains(dl.tags.deep_view(), tv);
            lemma_tag_count_nonneg(docs, s2, tv);
            crate::index::lemma_count_of_bounds(dl.tags.deep_view(), tv);
            assert(tag_occurrences(dl, tv) > 0);
            assert(tag_count(docs, scored, tv) > 0);
        }
        lemma_occ_sum_full(entries, dl.tags.deep_view());
        assert(dl.tags.deep_view().len() == dl.tags@.len());
        assert(entries_occ_sum(entries, dl.tags.deep_view()) == dl.tags@.len());
    }
}

/// Tag facet counts sum exactly to the total tag occurrences of the scored
/// documents; a document carrying several tags contributes to several
/// buckets.
pub proof fn lemma_tag_counts_sum(
    entries: Seq<FacetEntry>,
    docs: Seq<SearchDocument>,
    scored: Seq<Scored>,
)
    requires
        forall|a: int, b: int|
            0 <= a < b < entries.len() ==> (#[trigger] entries[a].value@) != (
            #[trigger] entries[b].value@),
        forall|v: Seq<char>|
            #[trigger] tag_count(docs, scored, v) > 0 ==> exists|j: int|
                0 <= j < entries.len() && (#[trigger] entries[j].value@) == v,
    ensures
        entries_tag_sum(entries, docs, scored) == total_tag_occurrences(docs, scored),
{
    assert forall|v: Seq<char>| #[trigger] tag_count(docs, scored, v) > 0 implies count_value(
        entries,
        v,
    ) == 1 by {
        lemma_count_value_one(entries, v);
    }
    lemma_tag_sum_inner(entries, docs, scored);
}

/// How many scored documents carry at least one tag.
pub open spec fn docs_with_tags(docs: Seq<SearchDocument>, scored: Seq<Scored>) -> int
    decreases scored.len(),
{
    if scored.len() == 0 {
        0
    } else {
        docs_with_tags(docs, scored.drop_last()) + if docs[scored.last().doc as int].tags@.len()
            > 0 {
            1int
        } else {
            0int
        }
    }
}

/// The total number of tag occurrences over the scored documents.
pub open spec fn total_tag_occurrences(docs: Seq<SearchDocument>, scored: Seq<Scored>) -> int
    decreases scored.len(),
{
    if scored.len() == 0 {
        0
    } else {
        total_tag_occurrences(docs, scored.drop_last()) + docs[scored.last().doc as int].tags@.len()
    }
}

/// The total tag occurrences are at least the number of scored documents
/// carrying a tag.
pub proof fn lemma_tag_occurrences_lower_bound(docs: Seq<SearchDocument>, scored: Seq<Scored>)
    ensures
        total_tag_occurrences(docs, scored) >= docs_with_tags(docs, scored),
    decreases scored.len(),
{
    if scored.len() > 0 {
        lemma_tag_occurrences_lower_bound(docs, scored.drop_last());
    }
}

} // verus!

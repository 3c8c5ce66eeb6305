use search_optimizer::BoostEntry;
use search_optimizer::SearchDocument;
use search_optimizer::SearchFilters;
use search_optimizer::SearchOptimizer;
use search_optimizer::SearchQuery;
use search_optimizer::text::tokenize_chars;

fn doc(id: &str, title: &str, content: &str, tags: &[&str], category: &str) -> SearchDocument {
    SearchDocument {
        id: id.to_string(),
        title: title.to_string(),
        content: content.to_string(),
        tags: tags.iter().map(|t| t.to_string()).collect(),
        category: category.to_string(),
        score: 0,
        metadata: None,
    }
}

fn plain_query(text: &str) -> SearchQuery {
    SearchQuery {
        query: text.to_string(),
        filters: None,
        limit: 10,
        offset: 0,
        boost_fields: None,
        fuzzy: false,
        fuzzy_distance: None,
    }
}

fn no_filters() -> SearchFilters {
    SearchFilters {
        categories: None,
        tags: None,
        date_range: None,
        score_threshold: None,
    }
}

fn two_house_docs() -> Vec<SearchDocument> {
    vec![
        doc("a", "Red House", "", &["garden"], "house"),
        doc("b", "Blue Flat", "", &[], "flat"),
    ]
}

#[test]
fn query_house_returns_exactly_a() {
    let mut engine = SearchOptimizer::new();
    engine.load_documents(two_house_docs());
    let r = engine.search(&plain_query("house"));
    assert_eq!(r.total, 1);
    assert_eq!(r.documents.len(), 1);
    assert_eq!(r.documents[0].id, "a");
    assert!(r.facets.is_none());
}

#[test]
fn fuzzy_query_hous_matches_house() {
    let mut engine = SearchOptimizer::new();
    engine.load_documents(two_house_docs());
    let mut q = plain_query("hous");
    q.fuzzy = true;
    q.fuzzy_distance = Some(1);
    let r = engine.search(&q);
    assert_eq!(r.total, 1);
    assert_eq!(r.documents[0].id, "a");
}

#[test]
fn exact_query_hous_matches_nothing() {
    let mut engine = SearchOptimizer::new();
    engine.load_documents(two_house_docs());
    let r = engine.search(&plain_query("hous"));
    assert_eq!(r.total, 0);
    assert!(r.documents.is_empty());
}

#[test]
fn zero_limit_keeps_total() {
    let mut engine = SearchOptimizer::new();
    engine.load_documents(two_house_docs());
    let mut q = plain_query("house");
    q.limit = 0;
    let r = engine.search(&q);
    assert_eq!(r.total, 1);
    assert!(r.documents.is_empty());
}

#[test]
fn offset_past_total_gives_empty_page() {
    let mut engine = SearchOptimizer::new();
    engine.load_documents(two_house_docs());
    let mut q = plain_query("house");
    q.offset = 5;
    let r = engine.search(&q);
    assert_eq!(r.total, 1);
    assert!(r.documents.is_empty());
}

#[test]
fn reload_fully_replaces_documents() {
    let mut engine = SearchOptimizer::new();
    engine.load_documents(two_house_docs());
    engine.load_documents(vec![doc("c", "Green Cottage", "", &[], "cottage")]);
    let r = engine.search(&plain_query("house"));
    assert_eq!(r.total, 0);
    assert!(r.documents.is_empty());
    let r2 = engine.search(&plain_query("cottage"));
    assert_eq!(r2.total, 1);
    assert_eq!(r2.documents[0].id, "c");
}

#[test]
fn clear_then_query_is_empty() {
    let mut engine = SearchOptimizer::new();
    engine.load_documents(two_house_docs());
    engine.clear();
    let r = engine.search(&plain_query("house"));
    assert_eq!(r.total, 0);
    assert!(r.documents.is_empty());
}

#[test]
fn empty_query_matches_nothing() {
    let mut engine = SearchOptimizer::new();
    engine.load_documents(two_house_docs());
    let r = engine.search(&plain_query(""));
    assert_eq!(r.total, 0);
}

#[test]
fn category_filter_restricts_matches() {
    let mut engine = SearchOptimizer::new();
    engine.load_documents(vec![
        doc("a", "Stone House", "", &[], "house"),
        doc("b", "Stone Flat", "", &[], "flat"),
    ]);
    let mut q = plain_query("stone");
    let mut f = no_filters();
    f.categories = Some(vec!["flat".to_string()]);
    q.filters = Some(f);
    let r = engine.search(&q);
    assert_eq!(r.total, 1);
    assert_eq!(r.documents[0].id, "b");
}

#[test]
fn tag_filter_restricts_matches() {
    let mut engine = SearchOptimizer::new();
    engine.load_documents(vec![
        doc("a", "Stone House", "", &["garden", "pool"], "house"),
        doc("b", "Stone Flat", "", &["balcony"], "flat"),
    ]);
    let mut q = plain_query("stone");
    let mut f = no_filters();
    f.tags = Some(vec!["garden".to_string()]);
    q.filters = Some(f);
    let r = engine.search(&q);
    assert_eq!(r.total, 1);
    assert_eq!(r.documents[0].id, "a");
}

#[test]
fn facets_count_categories_and_tags() {
    let mut engine = SearchOptimizer::new();
    engine.load_documents(vec![
        doc("a", "Stone House", "", &["garden"], "house"),
        doc("b", "Stone Villa", "", &["garden", "pool"], "house"),
        doc("c", "Stone Flat", "", &[], "flat"),
    ]);
    let mut q = plain_query("stone");
    q.filters = Some(no_filters());
    let r = engine.search(&q);
    assert_eq!(r.total, 3);
    let facets = r.facets.expect("filters were supplied");
    let cats: Vec<(String, usize)> = facets
        .categories
        .iter()
        .map(|e| (e.value.clone(), e.count))
        .collect();
    assert_eq!(cats, vec![("flat".to_string(), 1), ("house".to_string(), 2)]);
    let tags: Vec<(String, usize)> = facets
        .tags
        .iter()
        .map(|e| (e.value.clone(), e.count))
        .collect();
    assert_eq!(
        tags,
        vec![("garden".to_string(), 2), ("pool".to_string(), 1)]
    );
    let cat_sum: usize = facets.categories.iter().map(|e| e.count).sum();
    assert_eq!(cat_sum, 3);
}

#[test]
fn duplicate_tags_count_per_occurrence() {
    let mut engine = SearchOptimizer::new();
    engine.load_documents(vec![doc(
        "a",
        "Twin House",
        "",
        &["garden", "garden"],
        "house",
    )]);
    let mut q = plain_query("twin");
    q.filters = Some(no_filters());
    let r = engine.search(&q);
    let facets = r.facets.expect("filters were supplied");
    assert_eq!(facets.tags.len(), 1);
    assert_eq!(facets.tags[0].value, "garden");
    assert_eq!(facets.tags[0].count, 2);
}

#[test]
fn score_threshold_drops_everything_when_high() {
    let mut engine = SearchOptimizer::new();
    engine.load_documents(two_house_docs());
    let mut q = plain_query("house");
    let mut f = no_filters();
    f.score_threshold = Some(i64::MAX);
    q.filters = Some(f);
    let r = engine.search(&q);
    assert_eq!(r.total, 0);
}

#[test]
fn boost_reorders_equal_scores() {
    let mut engine = SearchOptimizer::new();
    engine.load_documents(vec![
        doc("a", "Red House", "", &[], "brick"),
        doc("b", "Blue House", "", &[], "villa"),
        doc("c", "Flat one", "", &[], "other"),
        doc("d", "Flat two", "", &[], "other"),
        doc("e", "Flat three", "", &[], "other"),
    ]);
    let base = engine.search(&plain_query("house"));
    assert_eq!(base.total, 2);
    assert_eq!(base.documents[0].id, "a");
    assert_eq!(base.documents[1].id, "b");
    assert!(base.documents[0].score > 0);
    let mut q = plain_query("house");
    q.boost_fields = Some(vec![BoostEntry {
        field: "villa".to_string(),
        factor_milli: 5000,
    }]);
    let boosted = engine.search(&q);
    assert_eq!(boosted.total, 2);
    assert_eq!(boosted.documents[0].id, "b");
    assert_eq!(boosted.documents[1].id, "a");
    assert_eq!(boosted.documents[0].score, 5 * base.documents[1].score);
}

#[test]
fn title_boost_applies_when_query_in_title() {
    let mut engine = SearchOptimizer::new();
    engine.load_documents(vec![
        doc("a", "Red House", "", &[], "brick"),
        doc("b", "Flat one", "", &[], "other"),
        doc("c", "Flat two", "", &[], "other"),
    ]);
    let base = engine.search(&plain_query("house"));
    let mut q = plain_query("house");
    q.boost_fields = Some(vec![BoostEntry {
        field: "title".to_string(),
        factor_milli: 3000,
    }]);
    let boosted = engine.search(&q);
    assert_eq!(boosted.documents[0].score, 3 * base.documents[0].score);
}

#[test]
fn suggestions_rank_by_document_count() {
    let mut engine = SearchOptimizer::new();
    engine.load_documents(vec![
        doc("a", "Red House", "", &[], "x"),
        doc("b", "Blue House", "", &[], "x"),
        doc("c", "Rush Hour", "", &[], "x"),
    ]);
    let s = engine.get_suggestions("HOU", 10);
    assert_eq!(s, vec!["house".to_string(), "hour".to_string()]);
}

#[test]
fn suggestions_break_ties_by_term() {
    let mut engine = SearchOptimizer::new();
    engine.load_documents(vec![doc("a", "housecat houseboat", "", &[], "x")]);
    let s = engine.get_suggestions("house", 10);
    assert_eq!(s, vec!["houseboat".to_string(), "housecat".to_string()]);
}

#[test]
fn suggestions_respect_limit() {
    let mut engine = SearchOptimizer::new();
    engine.load_documents(vec![doc("a", "hat hand harp have", "", &[], "x")]);
    let s = engine.get_suggestions("ha", 2);
    assert_eq!(s.len(), 2);
}

#[test]
fn batch_score_is_exact_match_only() {
    let mut engine = SearchOptimizer::new();
    engine.load_documents(two_house_docs());
    let rows = engine.batch_score(&vec!["house".to_string(), "hous".to_string()]);
    assert_eq!(rows.len(), 2);
    assert_eq!(rows[0].len(), 1);
    assert_eq!(rows[0][0].id, "a");
    assert!(rows[1].is_empty());
}

#[test]
fn index_stats_report_counts() {
    let mut engine = SearchOptimizer::new();
    engine.load_documents(two_house_docs());
    let st = engine.get_index_stats();
    assert_eq!(st.total_documents, 2);
    assert_eq!(st.categories, 2);
    assert_eq!(st.tags, 1);
    // "red house garden" and "blue flat" hold five distinct terms
    assert_eq!(st.total_terms, 5);
    // document token counts are 3 and 2, so the average is 2.5
    assert_eq!(st.avg_document_length_milli, 2500);
}

#[test]
fn bm25_score_is_zero_without_matching_terms() {
    let mut engine = SearchOptimizer::new();
    engine.load_documents(two_house_docs());
    let toks = tokenize_chars("castle moat");
    let score = engine.index.calculate_bm25_score(0, &toks, 1200, 750);
    assert_eq!(score, 0);
}

#[test]
fn bm25_exact_score_value() {
    // three documents of two tokens each; "house" occurs once in one of
    // them, so idf = ln((3 - 1 + 0.5) / 1.5) = ln(5/3) and the normalized
    // term frequency is exactly one. In thousandths, the fixed-point
    // logarithm gives 510, so the score is 510.
    let mut engine = SearchOptimizer::new();
    engine.load_documents(vec![
        doc("a", "red house", "", &[], "x"),
        doc("b", "blue flat", "", &[], "x"),
        doc("c", "green barn", "", &[], "x"),
    ]);
    let r = engine.search(&plain_query("house"));
    assert_eq!(r.total, 1);
    assert_eq!(r.documents[0].score, 510);
}

#[test]
fn metadata_survives_into_results() {
    let mut engine = SearchOptimizer::new();
    let mut d = doc("a", "Red House", "", &[], "house");
    d.metadata = Some(vec![("agent".to_string(), "smith".to_string())]);
    engine.load_documents(vec![d]);
    let r = engine.search(&plain_query("house"));
    let meta = r.documents[0].metadata.as_ref().expect("metadata kept");
    assert_eq!(meta.len(), 1);
    assert_eq!(meta[0].0, "agent");
    assert_eq!(meta[0].1, "smith");
}

#[test]
fn content_and_tags_are_searchable() {
    let mut engine = SearchOptimizer::new();
    engine.load_documents(vec![
        doc("a", "One", "spacious cellar", &[], "x"),
        doc("b", "Two", "", &["riverside"], "x"),
    ]);
    let r1 = engine.search(&plain_query("cellar"));
    assert_eq!(r1.total, 1);
    assert_eq!(r1.documents[0].id, "a");
    let r2 = engine.search(&plain_query("riverside"));
    assert_eq!(r2.total, 1);
    assert_eq!(r2.documents[0].id, "b");
}

#[test]
fn pagination_slices_ranked_results() {
    let mut engine = SearchOptimizer::new();
    engine.load_documents(vec![
        doc("a", "stone stone stone", "", &[], "x"),
        doc("b", "stone stone pebble", "", &[], "x"),
        doc("c", "stone pebble pebble", "", &[], "x"),
        doc("d", "flat", "", &[], "x"),
    ]);
    let mut q = plain_query("stone");
    q.limit = 2;
    let first = engine.search(&q);
    assert_eq!(first.total, 3);
    assert_eq!(first.documents.len(), 2);
    q.offset = 2;
    let second = engine.search(&q);
    assert_eq!(second.total, 3);
    assert_eq!(second.documents.len(), 1);
    let mut seen: Vec<String> = first.documents.iter().map(|d| d.id.clone()).collect();
    seen.push(second.documents[0].id.clone());
    seen.sort();
    assert_eq!(
        seen,
        vec!["a".to_string(), "b".to_string(), "c".to_string()]
    );
}

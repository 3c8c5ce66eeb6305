//! An in-process full-text search and ranking engine.
//!
//! Documents are ingested in bulk into an inverted index with per-term,
//! per-document frequency tables; queries are matched (optionally fuzzily,
//! by edit distance), filtered by category and tag, scored with BM25,
//! boosted, thresholded, sorted, paginated and faceted.
//!
//! All scores are fixed-point integers in thousandths (milli units), so the
//! whole pipeline is deterministic and verified end to end.

pub mod assoc;
pub mod distance;
pub mod engine;
pub mod facets;
pub mod index;
pub mod laws;
pub mod ranking;
pub mod sorting;
pub mod text;

pub use distance::levenshtein_distance;
pub use engine::{
    BoostEntry, DateRange, FacetCounts, FacetEntry, IndexStats, ScoredId, SearchDocument,
    SearchFilters, SearchOptimizer, SearchQuery, SearchResult,
};
pub use index::InvertedIndex;
pub use sorting::Scored;
pub use text::tokenize;

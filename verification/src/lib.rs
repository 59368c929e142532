//! Centrality scores for an undirected, weighted co-occurrence graph.
//!
//! A caller builds a [`graph::UndirectWeightedGraph`] by inserting weighted
//! edges one at a time and then calls `rank()` once to obtain a normalized
//! centrality score per node.  All score arithmetic is saturating fixed-point
//! arithmetic over `i128`, so the whole computation is deterministic and
//! free of panics: where a floating-point formulation would produce a
//! non-finite value (a zero out-sum, a constant score vector), division by
//! zero is instead defined to yield zero.

use vstd::prelude::*;

pub mod fixed;
pub mod graph;
pub mod order;

verus! {

/// Builds a small in-memory table of book reviews keyed by title.
pub fn insert() {
    let mut book_reviews: std::collections::HashMap<String, String> =
        std::collections::HashMap::new();
    book_reviews.insert(
        "Adventures of Huckleberry Finn".to_owned(),
        "My favorite book.".to_owned(),
    );
}

} // verus!

//! A load-once, query-many directed link graph of titled pages, answering
//! shortest-path queries between two titles by breadth-first search.

pub mod graph;
pub mod load;

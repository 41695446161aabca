//! Centrality metrics over directed graphs.
//!
//! A [`graph::Graph`] is built once from a finite stream of labelled edge
//! pairs and is immutable afterwards.  On top of it the crate computes
//! unit-weight shortest-path distances and ranked centrality tables:
//! out/in degree centrality and Wasserman-Faust adjusted closeness
//! centrality.  Scores are exact rationals built from integer components;
//! callers that want floating-point values derive them from the published
//! fields.

pub mod graph;
pub mod paths;
pub mod ranking;
pub mod numeric;
pub mod centrality;

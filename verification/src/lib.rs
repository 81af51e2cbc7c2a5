//! A disjoint-set (union-find) library keyed by hashable elements.
//!
//! The central type is [`disjointset::DisjointSetHashMap`], which maintains a
//! dynamic partition of a growing universe of elements into disjoint groups,
//! with representative lookup (using path compression) and group merging.

pub mod disjointset;
pub mod laws;

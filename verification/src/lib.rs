//! A seeded generator of family-tree-shaped acyclic graphs.
//!
//! The crate has three tightly coupled parts: a node store that enforces
//! acyclicity on every edge insertion, a level-by-level stochastic generator
//! that drives the store, and a validator that re-derives the structural
//! facts (root uniqueness, single-path reachability, depth and branching
//! statistics) from the finished graph alone.  Two deterministic text
//! renderings of a graph round the library off.

pub mod generator;
pub mod graph;
pub mod laws;
pub mod paths;
pub mod random;
pub mod render;
pub mod validator;

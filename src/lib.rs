//! Nested-write orchestration for a query engine: a query graph of primitive
//! storage operations with typed dependency edges, builders that expand nested
//! writes into such graphs, and an executor that runs a graph against a store.

pub mod query;
pub mod graph;
pub mod executor;
pub mod builders;
pub mod outcomes;
pub mod input_types;

//! Typed views of the values and types that a query selects.

pub mod typed_value;
pub mod types;
pub mod query_graph;
pub mod builder;
pub mod fragments;

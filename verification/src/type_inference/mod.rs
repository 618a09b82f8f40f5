//! Type inference for Logica expressions.

pub mod types;
pub mod intersection;
pub mod built_in;
pub mod expression;
pub mod edge;
pub mod graph;
pub mod inference;
pub mod builder;

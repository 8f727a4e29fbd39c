//! Rewrite-sequence search over an arithmetic expression DAG.
pub mod factory;
pub mod ir;
pub mod rules;

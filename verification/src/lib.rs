//! Evolutionary optimisation of gate-implementation strategies for PLONKish
//! zero-knowledge circuits, with the search logic, the rewrite system and the
//! circuit plans verified.
pub mod circuits;
pub mod ec;
pub mod experiment;
pub mod field;
pub mod fitness;
pub mod rewrite;
pub mod rng;
pub mod strategy;

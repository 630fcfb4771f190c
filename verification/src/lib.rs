//! Optimizing engine for arithmetic-circuit DAGs over the BN254 scalar field.
//!
//! A circuit is a sequence of nodes (inputs, constants, binary operations)
//! whose operand references always point strictly backwards, together with a
//! list of output indices. This crate provides the reference evaluator and a
//! pipeline of semantics-preserving optimization passes.


pub mod codec;
pub mod field;
pub mod graph;
pub mod laws;
pub mod ops;
pub mod passes;
pub mod propagate;
pub mod shake;

//! A binary decision diagram engine with a hash-consed node arena.
//!
//! Boolean functions over the variables `0 < 1 < 2 < ...` are held as
//! references into an append-only arena of decision nodes. Two operations
//! build them: `restrict`, which fixes one variable to a constant, and `ite`,
//! the if-then-else combinator from which every connective can be derived.
//!
//! The contracts speak of the decision tree that a reference unfolds to.
//! Since no two nodes of a well-formed arena hold the same triple, a
//! reference is determined by its tree.

pub mod func;
pub mod tree;
pub mod lemmas;
pub mod arena;
pub mod engine;

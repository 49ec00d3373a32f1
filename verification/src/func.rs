//! Function references and decision nodes.

use vstd::prelude::*;

verus! {

/// A Boolean variable; variables are ordered by their numbers.
pub type VariableIndex = usize;

/// A reference to a Boolean function: a constant, or the index of a
/// decision node in the arena.
#[derive(Clone, Copy, Debug, PartialEq, Eq, Hash, Structural)]
pub enum BDDFunc {
    C(bool),
    N(usize),
}

/// A decision node: the function that behaves as `then_edge` where the
/// variable `label` is true and as `else_edge` where it is false.
#[derive(Clone, Copy, Debug, PartialEq, Eq, Hash, Structural)]
pub struct BDDNode {
    pub label: VariableIndex,
    pub then_edge: BDDFunc,
    pub else_edge: BDDFunc,
}

} // verus!

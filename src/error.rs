use vstd::prelude::*;

verus! {

/// What can go wrong in the core.
#[derive(Clone, Copy, PartialEq, Eq, Structural, Debug)]
pub enum NeatError {
    /// The enabled genes form a cycle, so no layering exists.
    InvalidTopology,
    /// A list of input values does not have one value per input node.
    DimensionMismatch,
}

} // verus!

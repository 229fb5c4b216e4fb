//! The conditions under which an operation on the cluster map fails.

use vstd::prelude::*;

verus! {

/// Why a lookup or a placement could not be completed.
#[derive(Clone, Copy, Debug, PartialEq, Eq, Structural)]
pub enum CrushError {
    /// A path names a node that is not in the tree.
    NodeNotFound,
    /// The requested number of usable leaves was not found within the
    /// retry budget of one selection.
    PlacementExhausted,
    /// A draw was made at a node all of whose children weigh nothing.
    ZeroWeightChild,
}

} // verus!

//! The ways in which building a graph can fail.

use vstd::prelude::*;

verus! {

/// Why a graph could not be built. Every failure is final: nothing of a
/// partly built graph is handed out.
#[derive(Debug, Clone, Copy, PartialEq, Eq, Structural)]
pub enum GraphError {
    /// A line of the description does not hold the integer fields it must hold.
    Format,
    /// A reference names a node that the store does not hold.
    InvalidReference,
    /// The declared number of nodes differs from the number of nodes described.
    CountMismatch,
}

} // verus!

//! The ways in which building, saving and loading can fail.

use vstd::prelude::*;

verus! {

/// Why an operation was refused.
#[derive(Clone, Copy, Debug, PartialEq, Eq, Structural)]
pub enum Error {
    /// The graph has not been built yet.
    NotBuilt,
    /// The graph has been built already.
    AlreadyBuilt,
    /// The configuration asks for no layer, for a level multiplier or a
    /// search bound of zero, or for more nodes than a machine word counts.
    InvalidConfig,
    /// There is no element to build a graph over.
    NoElements,
    /// The bytes are not the image of a graph over the given elements.
    LoadFormat,
}

} // verus!

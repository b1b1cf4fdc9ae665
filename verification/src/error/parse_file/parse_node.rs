//! The errors of decoding one field of a node.

use vstd::prelude::*;

verus! {

/// Why a node's identifier could not be read.
#[derive(Clone, Copy, Debug, PartialEq, Eq, Structural)]
pub enum ParseNodeID {
    /// The node holds no identifier tag.
    NotFound,
    /// Fewer than two payload bytes follow the identifier tag.
    IncorrectLength,
}

/// Why a node's coordinates could not be read.
#[derive(Clone, Copy, Debug, PartialEq, Eq, Structural)]
pub enum ParseCoordinates {
    /// The node holds no coordinates tag.
    NotFound,
    /// Fewer than sixteen payload bytes follow the coordinates tag.
    IncorrectLength,
}

/// Why a node's input list could not be read.
#[derive(Clone, Copy, Debug, PartialEq, Eq, Structural)]
pub enum ParseInputs {
    /// The node holds more than one input list.
    MultipleInputSections,
    /// The input list's payload is not a whole number of 16-bit entries.
    LayoutBroken,
}

} // verus!

//! The errors of decoding one node.

use vstd::prelude::*;

pub mod parse_node;

verus! {

/// Why a node could not be decoded: the field that failed, and how.
#[derive(Clone, Copy, Debug, PartialEq, Eq, Structural)]
pub enum ParseNode {
    /// The identifier could not be read.
    ParseNodeID(parse_node::ParseNodeID),
    /// The coordinates could not be read.
    ParseCoordinates(parse_node::ParseCoordinates),
    /// The input list could not be read.
    ParseInputs(parse_node::ParseInputs),
}

impl From<parse_node::ParseNodeID> for ParseNode {
    fn from(was: parse_node::ParseNodeID) -> (error: Self) {
        Self::ParseNodeID(was)
    }
}

impl vstd::std_specs::convert::FromSpecImpl<parse_node::ParseNodeID> for ParseNode {
    open spec fn obeys_from_spec() -> bool {
        true
    }

    open spec fn from_spec(was: parse_node::ParseNodeID) -> Self {
        Self::ParseNodeID(was)
    }
}

impl From<parse_node::ParseCoordinates> for ParseNode {
    fn from(was: parse_node::ParseCoordinates) -> (error: Self) {
        Self::ParseCoordinates(was)
    }
}

impl vstd::std_specs::convert::FromSpecImpl<parse_node::ParseCoordinates> for ParseNode {
    open spec fn obeys_from_spec() -> bool {
        true
    }

    open spec fn from_spec(was: parse_node::ParseCoordinates) -> Self {
        Self::ParseCoordinates(was)
    }
}

impl From<parse_node::ParseInputs> for ParseNode {
    fn from(was: parse_node::ParseInputs) -> (error: Self) {
        Self::ParseInputs(was)
    }
}

impl vstd::std_specs::convert::FromSpecImpl<parse_node::ParseInputs> for ParseNode {
    open spec fn obeys_from_spec() -> bool {
        true
    }

    open spec fn from_spec(was: parse_node::ParseInputs) -> Self {
        Self::ParseInputs(was)
    }
}

} // verus!

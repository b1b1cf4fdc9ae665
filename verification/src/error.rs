//! The errors of decoding, one type per level of the format: a file, a node
//! within it, a field within the node.

use vstd::prelude::*;

pub mod parse_file;

verus! {

/// Why a file could not be decoded.
#[derive(Clone, Copy, Debug, PartialEq, Eq, Structural)]
pub enum ParseFile {
    /// The input is shorter than the header.
    LayoutBroken,
    /// The input does not begin with the magic string.
    MagicNumbers,
    /// The file declares a version that this codec does not read.
    Version,
    /// The file holds more than one node section.
    MultipleNodeSections,
    /// A node of the file could not be decoded.
    ParseNode(parse_file::ParseNode),
}

impl From<parse_file::ParseNode> for ParseFile {
    fn from(was: parse_file::ParseNode) -> (error: Self) {
        Self::ParseNode(was)
    }
}

impl vstd::std_specs::convert::FromSpecImpl<parse_file::ParseNode> for ParseFile {
    open spec fn obeys_from_spec() -> bool {
        true
    }

    open spec fn from_spec(was: parse_file::ParseNode) -> Self {
        Self::ParseNode(was)
    }
}

} // verus!

//! Codec for a tagged binary file format that stores a graph of nodes.
//!
//! Structural tags and raw payload share one byte-value space. Payload is
//! always announced by an escape marker that declares how many of the
//! following bytes are opaque, so a payload byte can never be taken for a tag.

use vstd::prelude::*;

pub mod bracket;
pub mod bytes;
pub mod categorizer;
pub mod compose;
pub mod error;
pub mod escape;
pub mod file;
pub mod hunt;
pub mod node;
pub mod round_trip;
pub mod scan;
pub mod tags;
pub mod tags_u8;

pub use crate::categorizer::{CategorizedByte, Categorizer};
pub use crate::file::{build_file, read_file, FILE_START};
pub use crate::hunt::{hunt_numbers, hunt_tag, hunt_tags};
pub use crate::node::Node;

verus! {

/// Highest major version this codec reads, and the one it writes.
pub const MAJOR: u8 = 1;

/// Highest minor version this codec reads, and the one it writes.
pub const MINOR: u8 = 1;

/// Highest patch version this codec reads, and the one it writes.
pub const PATCH: u8 = 0;

/// Highest pre-release version this codec reads, and the one it writes.
pub const PRE: u8 = 0;

} // verus!

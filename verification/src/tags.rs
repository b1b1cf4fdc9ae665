//! The reserved byte values of the format, as signed 8-bit constants.
//!
//! Escape markers occupy the bottom of the signed range; structural tags sit
//! around zero, with a closing tag being the negation of its opening tag.

use vstd::prelude::*;

verus! {

/// Escape marker: the next byte is payload.
pub const SKIP_1: i8 = -128;

/// Escape marker: the next 2 bytes are payload.
pub const SKIP_2: i8 = -127;

/// Escape marker: the next 4 bytes are payload.
pub const SKIP_4: i8 = -126;

/// Escape marker: the next 8 bytes are payload.
pub const SKIP_8: i8 = -125;

/// Escape marker: the next 16 bytes are payload.
pub const SKIP_16: i8 = -124;

/// Escape marker followed by one length byte `n`; the `n + 2` bytes after the
/// length byte are payload.
pub const SKIP_U8: i8 = -123;

/// Escape marker followed by two length bytes holding `n` (low byte first);
/// the `n + 3` bytes after them are payload.
pub const SKIP_U16: i8 = -122;

/// Introduces a node's identifier.
pub const NODE_ID: i8 = 0;

/// Introduces a node's coordinates.
pub const COORDINATES: i8 = 3;

/// Opens the node section of a file.
pub const NODE_SECTION_START: i8 = 1;

/// Closes the node section of a file.
pub const NODE_SECTION_END: i8 = -1;

/// Opens one node record.
pub const NODE_START: i8 = 2;

/// Closes one node record.
pub const NODE_END: i8 = -2;

/// Opens a node's input list.
pub const NODE_INPUT_LIST_START: i8 = 4;

/// Closes a node's input list.
pub const NODE_INPUT_LIST_END: i8 = -4;

} // verus!

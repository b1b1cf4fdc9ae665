//! The reserved byte values of the format as they appear in a byte stream:
//! each constant is the two's-complement byte of the signed constant of the
//! same name in [`crate::tags`].

use vstd::prelude::*;

verus! {

pub const SKIP_1: u8 = 0x80;

pub const SKIP_2: u8 = 0x81;

pub const SKIP_4: u8 = 0x82;

pub const SKIP_8: u8 = 0x83;

pub const SKIP_16: u8 = 0x84;

pub const SKIP_U8: u8 = 0x85;

pub const SKIP_U16: u8 = 0x86;

pub const NODE_ID: u8 = 0x00;

pub const COORDINATES: u8 = 0x03;

pub const NODE_SECTION_START: u8 = 0x01;

pub const NODE_SECTION_END: u8 = 0xff;

pub const NODE_START: u8 = 0x02;

pub const NODE_END: u8 = 0xfe;

pub const NODE_INPUT_LIST_START: u8 = 0x04;

pub const NODE_INPUT_LIST_END: u8 = 0xfc;

/// The byte that stands for a signed tag constant in a byte stream.
pub open spec fn byte_of(tag: i8) -> u8 {
    if tag >= 0 {
        tag as u8
    } else {
        (tag + 256) as u8
    }
}

/// Every unsigned constant of this module is the byte of the signed constant
/// of the same name.
pub proof fn lemma_bytes_match_signed_tags()
    ensures
        SKIP_1 == byte_of(crate::tags::SKIP_1),
        SKIP_2 == byte_of(crate::tags::SKIP_2),
        SKIP_4 == byte_of(crate::tags::SKIP_4),
        SKIP_8 == byte_of(crate::tags::SKIP_8),
        SKIP_16 == byte_of(crate::tags::SKIP_16),
        SKIP_U8 == byte_of(crate::tags::SKIP_U8),
        SKIP_U16 == byte_of(crate::tags::SKIP_U16),
        NODE_ID == byte_of(crate::tags::NODE_ID),
        COORDINATES == byte_of(crate::tags::COORDINATES),
        NODE_SECTION_START == byte_of(crate::tags::NODE_SECTION_START),
        NODE_SECTION_END == byte_of(crate::tags::NODE_SECTION_END),
        NODE_START == byte_of(crate::tags::NODE_START),
        NODE_END == byte_of(crate::tags::NODE_END),
        NODE_INPUT_LIST_START == byte_of(crate::tags::NODE_INPUT_LIST_START),
        NODE_INPUT_LIST_END == byte_of(crate::tags::NODE_INPUT_LIST_END),
{
}

} // verus!

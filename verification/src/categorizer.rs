//! The byte categorizer: a small state machine that reads a byte stream one
//! byte at a time and says of each byte whether it is a structural tag, a
//! payload byte, or part of an escape that announces payload.

use vstd::prelude::*;
use crate::bytes::{bytes_to_u16, u16_from_le};
use crate::tags_u8;

verus! {

/// What the categorizer is waiting for while it reads the length of a
/// variable-length escape.
#[derive(Clone, Copy, Debug, PartialEq, Eq, Structural)]
pub enum BigSkipState {
    /// No variable-length escape is being read.
    NotBigSkip,
    /// The next byte is the length byte of an 8-bit-length escape.
    NeedU8,
    /// The next byte is the low length byte of a 16-bit-length escape.
    NeedU16Byte0,
    /// The next byte is the high length byte of a 16-bit-length escape; the
    /// low byte is stored.
    NeedU16Byte1(u8),
}

/// The category of one byte of a stream.
#[derive(Clone, Copy, Debug, PartialEq, Eq, Structural)]
pub enum CategorizedByte {
    /// A structural marker.
    Tag(u8),
    /// A payload byte; a multi-byte number yields one of these per byte.
    Number(u8),
    /// An escape marker or one of its length bytes: it carries no value.
    Skip,
}

/// The mathematical state of a categorizer between two bytes.
pub struct ScanState {
    /// How many of the coming bytes are payload.
    pub pending: nat,
    /// Which length byte, if any, is awaited once no payload is pending.
    pub wait: BigSkipState,
}

/// What the 8-bit-length escape carries beyond the length it declares.
pub const U8_LENGTH_BIAS: u32 = 2;

/// What the 16-bit-length escape carries beyond the length it declares.
pub const U16_LENGTH_BIAS: u32 = 3;

/// The payload length that a fixed-length escape marker announces, if `byte`
/// is such a marker.
pub open spec fn fixed_escape_len(byte: u8) -> Option<nat> {
    if byte == tags_u8::SKIP_1 {
        Some(1)
    } else if byte == tags_u8::SKIP_2 {
        Some(2)
    } else if byte == tags_u8::SKIP_4 {
        Some(4)
    } else if byte == tags_u8::SKIP_8 {
        Some(8)
    } else if byte == tags_u8::SKIP_16 {
        Some(16)
    } else {
        None
    }
}

/// Whether `byte`, read where a tag could stand, starts an escape instead.
pub open spec fn is_escape_marker(byte: u8) -> bool {
    fixed_escape_len(byte) is Some || byte == tags_u8::SKIP_U8 || byte == tags_u8::SKIP_U16
}

impl ScanState {
    /// The state before the first byte of a stream.
    pub open spec fn fresh() -> ScanState {
        ScanState { pending: 0, wait: BigSkipState::NotBigSkip }
    }

    /// Whether the next byte is looked at as a tag or an escape marker.
    pub open spec fn is_idle(self) -> bool {
        self.pending == 0 && self.wait == BigSkipState::NotBigSkip
    }

    /// The category of `byte` when it is read in this state.
    ///
    /// Pending payload wins over everything; then an awaited length byte;
    /// otherwise the byte is an escape marker or, failing that, a tag.
    pub open spec fn category(self, byte: u8) -> CategorizedByte {
        if self.pending > 0 {
            CategorizedByte::Number(byte)
        } else if self.wait != BigSkipState::NotBigSkip || is_escape_marker(byte) {
            CategorizedByte::Skip
        } else {
            CategorizedByte::Tag(byte)
        }
    }

    /// The state after `byte` has been read in this state.
    ///
    /// Once the length of a variable-length escape has been read, the
    /// declared length and the bias of its form are pending as payload:
    /// `declared + 2` bytes in the 8-bit form, `declared + 3` in the 16-bit
    /// form. So an escape that declares a length of zero still carries
    /// payload.
    pub open spec fn next(self, byte: u8) -> ScanState {
        if self.pending > 0 {
            ScanState { pending: (self.pending - 1) as nat, wait: self.wait }
        } else {
            match self.wait {
                BigSkipState::NeedU8 => ScanState {
                    pending: byte as nat + U8_LENGTH_BIAS as nat,
                    wait: BigSkipState::NotBigSkip,
                },
                BigSkipState::NeedU16Byte0 => ScanState {
                    pending: 0,
                    wait: BigSkipState::NeedU16Byte1(byte),
                },
                BigSkipState::NeedU16Byte1(low) => ScanState {
                    pending: u16_from_le(low, byte) as nat + U16_LENGTH_BIAS as nat,
                    wait: BigSkipState::NotBigSkip,
                },
                BigSkipState::NotBigSkip => {
                    if let Some(len) = fixed_escape_len(byte) {
                        ScanState { pending: len, wait: BigSkipState::NotBigSkip }
                    } else if byte == tags_u8::SKIP_U8 {
                        ScanState { pending: 0, wait: BigSkipState::NeedU8 }
                    } else if byte == tags_u8::SKIP_U16 {
                        ScanState { pending: 0, wait: BigSkipState::NeedU16Byte0 }
                    } else {
                        self
                    }
                },
            }
        }
    }
}

/// The byte categorizer.
#[derive(Clone, Debug)]
pub struct Categorizer {
    skip_next: u32,
    big_skip_state: BigSkipState,
}

impl View for Categorizer {
    type V = ScanState;

    closed spec fn view(&self) -> ScanState {
        ScanState { pending: self.skip_next as nat, wait: self.big_skip_state }
    }
}

impl Categorizer {
    /// A categorizer that has read nothing yet.
    pub fn new() -> (categorizer: Self)
        ensures
            categorizer@ == ScanState::fresh(),
    {
        Self { skip_next: 0, big_skip_state: BigSkipState::NotBigSkip }
    }

    /// Reads the next byte of the stream and returns its category.
    pub fn feed(&mut self, byte: u8) -> (category: CategorizedByte)
        ensures
            category == old(self)@.category(byte),
            final(self)@ == old(self)@.next(byte),
    {
        if self.skip_next >= 1 {
            self.skip_next -= 1;
            return CategorizedByte::Number(byte);
        }
        match self.big_skip_state {
            BigSkipState::NotBigSkip => {},
            BigSkipState::NeedU8 => {
                self.skip_next = byte as u32 + U8_LENGTH_BIAS;
                self.big_skip_state = BigSkipState::NotBigSkip;
                return CategorizedByte::Skip;
            },
            BigSkipState::NeedU16Byte0 => {
                self.big_skip_state = BigSkipState::NeedU16Byte1(byte);
                return CategorizedByte::Skip;
            },
            BigSkipState::NeedU16Byte1(byte0) => {
                self.skip_next = bytes_to_u16(&[byte0, byte]) as u32 + U16_LENGTH_BIAS;
                self.big_skip_state = BigSkipState::NotBigSkip;
                return CategorizedByte::Skip;
            },
        }
        if byte == tags_u8::SKIP_1 {
            self.skip_next = 1;
            return CategorizedByte::Skip;
        }
        if byte == tags_u8::SKIP_2 {
            self.skip_next = 2;
            return CategorizedByte::Skip;
        }
        if byte == tags_u8::SKIP_4 {
            self.skip_next = 4;
            return CategorizedByte::Skip;
        }
        if byte == tags_u8::SKIP_8 {
            self.skip_next = 8;
            return CategorizedByte::Skip;
        }
        if byte == tags_u8::SKIP_16 {
            self.skip_next = 16;
            return CategorizedByte::Skip;
        }
        if byte == tags_u8::SKIP_U8 {
            self.big_skip_state = BigSkipState::NeedU8;
            return CategorizedByte::Skip;
        }
        if byte == tags_u8::SKIP_U16 {
            self.big_skip_state = BigSkipState::NeedU16Byte0;
            return CategorizedByte::Skip;
        }
        CategorizedByte::Tag(byte)
    }
}

} // verus!

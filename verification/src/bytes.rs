//! Fixed-width integers as payload bytes.
//!
//! The format stores every multi-byte integer least significant byte first,
//! whatever the host's own byte order is.

use vstd::prelude::*;

verus! {

/// The 16-bit value whose low byte is `lo` and whose high byte is `hi`.
pub open spec fn u16_from_le(lo: u8, hi: u8) -> u16 {
    (lo as int + 256 * (hi as int)) as u16
}

/// The two payload bytes of a 16-bit value, low byte first.
pub open spec fn u16_le_bytes(v: u16) -> Seq<u8> {
    seq![(v as int % 256) as u8, (v as int / 256) as u8]
}

/// The 64-bit value of eight payload bytes, least significant first.
pub open spec fn u64_from_le(s: Seq<u8>) -> u64
    recommends
        s.len() == 8,
{
    (s[0] + 256 * (s[1] + 256 * (s[2] + 256 * (s[3] + 256 * (s[4] + 256 * (s[5] + 256 * (s[6] + 256
        * s[7]))))))) as u64
}

/// The eight payload bytes of a 64-bit value, least significant first: byte
/// `i` is the remainder modulo 256 of the value divided `i` times by 256.
pub open spec fn u64_le_bytes(v: u64) -> Seq<u8> {
    let q0 = v as int;
    let q1 = q0 / 256;
    let q2 = q1 / 256;
    let q3 = q2 / 256;
    let q4 = q3 / 256;
    let q5 = q4 / 256;
    let q6 = q5 / 256;
    let q7 = q6 / 256;
    seq![
        (q0 % 256) as u8,
        (q1 % 256) as u8,
        (q2 % 256) as u8,
        (q3 % 256) as u8,
        (q4 % 256) as u8,
        (q5 % 256) as u8,
        (q6 % 256) as u8,
        (q7 % 256) as u8,
    ]
}

/// Reading back the bytes of a 16-bit value gives the value.
pub proof fn lemma_u16_round_trip(v: u16)
    ensures
        u16_le_bytes(v).len() == 2,
        u16_from_le(u16_le_bytes(v)[0], u16_le_bytes(v)[1]) == v,
{
}

/// Reading back the bytes of a 64-bit value gives the value.
pub proof fn lemma_u64_round_trip(v: u64)
    ensures
        u64_le_bytes(v).len() == 8,
        u64_from_le(u64_le_bytes(v)) == v,
{
}

/// Reads a 16-bit value from its two payload bytes.
pub fn bytes_to_u16(it: &[u8]) -> (v: u16)
    requires
        it@.len() == 2,
    ensures
        v == u16_from_le(it@[0], it@[1]),
{
    it[0] as u16 + 256 * (it[1] as u16)
}

/// The two payload bytes of a 16-bit value.
pub fn u16_to_bytes(it: u16) -> (bytes: [u8; 2])
    ensures
        bytes@ == u16_le_bytes(it),
{
    let bytes: [u8; 2] = [(it % 256) as u8, (it / 256) as u8];
    assert(bytes@ =~= u16_le_bytes(it));
    bytes
}

/// Reads a 64-bit value from its eight payload bytes.
pub fn bytes_to_u64(it: &[u8]) -> (v: u64)
    requires
        it@.len() == 8,
    ensures
        v == u64_from_le(it@),
{
    let h6: u64 = it[6] as u64 + 256 * (it[7] as u64);
    let h5: u64 = it[5] as u64 + 256 * h6;
    let h4: u64 = it[4] as u64 + 256 * h5;
    let h3: u64 = it[3] as u64 + 256 * h4;
    let h2: u64 = it[2] as u64 + 256 * h3;
    let h1: u64 = it[1] as u64 + 256 * h2;
    it[0] as u64 + 256 * h1
}

/// The eight payload bytes of a 64-bit value.
pub fn u64_to_bytes(it: u64) -> (bytes: [u8; 8])
    ensures
        bytes@ == u64_le_bytes(it),
{
    let q1: u64 = it / 256;
    let q2: u64 = q1 / 256;
    let q3: u64 = q2 / 256;
    let q4: u64 = q3 / 256;
    let q5: u64 = q4 / 256;
    let q6: u64 = q5 / 256;
    let q7: u64 = q6 / 256;
    let bytes: [u8; 8] = [
        (it % 256) as u8,
        (q1 % 256) as u8,
        (q2 % 256) as u8,
        (q3 % 256) as u8,
        (q4 % 256) as u8,
        (q5 % 256) as u8,
        (q6 % 256) as u8,
        (q7 % 256) as u8,
    ];
    assert(bytes@ =~= u64_le_bytes(it));
    bytes
}

} // verus!

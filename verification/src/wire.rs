//! The byte-level model of the wire format: what a run of bytes means as an
//! integer, and what an integer is as a run of bytes.

use vstd::prelude::*;

verus! {

/// The 16-bit integer that the two bytes at `pos` spell in network order.
pub open spec fn be16(bytes: Seq<u8>, pos: int) -> u16 {
    (bytes[pos] * 256 + bytes[pos + 1]) as u16
}

/// The 32-bit integer that the four bytes at `pos` spell in network order.
pub open spec fn be32(bytes: Seq<u8>, pos: int) -> u32 {
    (bytes[pos] * 16777216 + bytes[pos + 1] * 65536 + bytes[pos + 2] * 256 + bytes[pos + 3]) as u32
}

/// A 16-bit integer in network order.
pub open spec fn u16_bytes(v: u16) -> Seq<u8> {
    seq![(v / 256) as u8, (v % 256) as u8]
}

/// A 32-bit integer in network order.
pub open spec fn u32_bytes(v: u32) -> Seq<u8> {
    seq![
        (v / 16777216) as u8,
        ((v / 65536) % 256) as u8,
        ((v / 256) % 256) as u8,
        (v % 256) as u8,
    ]
}

/// `bytes` with `data` laid over it from `pos` on; what lies past the end of
/// `bytes` is dropped.
pub open spec fn overlay(bytes: Seq<u8>, pos: int, data: Seq<u8>) -> Seq<u8> {
    Seq::new(
        bytes.len(),
        |i: int|
            if pos <= i < pos + data.len() {
                data[i - pos]
            } else {
                bytes[i]
            },
    )
}

} // verus!

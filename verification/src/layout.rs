//! Layout of one interned entry: a fixed-size header (reference counter,
//! payload pointer, payload length — three machine words on a 64-bit
//! target) followed immediately by the raw UTF-8 payload bytes, so that
//! one allocation serves each distinct value.

use vstd::prelude::*;

verus! {

/// Size in bytes of the entry header: three 8-byte fields.
pub const HEADER_BYTES: usize = 24;

/// Byte offset of the payload within the combined allocation: the payload
/// bytes have alignment 1, so they start right after the header.
pub fn payload_offset() -> (r: usize)
    ensures
        r == HEADER_BYTES,
{
    HEADER_BYTES
}

/// Total size in bytes of the combined header + payload allocation for a
/// payload of `len` bytes.
pub fn entry_size(len: usize) -> (r: usize)
    requires
        len <= usize::MAX - HEADER_BYTES,
    ensures
        r == HEADER_BYTES + len,
{
    HEADER_BYTES + len
}

} // verus!

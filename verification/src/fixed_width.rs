//! Fixed-width little-endian integers.

pub mod fixed32;
pub mod fixed64;
pub mod sfixed32;
pub mod sfixed64;

use vstd::prelude::*;

verus! {

/// Byte `i` of a 64-bit number, taken by shifting, is its `i`-th digit in
/// base 256.
pub proof fn lemma_le_bytes64(u: u64)
    by (bit_vector)
    ensures
        (u as u8) as u64 == u % 0x100,
        ((u >> 8u64) as u8) as u64 == (u / 0x100) % 0x100,
        ((u >> 16u64) as u8) as u64 == (u / 0x1_0000) % 0x100,
        ((u >> 24u64) as u8) as u64 == (u / 0x100_0000) % 0x100,
        ((u >> 32u64) as u8) as u64 == (u / 0x1_0000_0000) % 0x100,
        ((u >> 40u64) as u8) as u64 == (u / 0x100_0000_0000) % 0x100,
        ((u >> 48u64) as u8) as u64 == (u / 0x1_0000_0000_0000) % 0x100,
        ((u >> 56u64) as u8) as u64 == (u / 0x100_0000_0000_0000) % 0x100,
{
}

/// Byte `i` of a 32-bit number, taken by shifting, is its `i`-th digit in
/// base 256.
pub proof fn lemma_le_bytes32(u: u32)
    by (bit_vector)
    ensures
        (u as u8) as u32 == u % 0x100,
        ((u >> 8u32) as u8) as u32 == (u / 0x100) % 0x100,
        ((u >> 16u32) as u8) as u32 == (u / 0x1_0000) % 0x100,
        ((u >> 24u32) as u8) as u32 == (u / 0x100_0000) % 0x100,
{
}

/// Eight bytes joined by shifts are the base-256 number they spell, the
/// first byte least significant.
pub proof fn lemma_le_join64(b0: u8, b1: u8, b2: u8, b3: u8, b4: u8, b5: u8, b6: u8, b7: u8)
    by (bit_vector)
    ensures
        (b0 as u64) | ((b1 as u64) << 8u64) | ((b2 as u64) << 16u64) | ((b3 as u64) << 24u64) | ((b4 as u64) << 32u64)
            | ((b5 as u64) << 40u64) | ((b6 as u64) << 48u64) | ((b7 as u64) << 56u64) == (b0 as u64) + (b1 as u64)
            * 0x100 + (b2 as u64) * 0x1_0000 + (b3 as u64) * 0x100_0000 + (b4 as u64) * 0x1_0000_0000 + (b5 as u64)
            * 0x100_0000_0000 + (b6 as u64) * 0x1_0000_0000_0000 + (b7 as u64) * 0x100_0000_0000_0000,
{
}

/// Four bytes joined by shifts are the base-256 number they spell, the first
/// byte least significant.
pub proof fn lemma_le_join32(b0: u8, b1: u8, b2: u8, b3: u8)
    by (bit_vector)
    ensures
        (b0 as u32) | ((b1 as u32) << 8u32) | ((b2 as u32) << 16u32) | ((b3 as u32) << 24u32) == (b0 as u32) + (
        b1 as u32) * 0x100 + (b2 as u32) * 0x1_0000 + (b3 as u32) * 0x100_0000,
{
}

} // verus!

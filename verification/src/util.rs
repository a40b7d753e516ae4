//! Big-endian integer assembly helpers shared by the wire-protocol
//! parsing and packing code.

use vstd::prelude::*;

verus! {

/// The `u16` whose big-endian bytes are `first`, `last`.
pub open spec fn spec_u16_from_bytes(first: u8, last: u8) -> u16 {
    (first as u16 * 256 + last as u16) as u16
}

/// The `u32` whose big-endian bytes are `first`, `second`, `third`, `last`.
pub open spec fn spec_u32_from_bytes(first: u8, second: u8, third: u8, last: u8) -> u32 {
    (first as u32 * 0x1000000 + second as u32 * 0x10000 + third as u32 * 0x100
        + last as u32) as u32
}

/// The four big-endian bytes of `v`, most significant first.
pub open spec fn spec_u32_to_bytes(v: u32) -> Seq<u8> {
    seq![
        (v / 0x1000000) as u8,
        ((v / 0x10000) % 0x100) as u8,
        ((v / 0x100) % 0x100) as u8,
        (v % 0x100) as u8,
    ]
}

pub fn u8s_to_u16(first: u8, last: u8) -> (r: u16)
    ensures
        r == spec_u16_from_bytes(first, last),
{
    let r = ((first as u16) << 8) | (last as u16);
    proof {
        assert(r == spec_u16_from_bytes(first, last)) by (bit_vector)
            requires
                r == ((first as u16) << 8) | (last as u16),
        ;
    }
    r
}

pub fn u8s_to_u32(first: u8, second: u8, third: u8, last: u8) -> (r: u32)
    ensures
        r == spec_u32_from_bytes(first, second, third, last),
{
    let r = ((first as u32) << 24) | ((second as u32) << 16) | ((third as u32) << 8) | (
    last as u32);
    proof {
        assert(r == spec_u32_from_bytes(first, second, third, last)) by (bit_vector)
            requires
                r == ((first as u32) << 24) | ((second as u32) << 16) | ((third as u32) << 8) | (
                last as u32),
        ;
    }
    r
}

/// Splits `v` into its four big-endian bytes.
pub fn u32_to_u8s(v: u32) -> (r: (u8, u8, u8, u8))
    ensures
        seq![r.0, r.1, r.2, r.3] == spec_u32_to_bytes(v),
        spec_u32_from_bytes(r.0, r.1, r.2, r.3) == v,
{
    let b0 = (v >> 24) as u8;
    let b1 = (v >> 16) as u8;
    let b2 = (v >> 8) as u8;
    let b3 = v as u8;
    proof {
        assert(b0 == v / 0x1000000 && b1 == (v / 0x10000) % 0x100 && b2 == (v / 0x100) % 0x100
            && b3 == v % 0x100) by (bit_vector)
            requires
                b0 == (v >> 24) as u8 && b1 == (v >> 16) as u8 && b2 == (v >> 8) as u8 && b3 == v as u8,
        ;
        assert(seq![b0, b1, b2, b3] =~= spec_u32_to_bytes(v));
    }
    (b0, b1, b2, b3)
}

/// The round-trip of the byte helpers: reassembling the four
/// big-endian bytes of any `u32` yields the value itself.
pub proof fn lemma_u32_bytes_roundtrip(v: u32)
    ensures
        spec_u32_from_bytes(
            spec_u32_to_bytes(v)[0],
            spec_u32_to_bytes(v)[1],
            spec_u32_to_bytes(v)[2],
            spec_u32_to_bytes(v)[3],
        ) == v,
{
}

} // verus!

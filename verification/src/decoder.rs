//! Decoder-side helpers of the block codec: where a decoded
//! coefficient block lands in the pixel buffer, and how a coded
//! (size, value) pair maps back to a signed coefficient.

use vstd::prelude::*;

use vstd::arithmetic::power2::pow2;
use vstd::arithmetic::power2::lemma2_to64;

use crate::encoder::spec_abs;
use crate::encoder::spec_bitlen;
use crate::encoder::spec_coef_size;
use crate::encoder::spec_coef_value;

verus! {

/// The byte offset, in an RGB pixel buffer of a `width`-wide view, of
/// pixel `index` of subblock `subblock` of macroblock `macroblock`:
/// macroblocks tile the view 16 pixels square, their four 8x8
/// subblocks sit in raster order inside them.
pub open spec fn spec_decoded_index(
    macroblock: int,
    subblock: int,
    width: int,
    index: int,
) -> int {
    let n_blocks_x = width / 16;
    let block_x = macroblock % n_blocks_x;
    let block_y = macroblock / n_blocks_x;
    let ind_x = block_x * 16 + (subblock % 2) * 8 + index % 8;
    let ind_y = block_y * 16 + (subblock / 2) * 8 + index / 8;
    3 * (ind_y * width + ind_x)
}

/// Computes the byte offset of one decoded pixel.
pub fn get_index(macroblock: usize, subblock: usize, width: usize, index: usize) -> (r: usize)
    requires
        width % 16 == 0,
        16 <= width <= 4096,
        macroblock < 1024,
        subblock < 4,
        index < 64,
    ensures
        r as int == spec_decoded_index(macroblock as int, subblock as int, width as int, index as int),
{
    let n_blocks_x = width / 16;
    let block_x = macroblock % n_blocks_x;
    let block_y = macroblock / n_blocks_x;
    let ind_x = block_x * 16 + (subblock % 2) * 8 + index % 8;
    let ind_y = block_y * 16 + (subblock / 2) * 8 + index / 8;
    proof {
        assert(block_x < n_blocks_x && block_y <= 1024) by (nonlinear_arith)
            requires
                macroblock < 1024,
                n_blocks_x >= 1,
                block_x == macroblock as int % (n_blocks_x as int),
                block_y == macroblock as int / (n_blocks_x as int),
        ;
        assert(block_x * 16 <= (n_blocks_x - 1) * 16 && block_y * 16 <= 1024 * 16)
            by (nonlinear_arith)
            requires
                block_x <= n_blocks_x - 1,
                block_y <= 1024,
        ;
        assert(ind_y * (width as int) <= 16500 * 4096) by (nonlinear_arith)
            requires
                ind_y <= 16500,
                width <= 4096,
                ind_y >= 0,
                width >= 0,
        ;
    }
    3 * (ind_y * width + ind_x)
}

/// The signed coefficient a coded (size, value) pair stands for: the
/// value itself when its top bit is set, else the value less the
/// all-ones pattern of its size.
pub open spec fn spec_decode_value(size: int, value: int) -> int {
    if value >= pow2((size - 1) as nat) {
        value
    } else {
        value - pow2(size as nat) + 1
    }
}

/// Decodes one coded coefficient value.
pub fn decode_value(size: u8, value: u32) -> (r: i32)
    requires
        1 <= size <= 15,
        (value as int) < pow2(size as nat),
    ensures
        r as int == spec_decode_value(size as int, value as int),
{
    proof {
        lemma2_to64();
        if (size as nat) < 15 {
            vstd::arithmetic::power2::lemma_pow2_strictly_increases(size as nat, 15);
        }
        vstd::arithmetic::power2::lemma_pow2_adds((size - 1) as nat, 1);
    }
    let positive_mask: u32 = 1u32 << ((size - 1) as u32);
    proof {
        vstd::bits::lemma_u32_shl_is_mul(1u32, (size - 1) as u32);
    }
    if value & positive_mask == 0 {
        let x: u32 = 0xFFFF >> ((16 - size) as u32);
        let neg = (!value & x) as i32;
        proof {
            let sz = size;
            assert((value & (1u32 << ((sz - 1) as u32))) == 0 && x == 0xFFFFu32 >> ((16
                - sz) as u32) && value < (1u32 << ((sz - 1) as u32)) * 2 ==> ((!value
                & x) as int) == (1u32 << ((sz - 1) as u32)) * 2 - 1 - value && value < (1u32 << ((
            sz - 1) as u32))) by (bit_vector)
                requires
                    1 <= sz <= 15,
            ;
            assert((value as int) < pow2(size as nat));
            assert(pow2(size as nat) == pow2((size - 1) as nat) * 2);
            assert(((1u32 << ((size - 1) as u32)) as int) == pow2((size - 1) as nat));
        }
        -neg
    } else {
        proof {
            let sz = size;
            assert((value & (1u32 << ((sz - 1) as u32))) != 0 ==> value >= (1u32 << ((
            sz - 1) as u32))) by (bit_vector)
                requires
                    1 <= sz <= 15,
            ;
        }
        value as i32
    }
}

/// The coefficient codec round-trips: decoding the (size, value)
/// encoding of any nonzero coefficient yields the coefficient again.
pub proof fn lemma_coefficient_roundtrip(c: int)
    requires
        c != 0,
        -32767 <= c <= 32767,
    ensures
        spec_decode_value(spec_coef_size(c), spec_coef_value(c)) == c,
{
    crate::encoder::lemma_bitlen_bounds(spec_abs(c));
    let size = spec_bitlen(spec_abs(c)) as int;
    if c >= 0 {
        assert(c >= pow2((size - 1) as nat));
    } else {
        let value = pow2(size as nat) as int - 1 + c;
        assert(spec_abs(c) >= pow2((size - 1) as nat));
        assert(pow2(size as nat) == pow2((size - 1) as nat) * 2) by {
            vstd::arithmetic::power2::lemma_pow2_adds((size - 1) as nat, 1);
            lemma2_to64();
        }
        assert(value < pow2((size - 1) as nat));
    }
}

} // verus!

//! The forward 8x8 transform of the encoder: a fixed-point cosine
//! transform of one level-shifted pixel block, with coefficients
//! scaled by eight.

use vstd::prelude::*;

use crate::tables::DCT_COS;

verus! {

/// The divisor folding the two 2048-scaled cosine factors back out of
/// a transform sum while keeping the coefficient scaled by eight.
pub const DCT_SCALE: i64 = 2_097_152;

/// One addend of a transform sum: the level-shifted pixel at index
/// `k` weighted by the cosine factors of frequency pair `(u, v)`.
pub open spec fn spec_dct_term(block: Seq<u8>, u: int, v: int, k: int) -> int {
    (block[k] - 128) * DCT_COS@[u * 8 + k % 8] * DCT_COS@[v * 8 + k / 8]
}

/// The transform sum of frequency pair `(u, v)` over the first `n`
/// pixels of the block.
pub open spec fn spec_dct_sum(block: Seq<u8>, u: int, v: int, n: int) -> int
    decreases n,
{
    if n <= 0 {
        0
    } else {
        spec_dct_sum(block, u, v, n - 1) + spec_dct_term(block, u, v, n - 1)
    }
}

/// Signed division truncating toward zero, as the scaling steps of
/// the codec use it.
pub open spec fn spec_div_trunc(a: int, d: int) -> int {
    if a >= 0 {
        a / d
    } else {
        -((-a) / d)
    }
}

/// Coefficient `j` (natural order, `j = v*8 + u`) of the transform of
/// a pixel block: the fixed-point sum scaled back down, leaving the
/// coefficient scaled by eight.
pub open spec fn spec_fdct_coeff(block: Seq<u8>, j: int) -> int {
    spec_div_trunc(spec_dct_sum(block, j % 8, j / 8, 64), DCT_SCALE as int)
}

/// Every partial transform sum is bounded by the largest single term
/// times the pixel count.
proof fn lemma_dct_sum_bound(block: Seq<u8>, u: int, v: int, n: int)
    requires
        0 <= n <= 64,
        0 <= u < 8,
        0 <= v < 8,
    ensures
        -(0x2000_0000 * 64) <= spec_dct_sum(block, u, v, n) <= 0x2000_0000 * 64,
        -(0x2000_0000 * n) <= spec_dct_sum(block, u, v, n) <= 0x2000_0000 * n,
    decreases n,
{
    if n > 0 {
        lemma_dct_sum_bound(block, u, v, n - 1);
        let t = spec_dct_term(block, u, v, n - 1);
        let pix = block[n - 1] - 128;
        let c1 = DCT_COS@[u * 8 + (n - 1) % 8];
        let c2 = DCT_COS@[v * 8 + (n - 1) / 8];
        assert(-0x2000_0000 <= pix * c1 * c2 <= 0x2000_0000) by (nonlinear_arith)
            requires
                -128 <= pix <= 127,
                -2048 <= c1 <= 2048,
                -2048 <= c2 <= 2048,
        ;
    }
}

/// Computes the transform of one 8x8 pixel block; entry `j` of the
/// result is coefficient `(u, v) = (j % 8, j / 8)`, scaled by eight.
#[verifier::rlimit(30)]
pub fn fdct(block: &Vec<u8>) -> (r: Vec<i32>)
    requires
        block@.len() == 64,
    ensures
        r@.len() == 64,
        forall|j: int| 0 <= j < 64 ==> #[trigger] r@[j] as int == spec_fdct_coeff(block@, j),
        forall|j: int| 0 <= j < 64 ==> -16384 <= #[trigger] r@[j] <= 16384,
{
    let mut r: Vec<i32> = Vec::new();
    let mut j: usize = 0;
    while j < 64
        invariant
            j <= 64,
            block@.len() == 64,
            r@.len() == j,
            forall|q: int| 0 <= q < j ==> #[trigger] r@[q] as int == spec_fdct_coeff(block@, q),
            forall|q: int| 0 <= q < j ==> -16384 <= #[trigger] r@[q] <= 16384,
        decreases 64 - j,
    {
        let u = j % 8;
        let v = j / 8;
        let mut acc: i64 = 0;
        let mut k: usize = 0;
        while k < 64
            invariant
                k <= 64,
                u == j % 8,
                v == j / 8,
                j < 64,
                block@.len() == 64,
                acc as int == spec_dct_sum(block@, u as int, v as int, k as int),
                -(0x2000_0000 * 64) <= acc as int <= 0x2000_0000 * 64,
            decreases 64 - k,
        {
            let pix = block[k] as i64 - 128;
            let c1 = DCT_COS[u * 8 + k % 8] as i64;
            let c2 = DCT_COS[v * 8 + k / 8] as i64;
            proof {
                assert(-0x40000 <= pix * c1 <= 0x40000 && -0x2000_0000 <= pix * c1 * c2
                    <= 0x2000_0000) by (nonlinear_arith)
                    requires
                        -128 <= pix <= 127,
                        -2048 <= c1 <= 2048,
                        -2048 <= c2 <= 2048,
                ;
                lemma_dct_sum_bound(block@, u as int, v as int, k as int);
                lemma_dct_sum_bound(block@, u as int, v as int, k + 1);
            }
            let term = pix * c1 * c2;
            acc = acc + term;
            k += 1;
        }
        proof {
            lemma_dct_sum_bound(block@, u as int, v as int, 64);
        }
        let coeff: i64 = if acc >= 0 {
            acc / DCT_SCALE
        } else {
            -((-acc) / DCT_SCALE)
        };
        proof {
            assert(acc as int >= 0 ==> acc as int / (DCT_SCALE as int) <= 16384)
                by (nonlinear_arith)
                requires
                    acc as int <= 0x2000_0000 * 64,
                    DCT_SCALE == 2_097_152,
            ;
            assert((acc as int) < 0 ==> (0 - acc as int) / (DCT_SCALE as int) <= 16384)
                by (nonlinear_arith)
                requires
                    -(0x2000_0000 * 64) <= acc as int,
                    DCT_SCALE == 2_097_152,
            ;
        }
        r.push(coeff as i32);
        j += 1;
    }
    r
}

} // verus!

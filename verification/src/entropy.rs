//! Construction of Huffman code tables from their standard
//! description: the count of codes of each length and the symbol
//! values in code order (JPEG Annex C).

use vstd::prelude::*;

use vstd::arithmetic::power2::pow2;
use vstd::arithmetic::power2::lemma2_to64;
use vstd::bits::lemma_u32_shl_is_mul;

verus! {

/// The code lengths of the first `i` length classes, one entry per
/// code, in code order: `bits[j]` codes of length `j + 1`.
pub open spec fn spec_huffman_sizes_upto(bits: Seq<u8>, i: int) -> Seq<u8>
    decreases i,
{
    if i <= 0 {
        Seq::empty()
    } else {
        spec_huffman_sizes_upto(bits, i - 1) + Seq::new(bits[i - 1] as nat, |j: int| i as u8)
    }
}

/// The code length of each code of the table, in code order.
pub open spec fn spec_huffman_sizes(bits: Seq<u8>) -> Seq<u8> {
    spec_huffman_sizes_upto(bits, 16)
}

/// The canonical code of the `k`-th entry: one more than the previous
/// code, shifted left by the growth in code length; a shrinking
/// length restarts at zero.
pub open spec fn spec_huffman_code(sizes: Seq<u8>, k: int) -> int
    decreases k,
{
    if k <= 0 {
        0
    } else {
        let c = spec_huffman_code(sizes, k - 1) + 1;
        if sizes[k] >= sizes[k - 1] {
            c * pow2((sizes[k] - sizes[k - 1]) as nat) as int
        } else {
            0
        }
    }
}

/// Whether every code of the table fits in sixteen bits, leaving the
/// all-ones code free: the condition under which the construction
/// succeeds.
pub open spec fn spec_codes_fit(sizes: Seq<u8>) -> bool {
    forall|k: int| 0 <= k < sizes.len() ==> 0 <= #[trigger] spec_huffman_code(sizes, k) <= 0xFFFE
}

/// Every code length the description yields lies in 1..=16.
proof fn lemma_sizes_in_range(bits: Seq<u8>, i: int)
    requires
        0 <= i <= 16,
    ensures
        forall|k: int|
            0 <= k < spec_huffman_sizes_upto(bits, i).len() ==> 1 <= #[trigger] spec_huffman_sizes_upto(
                bits,
                i,
            )[k] <= 16,
    decreases i,
{
    if i > 0 {
        lemma_sizes_in_range(bits, i - 1);
        assert forall|k: int|
            0 <= k < spec_huffman_sizes_upto(bits, i).len() implies 1
            <= #[trigger] spec_huffman_sizes_upto(bits, i)[k] <= 16 by {
            let prev = spec_huffman_sizes_upto(bits, i - 1);
            if k < prev.len() {
                assert(spec_huffman_sizes_upto(bits, i)[k] == prev[k]);
            } else {
                assert(spec_huffman_sizes_upto(bits, i)[k] == i as u8);
            }
        }
    }
}

/// A lookup table mapping symbol values to (code length, code): entry
/// `huffval[i]` is the `i`-th code; absent symbols keep the sentinel
/// length 17.
pub open spec fn spec_lut_upto(
    sizes: Seq<u8>,
    huffval: Seq<u8>,
    i: int,
) -> Seq<(u8, u16)>
    decreases i,
{
    if i <= 0 {
        Seq::new(256, |v: int| (17u8, 0u16))
    } else {
        let prev = spec_lut_upto(sizes, huffval, i - 1);
        let size = if i - 1 < sizes.len() {
            sizes[i - 1]
        } else {
            0
        };
        let code = if i - 1 < sizes.len() {
            spec_huffman_code(sizes, i - 1) as u16
        } else {
            0u16
        };
        prev.update(huffval[i - 1] as int, (size, code))
    }
}

/// Computes each code's length and canonical code from the table
/// description (JPEG Annex C); `None` when a code would not fit in
/// sixteen bits.
pub fn derive_codes_and_sizes(bits: &[u8]) -> (r: Option<(Vec<u8>, Vec<u16>)>)
    requires
        bits@.len() == 16,
        spec_huffman_sizes(bits@).len() <= 255,
    ensures
        r is Some <==> spec_codes_fit(spec_huffman_sizes(bits@)),
        match r {
            Some(t) => {
                let sizes = spec_huffman_sizes(bits@);
                &&& t.0@.len() == 256
                &&& t.1@.len() == 256
                &&& forall|k: int|
                    0 <= k < 256 ==> #[trigger] t.0@[k] == (if k < sizes.len() {
                        sizes[k]
                    } else {
                        0u8
                    })
                &&& forall|k: int|
                    0 <= k < 256 ==> #[trigger] t.1@[k] == (if k < sizes.len() {
                        spec_huffman_code(sizes, k) as u16
                    } else {
                        0u16
                    })
            },
            None => true,
        },
{
    let ghost all_sizes = spec_huffman_sizes(bits@);
    let mut sizes_list: Vec<u8> = Vec::new();
    let mut i: usize = 0;
    proof {
        lemma_sizes_in_range(bits@, 16);
    }
    while i < 16
        invariant
            i <= 16,
            bits@.len() == 16,
            sizes_list@ == spec_huffman_sizes_upto(bits@, i as int),
        decreases 16 - i,
    {
        let count = bits[i];
        let mut j: u8 = 0;
        while j < count
            invariant
                j <= count,
                i < 16,
                bits@.len() == 16,
                count == bits@[i as int],
                sizes_list@ == spec_huffman_sizes_upto(bits@, i as int) + Seq::new(
                    j as nat,
                    |q: int| (i + 1) as u8,
                ),
            decreases count - j,
        {
            sizes_list.push((i + 1) as u8);
            proof {
                assert(sizes_list@ =~= spec_huffman_sizes_upto(bits@, i as int) + Seq::new(
                    (j + 1) as nat,
                    |q: int| (i + 1) as u8,
                ));
            }
            j += 1;
        }
        proof {
            assert(sizes_list@ =~= spec_huffman_sizes_upto(bits@, i + 1));
        }
        i += 1;
    }
    let n = sizes_list.len();
    let mut huffsize: Vec<u8> = Vec::new();
    let mut huffcode: Vec<u16> = Vec::new();
    let mut code: u16 = 0;
    let mut k: usize = 0;
    while k < n
        invariant
            k <= n,
            bits@.len() == 16,
            all_sizes == spec_huffman_sizes(bits@),
            n == all_sizes.len() <= 255,
            sizes_list@ == all_sizes,
            forall|q: int| 0 <= q < all_sizes.len() ==> 1 <= #[trigger] all_sizes[q] <= 16,
            huffsize@.len() == k,
            huffcode@.len() == k,
            k < n ==> code as int == spec_huffman_code(all_sizes, k as int),
            forall|q: int| 0 <= q < k ==> #[trigger] huffsize@[q] == all_sizes[q],
            forall|q: int|
                0 <= q < k ==> #[trigger] huffcode@[q] == spec_huffman_code(all_sizes, q) as u16,
            forall|q: int| 0 <= q < k ==> 0 <= #[trigger] spec_huffman_code(all_sizes, q) <= 0xFFFE,
        decreases n - k,
    {
        if code == 0xFFFF {
            proof {
                assert(spec_huffman_code(all_sizes, k as int) > 0xFFFE);
                assert(0 <= k < all_sizes.len());
                assert(!spec_codes_fit(all_sizes));
                assert(all_sizes == spec_huffman_sizes(bits@));
                assert(!spec_codes_fit(spec_huffman_sizes(bits@)));
            }
            return None;
        }
        proof {
            assert(0 <= spec_huffman_code(all_sizes, k as int) <= 0xFFFE);
        }
        huffsize.push(sizes_list[k]);
        huffcode.push(code);
        if k + 1 < n {
            let cur = sizes_list[k];
            let next = sizes_list[k + 1];
            if next >= cur {
                let diff = next - cur;
                let wide: u32 = ((code + 1) as u32) << (diff as u32);
                proof {
                    lemma2_to64();
                    assert(pow2(diff as nat) <= pow2(15)) by {
                        if (diff as nat) < 15 {
                            vstd::arithmetic::power2::lemma_pow2_strictly_increases(
                                diff as nat,
                                15,
                            );
                        }
                    }
                    assert(((code + 1) as u32) * pow2(diff as nat) <= 0x10000 * 0x8000)
                        by (nonlinear_arith)
                        requires
                            ((code + 1) as u32) <= 0x10000,
                            pow2(diff as nat) <= 0x8000,
                    ;
                    lemma_u32_shl_is_mul((code + 1) as u32, diff as u32);
                }
                proof {
                    assert(wide as int == spec_huffman_code(all_sizes, k + 1));
                }
                if wide > 0xFFFE {
                    proof {
                        assert(spec_huffman_code(all_sizes, k + 1) > 0xFFFE);
                        assert(0 <= k + 1 < all_sizes.len());
                        assert(!spec_codes_fit(all_sizes));
                        assert(!spec_codes_fit(spec_huffman_sizes(bits@)));
                    }
                    return None;
                }
                code = wide as u16;
            } else {
                code = 0;
                proof {
                    assert(spec_huffman_code(all_sizes, k + 1) == 0);
                }
            }
        } else {
            code = 0;
        }
        k += 1;
    }
    let mut full_sizes: Vec<u8> = Vec::new();
    let mut full_codes: Vec<u16> = Vec::new();
    let mut q: usize = 0;
    while q < 256
        invariant
            q <= 256,
            n == all_sizes.len(),
            huffsize@.len() == n,
            huffcode@.len() == n,
            full_sizes@.len() == q,
            full_codes@.len() == q,
            forall|t: int| 0 <= t < n ==> #[trigger] huffsize@[t] == all_sizes[t],
            forall|t: int|
                0 <= t < n ==> #[trigger] huffcode@[t] == spec_huffman_code(all_sizes, t) as u16,
            forall|t: int|
                0 <= t < q ==> #[trigger] full_sizes@[t] == (if t < n {
                    all_sizes[t]
                } else {
                    0u8
                }),
            forall|t: int|
                0 <= t < q ==> #[trigger] full_codes@[t] == (if t < n {
                    spec_huffman_code(all_sizes, t) as u16
                } else {
                    0u16
                }),
        decreases 256 - q,
    {
        if q < n {
            full_sizes.push(huffsize[q]);
            full_codes.push(huffcode[q]);
        } else {
            full_sizes.push(0);
            full_codes.push(0);
        }
        q += 1;
    }
    Some((full_sizes, full_codes))
}

/// Builds the symbol-indexed lookup table of a Huffman table: for each
/// symbol value its code length and canonical code; `None` when a code
/// would not fit in sixteen bits.
pub fn build_huff_lut(bits: &[u8], huffval: &[u8]) -> (r: Option<Vec<(u8, u16)>>)
    requires
        bits@.len() == 16,
        spec_huffman_sizes(bits@).len() <= 255,
        huffval@.len() <= 256,
    ensures
        r is Some <==> spec_codes_fit(spec_huffman_sizes(bits@)),
        match r {
            Some(lut) => lut@ == spec_lut_upto(
                spec_huffman_sizes(bits@),
                huffval@,
                huffval@.len() as int,
            ),
            None => true,
        },
{
    let ghost sizes = spec_huffman_sizes(bits@);
    let derived = derive_codes_and_sizes(bits);
    match derived {
        None => None,
        Some((huffsize, huffcode)) => {
            let mut lut: Vec<(u8, u16)> = Vec::new();
            let mut v: usize = 0;
            while v < 256
                invariant
                    v <= 256,
                    lut@.len() == v,
                    forall|t: int| 0 <= t < v ==> #[trigger] lut@[t] == (17u8, 0u16),
                decreases 256 - v,
            {
                lut.push((17, 0));
                v += 1;
            }
            proof {
                assert(lut@ =~= spec_lut_upto(sizes, huffval@, 0));
            }
            let mut i: usize = 0;
            while i < huffval.len()
                invariant
                    i <= huffval@.len(),
                    huffval@.len() <= 256,
                    sizes == spec_huffman_sizes(bits@),
                    huffsize@.len() == 256,
                    huffcode@.len() == 256,
                    lut@.len() == 256,
                    forall|k: int|
                        0 <= k < 256 ==> #[trigger] huffsize@[k] == (if k < sizes.len() {
                            sizes[k]
                        } else {
                            0u8
                        }),
                    forall|k: int|
                        0 <= k < 256 ==> #[trigger] huffcode@[k] == (if k < sizes.len() {
                            spec_huffman_code(sizes, k) as u16
                        } else {
                            0u16
                        }),
                    lut@ == spec_lut_upto(sizes, huffval@, i as int),
                decreases huffval@.len() - i,
            {
                let value = huffval[i] as usize;
                lut.set(value, (huffsize[i], huffcode[i]));
                proof {
                    assert(lut@ =~= spec_lut_upto(sizes, huffval@, i + 1));
                }
                i += 1;
            }
            Some(lut)
        },
    }
}

} // verus!

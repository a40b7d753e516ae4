//! The block JPEG encoder: converts prioritised 16x16 macroblocks of
//! a BGRx capture into self-delimiting entropy-coded payloads.
//!
//! Each macroblock payload starts with the 10-bit block id, followed
//! by the coded coefficients of its four 8x8 subblocks (Y, Cb, Cr
//! each), and is flushed to a byte boundary with zero padding and JPEG
//! byte stuffing.  The bit stream is modelled arithmetically: the
//! pending bits form a value `v` of `n` bits, and emitting `size` bits
//! appends them below `v`, popping whole bytes as they complete.

use vstd::prelude::*;

use vstd::arithmetic::power2::pow2;
use crate::fdct::fdct;
use crate::fdct::spec_fdct_coeff;
use crate::fdct::spec_div_trunc;
use crate::protocol::SenderMessage;
use crate::tables::STD_CHROMA_AC_CODE_LENGTHS;
use crate::tables::STD_CHROMA_AC_VALUES;
use crate::tables::STD_CHROMA_DC_CODE_LENGTHS;
use crate::tables::STD_CHROMA_DC_VALUES;
use crate::tables::STD_CHROMA_QTABLE;
use crate::tables::STD_LUMA_AC_CODE_LENGTHS;
use crate::tables::STD_LUMA_AC_VALUES;
use crate::tables::STD_LUMA_DC_CODE_LENGTHS;
use crate::tables::STD_LUMA_DC_VALUES;
use crate::tables::STD_LUMA_QTABLE;
use crate::tables::UNZIGZAG;
use crate::entropy::build_huff_lut;
use vstd::arithmetic::power2::lemma_pow2_adds;
use vstd::arithmetic::power2::lemma_pow2_strictly_increases;
use vstd::arithmetic::power2::lemma2_to64;

verus! {

broadcast use vstd::arithmetic::power2::lemma_pow2_pos;

/// The state of the bit stream: emitted bytes, the pending value, and
/// how many bits of it are pending.
pub type BitState = (Seq<u8>, int, int);

/// Pops every complete byte off the pending bits, high bits first.
pub open spec fn spec_pop_bytes(st: BitState) -> BitState
    decreases st.2,
{
    if st.2 >= 8 {
        spec_pop_bytes(
            (
                st.0.push((st.1 / pow2((st.2 - 8) as nat) as int) as u8),
                st.1 % pow2((st.2 - 8) as nat) as int,
                st.2 - 8,
            ),
        )
    } else {
        st
    }
}

/// Appends `size` bits holding `bits` below the pending value, then
/// pops the completed bytes.
pub open spec fn spec_put_bits(st: BitState, bits: int, size: int) -> BitState {
    if size == 0 {
        st
    } else {
        spec_pop_bytes((st.0, st.1 * pow2(size as nat) as int + bits, st.2 + size))
    }
}

/// Flushes the stream to a byte boundary: pads the pending bits with
/// zeros up to a byte, and follows a `0xFF` byte with a `0x00` stuff
/// byte.
pub open spec fn spec_flush(st: BitState) -> Seq<u8> {
    if st.2 == 0 {
        st.0
    } else {
        let byte = (st.1 * pow2((8 - st.2) as nat) as int) as u8;
        if byte == 0xFF {
            st.0.push(byte).push(0x00)
        } else {
            st.0.push(byte)
        }
    }
}

/// A Huffman lookup table usable for the DC symbols the encoder
/// emits: every symbol up to 11 has a code of at most 16 bits that
/// fits its length.
pub open spec fn spec_dc_table_ok(t: Seq<(u8, u16)>) -> bool {
    t.len() == 256 && forall|v: int|
        0 <= v <= 11 ==> (#[trigger] t[v]).0 <= 16 && t[v].1 < pow2(t[v].0 as nat)
}

/// A Huffman lookup table usable for the AC symbols the encoder
/// emits: end-of-block, the zero-run symbol, and every (run, size)
/// pair with size 1..=10 have codes of at most 16 bits that fit.
pub open spec fn spec_ac_symbol(v: int) -> bool {
    v == 0 || v == 0xF0 || (1 <= v % 16 && v % 16 <= 10)
}

pub open spec fn spec_ac_table_ok(t: Seq<(u8, u16)>) -> bool {
    t.len() == 256 && forall|v: int|
        0 <= v < 256 && spec_ac_symbol(v) ==> (#[trigger] t[v]).0 <= 16 && t[v].1 < pow2(
            t[v].0 as nat,
        )
}

/// The block JPEG encoder.
pub struct Encoder {
    tables: Vec<u8>,
    luma_dctable: Vec<(u8, u16)>,
    luma_actable: Vec<(u8, u16)>,
    chroma_dctable: Vec<(u8, u16)>,
    chroma_actable: Vec<(u8, u16)>,
    width: usize,
    height: usize,
    accumulator: u32,
    nbits: u8,
    buffer: Vec<u8>,
    timestamp: u32,
}

impl Encoder {
    /// The quantisation tables: luma then chroma, natural order.
    pub closed spec fn qtables(&self) -> Seq<u8> {
        self.tables@
    }

    /// The luma DC Huffman lookup table.
    pub closed spec fn luma_dc(&self) -> Seq<(u8, u16)> {
        self.luma_dctable@
    }

    /// The luma AC Huffman lookup table.
    pub closed spec fn luma_ac(&self) -> Seq<(u8, u16)> {
        self.luma_actable@
    }

    /// The chroma DC Huffman lookup table.
    pub closed spec fn chroma_dc(&self) -> Seq<(u8, u16)> {
        self.chroma_dctable@
    }

    /// The chroma AC Huffman lookup table.
    pub closed spec fn chroma_ac(&self) -> Seq<(u8, u16)> {
        self.chroma_actable@
    }

    /// View width in pixels.
    pub closed spec fn width(&self) -> int {
        self.width as int
    }

    /// View height in pixels.
    pub closed spec fn height(&self) -> int {
        self.height as int
    }

    /// The encoder's frame timestamp.
    pub closed spec fn timestamp(&self) -> u32 {
        self.timestamp
    }

    /// The pending bit value.
    pub closed spec fn pending(&self) -> int {
        if self.nbits == 0 {
            0
        } else {
            (self.accumulator >> ((32 - self.nbits) as u32)) as int
        }
    }

    /// The bit-stream state: buffered payload bytes plus pending bits.
    pub closed spec fn bit_state(&self) -> BitState {
        (self.buffer@, self.pending(), self.nbits as int)
    }

    /// Well-formedness of the encoder: quantisation tables of 128
    /// entries at least one each, usable Huffman tables, geometry
    /// divisible into macroblocks, and a clean bit stream.
    pub closed spec fn wf(&self) -> bool {
        &&& self.tables@.len() == 128
        &&& forall|k: int| 0 <= k < 128 ==> (#[trigger] self.tables@[k]) >= 8
        &&& spec_dc_table_ok(self.luma_dctable@)
        &&& spec_ac_table_ok(self.luma_actable@)
        &&& spec_dc_table_ok(self.chroma_dctable@)
        &&& spec_ac_table_ok(self.chroma_actable@)
        &&& 16 <= self.width <= 4096
        &&& 16 <= self.height <= 4096
        &&& self.width % 16 == 0
        &&& self.height % 16 == 0
        &&& self.nbits <= 7
        &&& self.accumulator as int == self.pending() * pow2((32 - self.nbits) as nat)
        &&& self.pending() < pow2(self.nbits as nat)
    }

    /// Appends the low `size` bits of `bits` to the bit stream.
    fn write_bits(&mut self, bits: u16, size: u8)
        requires
            old(self).wf(),
            size <= 16,
            (bits as int) < pow2(size as nat),
        ensures
            final(self).wf(),
            final(self).bit_state() == spec_put_bits(
                old(self).bit_state(),
                bits as int,
                size as int,
            ),
            final(self).qtables() == old(self).qtables(),
            final(self).luma_dc() == old(self).luma_dc(),
            final(self).luma_ac() == old(self).luma_ac(),
            final(self).chroma_dc() == old(self).chroma_dc(),
            final(self).chroma_ac() == old(self).chroma_ac(),
            final(self).width() == old(self).width(),
            final(self).height() == old(self).height(),
            final(self).timestamp() == old(self).timestamp(),
    {
        if size == 0 {
            return ;
        }
        let ghost st0 = self.bit_state();
        let ghost v0 = self.pending();
        let ghost n0 = self.nbits as int;
        proof {
            lemma2_to64();
            lemma_pow2_adds((32 - n0 - size) as nat, size as nat);
            lemma_pow2_adds(size as nat, n0 as nat);
            if (size as nat) < 16 {
                lemma_pow2_strictly_increases(size as nat, 16);
            }
            if (n0 as nat) < 7 {
                lemma_pow2_strictly_increases(n0 as nat, 7);
            }
        }
        let shift: u32 = 32 - ((self.nbits as u32) + (size as u32));
        proof {
            assert((bits as int) * pow2(shift as nat) < pow2((32 - n0) as nat))
                by (nonlinear_arith)
                requires
                    (bits as int) < pow2(size as nat),
                    pow2((32 - n0) as nat) == pow2(shift as nat) * pow2(size as nat),
                    pow2(shift as nat) >= 1,
                    bits >= 0,
            ;
            assert(pow2((32 - n0) as nat) <= pow2(32)) by {
                if 32 - n0 < 32 {
                    lemma_pow2_strictly_increases((32 - n0) as nat, 32);
                }
            }
            vstd::bits::lemma_u32_shl_is_mul(bits as u32, shift);
        }
        let placed: u32 = (bits as u32) << shift;
        let ghost nv = v0 * pow2(size as nat) + bits;
        proof {
            assert(nv < pow2((n0 + size) as nat)) by (nonlinear_arith)
                requires
                    0 <= v0 < pow2(n0 as nat),
                    0 <= (bits as int) < pow2(size as nat),
                    pow2((n0 + size) as nat) == pow2(size as nat) * pow2(n0 as nat),
                    pow2(size as nat) >= 1,
                    nv == v0 * pow2(size as nat) + bits,
            ;
            lemma_pow2_adds((32 - n0 - size) as nat, (n0 + size) as nat);
            assert(self.accumulator as int + placed as int == nv * pow2((32 - n0 - size) as nat)
                && nv * pow2((32 - n0 - size) as nat) < pow2(32)) by (nonlinear_arith)
                requires
                    self.accumulator as int == v0 * pow2((32 - n0) as nat),
                    placed as int == (bits as int) * pow2((32 - n0 - size) as nat),
                    pow2((32 - n0) as nat) == pow2((32 - n0 - size) as nat) * pow2(size as nat),
                    nv == v0 * pow2(size as nat) + bits,
                    0 <= nv < pow2((n0 + size) as nat),
                    pow2(32) == pow2((32 - n0 - size) as nat) * pow2((n0 + size) as nat),
                    pow2((32 - n0 - size) as nat) >= 1,
                    bits >= 0,
                    v0 >= 0,
            ;
            assert(pow2(32) == 0x1_0000_0000) by {
                lemma2_to64();
            }
        }
        self.accumulator = self.accumulator + placed;
        self.nbits = self.nbits + size;
        let ghost mut v: int = nv;
        proof {
            assert(spec_put_bits(st0, bits as int, size as int) == spec_pop_bytes(
                (self.buffer@, v, self.nbits as int),
            ));
        }
        while self.nbits >= 8
            invariant
                self.nbits <= 23,
                0 <= v < pow2(self.nbits as nat),
                self.accumulator as int == v * pow2((32 - self.nbits) as nat),
                spec_pop_bytes((self.buffer@, v, self.nbits as int)) == spec_put_bits(
                    st0,
                    bits as int,
                    size as int,
                ),
                self.tables@ == old(self).tables@,
                self.luma_dctable@ == old(self).luma_dctable@,
                self.luma_actable@ == old(self).luma_actable@,
                self.chroma_dctable@ == old(self).chroma_dctable@,
                self.chroma_actable@ == old(self).chroma_actable@,
                self.width == old(self).width,
                self.height == old(self).height,
                self.timestamp == old(self).timestamp,
            decreases self.nbits,
        {
            let ghost n = self.nbits as int;
            let ghost buf_before = self.buffer@;
            let acc_cur: u32 = self.accumulator;
            let byte_wide: u32 = (acc_cur & 0xFF000000u32) >> 24;
            proof {
                assert(byte_wide == acc_cur / 0x1000000) by (bit_vector)
                    requires
                        byte_wide == (acc_cur & 0xFF000000u32) >> 24,
                ;
                lemma_pow2_adds((32 - n) as nat, (n - 8) as nat);
                assert(v * pow2((32 - n) as nat) / 0x1000000 == v / pow2((n - 8) as nat) as int)
                    by {
                    lemma2_to64();
                    assert(((32 - n) as nat) + ((n - 8) as nat) == 24);
                    assert(pow2((32 - n) as nat) * pow2((n - 8) as nat) == 0x1000000);
                    assert(v * pow2((32 - n) as nat) >= 0) by (nonlinear_arith)
                        requires
                            v >= 0,
                            pow2((32 - n) as nat) >= 0,
                    ;
                    vstd::arithmetic::div_mod::lemma_div_denominator(
                        v * pow2((32 - n) as nat),
                        pow2((32 - n) as nat) as int,
                        pow2((n - 8) as nat) as int,
                    );
                    vstd::arithmetic::div_mod::lemma_div_by_multiple(
                        v,
                        pow2((32 - n) as nat) as int,
                    );
                    assert((v * pow2((32 - n) as nat) / (pow2((32 - n) as nat) as int)) / (pow2(
                        (n - 8) as nat,
                    ) as int) == v * pow2((32 - n) as nat) / (pow2((32 - n) as nat) as int * pow2(
                        (n - 8) as nat,
                    ) as int));
                }
                assert(pow2(n as nat) == pow2((n - 8) as nat) * pow2(8)) by {
                    lemma_pow2_adds((n - 8) as nat, 8);
                }
                assert(pow2(8) == 256) by {
                    lemma2_to64();
                }
                assert((v / pow2((n - 8) as nat) as int) < 256) by (nonlinear_arith)
                    requires
                        0 <= v < pow2(n as nat),
                        pow2(n as nat) == pow2((n - 8) as nat) * pow2(8),
                        pow2(8) == 256,
                        pow2((n - 8) as nat) >= 1,
                ;
            }
            let byte = byte_wide as u8;
            self.buffer.push(byte);
            self.nbits -= 8;
            let acc2: u32 = acc_cur << 8;
            proof {
                assert(acc2 as int == (acc_cur as int % 0x1000000) * 256) by (bit_vector)
                    requires
                        acc2 == acc_cur << 8,
                ;
                let d = pow2((n - 8) as nat) as int;
                let q = v / d;
                let r = v % d;
                vstd::arithmetic::div_mod::lemma_fundamental_div_mod(v, d);
                vstd::arithmetic::div_mod::lemma_mod_bound(v, d);
                assert(0x1000000 == pow2((32 - n) as nat) * d) by {
                    lemma_pow2_adds((32 - n) as nat, (n - 8) as nat);
                    lemma2_to64();
                }
                assert(acc_cur as int == q * 0x1000000 + r * pow2((32 - n) as nat) && r * pow2(
                    (32 - n) as nat,
                ) < 0x1000000) by (nonlinear_arith)
                    requires
                        acc_cur as int == v * pow2((32 - n) as nat),
                        v == d * q + r,
                        0 <= r < d,
                        0x1000000 == pow2((32 - n) as nat) * d,
                        pow2((32 - n) as nat) >= 1,
                ;
                vstd::arithmetic::div_mod::lemma_fundamental_div_mod_converse_mod(
                    acc_cur as int,
                    0x1000000,
                    q,
                    r * pow2((32 - n) as nat) as int,
                );
                assert((acc_cur as int % 0x1000000) == r * pow2((32 - n) as nat));
                vstd::arithmetic::mul::lemma_mul_is_associative(
                    r,
                    pow2((32 - n) as nat) as int,
                    256,
                );
                assert(acc2 as int == r * (pow2((32 - n) as nat) * 256));
                assert(pow2((32 - n) as nat) * 256 == pow2((32 - (n - 8)) as nat)) by {
                    lemma_pow2_adds((32 - n) as nat, 8);
                    lemma2_to64();
                }
                assert(spec_pop_bytes((buf_before, v, n)) == spec_pop_bytes(
                    (buf_before.push((v / d) as u8), r, n - 8),
                ));
                assert(byte == (v / d) as u8);
                v = r;
            }
            self.accumulator = acc2;
            proof {
                assert(v < pow2(self.nbits as nat));
                assert(acc2 as int == v * pow2((32 - self.nbits) as nat));
            }
        }
        proof {
            assert(spec_pop_bytes((self.buffer@, v, self.nbits as int)) == (
                self.buffer@,
                v,
                self.nbits as int,
            ));
            let nb = self.nbits as int;
            if nb == 0 {
                lemma2_to64();
                assert(v == 0);
                assert(self.accumulator as int == 0 * pow2(32));
                assert(self.pending() == 0);
            } else {
                let acc_end = self.accumulator;
                vstd::bits::lemma_u32_shr_is_div(acc_end, (32 - self.nbits) as u32);
                assert((acc_end >> (((32 - self.nbits) as u32))) == acc_end as nat / pow2(
                    (32 - nb) as nat,
                ));
                vstd::arithmetic::div_mod::lemma_div_by_multiple(
                    v,
                    pow2((32 - nb) as nat) as int,
                );
                assert(acc_end as int / (pow2((32 - nb) as nat) as int) == v);
                assert(self.pending() == v);
            }
        }
    }
}


/// The bit length of a magnitude: zero for zero, else one more than
/// of its half.
pub open spec fn spec_bitlen(n: nat) -> nat
    decreases n,
{
    if n == 0 {
        0nat
    } else {
        1nat + spec_bitlen(n / 2)
    }
}

/// The magnitude of a coefficient.
pub open spec fn spec_abs(c: int) -> nat {
    if c >= 0 {
        c as nat
    } else {
        (-c) as nat
    }
}

/// The (size, value) encoding of a coefficient: the bit length of its
/// magnitude, and the coefficient itself when non-negative, else its
/// value diminished by one in that many bits (JPEG's ones-complement
/// form).
pub open spec fn spec_coef_size(c: int) -> int {
    spec_bitlen(spec_abs(c)) as int
}

pub open spec fn spec_coef_value(c: int) -> int {
    if c >= 0 {
        c
    } else {
        pow2(spec_bitlen(spec_abs(c))) as int - 1 + c
    }
}

/// A magnitude is below two to its bit length, and at least two to
/// one less.
pub proof fn lemma_bitlen_bounds(n: nat)
    ensures
        n < pow2(spec_bitlen(n)),
        n > 0 ==> n >= pow2((spec_bitlen(n) - 1) as nat),
    decreases n,
{
    lemma2_to64();
    if n > 0 {
        lemma_bitlen_bounds(n / 2);
        lemma_pow2_adds((spec_bitlen(n) - 1) as nat, 1);
        if n >= 2 {
            lemma_pow2_adds((spec_bitlen(n / 2) - 1) as nat, 1);
            assert(n >= 2 * (n / 2));
        }
    }
}

/// Bit length is monotone.
proof fn lemma_bitlen_monotone(a: nat, b: nat)
    requires
        a <= b,
    ensures
        spec_bitlen(a) <= spec_bitlen(b),
    decreases b,
{
    if a > 0 {
        lemma_bitlen_monotone(a / 2, b / 2);
    }
}

/// A magnitude below a power of two has at most that bit length.
proof fn lemma_bitlen_le(n: nat, k: nat)
    requires
        n < pow2(k),
    ensures
        spec_bitlen(n) <= k,
    decreases k,
{
    if n > 0 {
        lemma_pow2_adds((k - 1) as nat, 1);
        lemma2_to64();
        lemma_bitlen_le(n / 2, (k - 1) as nat);
    }
}

/// Encodes one quantised coefficient as its bit size and value bits.
pub fn encode_coefficient(coefficient: i32) -> (r: (u8, u16))
    requires
        -32767 <= coefficient <= 32767,
    ensures
        r.0 as int == spec_coef_size(coefficient as int),
        r.1 as int == spec_coef_value(coefficient as int),
        r.0 <= 15,
        (r.1 as int) < pow2(r.0 as nat),
{
    let mut magnitude: u16 = if coefficient >= 0 {
        coefficient as u16
    } else {
        (-coefficient) as u16
    };
    let ghost m0 = magnitude as nat;
    let mut num_bits: u8 = 0;
    proof {
        lemma2_to64();
        lemma_bitlen_le(m0, 15);
    }
    while magnitude > 0
        invariant
            spec_bitlen(m0) == num_bits + spec_bitlen(magnitude as nat),
            spec_bitlen(m0) <= 15,
        decreases magnitude,
    {
        let ghost mag_before = magnitude;
        magnitude = magnitude >> 1;
        proof {
            assert(magnitude == mag_before / 2) by (bit_vector)
                requires
                    magnitude == mag_before >> 1u16,
            ;
            assert(spec_bitlen(mag_before as nat) == 1 + spec_bitlen(magnitude as nat));
        }
        num_bits += 1;
    }
    let size = num_bits;
    proof {
        lemma_bitlen_bounds(m0);
        vstd::bits::lemma_u16_shl_is_mul(1u16, size as u16);
        if (size as nat) < 15 {
            lemma_pow2_strictly_increases(size as nat, 15);
        }
        lemma2_to64();
    }
    let value: u16 = if coefficient >= 0 {
        coefficient as u16
    } else {
        let p: u16 = 1u16 << (size as u16);
        let m = (-coefficient) as u16;
        (p - 1) - m
    };
    (size, value)
}

/// Appends one Huffman-coded symbol from a lookup table.
pub open spec fn spec_put_sym(st: BitState, t: Seq<(u8, u16)>, sym: int) -> BitState {
    spec_put_bits(st, t[sym].1 as int, t[sym].0 as int)
}

/// Appends the DC coefficient: its size symbol, then its value bits.
pub open spec fn spec_put_coef(st: BitState, t: Seq<(u8, u16)>, c: int) -> BitState {
    spec_put_bits(spec_put_sym(st, t, spec_coef_size(c)), spec_coef_value(c), spec_coef_size(c))
}

/// Appends one zero-run-length symbol for every sixteen pending
/// zeros.
pub open spec fn spec_put_zrl(st: BitState, act: Seq<(u8, u16)>, run: int) -> BitState
    decreases run,
{
    if run > 15 {
        spec_put_zrl(spec_put_sym(st, act, 0xF0), act, run - 16)
    } else {
        st
    }
}

/// The zeros still pending after the zero-run-length symbols.
pub open spec fn spec_zrl_rem(run: int) -> int
    decreases run,
{
    if run > 15 {
        spec_zrl_rem(run - 16)
    } else {
        run
    }
}

/// Appends the AC coefficients of a block from zigzag position `k` on
/// with `run` zeros pending: zeros accumulate, a nonzero coefficient
/// flushes the pending zero-run symbols and emits its (run, size)
/// symbol and value bits, and a block ending in zeros emits the
/// end-of-block symbol.
pub open spec fn spec_put_ac(
    st: BitState,
    block: Seq<i32>,
    act: Seq<(u8, u16)>,
    k: int,
    run: int,
) -> BitState
    decreases 64 - k,
{
    if k >= 64 || k <= 0 {
        st
    } else {
        let c = block[UNZIGZAG@[k] as int] as int;
        if c == 0 {
            if k == 63 {
                spec_put_sym(st, act, 0)
            } else {
                spec_put_ac(st, block, act, k + 1, run + 1)
            }
        } else {
            let st1 = spec_put_zrl(st, act, run);
            let rem = spec_zrl_rem(run);
            let size = spec_coef_size(c);
            let st2 = spec_put_sym(st1, act, rem * 16 + size);
            let st3 = spec_put_bits(st2, spec_coef_value(c), size);
            if k == 63 {
                st3
            } else {
                spec_put_ac(st3, block, act, k + 1, 0)
            }
        }
    }
}

/// Appends one whole coded 8x8 coefficient block: the DC coefficient,
/// then the AC coefficients in zigzag order.
pub open spec fn spec_put_block(
    st: BitState,
    block: Seq<i32>,
    dct: Seq<(u8, u16)>,
    act: Seq<(u8, u16)>,
) -> BitState {
    spec_put_ac(spec_put_coef(st, dct, block[0] as int), block, act, 1, 0)
}

impl Encoder {
    /// Appends the Huffman code of symbol `val` from the selected
    /// table.
    fn huffman_encode(&mut self, val: u8, dc: bool, luma: bool)
        requires
            old(self).wf(),
            dc ==> val <= 11,
            !dc ==> spec_ac_symbol(val as int),
        ensures
            final(self).wf(),
            final(self).bit_state() == spec_put_sym(
                old(self).bit_state(),
                (if dc {
                    if luma {
                        old(self).luma_dc()
                    } else {
                        old(self).chroma_dc()
                    }
                } else {
                    if luma {
                        old(self).luma_ac()
                    } else {
                        old(self).chroma_ac()
                    }
                }),
                val as int,
            ),
            final(self).qtables() == old(self).qtables(),
            final(self).luma_dc() == old(self).luma_dc(),
            final(self).luma_ac() == old(self).luma_ac(),
            final(self).chroma_dc() == old(self).chroma_dc(),
            final(self).chroma_ac() == old(self).chroma_ac(),
            final(self).width() == old(self).width(),
            final(self).height() == old(self).height(),
            final(self).timestamp() == old(self).timestamp(),
    {
        let (size, code) = if dc {
            if luma {
                self.luma_dctable[val as usize]
            } else {
                self.chroma_dctable[val as usize]
            }
        } else {
            if luma {
                self.luma_actable[val as usize]
            } else {
                self.chroma_actable[val as usize]
            }
        };
        proof {
            let t = if dc {
                if luma {
                    self.luma_dctable@
                } else {
                    self.chroma_dctable@
                }
            } else {
                if luma {
                    self.luma_actable@
                } else {
                    self.chroma_actable@
                }
            };
            assert(t[val as int].0 <= 16 && (t[val as int].1 as int) < pow2(t[val as int].0 as nat));
        }
        self.write_bits(code, size);
    }

    /// Flushes the bit stream to a byte boundary: pads the last byte
    /// with zeros and, when it comes out as `0xFF`, appends a `0x00`
    /// stuff byte.
    fn write_final_bits(&mut self)
        requires
            old(self).wf(),
        ensures
            final(self).wf(),
            final(self).bit_state() == (spec_flush(old(self).bit_state()), 0int, 0int),
            final(self).qtables() == old(self).qtables(),
            final(self).luma_dc() == old(self).luma_dc(),
            final(self).luma_ac() == old(self).luma_ac(),
            final(self).chroma_dc() == old(self).chroma_dc(),
            final(self).chroma_ac() == old(self).chroma_ac(),
            final(self).width() == old(self).width(),
            final(self).height() == old(self).height(),
            final(self).timestamp() == old(self).timestamp(),
    {
        let ghost v0 = self.pending();
        let ghost n0 = self.nbits as int;
        if self.nbits == 0 {
            self.accumulator = 0;
            proof {
                lemma2_to64();
            }
            return ;
        }
        let byte_wide: u32 = (self.accumulator & 0xFF000000u32) >> 24;
        proof {
            let acc = self.accumulator;
            assert(byte_wide == acc / 0x1000000 && byte_wide < 256) by (bit_vector)
                requires
                    byte_wide == (acc & 0xFF000000u32) >> 24,
            ;
            lemma2_to64();
            lemma_pow2_adds((32 - n0) as nat, 0);
            assert(pow2((32 - n0) as nat) == 0x1000000 * pow2((8 - n0) as nat)) by {
                lemma_pow2_adds(24, (8 - n0) as nat);
            }
            assert(pow2(n0 as nat) * pow2((8 - n0) as nat) == 256) by {
                lemma_pow2_adds(n0 as nat, (8 - n0) as nat);
            }
            assert(acc as int / 0x1000000 == v0 * pow2((8 - n0) as nat)) by (nonlinear_arith)
                requires
                    acc as int == v0 * pow2((32 - n0) as nat),
                    pow2((32 - n0) as nat) == 0x1000000 * pow2((8 - n0) as nat),
                    0 <= v0 < pow2(n0 as nat),
                    pow2(n0 as nat) * pow2((8 - n0) as nat) == 256,
                    pow2((8 - n0) as nat) >= 1,
            ;
        }
        let byte = byte_wide as u8;
        self.buffer.push(byte);
        if byte == 0xFF {
            self.buffer.push(0x00);
        }
        self.nbits = 0;
        self.accumulator = 0;
        proof {
            lemma2_to64();
            assert(v0 * pow2((8 - n0) as nat) < 256) by (nonlinear_arith)
                requires
                    0 <= v0 < pow2(n0 as nat),
                    pow2(n0 as nat) * pow2((8 - n0) as nat) == 256,
                    pow2((8 - n0) as nat) >= 1,
            ;
            assert(pow2(n0 as nat) * pow2((8 - n0) as nat) == 256) by {
                lemma_pow2_adds(n0 as nat, (8 - n0) as nat);
            }
            assert(byte as int == v0 * pow2((8 - n0) as nat));
        }
    }

    /// Appends one coded 8x8 coefficient block, DC first and then the
    /// AC coefficients in zigzag order, using the luma or chroma
    /// tables.
    fn write_block(&mut self, block: &Vec<i32>, luma: bool)
        requires
            old(self).wf(),
            block@.len() == 64,
            -2047 <= block@[0] <= 2047,
            forall|k: int| 1 <= k < 64 ==> -1023 <= #[trigger] block@[k] <= 1023,
        ensures
            final(self).wf(),
            final(self).bit_state() == spec_put_block(
                old(self).bit_state(),
                block@,
                (if luma {
                    old(self).luma_dc()
                } else {
                    old(self).chroma_dc()
                }),
                (if luma {
                    old(self).luma_ac()
                } else {
                    old(self).chroma_ac()
                }),
            ),
            final(self).qtables() == old(self).qtables(),
            final(self).luma_dc() == old(self).luma_dc(),
            final(self).luma_ac() == old(self).luma_ac(),
            final(self).chroma_dc() == old(self).chroma_dc(),
            final(self).chroma_ac() == old(self).chroma_ac(),
            final(self).width() == old(self).width(),
            final(self).height() == old(self).height(),
            final(self).timestamp() == old(self).timestamp(),
    {
        let ghost st0 = self.bit_state();
        let ghost dct = if luma {
            self.luma_dctable@
        } else {
            self.chroma_dctable@
        };
        let ghost act = if luma {
            self.luma_actable@
        } else {
            self.chroma_actable@
        };
        let dcval = block[0];
        let (size, value) = encode_coefficient(dcval);
        proof {
            lemma2_to64();
            lemma_bitlen_bounds(spec_abs(dcval as int));
            lemma_bitlen_le(spec_abs(dcval as int), 11);
        }
        self.huffman_encode(size, true, luma);
        self.write_bits(value, size);
        proof {
            assert(self.bit_state() == spec_put_coef(st0, dct, block@[0] as int));
        }
        let mut zero_run: u8 = 0;
        let mut k: usize = 1;
        while k < 64
            invariant_except_break
                1 <= k < 64,
                zero_run < k,
                self.wf(),
                block@.len() == 64,
                forall|q: int| 1 <= q < 64 ==> -1023 <= #[trigger] block@[q] <= 1023,
                dct == (if luma {
                    self.luma_dctable@
                } else {
                    self.chroma_dctable@
                }),
                act == (if luma {
                    self.luma_actable@
                } else {
                    self.chroma_actable@
                }),
                spec_put_ac(self.bit_state(), block@, act, k as int, zero_run as int)
                    == spec_put_block(st0, block@, dct, act),
                self.tables@ == old(self).tables@,
                self.luma_dctable@ == old(self).luma_dctable@,
                self.luma_actable@ == old(self).luma_actable@,
                self.chroma_dctable@ == old(self).chroma_dctable@,
                self.chroma_actable@ == old(self).chroma_actable@,
                self.width == old(self).width,
                self.height == old(self).height,
                self.timestamp == old(self).timestamp,
            ensures
                self.wf(),
                self.bit_state() == spec_put_block(st0, block@, dct, act),
                self.tables@ == old(self).tables@,
                self.luma_dctable@ == old(self).luma_dctable@,
                self.luma_actable@ == old(self).luma_actable@,
                self.chroma_dctable@ == old(self).chroma_dctable@,
                self.chroma_actable@ == old(self).chroma_actable@,
                self.width == old(self).width,
                self.height == old(self).height,
                self.timestamp == old(self).timestamp,
            decreases 64 - k,
        {
            let ghost st_iter = self.bit_state();
            let ghost run_iter = zero_run as int;
            let zz = UNZIGZAG[k] as usize;
            let c = block[zz];
            proof {
                assert(c == block@[UNZIGZAG@[k as int] as int]);
            }
            if c == 0 {
                if k == 63 {
                    self.huffman_encode(0x00, false, luma);
                    proof {
                        assert(spec_put_ac(st_iter, block@, act, 63, run_iter) == spec_put_sym(
                            st_iter,
                            act,
                            0,
                        ));
                    }
                    break ;
                }
                zero_run += 1;
                k += 1;
            } else {
                while zero_run > 15
                    invariant
                        self.wf(),
                        zero_run < 64,
                        1 <= k < 64,
                        block@.len() == 64,
                        forall|q: int| 1 <= q < 64 ==> -1023 <= #[trigger] block@[q] <= 1023,
                        dct == (if luma {
                            self.luma_dctable@
                        } else {
                            self.chroma_dctable@
                        }),
                        act == (if luma {
                            self.luma_actable@
                        } else {
                            self.chroma_actable@
                        }),
                        block@[UNZIGZAG@[k as int] as int] != 0,
                        spec_put_ac(self.bit_state(), block@, act, k as int, zero_run as int)
                            == spec_put_block(st0, block@, dct, act),
                        self.tables@ == old(self).tables@,
                        self.luma_dctable@ == old(self).luma_dctable@,
                        self.luma_actable@ == old(self).luma_actable@,
                        self.chroma_dctable@ == old(self).chroma_dctable@,
                        self.chroma_actable@ == old(self).chroma_actable@,
                        self.width == old(self).width,
                        self.height == old(self).height,
                        self.timestamp == old(self).timestamp,
                    decreases zero_run,
                {
                    let ghost st_before = self.bit_state();
                    let ghost run_before = zero_run as int;
                    self.huffman_encode(0xF0, false, luma);
                    zero_run -= 16;
                    proof {
                        assert(spec_put_zrl(st_before, act, run_before) == spec_put_zrl(
                            self.bit_state(),
                            act,
                            zero_run as int,
                        ));
                        assert(spec_zrl_rem(run_before) == spec_zrl_rem(zero_run as int));
                        assert(spec_put_ac(self.bit_state(), block@, act, k as int,
                            zero_run as int) == spec_put_ac(st_before, block@, act, k as int,
                            run_before));
                    }
                }
                let ghost st_mid = self.bit_state();
                let (size, value) = encode_coefficient(c);
                proof {
                    lemma2_to64();
                    lemma_bitlen_bounds(spec_abs(c as int));
                    lemma_bitlen_le(spec_abs(c as int), 10);
                    assert(size >= 1);
                }
                let symbol = (zero_run << 4) | size;
                proof {
                    assert(symbol == zero_run * 16 + size && symbol as int % 16 == size)
                        by (bit_vector)
                        requires
                            symbol == (zero_run << 4) | size,
                            zero_run <= 15,
                            1 <= size <= 10,
                    ;
                    assert(spec_ac_symbol(symbol as int));
                }
                self.huffman_encode(symbol, false, luma);
                self.write_bits(value, size);
                proof {
                    assert(spec_put_zrl(st_mid, act, zero_run as int) == st_mid);
                    assert(spec_zrl_rem(zero_run as int) == zero_run as int);
                    assert(spec_put_ac(st_mid, block@, act, k as int, zero_run as int) == (
                    if k == 63 {
                        self.bit_state()
                    } else {
                        spec_put_ac(self.bit_state(), block@, act, k + 1, 0)
                    }));
                }
                if k == 63 {
                    break ;
                }
                zero_run = 0;
                k += 1;
            }
        }
    }
}

/// Luma of one RGB pixel, by the standard coefficients in
/// ten-thousandths.
pub open spec fn spec_ycc_y(r: int, g: int, b: int) -> int {
    spec_div_trunc(2990 * r + 5870 * g + 1140 * b, 10000)
}

/// Blue-difference chroma of one RGB pixel.
pub open spec fn spec_ycc_cb(r: int, g: int, b: int) -> int {
    spec_div_trunc(-1687 * r - 3313 * g + 5000 * b, 10000) + 128
}

/// Red-difference chroma of one RGB pixel.
pub open spec fn spec_ycc_cr(r: int, g: int, b: int) -> int {
    spec_div_trunc(5000 * r - 4187 * g - 813 * b, 10000) + 128
}

/// Converts one pixel from RGB to YCbCr by the standard integer
/// coefficients, truncating toward zero.
pub fn rgb_to_ycbcr(r: u8, g: u8, b: u8) -> (ycc: (u8, u8, u8))
    ensures
        ycc.0 as int == spec_ycc_y(r as int, g as int, b as int),
        ycc.1 as int == spec_ycc_cb(r as int, g as int, b as int),
        ycc.2 as int == spec_ycc_cr(r as int, g as int, b as int),
{
    let pr: i64 = r as i64;
    let pg: i64 = g as i64;
    let pb: i64 = b as i64;
    let y = (2990 * pr + 5870 * pg + 1140 * pb) / 10000;
    let tb = 5000 * pb - 1687 * pr - 3313 * pg;
    let cbq = if tb >= 0 {
        tb / 10000
    } else {
        -((-tb) / 10000)
    };
    let cb = cbq + 128;
    let tr = 5000 * pr - 4187 * pg - 813 * pb;
    let crq = if tr >= 0 {
        tr / 10000
    } else {
        -((-tr) / 10000)
    };
    let cr = crq + 128;
    proof {
        assert(0 <= y <= 255 && -128 <= cbq <= 127 && -128 <= crq <= 127) by (nonlinear_arith)
            requires
                0 <= pr <= 255,
                0 <= pg <= 255,
                0 <= pb <= 255,
                y == (2990 * pr + 5870 * pg + 1140 * pb) / 10000,
                cbq == (if tb >= 0 {
                    tb / 10000
                } else {
                    -((-tb) / 10000)
                }),
                crq == (if tr >= 0 {
                    tr / 10000
                } else {
                    -((-tr) / 10000)
                }),
                tb == 5000 * pb - 1687 * pr - 3313 * pg,
                tr == 5000 * pr - 4187 * pg - 813 * pb,
        ;
        assert(tb == -1687 * pr - 3313 * pg + 5000 * pb);
    }
    (y as u8, cb as u8, cr as u8)
}

/// The pixel index of position `(x, y)` in a `w`-wide view.
pub open spec fn spec_px(w: int, x: int, y: int) -> int {
    y * w + x
}

/// The three YCbCr planes of the 8x8 pixel block at `(x0, y0)` of a
/// BGRx capture, in row-major order.
pub open spec fn spec_plane_y(cap: Seq<u8>, w: int, x0: int, y0: int) -> Seq<u8> {
    Seq::new(
        64,
        |k: int|
            (spec_ycc_y(
                cap[4 * spec_px(w, x0 + k % 8, y0 + k / 8) + 2] as int,
                cap[4 * spec_px(w, x0 + k % 8, y0 + k / 8) + 1] as int,
                cap[4 * spec_px(w, x0 + k % 8, y0 + k / 8)] as int,
            )) as u8,
    )
}

pub open spec fn spec_plane_cb(cap: Seq<u8>, w: int, x0: int, y0: int) -> Seq<u8> {
    Seq::new(
        64,
        |k: int|
            (spec_ycc_cb(
                cap[4 * spec_px(w, x0 + k % 8, y0 + k / 8) + 2] as int,
                cap[4 * spec_px(w, x0 + k % 8, y0 + k / 8) + 1] as int,
                cap[4 * spec_px(w, x0 + k % 8, y0 + k / 8)] as int,
            )) as u8,
    )
}

pub open spec fn spec_plane_cr(cap: Seq<u8>, w: int, x0: int, y0: int) -> Seq<u8> {
    Seq::new(
        64,
        |k: int|
            (spec_ycc_cr(
                cap[4 * spec_px(w, x0 + k % 8, y0 + k / 8) + 2] as int,
                cap[4 * spec_px(w, x0 + k % 8, y0 + k / 8) + 1] as int,
                cap[4 * spec_px(w, x0 + k % 8, y0 + k / 8)] as int,
            )) as u8,
    )
}

/// Reads the 8x8 pixel block at `(x0, y0)` of a BGRx capture and
/// converts it to its three YCbCr planes.
pub fn copy_blocks_ycbcr(source: &Vec<u8>, w: usize, size: usize, x0: usize, y0: usize) -> (r: (
    Vec<u8>,
    Vec<u8>,
    Vec<u8>,
))
    requires
        source@.len() == 4 * size,
        x0 + 8 <= w,
        (y0 + 8) * w <= size,
        w >= 1,
    ensures
        r.0@ == spec_plane_y(source@, w as int, x0 as int, y0 as int),
        r.1@ == spec_plane_cb(source@, w as int, x0 as int, y0 as int),
        r.2@ == spec_plane_cr(source@, w as int, x0 as int, y0 as int),
{
    let srclen = source.len();
    let mut yb: Vec<u8> = Vec::new();
    let mut cbb: Vec<u8> = Vec::new();
    let mut crb: Vec<u8> = Vec::new();
    let mut k: usize = 0;
    while k < 64
        invariant
            k <= 64,
            source@.len() == 4 * size,
            srclen == 4 * size,
            x0 + 8 <= w,
            (y0 + 8) * w <= size,
            w >= 1,
            yb@.len() == k,
            cbb@.len() == k,
            crb@.len() == k,
            forall|q: int|
                0 <= q < k ==> #[trigger] yb@[q] == spec_plane_y(
                    source@,
                    w as int,
                    x0 as int,
                    y0 as int,
                )[q],
            forall|q: int|
                0 <= q < k ==> #[trigger] cbb@[q] == spec_plane_cb(
                    source@,
                    w as int,
                    x0 as int,
                    y0 as int,
                )[q],
            forall|q: int|
                0 <= q < k ==> #[trigger] crb@[q] == spec_plane_cr(
                    source@,
                    w as int,
                    x0 as int,
                    y0 as int,
                )[q],
        decreases 64 - k,
    {
        let dy = k / 8;
        let dx = k % 8;
        proof {
            assert((y0 + dy) * (w as int) + (x0 + dx) < size && (y0 + dy) * (w as int) + (x0 + dx)
                >= 0 && y0 + dy <= (y0 + dy) * (w as int)) by (nonlinear_arith)
                requires
                    dx < 8,
                    dy < 8,
                    x0 + 8 <= w,
                    (y0 + 8) * (w as int) <= size,
                    w >= 1,
                    x0 >= 0,
                    y0 >= 0,
                    dx >= 0,
                    dy >= 0,
            ;
        }
        let p = (y0 + dy) * w + (x0 + dx);
        let bb = source[4 * p];
        let gg = source[4 * p + 1];
        let rr = source[4 * p + 2];
        let (yv, cbv, crv) = rgb_to_ycbcr(rr, gg, bb);
        yb.push(yv);
        cbb.push(cbv);
        crb.push(crv);
        k += 1;
    }
    proof {
        assert(yb@ =~= spec_plane_y(source@, w as int, x0 as int, y0 as int));
        assert(cbb@ =~= spec_plane_cb(source@, w as int, x0 as int, y0 as int));
        assert(crb@ =~= spec_plane_cr(source@, w as int, x0 as int, y0 as int));
    }
    (yb, cbb, crb)
}

/// Division rounding to the nearest integer, halves away from zero.
pub open spec fn spec_round_div(a: int, q: int) -> int {
    if a >= 0 {
        (a + q / 2) / q
    } else {
        -((-a + q / 2) / q)
    }
}

/// The quantised transform block of one 8x8 plane: each coefficient
/// divided by eight (truncating), then by its table entry, rounding to
/// nearest.
pub open spec fn spec_quantised(plane: Seq<u8>, qt: Seq<u8>, off: int) -> Seq<i32> {
    Seq::new(
        64,
        |k: int|
            (spec_round_div(spec_div_trunc(spec_fdct_coeff(plane, k), 8), qt[off + k] as int)) as i32,
    )
}

impl Encoder {
    /// Transforms and quantises one 8x8 plane with the selected half
    /// of the quantisation tables.
    fn transform_quantise(&self, plane: &Vec<u8>, luma: bool) -> (r: Vec<i32>)
        requires
            self.wf(),
            plane@.len() == 64,
        ensures
            r@ == spec_quantised(plane@, self.qtables(), if luma { 0int } else { 64int }),
            r@.len() == 64,
            forall|k: int| 0 <= k < 64 ==> -1023 <= #[trigger] r@[k] <= 1023,
    {
        let off: usize = if luma {
            0
        } else {
            64
        };
        let dct = fdct(plane);
        let mut r: Vec<i32> = Vec::new();
        let mut k: usize = 0;
        while k < 64
            invariant
                k <= 64,
                self.wf(),
                plane@.len() == 64,
                off == (if luma { 0int } else { 64int }),
                dct@.len() == 64,
                forall|q: int| 0 <= q < 64 ==> #[trigger] dct@[q] as int == spec_fdct_coeff(plane@, q),
                forall|q: int| 0 <= q < 64 ==> -16384 <= #[trigger] dct@[q] <= 16384,
                r@.len() == k,
                forall|q: int|
                    0 <= q < k ==> #[trigger] r@[q] == spec_quantised(
                        plane@,
                        self.qtables(),
                        off as int,
                    )[q],
                forall|q: int| 0 <= q < k ==> -1023 <= #[trigger] r@[q] <= 1023,
            decreases 64 - k,
        {
            let c = dct[k];
            let t = if c >= 0 {
                c / 8
            } else {
                -((-c) / 8)
            };
            let q = self.tables[off + k] as i32;
            let rounded = if t >= 0 {
                (t + q / 2) / q
            } else {
                -((-t + q / 2) / q)
            };
            proof {
                assert(-2048 <= t <= 2048);
                assert(t >= 0 ==> (t as int + q as int / 2) / (q as int) <= 1023)
                    by (nonlinear_arith)
                    requires
                        0 <= t ==> t <= 2048,
                        q as int >= 8,
                ;
                assert(t < 0 ==> (0 - t as int + q as int / 2) / (q as int) <= 1023)
                    by (nonlinear_arith)
                    requires
                        t < 0 ==> -2048 <= t,
                        q as int >= 8,
                ;
            }
            r.push(rounded);
            proof {
                assert(r@ =~= r@.subrange(0, k as int).push(rounded));
                assert(rounded as int == spec_round_div(
                    spec_div_trunc(spec_fdct_coeff(plane@, k as int), 8),
                    self.tables@[off + k] as int,
                ));
            }
            k += 1;
        }
        proof {
            assert(r@ =~= spec_quantised(plane@, self.qtables(), off as int));
        }
        r
    }
}

/// Appends one quantised-and-coded 8x8 plane of the capture block at
/// `(x0, y0)`, using the luma or chroma tables.
pub open spec fn spec_put_plane(
    st: BitState,
    cap: Seq<u8>,
    w: int,
    x0: int,
    y0: int,
    qt: Seq<u8>,
    dct: Seq<(u8, u16)>,
    act: Seq<(u8, u16)>,
    which: int,
) -> BitState {
    let plane = if which == 0 {
        spec_plane_y(cap, w, x0, y0)
    } else if which == 1 {
        spec_plane_cb(cap, w, x0, y0)
    } else {
        spec_plane_cr(cap, w, x0, y0)
    };
    let quant = spec_quantised(plane, qt, if which == 0 {
        0int
    } else {
        64int
    });
    spec_put_block(st, quant.map_values(|c: i32| c), dct, act)
}

/// Appends the three coded planes of the 8x8 capture block at
/// `(x0, y0)`: luma, then the two chroma planes.
pub open spec fn spec_put_subblock(
    st: BitState,
    cap: Seq<u8>,
    w: int,
    x0: int,
    y0: int,
    qt: Seq<u8>,
    ld: Seq<(u8, u16)>,
    la: Seq<(u8, u16)>,
    cd: Seq<(u8, u16)>,
    ca: Seq<(u8, u16)>,
) -> BitState {
    let st1 = spec_put_plane(st, cap, w, x0, y0, qt, ld, la, 0);
    let st2 = spec_put_plane(st1, cap, w, x0, y0, qt, cd, ca, 1);
    spec_put_plane(st2, cap, w, x0, y0, qt, cd, ca, 2)
}

/// The entire payload of one macroblock: its 10-bit id, the coded
/// planes of its four 8x8 subblocks in raster order, and the final
/// byte flush.  The payload depends on the capture pixels and the
/// coding tables alone.
pub open spec fn spec_macroblock_payload(
    cap: Seq<u8>,
    w: int,
    blk: int,
    x0: int,
    y0: int,
    qt: Seq<u8>,
    ld: Seq<(u8, u16)>,
    la: Seq<(u8, u16)>,
    cd: Seq<(u8, u16)>,
    ca: Seq<(u8, u16)>,
) -> Seq<u8> {
    let st0: BitState = (Seq::empty(), 0int, 0int);
    let st1 = spec_put_bits(st0, blk, 10);
    let st2 = spec_put_subblock(st1, cap, w, x0, y0, qt, ld, la, cd, ca);
    let st3 = spec_put_subblock(st2, cap, w, x0 + 8, y0, qt, ld, la, cd, ca);
    let st4 = spec_put_subblock(st3, cap, w, x0, y0 + 8, qt, ld, la, cd, ca);
    let st5 = spec_put_subblock(st4, cap, w, x0 + 8, y0 + 8, qt, ld, la, cd, ca);
    spec_flush(st5)
}

impl Encoder {
    /// Appends the three coded planes of one 8x8 capture block.
    fn encode_subblock(&mut self, capture: &Vec<u8>, size: usize, x: usize, y: usize)
        requires
            old(self).wf(),
            capture@.len() == 4 * size,
            x + 8 <= old(self).width(),
            (y + 8) * old(self).width() <= size,
        ensures
            final(self).wf(),
            final(self).bit_state() == spec_put_subblock(
                old(self).bit_state(),
                capture@,
                old(self).width(),
                x as int,
                y as int,
                old(self).qtables(),
                old(self).luma_dc(),
                old(self).luma_ac(),
                old(self).chroma_dc(),
                old(self).chroma_ac(),
            ),
            final(self).qtables() == old(self).qtables(),
            final(self).luma_dc() == old(self).luma_dc(),
            final(self).luma_ac() == old(self).luma_ac(),
            final(self).chroma_dc() == old(self).chroma_dc(),
            final(self).chroma_ac() == old(self).chroma_ac(),
            final(self).width() == old(self).width(),
            final(self).height() == old(self).height(),
            final(self).timestamp() == old(self).timestamp(),
    {
        let w = self.width;
        let (yb, cbb, crb) = copy_blocks_ycbcr(capture, w, size, x, y);
        let qy = self.transform_quantise(&yb, true);
        let qcb = self.transform_quantise(&cbb, false);
        let qcr = self.transform_quantise(&crb, false);
        proof {
            assert(qy@.map_values(|c: i32| c) =~= qy@);
            assert(qcb@.map_values(|c: i32| c) =~= qcb@);
            assert(qcr@.map_values(|c: i32| c) =~= qcr@);
        }
        self.write_block(&qy, true);
        self.write_block(&qcb, false);
        self.write_block(&qcr, false);
    }
}

/// Whether a message is the macroblock message of frame `ts` with the
/// given payload.
pub open spec fn spec_mb_msg(m: SenderMessage, ts: u32, payload: Seq<u8>) -> bool {
    m matches SenderMessage::Macroblock(t, p) && t == ts && p@ == payload
}

/// Whether the standard coding tables build into usable lookup
/// tables: every code fits sixteen bits and the symbols the encoder
/// emits are all present.
pub open spec fn spec_std_tables_usable() -> bool {
    &&& crate::entropy::spec_codes_fit(
        crate::entropy::spec_huffman_sizes(STD_LUMA_DC_CODE_LENGTHS@),
    )
    &&& crate::entropy::spec_codes_fit(
        crate::entropy::spec_huffman_sizes(STD_LUMA_AC_CODE_LENGTHS@),
    )
    &&& crate::entropy::spec_codes_fit(
        crate::entropy::spec_huffman_sizes(STD_CHROMA_DC_CODE_LENGTHS@),
    )
    &&& crate::entropy::spec_codes_fit(
        crate::entropy::spec_huffman_sizes(STD_CHROMA_AC_CODE_LENGTHS@),
    )
    &&& spec_dc_table_ok(spec_std_lut(STD_LUMA_DC_CODE_LENGTHS@, STD_LUMA_DC_VALUES@))
    &&& spec_ac_table_ok(spec_std_lut(STD_LUMA_AC_CODE_LENGTHS@, STD_LUMA_AC_VALUES@))
    &&& spec_dc_table_ok(spec_std_lut(STD_CHROMA_DC_CODE_LENGTHS@, STD_CHROMA_DC_VALUES@))
    &&& spec_ac_table_ok(spec_std_lut(STD_CHROMA_AC_CODE_LENGTHS@, STD_CHROMA_AC_VALUES@))
}

/// The lookup table a standard table description builds.
pub open spec fn spec_std_lut(bits: Seq<u8>, vals: Seq<u8>) -> Seq<(u8, u16)> {
    crate::entropy::spec_lut_upto(
        crate::entropy::spec_huffman_sizes(bits),
        vals,
        vals.len() as int,
    )
}

/// Checks that a DC lookup table covers the encoder's DC symbols.
fn check_dc_table(t: &Vec<(u8, u16)>) -> (ok: bool)
    ensures
        ok == spec_dc_table_ok(t@),
{
    if t.len() != 256 {
        return false;
    }
    let mut v: usize = 0;
    let mut good = true;
    while v < 12
        invariant
            v <= 12,
            t@.len() == 256,
            good == (forall|q: int|
                0 <= q < v ==> (#[trigger] t@[q]).0 <= 16 && (t@[q].1 as int) < pow2(
                    t@[q].0 as nat,
                )),
        decreases 12 - v,
    {
        let (size, code) = t[v];
        let entry_ok = if size <= 16 {
            proof {
                lemma2_to64();
                if (size as nat) < 16 {
                    lemma_pow2_strictly_increases(size as nat, 16);
                }
                vstd::bits::lemma_u32_shl_is_mul(1u32, size as u32);
            }
            (code as u32) < (1u32 << (size as u32))
        } else {
            false
        };
        good = good && entry_ok;
        proof {
            if good {
                assert forall|q: int|
                    0 <= q < v + 1 implies (#[trigger] t@[q]).0 <= 16 && (t@[q].1 as int) < pow2(
                    t@[q].0 as nat,
                ) by {
                }
            }
        }
        v += 1;
    }
    good
}

/// Checks that an AC lookup table covers the encoder's AC symbols.
fn check_ac_table(t: &Vec<(u8, u16)>) -> (ok: bool)
    ensures
        ok == spec_ac_table_ok(t@),
{
    if t.len() != 256 {
        return false;
    }
    let mut v: usize = 0;
    let mut good = true;
    while v < 256
        invariant
            v <= 256,
            t@.len() == 256,
            good == (forall|q: int|
                0 <= q < v && spec_ac_symbol(q) ==> (#[trigger] t@[q]).0 <= 16 && (t@[q].1 as int)
                    < pow2(t@[q].0 as nat)),
        decreases 256 - v,
    {
        let relevant = v == 0 || v == 0xF0 || (v % 16 >= 1 && v % 16 <= 10);
        let entry_ok = if !relevant {
            true
        } else {
            let (size, code) = t[v];
            if size <= 16 {
                proof {
                    lemma2_to64();
                    if (size as nat) < 16 {
                        lemma_pow2_strictly_increases(size as nat, 16);
                    }
                    vstd::bits::lemma_u32_shl_is_mul(1u32, size as u32);
                }
                (code as u32) < (1u32 << (size as u32))
            } else {
                false
            }
        };
        good = good && entry_ok;
        proof {
            if good {
                assert forall|q: int|
                    0 <= q < v + 1 && spec_ac_symbol(q) implies (#[trigger] t@[q]).0 <= 16 && (
                t@[q].1 as int) < pow2(t@[q].0 as nat) by {
                }
            }
        }
        v += 1;
    }
    good
}

impl Encoder {
    /// Builds an encoder for a view of the given geometry from the
    /// standard coding tables; `None` when the tables do not build
    /// into usable lookup tables.
    pub fn new(width: usize, height: usize) -> (r: Option<Encoder>)
        requires
            16 <= width <= 4096,
            16 <= height <= 4096,
            width % 16 == 0,
            height % 16 == 0,
        ensures
            r is Some <==> spec_std_tables_usable(),
            match r {
                Some(e) => {
                    &&& e.wf()
                    &&& e.width() == width
                    &&& e.height() == height
                    &&& e.timestamp() == 0
                    &&& e.bit_state() == (Seq::<u8>::empty(), 0int, 0int)
                    &&& e.qtables() == STD_LUMA_QTABLE@ + STD_CHROMA_QTABLE@
                    &&& e.luma_dc() == spec_std_lut(STD_LUMA_DC_CODE_LENGTHS@, STD_LUMA_DC_VALUES@)
                    &&& e.luma_ac() == spec_std_lut(STD_LUMA_AC_CODE_LENGTHS@, STD_LUMA_AC_VALUES@)
                    &&& e.chroma_dc() == spec_std_lut(
                        STD_CHROMA_DC_CODE_LENGTHS@,
                        STD_CHROMA_DC_VALUES@,
                    )
                    &&& e.chroma_ac() == spec_std_lut(
                        STD_CHROMA_AC_CODE_LENGTHS@,
                        STD_CHROMA_AC_VALUES@,
                    )
                },
                None => true,
            },
    {
        proof {
            lemma_std_sizes_len();
        }
        let ld = build_huff_lut(STD_LUMA_DC_CODE_LENGTHS.as_slice(), STD_LUMA_DC_VALUES.as_slice());
        let la = build_huff_lut(STD_LUMA_AC_CODE_LENGTHS.as_slice(), STD_LUMA_AC_VALUES.as_slice());
        let cd = build_huff_lut(
            STD_CHROMA_DC_CODE_LENGTHS.as_slice(),
            STD_CHROMA_DC_VALUES.as_slice(),
        );
        let ca = build_huff_lut(
            STD_CHROMA_AC_CODE_LENGTHS.as_slice(),
            STD_CHROMA_AC_VALUES.as_slice(),
        );
        match (ld, la, cd, ca) {
            (Some(ld), Some(la), Some(cd), Some(ca)) => {
                if !check_dc_table(&ld) || !check_ac_table(&la) || !check_dc_table(&cd)
                    || !check_ac_table(&ca) {
                    return None;
                }
                let mut tables: Vec<u8> = Vec::new();
                let mut k: usize = 0;
                while k < 64
                    invariant
                        k <= 64,
                        tables@ == STD_LUMA_QTABLE@.take(k as int),
                    decreases 64 - k,
                {
                    tables.push(STD_LUMA_QTABLE[k]);
                    proof {
                        assert(tables@ =~= STD_LUMA_QTABLE@.take(k + 1));
                    }
                    k += 1;
                }
                let mut k2: usize = 0;
                while k2 < 64
                    invariant
                        k2 <= 64,
                        tables@ == STD_LUMA_QTABLE@.take(64) + STD_CHROMA_QTABLE@.take(k2 as int),
                    decreases 64 - k2,
                {
                    tables.push(STD_CHROMA_QTABLE[k2]);
                    proof {
                        assert(tables@ =~= STD_LUMA_QTABLE@.take(64) + STD_CHROMA_QTABLE@.take(
                            k2 + 1,
                        ));
                    }
                    k2 += 1;
                }
                proof {
                    assert(tables@ =~= STD_LUMA_QTABLE@ + STD_CHROMA_QTABLE@);
                    assert(forall|q: int| 0 <= q < 128 ==> (#[trigger] tables@[q]) >= 8);
                }
                Some(
                    Encoder {
                        tables,
                        luma_dctable: ld,
                        luma_actable: la,
                        chroma_dctable: cd,
                        chroma_actable: ca,
                        width,
                        height,
                        accumulator: 0,
                        nbits: 0,
                        buffer: Vec::new(),
                        timestamp: 0,
                    },
                )
            },
            _ => None,
        }
    }
}

/// The standard table descriptions are within the lengths the lookup
/// construction accepts.
proof fn lemma_std_sizes_len()
    ensures
        crate::entropy::spec_huffman_sizes(STD_LUMA_DC_CODE_LENGTHS@).len() == 12,
        crate::entropy::spec_huffman_sizes(STD_LUMA_AC_CODE_LENGTHS@).len() == 162,
        crate::entropy::spec_huffman_sizes(STD_CHROMA_DC_CODE_LENGTHS@).len() == 12,
        crate::entropy::spec_huffman_sizes(STD_CHROMA_AC_CODE_LENGTHS@).len() == 162,
{
    reveal_with_fuel(crate::entropy::spec_huffman_sizes_upto, 18);
}

impl Encoder {
    /// Encodes one macroblock of the capture into its self-delimiting
    /// payload, leaving the bit stream empty again.
    #[verifier::rlimit(40)]
    fn encode_macroblock(&mut self, capture: &Vec<u8>, size: usize, blk: u16, x0: usize, y0: usize) -> (payload: Vec<u8>)
        requires
            old(self).wf(),
            old(self).bit_state() == (Seq::<u8>::empty(), 0int, 0int),
            capture@.len() == 4 * size,
            blk < 1024,
            x0 + 16 <= old(self).width(),
            (y0 + 16) * old(self).width() <= size,
        ensures
            final(self).wf(),
            final(self).bit_state() == (Seq::<u8>::empty(), 0int, 0int),
            payload@ == spec_macroblock_payload(
                capture@,
                old(self).width(),
                blk as int,
                x0 as int,
                y0 as int,
                old(self).qtables(),
                old(self).luma_dc(),
                old(self).luma_ac(),
                old(self).chroma_dc(),
                old(self).chroma_ac(),
            ),
            final(self).qtables() == old(self).qtables(),
            final(self).luma_dc() == old(self).luma_dc(),
            final(self).luma_ac() == old(self).luma_ac(),
            final(self).chroma_dc() == old(self).chroma_dc(),
            final(self).chroma_ac() == old(self).chroma_ac(),
            final(self).width() == old(self).width(),
            final(self).height() == old(self).height(),
            final(self).timestamp() == old(self).timestamp(),
    {
        proof {
            lemma2_to64();
            let wd = old(self).width();
            assert((y0 + 8) * wd <= (y0 + 16) * wd && y0 + 16 <= (y0 + 16) * wd)
                by (nonlinear_arith)
                requires
                    wd >= 1,
                    y0 >= 0,
            ;
        }
        self.write_bits(blk, 10);
        self.encode_subblock(capture, size, x0, y0);
        self.encode_subblock(capture, size, x0 + 8, y0);
        self.encode_subblock(capture, size, x0, y0 + 8);
        self.encode_subblock(capture, size, x0 + 8, y0 + 8);
        self.write_final_bits();
        let mut payload: Vec<u8> = Vec::new();
        core::mem::swap(&mut payload, &mut self.buffer);
        proof {
            assert(self.buffer@ =~= Seq::<u8>::empty());
        }
        payload
    }

    /// Encodes one incremental frame: advances the frame timestamp,
    /// encodes the blocks of the nonzero-score prefix of the sorted
    /// error vector in order, and ends with the end-of-data marker.  A
    /// frame with no changed blocks yields the marker alone.
    #[verifier::rlimit(40)]
    pub fn update_encode_rgb(&mut self, capture: &Vec<u8>, errors: &Vec<(i64, usize)>) -> (msgs:
        Vec<SenderMessage>)
        requires
            old(self).wf(),
            old(self).bit_state() == (Seq::<u8>::empty(), 0int, 0int),
            capture@.len() == 4 * old(self).width() * old(self).height(),
            old(self).timestamp() < u32::MAX,
            forall|i: int|
                0 <= i < errors@.len() ==> (#[trigger] errors@[i]).1 < 1024 && (errors@[i].1 as int)
                    < (old(self).width() / 16) * (old(self).height() / 16),
        ensures
            final(self).wf(),
            final(self).bit_state() == (Seq::<u8>::empty(), 0int, 0int),
            final(self).timestamp() == old(self).timestamp() + 1,
            final(self).qtables() == old(self).qtables(),
            final(self).luma_dc() == old(self).luma_dc(),
            final(self).luma_ac() == old(self).luma_ac(),
            final(self).chroma_dc() == old(self).chroma_dc(),
            final(self).chroma_ac() == old(self).chroma_ac(),
            final(self).width() == old(self).width(),
            final(self).height() == old(self).height(),
            msgs@.len() == crate::context::spec_cutoff(errors@) + 1,
            forall|i: int|
                0 <= i < crate::context::spec_cutoff(errors@) ==> spec_mb_msg(
                    #[trigger] msgs@[i],
                    (old(self).timestamp() + 1) as u32,
                    spec_macroblock_payload(
                        capture@,
                        old(self).width(),
                        errors@[i].1 as int,
                        16 * ((errors@[i].1 as int) % (old(self).width() / 16)),
                        16 * ((errors@[i].1 as int) / (old(self).width() / 16)),
                        old(self).qtables(),
                        old(self).luma_dc(),
                        old(self).luma_ac(),
                        old(self).chroma_dc(),
                        old(self).chroma_ac(),
                    ),
                ),
            msgs@[msgs@.len() - 1] == SenderMessage::EndOfData((old(self).timestamp() + 1) as u32),
    {
        let ghost e0 = *self;
        self.timestamp = self.timestamp + 1;
        let ts = self.timestamp;
        let n = errors.len();
        let mut cut: usize = 0;
        while cut < n && errors[cut].0 != 0
            invariant
                cut <= n,
                n == errors@.len(),
                forall|k: int| 0 <= k < cut ==> (#[trigger] errors@[k]).0 != 0,
            decreases n - cut,
        {
            cut += 1;
        }
        proof {
            crate::context::lemma_cutoff_is_first_zero(errors@, cut as int);
            assert(self.width * self.height <= 4096 * 4096) by (nonlinear_arith)
                requires
                    self.width <= 4096,
                    self.height <= 4096,
                    self.width >= 0,
                    self.height >= 0,
            ;
            vstd::arithmetic::mul::lemma_mul_is_associative(
                4,
                self.width as int,
                self.height as int,
            );
        }
        let size = self.width * self.height;
        let mbx = self.width / 16;
        let mut msgs: Vec<SenderMessage> = Vec::new();
        let mut i: usize = 0;
        while i < cut
            invariant
                i <= cut,
                cut <= n,
                n == errors@.len(),
                cut == crate::context::spec_cutoff(errors@),
                self.wf(),
                self.bit_state() == (Seq::<u8>::empty(), 0int, 0int),
                size == self.width * self.height,
                mbx == self.width as int / 16,
                capture@.len() == 4 * size,
                ts == self.timestamp,
                self.timestamp == old(self).timestamp + 1,
                self.tables@ == old(self).tables@,
                self.luma_dctable@ == old(self).luma_dctable@,
                self.luma_actable@ == old(self).luma_actable@,
                self.chroma_dctable@ == old(self).chroma_dctable@,
                self.chroma_actable@ == old(self).chroma_actable@,
                self.width == old(self).width,
                self.height == old(self).height,
                forall|k: int|
                    0 <= k < errors@.len() ==> (#[trigger] errors@[k]).1 < 1024 && (
                    errors@[k].1 as int) < (self.width as int / 16) * (self.height as int / 16),
                msgs@.len() == i,
                forall|k: int|
                    0 <= k < i ==> spec_mb_msg(
                        #[trigger] msgs@[k],
                        ts,
                        spec_macroblock_payload(
                            capture@,
                            self.width as int,
                            errors@[k].1 as int,
                            16 * ((errors@[k].1 as int) % (mbx as int)),
                            16 * ((errors@[k].1 as int) / (mbx as int)),
                            self.tables@,
                            self.luma_dctable@,
                            self.luma_actable@,
                            self.chroma_dctable@,
                            self.chroma_actable@,
                        ),
                    ),
            decreases cut - i,
        {
            let blk = errors[i].1;
            let bx = blk % mbx;
            let by = blk / mbx;
            let x0 = 16 * bx;
            let y0 = 16 * by;
            proof {
                let mby = self.height as int / 16;
                assert(by < mby && bx < mbx) by (nonlinear_arith)
                    requires
                        (blk as int) < mbx * mby,
                        mbx >= 1,
                        mby >= 1,
                        by == blk as int / (mbx as int),
                        bx == blk as int % (mbx as int),
                ;
                assert(x0 + 16 <= self.width as int && (y0 + 16) * (self.width as int) <= size)
                    by (nonlinear_arith)
                    requires
                        bx <= mbx - 1,
                        by <= mby - 1,
                        x0 == 16 * bx,
                        y0 == 16 * by,
                        mbx == self.width as int / 16,
                        mby == self.height as int / 16,
                        self.width as int % 16 == 0,
                        self.height as int % 16 == 0,
                        size == (self.width as int) * (self.height as int),
                ;
            }
            let payload = self.encode_macroblock(capture, size, blk as u16, x0, y0);
            msgs.push(SenderMessage::Macroblock(ts, payload));
            i += 1;
        }
        msgs.push(SenderMessage::EndOfData(ts));
        msgs
    }

    /// Encodes one full initial frame: every macroblock of the view in
    /// raster order, then the end-of-data marker.  The frame timestamp
    /// is left unchanged.
    #[verifier::rlimit(40)]
    pub fn initial_encode_rgb(&mut self, capture: &Vec<u8>) -> (msgs: Vec<SenderMessage>)
        requires
            old(self).wf(),
            old(self).bit_state() == (Seq::<u8>::empty(), 0int, 0int),
            capture@.len() == 4 * old(self).width() * old(self).height(),
            (old(self).width() / 16) * (old(self).height() / 16) <= 1024,
        ensures
            final(self).wf(),
            final(self).bit_state() == (Seq::<u8>::empty(), 0int, 0int),
            final(self).timestamp() == old(self).timestamp(),
            final(self).qtables() == old(self).qtables(),
            final(self).luma_dc() == old(self).luma_dc(),
            final(self).luma_ac() == old(self).luma_ac(),
            final(self).chroma_dc() == old(self).chroma_dc(),
            final(self).chroma_ac() == old(self).chroma_ac(),
            final(self).width() == old(self).width(),
            final(self).height() == old(self).height(),
            msgs@.len() == (old(self).width() / 16) * (old(self).height() / 16) + 1,
            forall|i: int|
                0 <= i < (old(self).width() / 16) * (old(self).height() / 16) ==> spec_mb_msg(
                    #[trigger] msgs@[i],
                    old(self).timestamp(),
                    spec_macroblock_payload(
                        capture@,
                        old(self).width(),
                        i,
                        16 * (i % (old(self).width() / 16)),
                        16 * (i / (old(self).width() / 16)),
                        old(self).qtables(),
                        old(self).luma_dc(),
                        old(self).luma_ac(),
                        old(self).chroma_dc(),
                        old(self).chroma_ac(),
                    ),
                ),
            msgs@[msgs@.len() - 1] == SenderMessage::EndOfData(old(self).timestamp()),
    {
        let ts = self.timestamp;
        proof {
            assert(self.width * self.height <= 4096 * 4096) by (nonlinear_arith)
                requires
                    self.width <= 4096,
                    self.height <= 4096,
                    self.width >= 0,
                    self.height >= 0,
            ;
            assert((self.width as int / 16) * (self.height as int / 16) >= 1 && (self.width as int
                / 16) * (self.height as int / 16) <= 256 * 256) by (nonlinear_arith)
                requires
                    1 <= self.width as int / 16 <= 256,
                    1 <= self.height as int / 16 <= 256,
            ;
            vstd::arithmetic::mul::lemma_mul_is_associative(
                4,
                self.width as int,
                self.height as int,
            );
        }
        let size = self.width * self.height;
        let mbx = self.width / 16;
        let mby = self.height / 16;
        let n_blocks = mbx * mby;
        let mut msgs: Vec<SenderMessage> = Vec::new();
        let mut bl: usize = 0;
        while bl < n_blocks
            invariant
                bl <= n_blocks,
                n_blocks == mbx * mby,
                mbx == self.width as int / 16,
                mby == self.height as int / 16,
                n_blocks <= 1024,
                self.wf(),
                self.bit_state() == (Seq::<u8>::empty(), 0int, 0int),
                size == self.width * self.height,
                capture@.len() == 4 * size,
                ts == self.timestamp,
                self.timestamp == old(self).timestamp,
                self.tables@ == old(self).tables@,
                self.luma_dctable@ == old(self).luma_dctable@,
                self.luma_actable@ == old(self).luma_actable@,
                self.chroma_dctable@ == old(self).chroma_dctable@,
                self.chroma_actable@ == old(self).chroma_actable@,
                self.width == old(self).width,
                self.height == old(self).height,
                msgs@.len() == bl,
                forall|k: int|
                    0 <= k < bl ==> spec_mb_msg(
                        #[trigger] msgs@[k],
                        ts,
                        spec_macroblock_payload(
                            capture@,
                            self.width as int,
                            k,
                            16 * (k % (mbx as int)),
                            16 * (k / (mbx as int)),
                            self.tables@,
                            self.luma_dctable@,
                            self.luma_actable@,
                            self.chroma_dctable@,
                            self.chroma_actable@,
                        ),
                    ),
            decreases n_blocks - bl,
        {
            let bx = bl % mbx;
            let by = bl / mbx;
            let x0 = 16 * bx;
            let y0 = 16 * by;
            proof {
                assert(by < mby && bx < mbx) by (nonlinear_arith)
                    requires
                        (bl as int) < mbx * mby,
                        mbx >= 1,
                        mby >= 1,
                        by == bl as int / (mbx as int),
                        bx == bl as int % (mbx as int),
                ;
                assert(x0 + 16 <= self.width as int && (y0 + 16) * (self.width as int) <= size)
                    by (nonlinear_arith)
                    requires
                        bx <= mbx - 1,
                        by <= mby - 1,
                        x0 == 16 * bx,
                        y0 == 16 * by,
                        mbx == self.width as int / 16,
                        mby == self.height as int / 16,
                        self.width as int % 16 == 0,
                        self.height as int % 16 == 0,
                        size == (self.width as int) * (self.height as int),
                ;
            }
            let payload = self.encode_macroblock(capture, size, bl as u16, x0, y0);
            msgs.push(SenderMessage::Macroblock(ts, payload));
            bl += 1;
        }
        msgs.push(SenderMessage::EndOfData(ts));
        msgs
    }
}

/// Replaying a frame is deterministic: a macroblock payload is a
/// function of the capture bytes, the geometry and the coding tables
/// alone — in particular it does not depend on the encoder's frame
/// timestamp, so encoding the same capture twice yields identical
/// payloads.
pub proof fn lemma_replay_deterministic(
    cap1: Seq<u8>,
    cap2: Seq<u8>,
    w: int,
    blk: int,
    x0: int,
    y0: int,
    qt: Seq<u8>,
    ld: Seq<(u8, u16)>,
    la: Seq<(u8, u16)>,
    cd: Seq<(u8, u16)>,
    ca: Seq<(u8, u16)>,
)
    requires
        cap1 == cap2,
    ensures
        spec_macroblock_payload(cap1, w, blk, x0, y0, qt, ld, la, cd, ca)
            == spec_macroblock_payload(cap2, w, blk, x0, y0, qt, ld, la, cd, ca),
{
}

impl Encoder {
    /// The encoder's current frame timestamp.
    pub fn get_timestamp(&self) -> (r: u32)
        ensures
            r == self.timestamp(),
    {
        self.timestamp
    }
}
} // verus!

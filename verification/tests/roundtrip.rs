//! End-to-end codec round trip: a macroblock encoded by the library
//! is decoded here by a straightforward reference decoder, and the
//! reconstruction error stays within what the quantisation tables
//! allow.

use remotedesk::decoder::decode_value;
use remotedesk::encoder::rgb_to_ycbcr;
use remotedesk::encoder::Encoder;
use remotedesk::entropy::build_huff_lut;
use remotedesk::protocol::SenderMessage;
use remotedesk::tables::{
    STD_CHROMA_AC_CODE_LENGTHS, STD_CHROMA_AC_VALUES, STD_CHROMA_DC_CODE_LENGTHS,
    STD_CHROMA_DC_VALUES, STD_CHROMA_QTABLE, STD_LUMA_AC_CODE_LENGTHS, STD_LUMA_AC_VALUES,
    STD_LUMA_DC_CODE_LENGTHS, STD_LUMA_DC_VALUES, STD_LUMA_QTABLE, UNZIGZAG,
};

struct BitReader {
    data: Vec<u8>,
    pos: usize,
}

impl BitReader {
    fn read_bit(&mut self) -> u32 {
        let byte = self.data[self.pos / 8];
        let bit = (byte >> (7 - self.pos % 8)) & 1;
        self.pos += 1;
        bit as u32
    }

    fn read_bits(&mut self, n: u8) -> u32 {
        let mut v = 0u32;
        for _ in 0..n {
            v = (v << 1) | self.read_bit();
        }
        v
    }
}

/// Walks the canonical code table bit by bit until a code matches.
fn decode_symbol(reader: &mut BitReader, lut: &Vec<(u8, u16)>) -> u8 {
    let mut code = 0u16;
    let mut len = 0u8;
    loop {
        code = (code << 1) | reader.read_bit() as u16;
        len += 1;
        assert!(len <= 16, "invalid code in the bitstream");
        for v in 0..256usize {
            if lut[v].0 == len && lut[v].1 == code {
                return v as u8;
            }
        }
    }
}

/// Decodes one 8x8 coefficient block: DC, then the AC run-length
/// symbols in zigzag order.
fn decode_block(reader: &mut BitReader, dc: &Vec<(u8, u16)>, ac: &Vec<(u8, u16)>) -> [i32; 64] {
    let mut out = [0i32; 64];
    let dc_size = decode_symbol(reader, dc);
    if dc_size > 0 {
        let bits = reader.read_bits(dc_size);
        out[0] = decode_value(dc_size, bits);
    }
    let mut k = 1usize;
    while k < 64 {
        let sym = decode_symbol(reader, ac);
        if sym == 0x00 {
            break;
        }
        if sym == 0xF0 {
            k += 16;
            continue;
        }
        let run = (sym >> 4) as usize;
        let size = sym & 0x0F;
        k += run;
        let bits = reader.read_bits(size);
        out[UNZIGZAG[k] as usize] = decode_value(size, bits);
        if k == 63 {
            break;
        }
        k += 1;
    }
    out
}

/// Dequantises and inverts the transform in floating point; tests may
/// use floats freely.
fn idct_plane(coeffs: &[i32; 64], qtable: &[u8; 64]) -> [f64; 64] {
    let mut plane = [0f64; 64];
    for y in 0..8 {
        for x in 0..8 {
            let mut acc = 0f64;
            for v in 0..8 {
                for u in 0..8 {
                    let cu = if u == 0 { 1.0 / f64::sqrt(2.0) } else { 1.0 };
                    let cv = if v == 0 { 1.0 / f64::sqrt(2.0) } else { 1.0 };
                    let f = (coeffs[v * 8 + u] * qtable[v * 8 + u] as i32) as f64;
                    acc += cu
                        * cv
                        * f
                        * f64::cos((2.0 * x as f64 + 1.0) * u as f64 * std::f64::consts::PI / 16.0)
                        * f64::cos((2.0 * y as f64 + 1.0) * v as f64 * std::f64::consts::PI / 16.0);
                }
            }
            plane[y * 8 + x] = acc / 4.0 + 128.0;
        }
    }
    plane
}

#[test]
fn encoded_macroblock_decodes_within_quantisation_error() {
    // A gently varying 16x16 view: one macroblock.
    let w = 16usize;
    let h = 16usize;
    let mut capture = vec![0u8; w * h * 4];
    for y in 0..h {
        for x in 0..w {
            let p = (y * w + x) * 4;
            capture[p] = (90 + y) as u8; // blue
            capture[p + 1] = 120; // green
            capture[p + 2] = (100 + 2 * x) as u8; // red
        }
    }
    let mut enc = Encoder::new(w, h).expect("standard tables build");
    let errors: Vec<(i64, usize)> = vec![(1, 0)];
    let msgs = enc.update_encode_rgb(&capture, &errors);
    let payload = match &msgs[0] {
        SenderMessage::Macroblock(_, p) => p.clone(),
        other => panic!("expected a macroblock, got {:?}", other),
    };

    let ld = build_huff_lut(&STD_LUMA_DC_CODE_LENGTHS, &STD_LUMA_DC_VALUES).unwrap();
    let la = build_huff_lut(&STD_LUMA_AC_CODE_LENGTHS, &STD_LUMA_AC_VALUES).unwrap();
    let cd = build_huff_lut(&STD_CHROMA_DC_CODE_LENGTHS, &STD_CHROMA_DC_VALUES).unwrap();
    let ca = build_huff_lut(&STD_CHROMA_AC_CODE_LENGTHS, &STD_CHROMA_AC_VALUES).unwrap();

    let mut reader = BitReader { data: payload, pos: 0 };
    let block_id = reader.read_bits(10);
    assert_eq!(block_id, 0);

    // The four 8x8 subblocks in raster order, Y then Cb then Cr each.
    let mut sq_err = [0f64; 3];
    let mut max_err = 0f64;
    for sub in 0..4usize {
        let x0 = (sub % 2) * 8;
        let y0 = (sub / 2) * 8;
        let yc = decode_block(&mut reader, &ld, &la);
        let cbc = decode_block(&mut reader, &cd, &ca);
        let crc = decode_block(&mut reader, &cd, &ca);
        let yp = idct_plane(&yc, &STD_LUMA_QTABLE);
        let cbp = idct_plane(&cbc, &STD_CHROMA_QTABLE);
        let crp = idct_plane(&crc, &STD_CHROMA_QTABLE);
        for dy in 0..8 {
            for dx in 0..8 {
                let px = (y0 + dy) * w + (x0 + dx);
                let b = capture[px * 4];
                let g = capture[px * 4 + 1];
                let r = capture[px * 4 + 2];
                let (ey, ecb, ecr) = rgb_to_ycbcr(r, g, b);
                let k = dy * 8 + dx;
                let dyv = yp[k] - ey as f64;
                let dcb = cbp[k] - ecb as f64;
                let dcr = crp[k] - ecr as f64;
                sq_err[0] += dyv * dyv;
                sq_err[1] += dcb * dcb;
                sq_err[2] += dcr * dcr;
                max_err = max_err.max(dyv.abs()).max(dcb.abs()).max(dcr.abs());
            }
        }
    }
    // Per-channel root-mean-square error over the macroblock stays
    // within the quantisation tables' coarseness for smooth content.
    for channel in 0..3 {
        let rms = (sq_err[channel] / 256.0).sqrt();
        assert!(
            rms <= 8.0,
            "channel {} reconstruction error too large: rms {}",
            channel,
            rms
        );
    }
    assert!(max_err <= 50.0, "worst-case pixel error too large: {}", max_err);
}

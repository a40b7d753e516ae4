//! Tests of the block codec: pixel indexing, coefficient coding, the
//! transform, and whole-frame encoding.

use remotedesk::decoder::decode_value;
use remotedesk::decoder::get_index;
use remotedesk::encoder::encode_coefficient;
use remotedesk::encoder::rgb_to_ycbcr;
use remotedesk::encoder::Encoder;
use remotedesk::fdct::fdct;
use remotedesk::protocol::get_block_id;
use remotedesk::protocol::SenderMessage;

#[test]
fn index() {
    assert_eq!(get_index(0, 0, 64, 0), 0);
    assert_eq!(get_index(0, 1, 64, 0), 24);
    assert_eq!(get_index(0, 2, 64, 0), 1536);
    assert_eq!(get_index(0, 3, 64, 0), 1560);

    assert_eq!(get_index(0, 0, 64, 1), 3);
    assert_eq!(get_index(0, 1, 64, 1), 27);
    assert_eq!(get_index(0, 2, 64, 1), 1539);
    assert_eq!(get_index(0, 3, 64, 1), 1563);

    assert_eq!(get_index(0, 0, 64, 8), 192);
    assert_eq!(get_index(0, 1, 64, 8), 216);
    assert_eq!(get_index(0, 2, 64, 8), 1728);
    assert_eq!(get_index(0, 3, 64, 8), 1752);

    assert_eq!(get_index(1, 0, 64, 0), 48);
    assert_eq!(get_index(1, 1, 64, 0), 72);
    assert_eq!(get_index(1, 2, 64, 0), 1584);
    assert_eq!(get_index(1, 3, 64, 0), 1608);

    assert_eq!(get_index(1, 0, 64, 1), 51);
    assert_eq!(get_index(1, 1, 64, 1), 75);
    assert_eq!(get_index(1, 2, 64, 1), 1587);
    assert_eq!(get_index(1, 3, 64, 1), 1611);

    assert_eq!(get_index(1, 0, 64, 8), 240);
    assert_eq!(get_index(1, 1, 64, 8), 264);
    assert_eq!(get_index(1, 2, 64, 8), 1776);
    assert_eq!(get_index(1, 3, 64, 8), 1800);

    assert_eq!(get_index(4, 0, 64, 0), 3072);
    assert_eq!(get_index(4, 1, 64, 0), 3096);
    assert_eq!(get_index(4, 2, 64, 0), 4608);
    assert_eq!(get_index(4, 3, 64, 0), 4632);

    assert_eq!(get_index(4, 0, 64, 8), 3264);
    assert_eq!(get_index(4, 1, 64, 8), 3288);
    assert_eq!(get_index(4, 2, 64, 8), 4800);
    assert_eq!(get_index(4, 3, 64, 8), 4824);
}

#[test]
fn coefficient_values_match_standard_examples() {
    // size = bit length of the magnitude; positive values are their
    // own bits, negative values are diminished by one.
    assert_eq!(encode_coefficient(0), (0, 0));
    assert_eq!(encode_coefficient(1), (1, 1));
    assert_eq!(encode_coefficient(-1), (1, 0));
    assert_eq!(encode_coefficient(3), (2, 3));
    assert_eq!(encode_coefficient(-3), (2, 0));
    assert_eq!(encode_coefficient(5), (3, 5));
    assert_eq!(encode_coefficient(-5), (3, 2));
    assert_eq!(encode_coefficient(255), (8, 255));
    assert_eq!(encode_coefficient(-255), (8, 0));
}

#[test]
fn coefficient_roundtrip() {
    for c in [-1023i32, -300, -17, -2, -1, 1, 2, 17, 300, 1023] {
        let (size, value) = encode_coefficient(c);
        assert_eq!(decode_value(size, value as u32), c);
    }
}

#[test]
fn flat_block_transforms_to_zero() {
    // A uniform 128 block is exactly the level-shift origin: every
    // coefficient is zero.
    let block = vec![128u8; 64];
    let dct = fdct(&block);
    assert_eq!(dct, vec![0i32; 64]);
}

#[test]
fn flat_bright_block_has_dc_only() {
    let block = vec![255u8; 64];
    let dct = fdct(&block);
    // DC = 64 * 127 * 1448 * 1448 / 2^21, truncated.
    assert_eq!(dct[0], 8126);
    for k in 1..64 {
        assert_eq!(dct[k], 0, "AC coefficient {} of a flat block", k);
    }
}

#[test]
fn color_conversion_matches_coefficients() {
    assert_eq!(rgb_to_ycbcr(0, 0, 0), (0, 128, 128));
    assert_eq!(rgb_to_ycbcr(255, 255, 255), (255, 128, 128));
    // Pure red: y = 2990*255/10000 = 76 (truncated).
    let (y, cb, cr) = rgb_to_ycbcr(255, 0, 0);
    assert_eq!(y, 76);
    assert_eq!(cb, 128 - 43);
    assert_eq!(cr, 128 + 127);
}

fn capture_of(bytes: u8, w: usize, h: usize) -> Vec<u8> {
    vec![bytes; w * h * 4]
}

#[test]
fn initial_frame_covers_every_block() {
    let mut enc = Encoder::new(32, 16).expect("standard tables build");
    let capture = capture_of(200, 32, 16);
    let msgs = enc.initial_encode_rgb(&capture);
    // Two macroblocks plus the end-of-data marker.
    assert_eq!(msgs.len(), 3);
    match &msgs[0] {
        SenderMessage::Macroblock(ts, payload) => {
            assert_eq!(*ts, 0);
            assert!(payload.len() >= 2);
            assert_eq!(get_block_id(payload), 0);
        },
        other => panic!("expected a macroblock, got {:?}", other),
    }
    match &msgs[1] {
        SenderMessage::Macroblock(_, payload) => {
            assert_eq!(get_block_id(payload), 1);
        },
        other => panic!("expected a macroblock, got {:?}", other),
    }
    assert_eq!(msgs[2], SenderMessage::EndOfData(0));
}

#[test]
fn frame_with_no_changed_blocks_is_marker_only() {
    let mut enc = Encoder::new(16, 16).expect("standard tables build");
    let capture = capture_of(10, 16, 16);
    let errors: Vec<(i64, usize)> = vec![(0, 0)];
    let msgs = enc.update_encode_rgb(&capture, &errors);
    assert_eq!(msgs.len(), 1);
    assert_eq!(msgs[0], SenderMessage::EndOfData(1));
    assert_eq!(enc.get_timestamp(), 1);
}

#[test]
fn replaying_the_same_frame_yields_identical_payloads() {
    let mut enc = Encoder::new(16, 16).expect("standard tables build");
    let mut capture = capture_of(0, 16, 16);
    for (i, b) in capture.iter_mut().enumerate() {
        *b = (i % 251) as u8;
    }
    let errors: Vec<(i64, usize)> = vec![(500, 0)];
    let msgs1 = enc.update_encode_rgb(&capture, &errors);
    let msgs2 = enc.update_encode_rgb(&capture, &errors);
    // Timestamps differ, payload bytes do not.
    let p1 = match &msgs1[0] {
        SenderMessage::Macroblock(ts, p) => {
            assert_eq!(*ts, 1);
            p.clone()
        },
        other => panic!("expected a macroblock, got {:?}", other),
    };
    let p2 = match &msgs2[0] {
        SenderMessage::Macroblock(ts, p) => {
            assert_eq!(*ts, 2);
            p.clone()
        },
        other => panic!("expected a macroblock, got {:?}", other),
    };
    assert_eq!(p1, p2);
}

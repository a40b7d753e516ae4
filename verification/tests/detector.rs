//! Tests of the change detector and the pending-ack tracker: error
//! scoring, staleness escalation, the mirror, and ack reconciliation.

use remotedesk::context::Context;
use remotedesk::monitor::MonitorInfo;
use remotedesk::pending_acks::PendingAcks;

fn test_monitor(view_width: u32, view_height: u32) -> MonitorInfo {
    MonitorInfo {
        name: "screen".to_string(),
        width: 1920,
        height: 1080,
        offset_x: 0,
        offset_y: 0,
        view_width,
        view_height,
        midpoints_x: vec![320],
        midpoints_y: vec![184],
    }
}

fn small_context() -> Context {
    // A 32x16 view: two 16x16 macroblocks.
    Context::new(vec![test_monitor(32, 16)]).expect("geometry divides into macroblocks")
}

#[test]
fn geometry_not_divisible_by_16_is_rejected() {
    assert!(Context::new(vec![test_monitor(33, 16)]).is_none());
    assert!(Context::new(vec![test_monitor(32, 20)]).is_none());
    assert!(Context::new(vec![test_monitor(32, 16)]).is_some());
}

#[test]
fn errors_score_changed_blocks_and_sort_descending() {
    let mut c = small_context();
    // Mirror starts all zero.  Change one pixel of block 1 a lot and
    // one pixel of block 0 a little.
    let mut capture = vec![0u8; 32 * 16 * 4];
    capture[2] = 10; // red of pixel 0 (block 0): error 100
    capture[(16 * 4) + 2] = 200; // red of pixel 16 (block 1): error 40000
    c.set_block_errors(&capture);
    let errors = c.get_errors();
    assert_eq!(errors, vec![(40000, 1), (100, 0)]);
}

#[test]
fn static_scene_scores_zero_and_changes_nothing() {
    let mut c = small_context();
    let mut capture = vec![0u8; 32 * 16 * 4];
    for (i, b) in capture.iter_mut().enumerate() {
        *b = (i % 17) as u8;
    }
    c.set_initial_state(&capture);
    c.set_block_errors(&capture);
    let errors = c.get_errors();
    assert_eq!(errors, vec![(0, 0), (0, 1)]);
    let mr_before = c.get_most_recent_version();
    let cv_before = c.get_current_version();
    let mirror_before = c.get_mirror();
    c.update_client_state(&capture);
    // The clock advances but no block is marked sent and the mirror is
    // untouched.
    assert_eq!(c.get_timestamp(), 1);
    assert_eq!(c.get_most_recent_version(), mr_before);
    assert_eq!(c.get_current_version(), cv_before);
    assert_eq!(c.get_mirror(), mirror_before);
}

#[test]
fn update_copies_changed_blocks_into_mirror() {
    let mut c = small_context();
    let mut capture = vec![0u8; 32 * 16 * 4];
    // Block 0 pixels get a distinctive colour: BGRx = (1, 2, 3, x).
    for y in 0..16 {
        for x in 0..16 {
            let p = (y * 32 + x) * 4;
            capture[p] = 1;
            capture[p + 1] = 2;
            capture[p + 2] = 3;
        }
    }
    c.set_block_errors(&capture);
    c.update_client_state(&capture);
    assert_eq!(c.get_timestamp(), 1);
    let mr = c.get_most_recent_version();
    assert_eq!(mr, vec![1, 0]);
    let mirror = c.get_mirror();
    // Mirror pixel 0 now holds RGB (3, 2, 1); a block-1 pixel stays
    // zero.
    assert_eq!(&mirror[0..3], &[3, 2, 1]);
    assert_eq!(&mirror[16 * 3..16 * 3 + 3], &[0, 0, 0]);
}

#[test]
fn stale_block_is_forced_to_the_front() {
    let mut c = small_context();
    let mut capture = vec![0u8; 32 * 16 * 4];
    capture[2] = 50; // block 0 changes once
    c.set_block_errors(&capture);
    c.update_client_state(&capture); // sent at frame 1, never acked
    assert_eq!(c.get_most_recent_version(), vec![1, 0]);
    // Frames 2 and 3 pass without change and without an ack.
    c.set_block_errors(&capture);
    assert_eq!(c.get_errors(), vec![(0, 0), (0, 1)]);
    c.update_client_state(&capture);
    c.set_block_errors(&capture);
    c.update_client_state(&capture);
    assert_eq!(c.get_timestamp(), 3);
    // At the next scoring the unacked update lags by more than two
    // frames on both vectors: the score escalates to the maximum and
    // block 0 sorts to the front.
    c.update_client_state(&capture);
    assert_eq!(c.get_timestamp(), 4);
    c.set_block_errors(&capture);
    let errors = c.get_errors();
    assert_eq!(errors[0], (i64::MAX, 0));
    assert_eq!(errors[1], (0, 1));
}

#[test]
fn ack_cycle_raises_current_version() {
    let mut c = small_context();
    let mut pat = PendingAcks::new();
    // The server records packet 7 carrying blocks 0 and 1 of frame 3.
    pat.new_send(3, 7, vec![0, 1]);
    // The viewer acknowledges packet 7.
    let acks = pat.new_receive(&vec![7]);
    assert_eq!(acks.len(), 1);
    let (ts, blocks) = acks[0].clone();
    assert_eq!(ts, 3);
    assert_eq!(blocks, vec![0, 1]);
    // But first the blocks must have been sent by frame 3.
    let mut capture = vec![0u8; 32 * 16 * 4];
    capture[2] = 50;
    capture[(16 * 4) + 2] = 60;
    for _ in 0..3 {
        c.set_block_errors(&capture);
        c.update_client_state(&capture);
        capture[2] = capture[2].wrapping_add(50);
        capture[(16 * 4) + 2] = capture[(16 * 4) + 2].wrapping_add(60);
    }
    assert_eq!(c.get_most_recent_version(), vec![3, 3]);
    c.handle_ack(ts, &blocks);
    assert_eq!(c.get_current_version(), vec![3, 3]);
}

#[test]
fn duplicate_and_unknown_acks_are_ignored() {
    let mut pat = PendingAcks::new();
    pat.new_send(1, 0, vec![4]);
    // Unknown id: nothing resolves.
    assert_eq!(pat.new_receive(&vec![9]).len(), 0);
    // First delivery resolves the entry...
    assert_eq!(pat.new_receive(&vec![0]).len(), 1);
    // ...and the duplicate resolves nothing.
    assert_eq!(pat.new_receive(&vec![0]).len(), 0);
    // A duplicate inside one acknowledgement also counts once.
    pat.new_send(2, 1, vec![5]);
    assert_eq!(pat.new_receive(&vec![1, 1]).len(), 1);
}

#[test]
fn reinit_defers_sends_until_the_initial_frame() {
    let mut pat = PendingAcks::new();
    pat.new_send(5, 0, vec![1]);
    pat.clear();
    // During reinitialisation a stale frame is not recorded.
    pat.new_send(6, 1, vec![2]);
    assert_eq!(pat.new_receive(&vec![1]).len(), 0);
    // The post-reinit initial frame is, and ends the deferral.
    pat.new_send(0, 2, vec![3]);
    assert_eq!(pat.new_receive(&vec![2]).len(), 1);
    pat.new_send(7, 3, vec![4]);
    assert_eq!(pat.new_receive(&vec![3]).len(), 1);
}

#[test]
fn fresh_view_scores_every_block_nonzero() {
    // After construction the mirror is all zero, so any nonzero
    // capture gives every macroblock a positive score and the whole
    // frame is encoded.
    let mut c = small_context();
    let capture = vec![7u8; 32 * 16 * 4];
    c.set_block_errors(&capture);
    let errors = c.get_errors();
    assert_eq!(errors.len(), 2);
    assert!(errors.iter().all(|e| e.0 > 0));
    // Scores are sorted, ties by block id ascending.
    assert_eq!(errors[0].1, 0);
    assert_eq!(errors[1].1, 1);
}

#[test]
fn view_change_resets_the_frame_clock() {
    let mut c = Context::new(vec![test_monitor(32, 16), test_monitor(16, 16)])
        .expect("geometry divides into macroblocks");
    let capture = vec![9u8; 32 * 16 * 4];
    c.set_block_errors(&capture);
    c.update_client_state(&capture);
    assert_eq!(c.get_timestamp(), 1);
    assert!(c.change_view(1, 0));
    assert_eq!(c.get_timestamp(), 0);
    assert_eq!(c.get_current_version(), vec![0]);
    assert_eq!(c.get_most_recent_version(), vec![0]);
    // Re-requesting the same view changes nothing.
    assert!(!c.change_view(1, 0));
}

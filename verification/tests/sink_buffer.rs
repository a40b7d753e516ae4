//! Tests of the payload sink.

use remotedesk::sink::Sink;

#[test]
fn sink_collects_one_payload_per_block() {
    let mut s = Sink::new(4, 768);
    s.new_block(0);
    s.write(1);
    s.write(2);
    s.new_block(3);
    s.write(9);
    s.push_final_block();
    assert_eq!(s.len(), 3);
    let got = s.get();
    assert_eq!(got.len(), 2);
    assert_eq!(got[0], (0, vec![1, 2]));
    assert_eq!(got[1], (3, vec![9]));
    assert_eq!(s.block_and_len(0), Some((0, 2)));
    assert_eq!(s.block_and_len(1), Some((1, 1)));
    assert_eq!(s.block_and_len(2), None);
    s.clear();
    assert_eq!(s.len(), 0);
    assert_eq!(s.get().len(), 0);
}

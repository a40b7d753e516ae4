//! Tests of the wire protocol: byte helpers, inbound datagram
//! parsing, and outbound packet packing.

use remotedesk::protocol::get_block_id;
use remotedesk::protocol::get_packet_ids;
use remotedesk::protocol::parse_datagram;
use remotedesk::protocol::InboundEvent;
use remotedesk::protocol::MainMessage;
use remotedesk::transport::accept_handshake_reply;
use remotedesk::transport::screen_info_reply;
use remotedesk::transport::PacketBuilder;
use remotedesk::u8s_to_u16;
use remotedesk::u8s_to_u32;
use remotedesk::util::u32_to_u8s;

#[test]
fn byte_helpers_assemble_big_endian() {
    assert_eq!(u8s_to_u16(0x12, 0x34), 0x1234);
    assert_eq!(u8s_to_u16(0, 7), 7);
    assert_eq!(u8s_to_u32(0x12, 0x34, 0x56, 0x78), 0x12345678);
    assert_eq!(u32_to_u8s(0x12345678), (0x12, 0x34, 0x56, 0x78));
}

fn datagram(bytes: &[u8]) -> Vec<u8> {
    let mut buf = vec![0u8; 800];
    buf[..bytes.len()].copy_from_slice(bytes);
    buf
}

#[test]
fn parse_dispatches_by_opcode() {
    let buf = datagram(&[0, 1, 1]);
    assert_eq!(
        parse_datagram(&buf, 3, 9),
        InboundEvent::Main(MainMessage::Handshake(9, 1, 1))
    );
    assert_eq!(
        parse_datagram(&datagram(&[1]), 1, 0),
        InboundEvent::Main(MainMessage::RequestScreenInfo)
    );
    assert_eq!(
        parse_datagram(&datagram(&[2, 0, 3]), 3, 0),
        InboundEvent::Main(MainMessage::RequestView(0, 3))
    );
    assert_eq!(
        parse_datagram(&datagram(&[3]), 1, 0),
        InboundEvent::Main(MainMessage::Refresh)
    );
    assert_eq!(
        parse_datagram(&datagram(&[4]), 1, 0),
        InboundEvent::Main(MainMessage::Close)
    );
    assert_eq!(
        parse_datagram(&datagram(&[5]), 1, 0),
        InboundEvent::Main(MainMessage::Exit)
    );
    assert_eq!(
        parse_datagram(&datagram(&[6, 1, 0, 0, 200]), 5, 0),
        InboundEvent::Main(MainMessage::LeftClick(256, 200))
    );
    assert_eq!(
        parse_datagram(&datagram(&[7, 0, 5, 0, 6]), 5, 0),
        InboundEvent::Main(MainMessage::RightClick(5, 6))
    );
    assert_eq!(
        parse_datagram(&datagram(&[8, 0, 5, 0, 6]), 5, 0),
        InboundEvent::Main(MainMessage::DoubleClick(5, 6))
    );
    assert_eq!(
        parse_datagram(&datagram(&[9, 0, 1, 0, 2, 0, 3, 0, 4]), 9, 0),
        InboundEvent::Main(MainMessage::Drag(1, 2, 3, 4))
    );
    assert_eq!(
        parse_datagram(&datagram(&[10, b'h', b'i']), 3, 0),
        InboundEvent::Main(MainMessage::Keyboard(vec![b'h', b'i']))
    );
    assert_eq!(
        parse_datagram(&datagram(&[12]), 1, 0),
        InboundEvent::Heartbeat
    );
}

#[test]
fn parse_drops_malformed_datagrams() {
    // Wrong lengths, unknown opcodes, and over-long ack counts are
    // dropped silently.
    assert_eq!(parse_datagram(&datagram(&[0, 1]), 2, 0), InboundEvent::Drop);
    assert_eq!(parse_datagram(&datagram(&[6, 1, 0]), 3, 0), InboundEvent::Drop);
    assert_eq!(parse_datagram(&datagram(&[13]), 1, 0), InboundEvent::Drop);
    assert_eq!(parse_datagram(&datagram(&[99, 1, 2]), 3, 0), InboundEvent::Drop);
    assert_eq!(parse_datagram(&datagram(&[]), 0, 0), InboundEvent::Drop);
    // An ack announcing three ids but carrying one.
    assert_eq!(
        parse_datagram(&datagram(&[11, 3, 0, 0, 0, 7]), 6, 0),
        InboundEvent::Drop
    );
}

#[test]
fn parse_extracts_ack_ids() {
    let buf = datagram(&[11, 2, 0, 0, 0, 7, 0, 0, 1, 0]);
    assert_eq!(
        parse_datagram(&buf, 10, 0),
        InboundEvent::Ack(vec![7, 256])
    );
    assert_eq!(get_packet_ids(&buf, 10), Some(vec![7, 256]));
    assert_eq!(get_packet_ids(&buf, 5), None);
}

#[test]
fn block_id_lives_in_the_top_ten_bits() {
    assert_eq!(get_block_id(&vec![0b0000_0000, 0b0100_0000]), 1);
    assert_eq!(get_block_id(&vec![0b0000_0001, 0b0000_0000]), 4);
    assert_eq!(get_block_id(&vec![0xFF, 0xC0]), 1023);
}

#[test]
fn control_replies_are_framed() {
    assert_eq!(accept_handshake_reply(1), vec![0, 1]);
    assert_eq!(screen_info_reply(&vec![9, 8, 7]), vec![1, 9, 8, 7]);
}

fn payload_for_block(id: u16, len: usize) -> Vec<u8> {
    let mut p = vec![0u8; len.max(2)];
    p[0] = (id >> 2) as u8;
    p[1] = ((id & 0x3) as u8) << 6;
    p
}

#[test]
fn packet_ids_are_consecutive_and_layout_is_fixed() {
    let mut b = PacketBuilder::new();
    assert!(b.macroblock(3, &payload_for_block(5, 20)).is_none());
    assert!(b.macroblock(3, &payload_for_block(12, 20)).is_none());
    let p0 = b.end_of_data(3).expect("two payloads are pending");
    assert_eq!(p0.id, 0);
    assert_eq!(p0.timestamp, 3);
    assert_eq!(p0.block_ids, vec![5, 12]);
    // Header: opcode, timestamp, packet id, block count, then the
    // payload bytes.
    assert_eq!(p0.bytes[0], 2);
    assert_eq!(&p0.bytes[1..5], &[0, 0, 0, 3]);
    assert_eq!(&p0.bytes[5..9], &[0, 0, 0, 0]);
    assert_eq!(p0.bytes[9], 2);
    assert_eq!(p0.bytes.len(), 10 + 40);

    // An empty frame sends nothing.
    assert!(b.end_of_data(4).is_none());

    let _ = b.macroblock(5, &payload_for_block(1, 10));
    let p1 = b.end_of_data(5).expect("one payload is pending");
    assert_eq!(p1.id, 1);

    // A payload that would overflow the open packet flushes it first,
    // even when nothing is pending yet.
    let big = payload_for_block(2, 995);
    let header_only = b.macroblock(6, &big).expect("an oversized payload flushes");
    assert_eq!(header_only.id, 2);
    assert!(header_only.block_ids.is_empty());
    let flushed = b.macroblock(6, &payload_for_block(3, 20)).expect("the open packet was full");
    assert_eq!(flushed.id, 3);
    assert_eq!(flushed.block_ids, vec![2]);
    let p3 = b.end_of_data(6).expect("the last payload is pending");
    assert_eq!(p3.id, 4);
    assert_eq!(p3.block_ids, vec![3]);
}

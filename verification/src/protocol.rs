//! Wire protocol of the streaming session: opcodes, the typed messages
//! the components exchange, and the parser that turns one inbound
//! datagram into the message it carries.
//!
//! All multi-byte integers on the wire are big-endian.  Malformed
//! datagrams (unknown opcode, wrong length) are never an error: they
//! parse to [`InboundEvent::Drop`] and the receiver ignores them.

use vstd::prelude::*;

use crate::util::spec_u16_from_bytes;
use crate::util::spec_u32_from_bytes;
use crate::util::u8s_to_u16;
use crate::util::u8s_to_u32;

verus! {

pub const OPCODE_RECEIVE_HANDSHAKE: u8 = 0;

pub const OPCODE_RECEIVE_REQUEST_SCREEN_INFO: u8 = 1;

pub const OPCODE_RECEIVE_REQUEST_VIEW: u8 = 2;

pub const OPCODE_RECEIVE_REFRESH: u8 = 3;

pub const OPCODE_RECEIVE_CLOSE: u8 = 4;

pub const OPCODE_RECEIVE_EXIT: u8 = 5;

pub const OPCODE_RECEIVE_LEFT_CLICK: u8 = 6;

pub const OPCODE_RECEIVE_RIGHT_CLICK: u8 = 7;

pub const OPCODE_RECEIVE_DOUBLE_CLICK: u8 = 8;

pub const OPCODE_RECEIVE_DRAG: u8 = 9;

pub const OPCODE_RECEIVE_KEYBOARD: u8 = 10;

pub const OPCODE_RECEIVE_ACK: u8 = 11;

pub const OPCODE_RECEIVE_HEARTBEAT: u8 = 12;

pub const OPCODE_SEND_HANDSHAKE_ACK: u8 = 0;

pub const OPCODE_SEND_SCREEN_INFO: u8 = 1;

pub const OPCODE_SEND_IMAGE_DATA: u8 = 2;

/// Messages consumed by the change detector.
#[derive(Debug, PartialEq)]
pub enum ContextMessage {
    RequestView(u8, u8),
    Close,
    Refresh,
    NewScreenshot,
    AckPackets(u32, Vec<u16>),
}

/// Messages consumed by the encoder.  The byte vector is a raw BGRx
/// capture buffer handed over by value.
#[derive(Debug, PartialEq)]
pub enum EncoderMessage {
    FirstImage(Vec<u8>),
    DataAndErrors(Vec<u8>, Vec<(i64, usize)>),
    Close,
}

/// Messages consumed by the heartbeat watchdog.
#[derive(Debug, PartialEq, Eq, Structural)]
pub enum HeartbeatMessage {
    Heartbeat,
    Close,
}

/// Messages consumed by the session controller.  Peers are identified
/// by an opaque token chosen by the socket shim.
#[derive(Debug, PartialEq)]
pub enum MainMessage {
    Handshake(u64, u8, u8),
    RequestScreenInfo,
    RequestView(u8, u8),
    Refresh,
    Close,
    Exit,
    LeftClick(u16, u16),
    RightClick(u16, u16),
    DoubleClick(u16, u16),
    Drag(u16, u16, u16, u16),
    Keyboard(Vec<u8>),
}

/// Messages consumed by the pending-ack tracker.
#[derive(Debug, PartialEq)]
pub enum PendingAckMessage {
    NewSend(u32, u32, Vec<u16>),
    NewReceive(Vec<u32>),
    Close,
}

/// Messages consumed by the datagram receiver.
#[derive(Debug, PartialEq, Eq, Structural)]
pub enum ReceiverMessage {
    HeartbeatTimeout,
}

/// Messages consumed by the datagram sender.
#[derive(Debug, PartialEq)]
pub enum SenderMessage {
    AcceptHandshake(u64, u8),
    RejectHandshake(u64),
    ScreenInfo(Vec<u8>),
    EndOfData(u32),
    Macroblock(u32, Vec<u8>),
    Close,
}

/// Where one inbound datagram is routed.
#[derive(Debug, PartialEq)]
pub enum InboundEvent {
    /// Forwarded to the session controller.
    Main(MainMessage),
    /// Forwarded to the heartbeat watchdog.
    Heartbeat,
    /// Packet ids of an acknowledgement, forwarded to the pending-ack
    /// tracker.
    Ack(Vec<u32>),
    /// Malformed or unknown: silently dropped.
    Drop,
}

/// Mathematical image of [`MainMessage`], with sequences for vectors.
pub enum MainMessageView {
    Handshake(u64, u8, u8),
    RequestScreenInfo,
    RequestView(u8, u8),
    Refresh,
    Close,
    Exit,
    LeftClick(u16, u16),
    RightClick(u16, u16),
    DoubleClick(u16, u16),
    Drag(u16, u16, u16, u16),
    Keyboard(Seq<u8>),
}

/// Mathematical image of [`InboundEvent`].
pub enum InboundEventView {
    Main(MainMessageView),
    Heartbeat,
    Ack(Seq<u32>),
    Drop,
}

impl View for MainMessage {
    type V = MainMessageView;

    open spec fn view(&self) -> MainMessageView {
        match self {
            MainMessage::Handshake(src, min, max) => MainMessageView::Handshake(
                *src,
                *min,
                *max,
            ),
            MainMessage::RequestScreenInfo => MainMessageView::RequestScreenInfo,
            MainMessage::RequestView(s, seg) => MainMessageView::RequestView(*s, *seg),
            MainMessage::Refresh => MainMessageView::Refresh,
            MainMessage::Close => MainMessageView::Close,
            MainMessage::Exit => MainMessageView::Exit,
            MainMessage::LeftClick(x, y) => MainMessageView::LeftClick(*x, *y),
            MainMessage::RightClick(x, y) => MainMessageView::RightClick(*x, *y),
            MainMessage::DoubleClick(x, y) => MainMessageView::DoubleClick(*x, *y),
            MainMessage::Drag(x0, y0, x1, y1) => MainMessageView::Drag(*x0, *y0, *x1, *y1),
            MainMessage::Keyboard(data) => MainMessageView::Keyboard(data@),
        }
    }
}

impl View for InboundEvent {
    type V = InboundEventView;

    open spec fn view(&self) -> InboundEventView {
        match self {
            InboundEvent::Main(m) => InboundEventView::Main(m@),
            InboundEvent::Heartbeat => InboundEventView::Heartbeat,
            InboundEvent::Ack(ids) => InboundEventView::Ack(ids@),
            InboundEvent::Drop => InboundEventView::Drop,
        }
    }
}

/// The packet ids of an acknowledgement datagram, or `None` when the
/// datagram is shorter than its own count announces.
///
/// Layout: opcode at byte 0, number of ids at byte 1, then that many
/// big-endian `u32` ids.
pub open spec fn spec_packet_ids(data: Seq<u8>) -> Option<Seq<u32>> {
    if data.len() < 2 {
        None
    } else {
        let n = data[1] as int;
        if data.len() < 2 + 4 * n {
            None
        } else {
            Some(
                Seq::new(
                    n as nat,
                    |i: int|
                        spec_u32_from_bytes(
                            data[4 * i + 2],
                            data[4 * i + 3],
                            data[4 * i + 4],
                            data[4 * i + 5],
                        ),
                ),
            )
        }
    }
}

/// The message carried by one inbound datagram of `data` bytes sent by
/// peer `src`: the opcode table of the wire protocol.
pub open spec fn spec_parse_datagram(data: Seq<u8>, src: u64) -> InboundEventView {
    if data.len() == 0 {
        InboundEventView::Drop
    } else {
        let op = data[0];
        if op == OPCODE_RECEIVE_HANDSHAKE && data.len() == 3 {
            InboundEventView::Main(MainMessageView::Handshake(src, data[1], data[2]))
        } else if op == OPCODE_RECEIVE_REQUEST_SCREEN_INFO && data.len() == 1 {
            InboundEventView::Main(MainMessageView::RequestScreenInfo)
        } else if op == OPCODE_RECEIVE_REQUEST_VIEW && data.len() == 3 {
            InboundEventView::Main(MainMessageView::RequestView(data[1], data[2]))
        } else if op == OPCODE_RECEIVE_REFRESH && data.len() == 1 {
            InboundEventView::Main(MainMessageView::Refresh)
        } else if op == OPCODE_RECEIVE_CLOSE && data.len() == 1 {
            InboundEventView::Main(MainMessageView::Close)
        } else if op == OPCODE_RECEIVE_EXIT && data.len() == 1 {
            InboundEventView::Main(MainMessageView::Exit)
        } else if op == OPCODE_RECEIVE_LEFT_CLICK && data.len() == 5 {
            InboundEventView::Main(
                MainMessageView::LeftClick(
                    spec_u16_from_bytes(data[1], data[2]),
                    spec_u16_from_bytes(data[3], data[4]),
                ),
            )
        } else if op == OPCODE_RECEIVE_RIGHT_CLICK && data.len() == 5 {
            InboundEventView::Main(
                MainMessageView::RightClick(
                    spec_u16_from_bytes(data[1], data[2]),
                    spec_u16_from_bytes(data[3], data[4]),
                ),
            )
        } else if op == OPCODE_RECEIVE_DOUBLE_CLICK && data.len() == 5 {
            InboundEventView::Main(
                MainMessageView::DoubleClick(
                    spec_u16_from_bytes(data[1], data[2]),
                    spec_u16_from_bytes(data[3], data[4]),
                ),
            )
        } else if op == OPCODE_RECEIVE_DRAG && data.len() == 9 {
            InboundEventView::Main(
                MainMessageView::Drag(
                    spec_u16_from_bytes(data[1], data[2]),
                    spec_u16_from_bytes(data[3], data[4]),
                    spec_u16_from_bytes(data[5], data[6]),
                    spec_u16_from_bytes(data[7], data[8]),
                ),
            )
        } else if op == OPCODE_RECEIVE_KEYBOARD {
            InboundEventView::Main(MainMessageView::Keyboard(data.subrange(1, data.len() as int)))
        } else if op == OPCODE_RECEIVE_ACK {
            match spec_packet_ids(data) {
                Some(ids) => InboundEventView::Ack(ids),
                None => InboundEventView::Drop,
            }
        } else if op == OPCODE_RECEIVE_HEARTBEAT && data.len() == 1 {
            InboundEventView::Heartbeat
        } else {
            InboundEventView::Drop
        }
    }
}

/// Reads the packet-id list of an acknowledgement out of the first
/// `amt` bytes of `buf`; `None` when the datagram is shorter than its
/// count announces.
pub fn get_packet_ids(buf: &Vec<u8>, amt: usize) -> (r: Option<Vec<u32>>)
    requires
        amt <= buf@.len(),
    ensures
        match r {
            Some(ids) => spec_packet_ids(buf@.subrange(0, amt as int)) == Some(ids@),
            None => spec_packet_ids(buf@.subrange(0, amt as int)) is None,
        },
{
    let ghost data = buf@.subrange(0, amt as int);
    if amt < 2 {
        return None;
    }
    let n_ids = buf[1] as usize;
    if amt < 2 + 4 * n_ids {
        assert(data.len() < 2 + 4 * (data[1] as int));
        return None;
    }
    let mut result: Vec<u32> = Vec::new();
    let mut i: usize = 0;
    while i < n_ids
        invariant
            i <= n_ids,
            n_ids == data[1] as int,
            2 + 4 * n_ids <= amt <= buf@.len(),
            data == buf@.subrange(0, amt as int),
            result@.len() == i,
            forall|j: int|
                0 <= j < i ==> result@[j] == spec_u32_from_bytes(
                    data[4 * j + 2],
                    data[4 * j + 3],
                    data[4 * j + 4],
                    data[4 * j + 5],
                ),
        decreases n_ids - i,
    {
        let id = u8s_to_u32(buf[4 * i + 2], buf[4 * i + 3], buf[4 * i + 4], buf[4 * i + 5]);
        result.push(id);
        i += 1;
    }
    proof {
        assert(spec_packet_ids(data) == Some(result@)) by {
            assert(result@ =~= spec_packet_ids(data).unwrap());
        }
    }
    Some(result)
}

/// Parses the first `amt` bytes of one inbound datagram from peer
/// `src` into the event it carries, per the opcode table.
pub fn parse_datagram(buf: &Vec<u8>, amt: usize, src: u64) -> (ev: InboundEvent)
    requires
        amt <= buf@.len(),
    ensures
        ev@ == spec_parse_datagram(buf@.subrange(0, amt as int), src),
{
    let ghost data = buf@.subrange(0, amt as int);
    if amt == 0 {
        return InboundEvent::Drop;
    }
    let op = buf[0];
    if op == OPCODE_RECEIVE_HANDSHAKE && amt == 3 {
        InboundEvent::Main(MainMessage::Handshake(src, buf[1], buf[2]))
    } else if op == OPCODE_RECEIVE_REQUEST_SCREEN_INFO && amt == 1 {
        InboundEvent::Main(MainMessage::RequestScreenInfo)
    } else if op == OPCODE_RECEIVE_REQUEST_VIEW && amt == 3 {
        InboundEvent::Main(MainMessage::RequestView(buf[1], buf[2]))
    } else if op == OPCODE_RECEIVE_REFRESH && amt == 1 {
        InboundEvent::Main(MainMessage::Refresh)
    } else if op == OPCODE_RECEIVE_CLOSE && amt == 1 {
        InboundEvent::Main(MainMessage::Close)
    } else if op == OPCODE_RECEIVE_EXIT && amt == 1 {
        InboundEvent::Main(MainMessage::Exit)
    } else if op == OPCODE_RECEIVE_LEFT_CLICK && amt == 5 {
        InboundEvent::Main(
            MainMessage::LeftClick(u8s_to_u16(buf[1], buf[2]), u8s_to_u16(buf[3], buf[4])),
        )
    } else if op == OPCODE_RECEIVE_RIGHT_CLICK && amt == 5 {
        InboundEvent::Main(
            MainMessage::RightClick(u8s_to_u16(buf[1], buf[2]), u8s_to_u16(buf[3], buf[4])),
        )
    } else if op == OPCODE_RECEIVE_DOUBLE_CLICK && amt == 5 {
        InboundEvent::Main(
            MainMessage::DoubleClick(u8s_to_u16(buf[1], buf[2]), u8s_to_u16(buf[3], buf[4])),
        )
    } else if op == OPCODE_RECEIVE_DRAG && amt == 9 {
        InboundEvent::Main(
            MainMessage::Drag(
                u8s_to_u16(buf[1], buf[2]),
                u8s_to_u16(buf[3], buf[4]),
                u8s_to_u16(buf[5], buf[6]),
                u8s_to_u16(buf[7], buf[8]),
            ),
        )
    } else if op == OPCODE_RECEIVE_KEYBOARD {
        let mut payload: Vec<u8> = Vec::new();
        let mut i: usize = 1;
        while i < amt
            invariant
                1 <= i <= amt,
                amt <= buf@.len(),
                payload@ == buf@.subrange(1, i as int),
            decreases amt - i,
        {
            payload.push(buf[i]);
            proof {
                assert(payload@ =~= buf@.subrange(1, i + 1));
            }
            i += 1;
        }
        proof {
            assert(payload@ =~= data.subrange(1, data.len() as int));
        }
        InboundEvent::Main(MainMessage::Keyboard(payload))
    } else if op == OPCODE_RECEIVE_ACK {
        match get_packet_ids(buf, amt) {
            Some(ids) => InboundEvent::Ack(ids),
            None => InboundEvent::Drop,
        }
    } else if op == OPCODE_RECEIVE_HEARTBEAT && amt == 1 {
        InboundEvent::Heartbeat
    } else {
        InboundEvent::Drop
    }
}

/// The block id embedded in the first ten bits of one encoded
/// macroblock payload.
pub open spec fn spec_block_id(data: Seq<u8>) -> u16 {
    ((data[0] as u16) * 4 + (data[1] as u16) / 64) as u16
}

/// Reads the 10-bit block id out of the head of an encoded macroblock
/// payload.
pub fn get_block_id(data: &Vec<u8>) -> (r: u16)
    requires
        data@.len() >= 2,
    ensures
        r == spec_block_id(data@),
        r < 1024,
{
    let b0 = data[0];
    let b1 = data[1];
    let r = ((b0 as u16) << 2) | ((b1 as u16) >> 6);
    proof {
        assert(r == (b0 as u16) * 4 + (b1 as u16) / 64 && r < 1024) by (bit_vector)
            requires
                r == ((b0 as u16) << 2) | ((b1 as u16) >> 6),
        ;
    }
    r
}

} // verus!

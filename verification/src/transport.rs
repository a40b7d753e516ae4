//! Outbound packing of encoded macroblocks into bounded datagrams.
//!
//! An image-data packet is laid out as: opcode at byte 0, the frame
//! timestamp as a big-endian `u32` at bytes 1..5, the packet id at
//! bytes 5..9, the number of carried macroblock payloads at byte 9,
//! and the payloads themselves from byte 10 on.  A payload that would
//! push the open packet past [`MAX_BUFFER_SIZE`] bytes (or past the
//! capacity of the count byte) first flushes the packet; packet ids
//! are assigned strictly increasing and consecutive from zero.

use vstd::prelude::*;

use crate::protocol::spec_block_id;
use crate::protocol::get_block_id;
use crate::protocol::OPCODE_SEND_HANDSHAKE_ACK;
use crate::protocol::OPCODE_SEND_IMAGE_DATA;
use crate::protocol::OPCODE_SEND_SCREEN_INFO;
use crate::util::spec_u32_to_bytes;
use crate::util::u32_to_u8s;

verus! {

/// Largest datagram body the packer will close a packet at.
pub const MAX_BUFFER_SIZE: usize = 1000;

/// Byte count of the image-data packet header.
pub const PACKET_HEADER_SIZE: usize = 10;

/// One closed datagram, ready to send, together with the bookkeeping
/// the pending-ack tracker records for it.
#[derive(Debug, PartialEq)]
pub struct Packet {
    /// The datagram body.
    pub bytes: Vec<u8>,
    /// The frame timestamp stamped into the header.
    pub timestamp: u32,
    /// The packet id stamped into the header.
    pub id: u32,
    /// The ids of the macroblocks whose payloads the packet carries.
    pub block_ids: Vec<u16>,
}

/// The header of an open packet: opcode, a zero timestamp placeholder,
/// the packet id, and a zero count placeholder.
pub open spec fn spec_open_header(id: u32) -> Seq<u8> {
    seq![OPCODE_SEND_IMAGE_DATA, 0u8, 0u8, 0u8, 0u8] + spec_u32_to_bytes(id) + seq![0u8]
}

/// The bytes of a closed image-data packet carrying `payloads`.
pub open spec fn spec_packet_bytes(timestamp: u32, id: u32, payloads: Seq<Seq<u8>>) -> Seq<u8> {
    seq![OPCODE_SEND_IMAGE_DATA] + spec_u32_to_bytes(timestamp) + spec_u32_to_bytes(id)
        + seq![payloads.len() as u8] + payloads.flatten()
}

/// Packs macroblock payloads into image-data packets.
pub struct PacketBuilder {
    buffer: Vec<u8>,
    present_ids: Vec<u16>,
    id: u32,
    payloads: Ghost<Seq<Seq<u8>>>,
    sent_ids: Ghost<Seq<u32>>,
}

impl PacketBuilder {
    /// The payloads appended to the open packet since the last flush.
    pub closed spec fn open_payloads(&self) -> Seq<Seq<u8>> {
        self.payloads@
    }

    /// The id the open packet will carry when it is flushed.
    pub closed spec fn next_id(&self) -> u32 {
        self.id
    }

    /// The ids of every packet flushed so far, in emission order.
    pub closed spec fn sent(&self) -> Seq<u32> {
        self.sent_ids@
    }

    /// Internal consistency of the packer: the open buffer is the
    /// header followed by the payloads accepted so far, the recorded
    /// block ids match those payloads, and ids are handed out
    /// consecutively from zero.
    pub closed spec fn wf(&self) -> bool {
        &&& self.buffer@ == spec_open_header(self.id) + self.payloads@.flatten()
        &&& self.present_ids@.len() == self.payloads@.len()
        &&& forall|i: int|
            0 <= i < self.payloads@.len() ==> self.payloads@[i].len() >= 2
                && #[trigger] self.present_ids@[i] == spec_block_id(self.payloads@[i])
        &&& self.payloads@.len() < 256
        &&& self.id == self.sent_ids@.len()
        &&& forall|i: int| 0 <= i < self.sent_ids@.len() ==> #[trigger] self.sent_ids@[i] == i
    }

    /// A fresh packer whose first packet will carry id zero.
    pub fn new() -> (r: Self)
        ensures
            r.wf(),
            r.next_id() == 0,
            r.open_payloads().len() == 0,
            r.sent().len() == 0,
    {
        let mut buffer: Vec<u8> = Vec::new();
        stamp_header(&mut buffer, 0);
        let r = PacketBuilder {
            buffer,
            present_ids: Vec::new(),
            id: 0,
            payloads: Ghost(Seq::empty()),
            sent_ids: Ghost(Seq::empty()),
        };
        proof {
            assert(r.payloads@.flatten() =~= Seq::<u8>::empty());
            assert(r.buffer@ =~= spec_open_header(0) + r.payloads@.flatten());
        }
        r
    }

    /// Closes the open packet: patches the timestamp and the payload
    /// count into the header and hands the packet out.
    fn flush(&mut self, timestamp: u32) -> (p: Packet)
        requires
            old(self).wf(),
            old(self).next_id() < u32::MAX,
        ensures
            final(self).wf(),
            p.bytes@ == spec_packet_bytes(timestamp, old(self).next_id(), old(self).open_payloads()),
            p.timestamp == timestamp,
            p.id == old(self).next_id(),
            p.block_ids@ == old(self).present_ids@,
            final(self).next_id() == old(self).next_id() + 1,
            final(self).open_payloads().len() == 0,
            final(self).sent() == old(self).sent().push(old(self).next_id()),
    {
        let (t0, t1, t2, t3) = u32_to_u8s(timestamp);
        self.buffer.set(1, t0);
        self.buffer.set(2, t1);
        self.buffer.set(3, t2);
        self.buffer.set(4, t3);
        self.buffer.set(9, self.present_ids.len() as u8);
        proof {
            assert(self.buffer@ =~= spec_packet_bytes(timestamp, self.id, self.payloads@));
        }
        let mut bytes: Vec<u8> = Vec::new();
        stamp_header(&mut bytes, self.id + 1);
        let mut ids: Vec<u16> = Vec::new();
        core::mem::swap(&mut bytes, &mut self.buffer);
        core::mem::swap(&mut ids, &mut self.present_ids);
        let p = Packet { bytes, timestamp, id: self.id, block_ids: ids };
        self.id = self.id + 1;
        proof {
            self.payloads@ = Seq::empty();
            self.sent_ids@ = self.sent_ids@.push(p.id);
            assert(self.payloads@.flatten() =~= Seq::<u8>::empty());
            assert(self.buffer@ =~= spec_open_header(self.id) + self.payloads@.flatten());
        }
        p
    }

    /// Accepts one encoded macroblock payload for the frame stamped
    /// `timestamp`.  When the payload does not fit in the open packet,
    /// that packet is first closed and returned; the payload always
    /// ends up in the (possibly fresh) open packet, its embedded block
    /// id recorded.
    pub fn macroblock(&mut self, timestamp: u32, data: &Vec<u8>) -> (r: Option<Packet>)
        requires
            old(self).wf(),
            data@.len() >= 2,
            old(self).next_id() < u32::MAX,
        ensures
            final(self).wf(),
            ({
                let flushed = old(self).buffer_len() + data@.len() >= MAX_BUFFER_SIZE
                    || old(self).open_payloads().len() == 255;
                &&& r is Some <==> flushed
                &&& (match r {
                    Some(p) => {
                        &&& p.bytes@ == spec_packet_bytes(
                            timestamp,
                            old(self).next_id(),
                            old(self).open_payloads(),
                        )
                        &&& p.timestamp == timestamp
                        &&& p.id == old(self).next_id()
                        &&& forall|i: int|
                            0 <= i < p.block_ids@.len() ==> #[trigger] p.block_ids@[i]
                                == spec_block_id(old(self).open_payloads()[i])
                        &&& p.block_ids@.len() == old(self).open_payloads().len()
                        &&& final(self).next_id() == old(self).next_id() + 1
                        &&& final(self).open_payloads() == seq![data@]
                        &&& final(self).sent() == old(self).sent().push(old(self).next_id())
                    },
                    None => {
                        &&& final(self).next_id() == old(self).next_id()
                        &&& final(self).open_payloads() == old(self).open_payloads().push(data@)
                        &&& final(self).sent() == old(self).sent()
                    },
                })
            }),
    {
        let mut flushed: Option<Packet> = None;
        if (self.buffer.len() as u128) + (data.len() as u128) >= MAX_BUFFER_SIZE as u128
            || self.present_ids.len() == 255 {
            flushed = Some(self.flush(timestamp));
        }
        let ghost mid = *self;
        self.present_ids.push(get_block_id(data));
        let ghost id0 = self.id;
        let ghost pids0 = self.present_ids@;
        let ghost ps0 = self.payloads@;
        let ghost buf0 = self.buffer@;
        let ghost sent0 = self.sent_ids@;
        let mut i: usize = 0;
        while i < data.len()
            invariant
                i <= data@.len(),
                self.id == id0,
                self.present_ids@ == pids0,
                self.payloads@ == ps0,
                self.sent_ids@ == sent0,
                self.buffer@ == buf0 + data@.subrange(0, i as int),
            decreases data@.len() - i,
        {
            self.buffer.push(data[i]);
            proof {
                assert(self.buffer@ =~= buf0 + data@.subrange(0, i + 1));
            }
            i += 1;
        }
        proof {
            let ps = self.payloads@;
            self.payloads@ = ps.push(data@);
            ps.lemma_flatten_push(data@);
            assert(data@.subrange(0, data@.len() as int) =~= data@);
            assert(self.buffer@ =~= spec_open_header(self.id) + self.payloads@.flatten());
            assert forall|i: int| 0 <= i < self.payloads@.len() implies self.payloads@[i].len()
                >= 2 by {
                if i < ps.len() {
                    assert(mid.present_ids@[i] == spec_block_id(mid.payloads@[i]));
                }
            };
        }
        flushed
    }

    /// Ends one frame: when the open packet carries any payload it is
    /// closed and returned, and either way the packer is left with an
    /// empty open packet.
    pub fn end_of_data(&mut self, timestamp: u32) -> (r: Option<Packet>)
        requires
            old(self).wf(),
            old(self).next_id() < u32::MAX,
        ensures
            final(self).wf(),
            r is Some <==> old(self).open_payloads().len() > 0,
            match r {
                Some(p) => {
                    &&& p.bytes@ == spec_packet_bytes(
                        timestamp,
                        old(self).next_id(),
                        old(self).open_payloads(),
                    )
                    &&& p.timestamp == timestamp
                    &&& p.id == old(self).next_id()
                    &&& p.block_ids@.len() == old(self).open_payloads().len()
                    &&& forall|i: int|
                        0 <= i < p.block_ids@.len() ==> #[trigger] p.block_ids@[i] == spec_block_id(
                            old(self).open_payloads()[i],
                        )
                    &&& final(self).next_id() == old(self).next_id() + 1
                    &&& final(self).sent() == old(self).sent().push(old(self).next_id())
                },
                None => {
                    &&& final(self).next_id() == old(self).next_id()
                    &&& final(self).sent() == old(self).sent()
                },
            },
            final(self).open_payloads().len() == 0,
    {
        proof {
            if self.payloads@.len() > 0 {
                assert(self.present_ids@[0] == spec_block_id(self.payloads@[0]));
                self.payloads@.lemma_flatten_length_ge_single_element_length(0);
                self.payloads@.lemma_flatten_and_flatten_alt_are_equivalent();
                assert(self.payloads@.flatten().len() >= 2);
            } else {
                assert(self.payloads@.flatten() =~= Seq::<u8>::empty());
            }
        }
        if self.buffer.len() > PACKET_HEADER_SIZE {
            Some(self.flush(timestamp))
        } else {
            None
        }
    }

    /// Length in bytes of the open packet, header included.
    pub closed spec fn buffer_len(&self) -> int {
        self.buffer@.len() as int
    }

    /// The id the next flushed packet will carry.
    pub fn next_packet_id(&self) -> (r: u32)
        ensures
            r == self.next_id(),
    {
        self.id
    }
}

/// Packet ids are strictly increasing and consecutive: the i-th packet
/// a well-formed packer has flushed carries id i.
pub proof fn lemma_packet_ids_consecutive(b: &PacketBuilder)
    requires
        b.wf(),
    ensures
        forall|i: int| 0 <= i < b.sent().len() ==> #[trigger] b.sent()[i] == i,
        forall|i: int, j: int|
            0 <= i < j < b.sent().len() ==> b.sent()[i] < b.sent()[j],
{
}

/// Appends the ten header bytes of an open packet with id `id`.
fn stamp_header(buffer: &mut Vec<u8>, id: u32)
    ensures
        final(buffer)@ == old(buffer)@ + spec_open_header(id),
{
    let ghost prefix = buffer@;
    buffer.push(OPCODE_SEND_IMAGE_DATA);
    buffer.push(0u8);
    buffer.push(0u8);
    buffer.push(0u8);
    buffer.push(0u8);
    let (b0, b1, b2, b3) = u32_to_u8s(id);
    buffer.push(b0);
    buffer.push(b1);
    buffer.push(b2);
    buffer.push(b3);
    buffer.push(0u8);
    proof {
        assert(buffer@ =~= prefix + spec_open_header(id));
    }
}

/// The reply to an accepted handshake: the handshake-ack opcode and
/// the protocol version chosen for the session.
pub fn accept_handshake_reply(protocol_version: u8) -> (r: Vec<u8>)
    ensures
        r@ == seq![OPCODE_SEND_HANDSHAKE_ACK, protocol_version],
{
    let mut r: Vec<u8> = Vec::new();
    r.push(OPCODE_SEND_HANDSHAKE_ACK);
    r.push(protocol_version);
    proof {
        assert(r@ =~= seq![OPCODE_SEND_HANDSHAKE_ACK, protocol_version]);
    }
    r
}

/// The reply to a screen-info request: the screen-info opcode followed
/// by the serialized monitor list.
pub fn screen_info_reply(info: &Vec<u8>) -> (r: Vec<u8>)
    ensures
        r@ == seq![OPCODE_SEND_SCREEN_INFO] + info@,
{
    let mut r: Vec<u8> = Vec::new();
    r.push(OPCODE_SEND_SCREEN_INFO);
    let mut i: usize = 0;
    while i < info.len()
        invariant
            i <= info@.len(),
            r@ == seq![OPCODE_SEND_SCREEN_INFO] + info@.subrange(0, i as int),
        decreases info@.len() - i,
    {
        r.push(info[i]);
        proof {
            assert(r@ =~= seq![OPCODE_SEND_SCREEN_INFO] + info@.subrange(0, i + 1));
        }
        i += 1;
    }
    proof {
        assert(info@.subrange(0, info@.len() as int) =~= info@);
    }
    r
}

} // verus!

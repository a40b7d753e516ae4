//! Pending-ack tracking: which outbound packets are still
//! unacknowledged, and which block versions an acknowledgement
//! confirms.
//!
//! Every sent packet is recorded under its packet id together with the
//! frame timestamp and the block ids it carried.  When an
//! acknowledgement arrives, each listed packet id is resolved at most
//! once: the entry is removed as it is answered, so duplicate or
//! unknown ids are silently ignored.

use vstd::prelude::*;

use std::collections::HashMap;

verus! {

broadcast use vstd::std_specs::hash::group_hash_axioms, vstd::seq_lib::lemma_seq_contains_after_push;

/// What one acknowledged packet reports back to the change detector:
/// the frame timestamp of the send and the block ids it carried.
pub type AckEntry = (u32, Vec<u16>);

/// The entries an acknowledgement of `packet_ids` resolves against the
/// pending map `m`, in the order the ids are listed.  An id without an
/// entry contributes nothing, and a resolved entry is removed, so a
/// repeated id contributes nothing either.
pub open spec fn spec_drain(m: Map<u32, AckEntry>, packet_ids: Seq<u32>) -> Seq<AckEntry>
    decreases packet_ids.len(),
{
    if packet_ids.len() == 0 {
        Seq::empty()
    } else {
        let head = packet_ids[0];
        let rest = spec_drain(m.remove(head), packet_ids.drop_first());
        if m.contains_key(head) {
            seq![m[head]] + rest
        } else {
            rest
        }
    }
}

/// Tracks the packets sent but not yet acknowledged.
pub struct PendingAcks {
    pending: HashMap<u32, AckEntry>,
    reinit: bool,
}

impl PendingAcks {
    /// The pending map: packet id to (frame timestamp, block ids).
    pub closed spec fn pending(&self) -> Map<u32, AckEntry> {
        self.pending@
    }

    /// Whether inserts are deferred until the next initial frame.
    pub closed spec fn reinit(&self) -> bool {
        self.reinit
    }

    /// A fresh tracker with no pending packet.
    pub fn new() -> (r: Self)
        ensures
            r.pending() == Map::<u32, AckEntry>::empty(),
            !r.reinit(),
    {
        PendingAcks { pending: HashMap::new(), reinit: false }
    }

    /// Records one sent packet.  During reinitialisation only a packet
    /// of the post-reinit initial frame (timestamp zero) is accepted,
    /// and accepting it ends the reinitialisation.
    pub fn new_send(&mut self, timestamp: u32, packet_id: u32, present_ids: Vec<u16>)
        ensures
            old(self).reinit() && timestamp != 0 ==> final(self).pending() == old(self).pending()
                && final(self).reinit(),
            !(old(self).reinit() && timestamp != 0) ==> final(self).pending() == old(
                self,
            ).pending().insert(packet_id, (timestamp, present_ids)) && !final(self).reinit(),
    {
        if self.reinit && timestamp != 0 {
            return ;
        }
        self.reinit = false;
        self.pending.insert(packet_id, (timestamp, present_ids));
    }

    /// Resolves an acknowledgement: removes the entry of each listed
    /// packet id and returns the removed entries in listing order.
    /// Ids with no entry — unknown, duplicated in the list, or already
    /// acknowledged earlier — are ignored.
    pub fn new_receive(&mut self, packet_ids: &Vec<u32>) -> (acks: Vec<AckEntry>)
        ensures
            acks@ == spec_drain(old(self).pending(), packet_ids@),
            final(self).pending() == old(self).pending().remove_keys(packet_ids@.to_set()),
            final(self).reinit() == old(self).reinit(),
    {
        let ghost m0 = self.pending@;
        let mut acks: Vec<AckEntry> = Vec::new();
        let mut i: usize = 0;
        proof {
            assert(packet_ids@.skip(0) =~= packet_ids@);
            assert(acks@ + spec_drain(m0, packet_ids@) =~= spec_drain(m0, packet_ids@));
            assert(m0.remove_keys(packet_ids@.take(0).to_set()) =~= m0);
        }
        while i < packet_ids.len()
            invariant
                i <= packet_ids@.len(),
                self.reinit == old(self).reinit,
                acks@ + spec_drain(self.pending@, packet_ids@.skip(i as int)) == spec_drain(
                    m0,
                    packet_ids@,
                ),
                self.pending@ == m0.remove_keys(packet_ids@.take(i as int).to_set()),
            decreases packet_ids@.len() - i,
        {
            let pid = packet_ids[i];
            let ghost m_before = self.pending@;
            let ghost acks_before = acks@;
            proof {
                assert(packet_ids@.skip(i as int)[0] == pid);
                assert(packet_ids@.skip(i as int).drop_first() =~= packet_ids@.skip(i + 1));
            }
            match self.pending.remove(&pid) {
                Some(entry) => {
                    acks.push(entry);
                    proof {
                        assert(self.pending@ == m_before.remove(pid));
                        assert(acks@ =~= acks_before + seq![m_before[pid]]);
                        assert(acks@ + spec_drain(self.pending@, packet_ids@.skip(i + 1))
                            =~= acks_before + spec_drain(m_before, packet_ids@.skip(i as int)));
                    }
                },
                None => {
                    proof {
                        assert(self.pending@ =~= m_before.remove(pid));
                        assert(acks@ + spec_drain(self.pending@, packet_ids@.skip(i + 1))
                            =~= acks_before + spec_drain(m_before, packet_ids@.skip(i as int)));
                    }
                },
            }
            proof {
                assert(packet_ids@.take(i + 1) =~= packet_ids@.take(i as int).push(pid));
                assert(self.pending@ =~= m0.remove_keys(packet_ids@.take(i + 1).to_set()));
            }
            i += 1;
        }
        proof {
            assert(packet_ids@.skip(packet_ids@.len() as int) =~= Seq::<u32>::empty());
            assert(acks@ + spec_drain(self.pending@, Seq::<u32>::empty()) =~= acks@);
            assert(packet_ids@.take(packet_ids@.len() as int) =~= packet_ids@);
        }
        acks
    }

    /// Drops every pending entry and defers new sends until the next
    /// initial frame.
    pub fn clear(&mut self)
        ensures
            final(self).pending() == Map::<u32, AckEntry>::empty(),
            final(self).reinit(),
    {
        self.pending.clear();
        self.reinit = true;
    }
}

/// Acknowledgements for packets the tracker does not know — never
/// sent, or already acknowledged — resolve to nothing.
pub proof fn lemma_unknown_acks_ignored(m: Map<u32, AckEntry>, packet_ids: Seq<u32>)
    requires
        forall|i: int| 0 <= i < packet_ids.len() ==> !m.contains_key(#[trigger] packet_ids[i]),
    ensures
        spec_drain(m, packet_ids) == Seq::<AckEntry>::empty(),
    decreases packet_ids.len(),
{
    if packet_ids.len() > 0 {
        let head = packet_ids[0];
        assert(!m.contains_key(head));
        assert forall|i: int|
            0 <= i < packet_ids.drop_first().len() implies !m.remove(head).contains_key(
                #[trigger] packet_ids.drop_first()[i],
            ) by {
            assert(packet_ids.drop_first()[i] == packet_ids[i + 1]);
        }
        lemma_unknown_acks_ignored(m.remove(head), packet_ids.drop_first());
    }
}

/// Each sent packet is answered at most once within one
/// acknowledgement: listing a packet id again after it already
/// appeared adds nothing to what the acknowledgement resolves.
pub proof fn lemma_duplicate_ack_idempotent(
    m: Map<u32, AckEntry>,
    packet_ids: Seq<u32>,
    pid: u32,
)
    requires
        packet_ids.contains(pid),
    ensures
        spec_drain(m, packet_ids.push(pid)) == spec_drain(m, packet_ids),
    decreases packet_ids.len(),
{
    let head = packet_ids[0];
    let with_dup = packet_ids.push(pid);
    assert(with_dup[0] == head);
    assert(with_dup.drop_first() =~= packet_ids.drop_first().push(pid));
    if pid == head {
        assert(!m.remove(head).contains_key(pid));
        lemma_drain_absent_key_dropped(m.remove(head), packet_ids.drop_first(), pid);
    } else {
        assert(packet_ids.drop_first().contains(pid)) by {
            let j = choose|j: int| 0 <= j < packet_ids.len() && packet_ids[j] == pid;
            assert(packet_ids.drop_first()[j - 1] == pid);
        }
        lemma_duplicate_ack_idempotent(m.remove(head), packet_ids.drop_first(), pid);
    }
}

/// Appending a packet id that the map does not contain and that the
/// listed ids never re-insert resolves to nothing extra.
proof fn lemma_drain_absent_key_dropped(m: Map<u32, AckEntry>, packet_ids: Seq<u32>, pid: u32)
    requires
        !m.contains_key(pid),
    ensures
        spec_drain(m, packet_ids.push(pid)) == spec_drain(m, packet_ids),
    decreases packet_ids.len(),
{
    if packet_ids.len() == 0 {
        assert(packet_ids.push(pid) =~= seq![pid]);
        assert(seq![pid].drop_first() =~= Seq::<u32>::empty());
        assert(spec_drain(m, seq![pid]) == spec_drain(m.remove(pid), Seq::<u32>::empty()));
    } else {
        let head = packet_ids[0];
        assert(packet_ids.push(pid)[0] == head);
        assert(packet_ids.push(pid).drop_first() =~= packet_ids.drop_first().push(pid));
        lemma_drain_absent_key_dropped(m.remove(head), packet_ids.drop_first(), pid);
    }
}

} // verus!

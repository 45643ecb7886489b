use vstd::prelude::*;
use std::collections::HashMap;
use crate::packet::PublishPacket;

verus! {

broadcast use vstd::std_specs::hash::group_hash_axioms;

/// Why no packet id can be handed out.
#[derive(Debug, Clone, Copy, PartialEq, Eq, Structural)]
pub enum QosError {
    /// Every id from 1 to 65535 is in flight.
    FlowControlExhausted,
}

/// The id `k` places after `start` on the cycle 1, 2, ..., 65535, 1, ...
/// (0 is never an id).
pub open spec fn cycle_id(start: u16, k: int) -> u16 {
    (((start as int - 1 + k) % 65535) + 1) as u16
}

/// Every id from 1 to 65535 lies on the cycle from any start.
pub proof fn lemma_cycle_covers(start: u16, id: u16)
    requires
        1 <= start,
        1 <= id,
    ensures
        0 <= (id as int - start as int + 65535) % 65535 < 65535,
        cycle_id(start, (id as int - start as int + 65535) % 65535) == id,
{
    let k = (id as int - start as int + 65535) % 65535;
    assert((start as int - 1 + k) % 65535 == id as int - 1) by (nonlinear_arith)
        requires
            k == (id as int - start as int + 65535) % 65535,
            1 <= start <= 65535,
            1 <= id <= 65535,
    ;
}

/// The in-flight state of one session: PUBLISHes sent with qos 1 or 2 that
/// await their terminal ack, qos 2 PUBLISHes received and awaiting PUBREL,
/// and the next packet id to try.
#[derive(Debug, Clone)]
pub struct QoSManager {
    outgoing_messages: HashMap<u16, PublishPacket>,
    incoming_qos2: HashMap<u16, PublishPacket>,
    next_packet_id: u16,
}

impl QoSManager {
    /// Packet id to the PUBLISH sent under it, awaiting PUBACK or PUBCOMP.
    pub closed spec fn outgoing(self) -> Map<u16, PublishPacket> {
        self.outgoing_messages@
    }

    /// Packet id to the qos 2 PUBLISH received under it, awaiting PUBREL.
    pub closed spec fn incoming(self) -> Map<u16, PublishPacket> {
        self.incoming_qos2@
    }

    /// The id the next allocation starts from.
    pub closed spec fn next_id(self) -> u16 {
        self.next_packet_id
    }

    pub closed spec fn wf(self) -> bool {
        1 <= self.next_packet_id
    }

    pub fn new() -> (r: QoSManager)
        ensures
            r.wf(),
            r.outgoing() == Map::<u16, PublishPacket>::empty(),
            r.incoming() == Map::<u16, PublishPacket>::empty(),
            r.next_id() == 1,
    {
        QoSManager {
            outgoing_messages: HashMap::new(),
            incoming_qos2: HashMap::new(),
            next_packet_id: 1,
        }
    }

    /// When every id along the cycle from the next id is in flight, every id
    /// from 1 to 65535 is.
    pub proof fn lemma_exhausted(q: QoSManager)
        requires
            q.wf(),
            forall|j: int| 0 <= j < 65535 ==> q.outgoing().contains_key(#[trigger] cycle_id(q.next_id(), j)),
        ensures
            forall|id: u16| 1 <= id ==> #[trigger] q.outgoing().dom().contains(id),
    {
        assert forall|id: u16| 1 <= id implies #[trigger] q.outgoing().dom().contains(id) by {
            lemma_cycle_covers(q.next_id(), id);
            let k = (id as int - q.next_id() as int + 65535) % 65535;
            assert(q.outgoing().contains_key(cycle_id(q.next_id(), k)));
        }
    }

    /// Hands out the first id, from the next id on along the cycle
    /// 1..65535, that is not in flight, and moves the next id past it.
    /// Fails when all 65535 ids are in flight.
    pub fn next_packet_id(&mut self) -> (r: Result<u16, QosError>)
        requires
            old(self).wf(),
        ensures
            final(self).wf(),
            final(self).outgoing() == old(self).outgoing(),
            final(self).incoming() == old(self).incoming(),
            match r {
                Ok(id) => exists|k: int|
                    #![trigger cycle_id(old(self).next_id(), k)]
                    0 <= k < 65535 && id == cycle_id(old(self).next_id(), k) && (forall|j: int|
                        0 <= j < k ==> old(self).outgoing().contains_key(
                            #[trigger] cycle_id(old(self).next_id(), j),
                        )) && !old(self).outgoing().contains_key(id) && final(self).next_id()
                        == cycle_id(old(self).next_id(), k + 1),
                Err(_) => final(self).next_id() == old(self).next_id() && forall|j: int|
                    0 <= j < 65535 ==> old(self).outgoing().contains_key(
                        #[trigger] cycle_id(old(self).next_id(), j),
                    ),
            },
            r matches Ok(id) ==> id != 0,
    {
        let start = self.next_packet_id;
        let mut k: u32 = 0;
        let mut id: u16 = start;
        while k < 65535
            invariant
                1 <= start,
                start == old(self).next_id(),
                self.next_packet_id == start,
                self.outgoing_messages@ == old(self).outgoing(),
                self.incoming_qos2@ == old(self).incoming(),
                0 <= k <= 65535,
                k < 65535 ==> id == cycle_id(start, k as int),
                forall|j: int|
                    0 <= j < k ==> self.outgoing_messages@.contains_key(
                        #[trigger] cycle_id(start, j),
                    ),
            decreases 65535 - k,
        {
            if !self.outgoing_messages.contains_key(&id) {
                let next: u16 = if id == 65535 { 1 } else { id + 1 };
                assert(next == cycle_id(start, k + 1)) by {
                    assert(id == cycle_id(start, k as int));
                }
                self.next_packet_id = next;
                return Ok(id);
            }
            let ghost old_id = id;
            id = if id == 65535 { 1 } else { id + 1 };
            k = k + 1;
            assert(k < 65535 ==> id == cycle_id(start, k as int));
        }
        Err(QosError::FlowControlExhausted)
    }

    /// Records `packet` as sent under `packet_id` and awaiting its ack.
    pub fn store_outgoing(&mut self, packet_id: u16, packet: PublishPacket)
        requires
            old(self).wf(),
        ensures
            final(self).wf(),
            final(self).outgoing() == old(self).outgoing().insert(packet_id, packet),
            final(self).incoming() == old(self).incoming(),
            final(self).next_id() == old(self).next_id(),
    {
        self.outgoing_messages.insert(packet_id, packet);
    }

    /// Ends the flight of `packet_id` and returns what was sent under it.
    pub fn remove_outgoing(&mut self, packet_id: u16) -> (r: Option<PublishPacket>)
        requires
            old(self).wf(),
        ensures
            final(self).wf(),
            final(self).outgoing() == old(self).outgoing().remove(packet_id),
            final(self).incoming() == old(self).incoming(),
            final(self).next_id() == old(self).next_id(),
            match r {
                Some(p) => old(self).outgoing().contains_key(packet_id) && p == old(
                    self,
                ).outgoing()[packet_id],
                None => !old(self).outgoing().contains_key(packet_id),
            },
    {
        self.outgoing_messages.remove(&packet_id)
    }

    /// Records a received qos 2 PUBLISH; false, and nothing changes, when
    /// `packet_id` is already recorded (a retransmission).
    pub fn store_incoming_qos2(&mut self, packet_id: u16, packet: PublishPacket) -> (r: bool)
        requires
            old(self).wf(),
        ensures
            final(self).wf(),
            r == !old(self).incoming().contains_key(packet_id),
            r ==> final(self).incoming() == old(self).incoming().insert(packet_id, packet),
            !r ==> final(self).incoming() == old(self).incoming(),
            final(self).outgoing() == old(self).outgoing(),
            final(self).next_id() == old(self).next_id(),
    {
        if self.incoming_qos2.contains_key(&packet_id) {
            false
        } else {
            self.incoming_qos2.insert(packet_id, packet);
            true
        }
    }

    /// Releases the qos 2 PUBLISH received under `packet_id`, if any.
    pub fn remove_incoming_qos2(&mut self, packet_id: u16) -> (r: Option<PublishPacket>)
        requires
            old(self).wf(),
        ensures
            final(self).wf(),
            final(self).incoming() == old(self).incoming().remove(packet_id),
            final(self).outgoing() == old(self).outgoing(),
            final(self).next_id() == old(self).next_id(),
            match r {
                Some(p) => old(self).incoming().contains_key(packet_id) && p == old(
                    self,
                ).incoming()[packet_id],
                None => !old(self).incoming().contains_key(packet_id),
            },
    {
        self.incoming_qos2.remove(&packet_id)
    }
}

impl Default for QoSManager {
    fn default() -> (r: QoSManager)
        ensures
            r.wf(),
            r.outgoing() == Map::<u16, PublishPacket>::empty(),
            r.incoming() == Map::<u16, PublishPacket>::empty(),
            r.next_id() == 1,
    {
        QoSManager::new()
    }
}

} // verus!

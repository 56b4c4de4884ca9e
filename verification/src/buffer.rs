//! Frames and the bounded FIFO queues that hold them.

use vstd::prelude::*;

verus! {

/// Mathematical value of a frame.
pub ghost struct AbsPacket {
    pub sequence: u32,
    pub ack: u32,
    pub ack_bits: u32,
    pub data: Seq<u8>,
    pub timestamp: u64,
    pub attempts: u8,
}

/// One frame. `data` holds the wire bytes of an outbound frame or the decoded
/// payload of an inbound one; `timestamp` is the instant of the last
/// transmission, in milliseconds of the caller's clock; `attempts` counts
/// retransmissions.
#[derive(Debug)]
pub struct Packet {
    pub sequence: u32,
    pub ack: u32,
    pub ack_bits: u32,
    pub data: Vec<u8>,
    pub timestamp: u64,
    pub attempts: u8,
}

impl View for Packet {
    type V = AbsPacket;

    open spec fn view(&self) -> AbsPacket {
        AbsPacket {
            sequence: self.sequence,
            ack: self.ack,
            ack_bits: self.ack_bits,
            data: self.data@,
            timestamp: self.timestamp,
            attempts: self.attempts,
        }
    }
}

impl Clone for Packet {
    fn clone(&self) -> (r: Self)
        ensures
            r@ == self@,
    {
        let d = self.data.clone();
        proof {
            assert forall|i: int| 0 <= i < self.data@.len() implies d@[i] == self.data@[i] by {
                assert(cloned::<u8>(self.data@[i], d@[i]));
            }
            assert(d@ =~= self.data@);
        }
        Packet {
            sequence: self.sequence,
            ack: self.ack,
            ack_bits: self.ack_bits,
            data: d,
            timestamp: self.timestamp,
            attempts: self.attempts,
        }
    }
}

/// The frames of a queue, as mathematical values, oldest first.
pub open spec fn queue_model(q: Seq<Packet>) -> Seq<AbsPacket> {
    q.map_values(|p: Packet| p@)
}

/// Two bounded FIFO queues of frames, one for each direction, sharing one
/// maximum length. A push onto a full queue is rejected; nothing is evicted.
pub struct PacketBuffer {
    pub incoming: std::collections::VecDeque<Packet>,
    pub outgoing: std::collections::VecDeque<Packet>,
    pub max_size: usize,
}

impl PacketBuffer {
    /// The incoming queue, oldest first.
    pub open spec fn inc(&self) -> Seq<AbsPacket> {
        queue_model(self.incoming@)
    }

    /// The outgoing queue, oldest first.
    pub open spec fn out(&self) -> Seq<AbsPacket> {
        queue_model(self.outgoing@)
    }

    /// Both queues are within the shared bound.
    pub open spec fn wf(&self) -> bool {
        self.inc().len() <= self.max_size && self.out().len() <= self.max_size
    }

    /// Two empty queues with the given bound.
    pub fn new(max_size: usize) -> (r: Self)
        ensures
            r.inc() == Seq::<AbsPacket>::empty(),
            r.out() == Seq::<AbsPacket>::empty(),
            r.max_size == max_size,
            r.wf(),
    {
        let r = PacketBuffer {
            incoming: std::collections::VecDeque::new(),
            outgoing: std::collections::VecDeque::new(),
            max_size,
        };
        proof {
            assert(r.inc() =~= Seq::<AbsPacket>::empty());
            assert(r.out() =~= Seq::<AbsPacket>::empty());
        }
        r
    }

    /// Append to the incoming queue unless it is full; report acceptance.
    pub fn push_incoming(&mut self, packet: Packet) -> (accepted: bool)
        ensures
            accepted == (old(self).inc().len() < old(self).max_size),
            accepted ==> final(self).inc() == old(self).inc().push(packet@),
            !accepted ==> final(self).inc() == old(self).inc(),
            final(self).out() == old(self).out(),
            final(self).max_size == old(self).max_size,
            old(self).wf() ==> final(self).wf(),
    {
        if self.incoming.len() < self.max_size {
            self.incoming.push_back(packet);
            proof {
                assert(self.inc() =~= old(self).inc().push(packet@));
            }
            true
        } else {
            false
        }
    }

    /// Append to the outgoing queue unless it is full; report acceptance.
    pub fn push_outgoing(&mut self, packet: Packet) -> (accepted: bool)
        ensures
            accepted == (old(self).out().len() < old(self).max_size),
            accepted ==> final(self).out() == old(self).out().push(packet@),
            !accepted ==> final(self).out() == old(self).out(),
            final(self).inc() == old(self).inc(),
            final(self).max_size == old(self).max_size,
            old(self).wf() ==> final(self).wf(),
    {
        if self.outgoing.len() < self.max_size {
            self.outgoing.push_back(packet);
            proof {
                assert(self.out() =~= old(self).out().push(packet@));
            }
            true
        } else {
            false
        }
    }

    /// Remove and return the oldest incoming frame, if any.
    pub fn pop_incoming(&mut self) -> (r: Option<Packet>)
        ensures
            old(self).inc().len() == 0 ==> r is None && final(self).inc() == old(self).inc(),
            old(self).inc().len() > 0 ==> r is Some && r.unwrap()@ == old(self).inc()[0]
                && final(self).inc() == old(self).inc().subrange(
                1,
                old(self).inc().len() as int,
            ),
            final(self).out() == old(self).out(),
            final(self).max_size == old(self).max_size,
            old(self).wf() ==> final(self).wf(),
    {
        let r = self.incoming.pop_front();
        proof {
            if old(self).inc().len() > 0 {
                assert(self.inc() =~= old(self).inc().subrange(1, old(self).inc().len() as int));
            }
        }
        r
    }

    /// Remove and return the oldest outgoing frame, if any.
    pub fn pop_outgoing(&mut self) -> (r: Option<Packet>)
        ensures
            old(self).out().len() == 0 ==> r is None && final(self).out() == old(self).out(),
            old(self).out().len() > 0 ==> r is Some && r.unwrap()@ == old(self).out()[0]
                && final(self).out() == old(self).out().subrange(
                1,
                old(self).out().len() as int,
            ),
            final(self).inc() == old(self).inc(),
            final(self).max_size == old(self).max_size,
            old(self).wf() ==> final(self).wf(),
    {
        let r = self.outgoing.pop_front();
        proof {
            if old(self).out().len() > 0 {
                assert(self.out() =~= old(self).out().subrange(1, old(self).out().len() as int));
            }
        }
        r
    }

    /// The oldest incoming frame, left in place.
    pub fn peek_incoming(&self) -> (r: Option<&Packet>)
        ensures
            self.inc().len() == 0 ==> r is None,
            self.inc().len() > 0 ==> r is Some && r.unwrap()@ == self.inc()[0],
    {
        if self.incoming.len() > 0 {
            Some(&self.incoming[0])
        } else {
            None
        }
    }

    /// The oldest outgoing frame, left in place.
    pub fn peek_outgoing(&self) -> (r: Option<&Packet>)
        ensures
            self.out().len() == 0 ==> r is None,
            self.out().len() > 0 ==> r is Some && r.unwrap()@ == self.out()[0],
    {
        if self.outgoing.len() > 0 {
            Some(&self.outgoing[0])
        } else {
            None
        }
    }
}

} // verus!

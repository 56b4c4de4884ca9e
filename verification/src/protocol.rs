//! The polling engine: framing, the unacked-frame store with ack-bit
//! synthesis, the received-sequence window, the connection state machine and
//! retransmission. The caller owns the socket and the clock: it hands every
//! received datagram and the time, in milliseconds, to `update`, and sends
//! the datagrams `update` returns.

use vstd::prelude::*;

use crate::ProtocolState;
use crate::TransportError;
use crate::buffer::{AbsPacket, Packet, PacketBuffer};
use crate::codec::{decode_frame, encode_frame, frame_bytes, frame_plain, MAX_PAYLOAD};
use crate::compress::zlib_bytes;
use crate::congestion::{after_ack, after_rtt, initial_congestion, CongestionControl, rto_spec};
use crate::codec::COUNTER_LEN;
use crate::encryption::{chacha_seal_bytes, nonce_bytes, EncryptionManager, KEY_LEN,
    MAX_SEAL_INPUT, NONCE_LIMIT};
use crate::wire::{seq_newer, u64_of_be, wrap_add32, wrap_sub32, is_newer, wrapping_distance,
    wrapping_sum, lemma_wrap_sub_inverse};

verus! {

/// A reliable frame is retransmitted at most this often before the
/// connection gives it up.
pub const MAX_ATTEMPTS: u8 = 5;

/// Handshake and disconnect grace period, milliseconds.
pub const DEFAULT_TIMEOUT_MS: u64 = 5000;

/// Shared bound of the incoming and outgoing queues.
pub const BUFFER_CAP: usize = 1024;

/// Replay horizon: counters this far behind the highest accepted one are
/// rejected.
pub const REPLAY_WINDOW: u64 = 256;

/// Received sequences this far behind the cumulative ack leave the received
/// window: they are far outside ack-bit range, and copies that old are caught
/// by the counter replay horizon.
pub const RECEIVED_HORIZON: u32 = 1024;

/// Control byte of a handshake request.
pub const CTRL_SYN: u8 = 1;

/// Control byte of a handshake answer.
pub const CTRL_SYN_ACK: u8 = 2;

/// Control byte of a disconnect notice.
pub const CTRL_FIN: u8 = 3;

/// A payload of exactly one control byte steers the state machine and is
/// not delivered to the application.
pub open spec fn is_control(p: Seq<u8>) -> bool {
    p.len() == 1 && (p[0] == CTRL_SYN || p[0] == CTRL_SYN_ACK || p[0] == CTRL_FIN)
}

/// An ack with its selective bits covers `s` when `s` is the cumulative ack
/// itself or one of the 32 sequences before it whose bit is set.
pub open spec fn covered(ack: u32, ack_bits: u32, s: u32) -> bool {
    s == ack || (exists|i: u32|
        i < 32 && (ack_bits >> i) & 1 == 1 && s == wrap_sub32(ack, wrap_add32(i, 1)))
}

/// Setting one bit leaves every other bit alone.
proof fn lemma_set_bit(bits: u32, j: u32, res: u32)
    by (bit_vector)
    requires
        j < 32,
        res == bits | (1u32 << j),
    ensures
        (res >> j) & 1 == 1,
        forall|i: u32| i < 32 && i != j ==> (res >> i) & 1 == (bits >> i) & 1,
{
}

/// Two masks that agree on each of the thirty-two bits are equal.
proof fn lemma_mask_bits_unique(b1: u32, b2: u32)
    by (bit_vector)
    requires
        (b1 >> 0u32) & 1 == (b2 >> 0u32) & 1,
        (b1 >> 1u32) & 1 == (b2 >> 1u32) & 1,
        (b1 >> 2u32) & 1 == (b2 >> 2u32) & 1,
        (b1 >> 3u32) & 1 == (b2 >> 3u32) & 1,
        (b1 >> 4u32) & 1 == (b2 >> 4u32) & 1,
        (b1 >> 5u32) & 1 == (b2 >> 5u32) & 1,
        (b1 >> 6u32) & 1 == (b2 >> 6u32) & 1,
        (b1 >> 7u32) & 1 == (b2 >> 7u32) & 1,
        (b1 >> 8u32) & 1 == (b2 >> 8u32) & 1,
        (b1 >> 9u32) & 1 == (b2 >> 9u32) & 1,
        (b1 >> 10u32) & 1 == (b2 >> 10u32) & 1,
        (b1 >> 11u32) & 1 == (b2 >> 11u32) & 1,
        (b1 >> 12u32) & 1 == (b2 >> 12u32) & 1,
        (b1 >> 13u32) & 1 == (b2 >> 13u32) & 1,
        (b1 >> 14u32) & 1 == (b2 >> 14u32) & 1,
        (b1 >> 15u32) & 1 == (b2 >> 15u32) & 1,
        (b1 >> 16u32) & 1 == (b2 >> 16u32) & 1,
        (b1 >> 17u32) & 1 == (b2 >> 17u32) & 1,
        (b1 >> 18u32) & 1 == (b2 >> 18u32) & 1,
        (b1 >> 19u32) & 1 == (b2 >> 19u32) & 1,
        (b1 >> 20u32) & 1 == (b2 >> 20u32) & 1,
        (b1 >> 21u32) & 1 == (b2 >> 21u32) & 1,
        (b1 >> 22u32) & 1 == (b2 >> 22u32) & 1,
        (b1 >> 23u32) & 1 == (b2 >> 23u32) & 1,
        (b1 >> 24u32) & 1 == (b2 >> 24u32) & 1,
        (b1 >> 25u32) & 1 == (b2 >> 25u32) & 1,
        (b1 >> 26u32) & 1 == (b2 >> 26u32) & 1,
        (b1 >> 27u32) & 1 == (b2 >> 27u32) & 1,
        (b1 >> 28u32) & 1 == (b2 >> 28u32) & 1,
        (b1 >> 29u32) & 1 == (b2 >> 29u32) & 1,
        (b1 >> 30u32) & 1 == (b2 >> 30u32) & 1,
        (b1 >> 31u32) & 1 == (b2 >> 31u32) & 1,
    ensures
        b1 == b2,
{
}

/// A bit is either clear or set.
proof fn lemma_bit_cases(b: u32, i: u32)
    by (bit_vector)
    ensures
        (b >> i) & 1 == 0 || (b >> i) & 1 == 1,
{
}

/// Every bit of zero is clear.
proof fn lemma_zero_bits()
    by (bit_vector)
    ensures
        forall|i: u32| i < 32 ==> (0u32 >> i) & 1 == 0,
{
}

/// The transport over one point-to-point connection.
pub struct NetworkProtocol {
    /// Where the connection stands.
    pub state: ProtocolState,
    /// Inbound and outbound frame queues.
    pub buffer: PacketBuffer,
    /// Sequence number of the next outbound frame.
    pub sequence_number: u32,
    /// Highest peer sequence observed, under the modulo ordering.
    pub ack_number: u32,
    /// Congestion controller and round-trip estimator.
    pub congestion: CongestionControl,
    /// AEAD state.
    pub encryption: EncryptionManager,
    /// Outbound reliable frames not yet acknowledged nor given up.
    pub reliable_packets: Vec<Packet>,
    /// Peer sequences received so far; feeds the ack bits and the dedup.
    pub received_window: Vec<u32>,
    /// Highest counter accepted from the peer, for replay rejection.
    pub highest_counter: u64,
    /// Whether any counter has been accepted yet.
    pub counter_seen: bool,
    /// Handshake and disconnect grace period, milliseconds.
    pub timeout_ms: u64,
    /// When the current Connecting or Disconnecting phase began.
    pub phase_started_ms: u64,
}

impl NetworkProtocol {
    /// The unacked store, as mathematical values, oldest first.
    pub open spec fn reliable_model(&self) -> Seq<AbsPacket> {
        self.reliable_packets@.map_values(|p: Packet| p@)
    }

    /// Some unacked frame carries this sequence.
    pub open spec fn has_reliable(&self, s: u32) -> bool {
        exists|i: int| 0 <= i < self.reliable_model().len() && self.reliable_model()[i].sequence == s
    }

    /// This peer sequence has been received.
    pub open spec fn has_received(&self, s: u32) -> bool {
        self.received_window@.contains(s)
    }

    /// A counter passes the replay window.
    pub open spec fn replay_ok(&self, n: u64) -> bool {
        !self.counter_seen || n + REPLAY_WINDOW > self.highest_counter
    }

    /// Queues bounded, estimator sane, key the right length, the unacked
    /// store free of duplicate sequences, and every unacked frame still
    /// below the attempt bound.
    pub open spec fn wf(&self) -> bool {
        &&& self.buffer.wf()
        &&& self.buffer.max_size == BUFFER_CAP
        &&& self.congestion.wf()
        &&& self.encryption.wf()
        &&& (forall|i: int, j: int|
            0 <= i < j < self.reliable_model().len() ==> self.reliable_model()[i].sequence
                != self.reliable_model()[j].sequence)
        &&& (forall|i: int|
            0 <= i < self.reliable_model().len() ==> self.reliable_model()[i].attempts
                <= MAX_ATTEMPTS)
    }

    /// A fresh idle transport over the given 256-bit key. Keys are
    /// provisioned out of band; both peers must hold the same one.
    pub fn new(key: Vec<u8>) -> (r: Self)
        requires
            key@.len() == KEY_LEN,
        ensures
            r.wf(),
            r.state == ProtocolState::Idle,
            r.sequence_number == 0,
            r.ack_number == 0,
            r.buffer.inc().len() == 0,
            r.buffer.out().len() == 0,
            r.reliable_model().len() == 0,
            r.received_window@.len() == 0,
            r.encryption.key@ == key@,
            r.encryption.nonce_sequence == 0,
            r.timeout_ms == DEFAULT_TIMEOUT_MS,
            r.congestion == initial_congestion(),
            r.highest_counter == 0,
            !r.counter_seen,
            r.phase_started_ms == 0,
    {
        let r = NetworkProtocol {
            state: ProtocolState::Idle,
            buffer: PacketBuffer::new(BUFFER_CAP),
            sequence_number: 0,
            ack_number: 0,
            congestion: CongestionControl::new(),
            encryption: EncryptionManager::from_key(key),
            reliable_packets: Vec::new(),
            received_window: Vec::new(),
            highest_counter: 0,
            counter_seen: false,
            timeout_ms: DEFAULT_TIMEOUT_MS,
            phase_started_ms: 0,
        };
        proof {
            assert(r.reliable_model() =~= Seq::<AbsPacket>::empty());
        }
        r
    }

    /// Read-only view of where the connection stands.
    pub fn state(&self) -> (r: ProtocolState)
        ensures
            r == self.state,
    {
        self.state
    }

    /// Whether this peer sequence has been received.
    fn contains_received(&self, s: u32) -> (r: bool)
        ensures
            r == self.has_received(s),
    {
        let mut i: usize = 0;
        while i < self.received_window.len()
            invariant
                0 <= i <= self.received_window@.len(),
                forall|j: int| 0 <= j < i ==> self.received_window@[j] != s,
            decreases self.received_window@.len() - i,
        {
            if self.received_window[i] == s {
                return true;
            }
            i = i + 1;
        }
        false
    }

    /// The selective-ack mask: bit `i` is set exactly when the peer
    /// sequence `ack_number - (i + 1)`, with wrap-around, has been received.
    pub fn generate_ack_bits(&self) -> (r: u32)
        ensures
            forall|i: u32|
                i < 32 ==> (((r >> i) & 1 == 1) <==> self.has_received(
                    wrap_sub32(self.ack_number, wrap_add32(i, 1)),
                )),
    {
        let mut bits: u32 = 0;
        let mut j: u32 = 0;
        proof {
            lemma_zero_bits();
        }
        while j < 32
            invariant
                j <= 32,
                forall|i: u32|
                    i < j ==> (((bits >> i) & 1 == 1) <==> self.has_received(
                        wrap_sub32(self.ack_number, wrap_add32(i, 1)),
                    )),
                forall|i: u32| j <= i < 32 ==> (bits >> i) & 1 == 0,
            decreases 32 - j,
        {
            let target = self.ack_number.wrapping_sub(wrapping_sum(j, 1));
            if self.contains_received(target) {
                let updated = bits | (1u32 << j);
                proof {
                    lemma_set_bit(bits, j, updated);
                }
                bits = updated;
            }
            j = j + 1;
        }
        bits
    }

    /// Whether an ack with its bits covers the sequence `s`.
    fn is_covered(ack: u32, ack_bits: u32, s: u32) -> (r: bool)
        ensures
            r == covered(ack, ack_bits, s),
    {
        if s == ack {
            return true;
        }
        let d = wrapping_distance(ack, s);
        if 1 <= d && d <= 32 {
            let bit = (ack_bits >> (d - 1)) & 1;
            proof {
                lemma_wrap_sub_inverse(ack, s);
                if bit == 1 {
                    assert(covered(ack, ack_bits, s)) by {
                        let i = (d - 1) as u32;
                        assert(i < 32 && (ack_bits >> i) & 1 == 1 && s == wrap_sub32(
                            ack,
                            wrap_add32(i, 1),
                        ));
                    }
                } else {
                    assert(!covered(ack, ack_bits, s)) by {
                        assert forall|i: u32|
                            i < 32 && (ack_bits >> i) & 1 == 1 implies s != wrap_sub32(
                            ack,
                            wrap_add32(i, 1),
                        ) by {
                            if s == wrap_sub32(ack, wrap_add32(i, 1)) {
                                lemma_wrap_sub_inverse(ack, wrap_add32(i, 1));
                                assert(wrap_sub32(ack, s) == wrap_add32(i, 1));
                            }
                        }
                    }
                }
            }
            bit == 1
        } else {
            proof {
                assert(!covered(ack, ack_bits, s)) by {
                    assert forall|i: u32|
                        i < 32 && (ack_bits >> i) & 1 == 1 implies s != wrap_sub32(
                        ack,
                        wrap_add32(i, 1),
                    ) by {
                        if s == wrap_sub32(ack, wrap_add32(i, 1)) {
                            lemma_wrap_sub_inverse(ack, wrap_add32(i, 1));
                            assert(wrap_sub32(ack, s) == wrap_add32(i, 1));
                        }
                    }
                }
            }
            false
        }
    }

    /// Process one cumulative ack with its selective bits: drop every
    /// covered frame from the unacked store, feed the round-trip estimator
    /// one sample per covered frame that was never retransmitted, and grow
    /// the congestion window once per covered frame.
    #[verifier::rlimit(100)]
    #[verifier::spinoff_prover]
    pub fn handle_ack(&mut self, ack: u32, ack_bits: u32, now_ms: u64)
        requires
            old(self).wf(),
        ensures
            final(self).wf(),
            forall|s: u32|
                final(self).has_reliable(s) <==> (old(self).has_reliable(s) && !covered(
                    ack,
                    ack_bits,
                    s,
                )),
            forall|x: AbsPacket|
                final(self).reliable_model().contains(x) ==> old(self).reliable_model().contains(
                    x,
                ),
            final(self).congestion.window_size >= old(self).congestion.window_size,
            final(self).congestion.threshold == old(self).congestion.threshold,
            final(self).congestion.last_window_decrease == old(self).congestion.last_window_decrease,
            final(self).congestion == ack_fold(
                old(self).congestion,
                covered_frames(old(self).reliable_model(), ack, ack_bits),
                now_ms,
            ),
            final(self).state == old(self).state,
            final(self).buffer.inc() == old(self).buffer.inc(),
            final(self).buffer.out() == old(self).buffer.out(),
            final(self).sequence_number == old(self).sequence_number,
            final(self).ack_number == old(self).ack_number,
            final(self).encryption == old(self).encryption,
            final(self).received_window == old(self).received_window,
            final(self).highest_counter == old(self).highest_counter,
            final(self).counter_seen == old(self).counter_seen,
            final(self).timeout_ms == old(self).timeout_ms,
            final(self).phase_started_ms == old(self).phase_started_ms,
    {
        let mut kept: Vec<Packet> = Vec::new();
        let n = self.reliable_packets.len();
        let mut i: usize = 0;
        proof {
            assert(old(self).reliable_model().subrange(0, n as int) =~= old(
                self,
            ).reliable_model());
        }
        while i < n
            invariant
                old(self).wf(),
                n == old(self).reliable_model().len(),
                0 <= i <= n,
                self.congestion.wf(),
                ack_fold(
                    self.congestion,
                    covered_frames(
                        old(self).reliable_model().subrange(i as int, n as int),
                        ack,
                        ack_bits,
                    ),
                    now_ms,
                ) == ack_fold(
                    old(self).congestion,
                    covered_frames(old(self).reliable_model(), ack, ack_bits),
                    now_ms,
                ),
                self.congestion.window_size >= old(self).congestion.window_size,
                self.congestion.threshold == old(self).congestion.threshold,
                self.congestion.last_window_decrease == old(self).congestion.last_window_decrease,
                self.reliable_packets == old(self).reliable_packets,
                self.state == old(self).state,
                self.buffer == old(self).buffer,
                self.sequence_number == old(self).sequence_number,
                self.ack_number == old(self).ack_number,
                self.encryption == old(self).encryption,
                self.received_window == old(self).received_window,
                self.highest_counter == old(self).highest_counter,
                self.counter_seen == old(self).counter_seen,
                self.timeout_ms == old(self).timeout_ms,
                self.phase_started_ms == old(self).phase_started_ms,
                queue_kept_ok(kept@, old(self).reliable_packets@, i as int, ack, ack_bits),
            decreases n - i,
        {
            let p_covered = Self::is_covered(ack, ack_bits, self.reliable_packets[i].sequence);
            let attempts = self.reliable_packets[i].attempts;
            let sent_at = self.reliable_packets[i].timestamp;
            if p_covered {
                let ghost c_before = self.congestion;
                if attempts == 0 {
                    let sample = if now_ms >= sent_at {
                        now_ms - sent_at
                    } else {
                        0
                    };
                    self.congestion.update_rtt(sample);
                }
                self.congestion.on_ack();
                proof {
                    let model = old(self).reliable_model();
                    assert(model[i as int] == old(self).reliable_packets@[i as int]@);
                    assert(covered(ack, ack_bits, model[i as int].sequence));
                    assert(self.congestion == ack_step(c_before, model[i as int], now_ms));
                    lemma_fold_skip_covered(model, i as int, ack, ack_bits, c_before, now_ms);
                }
            } else {
                let ghost prev = kept@;
                let copy = self.reliable_packets[i].clone();
                kept.push(copy);
                proof {
                    let orig = old(self).reliable_packets@;
                    let model = old(self).reliable_model();
                    assert(kept@[kept@.len() - 1]@ == orig[i as int]@);
                    assert(model[i as int] == orig[i as int]@);
                    assert(kept@[kept@.len() - 1]@.sequence == orig[i as int]@.sequence);
                    assert(kept@[kept@.len() - 1]@.attempts <= MAX_ATTEMPTS);
                    assert forall|k: int| 0 <= k < kept@.len() implies (exists|j: int|
                        0 <= j < i + 1 && #[trigger] kept@[k]@ == orig[j]@) by {
                        if k < prev.len() {
                            let j = choose|j: int| 0 <= j < i && prev[k]@ == orig[j]@;
                            assert(0 <= j < i + 1 && kept@[k]@ == orig[j]@);
                        } else {
                            assert(kept@[k]@ == orig[i as int]@);
                        }
                    }
                    assert forall|j: int|
                        0 <= j < i + 1 && !covered(ack, ack_bits, orig[j]@.sequence) implies (
                    exists|k: int|
                        0 <= k < kept@.len() && #[trigger] kept@[k]@.sequence
                            == orig[j]@.sequence) by {
                        if j < i {
                            let k = choose|k: int|
                                0 <= k < prev.len() && #[trigger] prev[k]@.sequence
                                    == orig[j]@.sequence;
                            assert(kept@[k]@.sequence == orig[j]@.sequence);
                        } else {
                            assert(kept@[kept@.len() - 1]@.sequence == orig[j]@.sequence);
                        }
                    }
                    assert forall|k1: int, k2: int| 0 <= k1 < k2 < kept@.len() implies kept@[k1]@.sequence
                        != kept@[k2]@.sequence by {
                        if k2 == kept@.len() - 1 {
                            let j = choose|j: int| 0 <= j < i && prev[k1]@ == orig[j]@;
                            assert(model[j] == orig[j]@);
                            assert(model[j].sequence != model[i as int].sequence);
                            assert(orig[j]@.sequence != orig[i as int]@.sequence);
                        }
                    }
                    assert(!covered(ack, ack_bits, model[i as int].sequence));
                    lemma_fold_skip_uncovered(
                        model,
                        i as int,
                        ack,
                        ack_bits,
                        self.congestion,
                        now_ms,
                    );
                }
            }
            i = i + 1;
        }
        proof {
            assert(old(self).reliable_model().subrange(n as int, n as int)
                =~= Seq::<AbsPacket>::empty());
        }
        self.reliable_packets = kept;
        proof {
            let orig = old(self).reliable_packets@;
            let post = self.reliable_model();
            let pre = old(self).reliable_model();
            assert forall|s: u32|
                self.has_reliable(s) <==> (old(self).has_reliable(s) && !covered(
                    ack,
                    ack_bits,
                    s,
                )) by {
                if old(self).has_reliable(s) && !covered(ack, ack_bits, s) {
                    let j = choose|j: int| 0 <= j < pre.len() && pre[j].sequence == s;
                    assert(orig[j]@.sequence == s);
                    let k = choose|k: int|
                        0 <= k < kept@.len() && kept@[k]@.sequence == orig[j]@.sequence;
                    assert(post[k].sequence == s);
                }
                if self.has_reliable(s) {
                    let k = choose|k: int| 0 <= k < post.len() && post[k].sequence == s;
                    assert(kept@[k]@.sequence == s);
                    assert(!covered(ack, ack_bits, s));
                    let j = choose|j: int| 0 <= j < orig.len() && kept@[k]@ == orig[j]@;
                    assert(pre[j].sequence == s);
                }
            }
            assert forall|x: AbsPacket|
                self.reliable_model().contains(x) implies old(self).reliable_model().contains(
                x,
            ) by {
                let k = choose|k: int| 0 <= k < post.len() && post[k] == x;
                assert(kept@[k]@ == x);
                let j = choose|j: int| 0 <= j < orig.len() && kept@[k]@ == orig[j]@;
                assert(pre[j] == x);
            }
        }
    }

    /// Drop the unacked frame carrying this sequence, if any.
    #[verifier::rlimit(40)]
    fn remove_reliable(&mut self, s: u32)
        requires
            old(self).wf(),
        ensures
            final(self).wf(),
            forall|q: u32|
                final(self).has_reliable(q) <==> (old(self).has_reliable(q) && q != s),
            final(self).state == old(self).state,
            final(self).buffer == old(self).buffer,
            final(self).sequence_number == old(self).sequence_number,
            final(self).ack_number == old(self).ack_number,
            final(self).congestion == old(self).congestion,
            final(self).encryption == old(self).encryption,
            final(self).received_window == old(self).received_window,
            final(self).highest_counter == old(self).highest_counter,
            final(self).counter_seen == old(self).counter_seen,
            final(self).timeout_ms == old(self).timeout_ms,
            final(self).phase_started_ms == old(self).phase_started_ms,
    {
        let mut kept: Vec<Packet> = Vec::new();
        let n = self.reliable_packets.len();
        let mut i: usize = 0;
        while i < n
            invariant
                old(self).wf(),
                n == old(self).reliable_model().len(),
                0 <= i <= n,
                self == old(self),
                forall|k: int|
                    0 <= k < kept@.len() ==> exists|j: int|
                        0 <= j < i && #[trigger] kept@[k]@ == old(self).reliable_packets@[j]@,
                forall|k: int| 0 <= k < kept@.len() ==> #[trigger] kept@[k]@.sequence != s,
                forall|j: int|
                    0 <= j < i && #[trigger] old(self).reliable_packets@[j]@.sequence != s
                        ==> exists|k: int|
                        0 <= k < kept@.len() && #[trigger] kept@[k]@.sequence == old(self).reliable_packets@[j]@.sequence,
                forall|k1: int, k2: int|
                    0 <= k1 < k2 < kept@.len() ==> kept@[k1]@.sequence != kept@[k2]@.sequence,
                forall|k: int| 0 <= k < kept@.len() ==> #[trigger] kept@[k]@.attempts
                    <= MAX_ATTEMPTS,
            decreases n - i,
        {
            let keep_it = self.reliable_packets[i].sequence != s;
            if keep_it {
                let ghost prev = kept@;
                let copy = self.reliable_packets[i].clone();
                kept.push(copy);
                proof {
                    let orig = old(self).reliable_packets@;
                    let model = old(self).reliable_model();
                    assert(kept@[kept@.len() - 1]@ == orig[i as int]@);
                    assert(model[i as int] == orig[i as int]@);
                    assert forall|k: int| 0 <= k < kept@.len() implies (exists|j: int|
                        0 <= j < i + 1 && #[trigger] kept@[k]@ == orig[j]@) by {
                        if k < prev.len() {
                            let j = choose|j: int| 0 <= j < i && prev[k]@ == orig[j]@;
                            assert(0 <= j < i + 1 && kept@[k]@ == orig[j]@);
                        } else {
                            assert(kept@[k]@ == orig[i as int]@);
                        }
                    }
                    assert forall|j: int|
                        0 <= j < i + 1 && orig[j]@.sequence != s implies (exists|k: int|
                        0 <= k < kept@.len() && #[trigger] kept@[k]@.sequence
                            == orig[j]@.sequence) by {
                        if j < i {
                            let k = choose|k: int|
                                0 <= k < prev.len() && #[trigger] prev[k]@.sequence
                                    == orig[j]@.sequence;
                            assert(kept@[k]@.sequence == orig[j]@.sequence);
                        } else {
                            assert(kept@[kept@.len() - 1]@.sequence == orig[j]@.sequence);
                        }
                    }
                    assert forall|k1: int, k2: int| 0 <= k1 < k2 < kept@.len() implies kept@[k1]@.sequence
                        != kept@[k2]@.sequence by {
                        if k2 == kept@.len() - 1 {
                            let j = choose|j: int| 0 <= j < i && prev[k1]@ == orig[j]@;
                            assert(model[j] == orig[j]@);
                            assert(model[j].sequence != model[i as int].sequence);
                        }
                    }
                }
            }
            i = i + 1;
        }
        self.reliable_packets = kept;
        proof {
            let orig = old(self).reliable_packets@;
            let post = self.reliable_model();
            let pre = old(self).reliable_model();
            assert forall|q: u32|
                self.has_reliable(q) <==> (old(self).has_reliable(q) && q != s) by {
                if old(self).has_reliable(q) && q != s {
                    let j = choose|j: int| 0 <= j < pre.len() && pre[j].sequence == q;
                    assert(orig[j]@.sequence == q);
                    let k = choose|k: int|
                        0 <= k < kept@.len() && kept@[k]@.sequence == orig[j]@.sequence;
                    assert(post[k].sequence == q);
                }
                if self.has_reliable(q) {
                    let k = choose|k: int| 0 <= k < post.len() && post[k].sequence == q;
                    assert(kept@[k]@.sequence == q);
                    let j = choose|j: int| 0 <= j < orig.len() && kept@[k]@ == orig[j]@;
                    assert(pre[j].sequence == q);
                }
            }
        }
    }

    /// Whether the selective-ack mask `b` is the one this state's received
    /// window calls for.
    pub open spec fn ack_bits_match(&self, b: u32) -> bool {
        forall|i: u32|
            i < 32 ==> (((b >> i) & 1 == 1) <==> self.has_received(
                wrap_sub32(self.ack_number, wrap_add32(i, 1)),
            ))
    }

    /// The frame this state would send next, carrying mask `b` and the
    /// given payload, stamped at `now_ms`.
    pub open spec fn next_frame(&self, b: u32, payload: Seq<u8>, now_ms: u64) -> AbsPacket {
        AbsPacket {
            sequence: self.sequence_number,
            ack: self.ack_number,
            ack_bits: b,
            data: frame_bytes(
                self.encryption.key@,
                self.encryption.nonce_sequence,
                self.sequence_number,
                self.ack_number,
                b,
                payload,
            ),
            timestamp: now_ms,
            attempts: 0,
        }
    }

    /// Frame the payload under the next sequence number, enqueue the wire
    /// bytes, and, for a reliable frame, remember it in the unacked store.
    fn push_frame(&mut self, payload: &Vec<u8>, now_ms: u64, record: bool) -> (r: Result<
        (),
        TransportError,
    >)
        requires
            old(self).wf(),
            payload@.len() <= MAX_PAYLOAD,
        ensures
            final(self).wf(),
            r == Err::<(), TransportError>(TransportError::BufferFull) <==> old(self).buffer.out().len() >= BUFFER_CAP,
            r is Ok <==> (old(self).buffer.out().len() < BUFFER_CAP && old(self).encryption.nonce_sequence < NONCE_LIMIT && (forall|b: u32|
                #[trigger] old(self).ack_bits_match(b) ==> zlib_bytes(
                    frame_plain(old(self).sequence_number, old(self).ack_number, b, payload@),
                ).len() <= MAX_SEAL_INPUT)),
            r is Ok ==> (exists|b: u32|
                #[trigger] old(self).ack_bits_match(b) && final(self).buffer.out() == old(self).buffer.out().push(old(self).next_frame(b, payload@, now_ms)) && (record
                    ==> final(self).reliable_model().contains(
                    old(self).next_frame(b, payload@, now_ms),
                ))),
            r is Ok ==> final(self).sequence_number == wrap_add32(old(self).sequence_number, 1)
                && final(self).encryption.nonce_sequence == old(self).encryption.nonce_sequence
                + 1,
            r is Ok && record ==> (forall|q: u32|
                final(self).has_reliable(q) <==> (old(self).has_reliable(q) || q == old(self).sequence_number)),
            !record ==> final(self).reliable_packets == old(self).reliable_packets,
            r is Err ==> final(self).buffer.out() == old(self).buffer.out() && final(self).sequence_number == old(self).sequence_number && final(self).reliable_packets == old(self).reliable_packets && final(self).encryption.nonce_sequence == old(self).encryption.nonce_sequence,
            old(self).buffer.out().len() < BUFFER_CAP && old(self).encryption.nonce_sequence
                < NONCE_LIMIT ==> (r is Ok || r == Err::<(), TransportError>(
                TransportError::Crypto,
            )),
            final(self).state == old(self).state,
            final(self).buffer.inc() == old(self).buffer.inc(),
            final(self).ack_number == old(self).ack_number,
            final(self).congestion == old(self).congestion,
            final(self).encryption.key@ == old(self).encryption.key@,
            final(self).received_window == old(self).received_window,
            final(self).highest_counter == old(self).highest_counter,
            final(self).counter_seen == old(self).counter_seen,
            final(self).timeout_ms == old(self).timeout_ms,
            final(self).phase_started_ms == old(self).phase_started_ms,
    {
        if self.buffer.outgoing.len() >= self.buffer.max_size {
            return Err(TransportError::BufferFull);
        }
        let bits = self.generate_ack_bits();
        let seq = self.sequence_number;
        proof {
        assert(old(self).ack_bits_match(bits));
        }
        let wire = match encode_frame(&mut self.encryption, seq, self.ack_number, bits, payload) {
            Ok(w) => w,
            Err(e) => {
                proof {
                    assert(self.reliable_packets == old(self).reliable_packets);
                    assert(self.reliable_model() == old(self).reliable_model());
                    if old(self).encryption.nonce_sequence < NONCE_LIMIT {
                        assert(zlib_bytes(
                            frame_plain(seq, old(self).ack_number, bits, payload@),
                        ).len() > MAX_SEAL_INPUT);
                    }
                }
                return Err(e);
            },
        };
        proof {
            assert forall|b: u32| old(self).ack_bits_match(b) implies zlib_bytes(
                frame_plain(seq, old(self).ack_number, b, payload@),
            ).len() <= MAX_SEAL_INPUT by {
                lemma_ack_bits_match_unique(*old(self), b, bits);
            }
        }
        proof {
            assert(self.reliable_packets == old(self).reliable_packets);
            assert(self.reliable_model() == old(self).reliable_model());
            lemma_same_model_same_reliable(*self, *old(self));
        }
        let packet = Packet {
            sequence: seq,
            ack: self.ack_number,
            ack_bits: bits,
            data: wire,
            timestamp: now_ms,
            attempts: 0,
        };
        proof {
            assert(packet@ == old(self).next_frame(bits, payload@, now_ms));
        }
        if record {
            self.remove_reliable(seq);
            let ghost mid = *self;
            let copy = packet.clone();
            self.reliable_packets.push(copy);
            proof {
                assert(self.reliable_model() =~= mid.reliable_model().push(copy@));
                assert(self.reliable_model().last() == packet@);
                assert(self.reliable_model().contains(packet@));
                assert forall|q: u32|
                    self.has_reliable(q) <==> (mid.has_reliable(q) || q == seq) by {
                    let post = self.reliable_model();
                    if mid.has_reliable(q) {
                        let j = choose|j: int|
                            0 <= j < mid.reliable_model().len() && mid.reliable_model()[j].sequence
                                == q;
                        assert(post[j].sequence == q);
                    }
                    if q == seq {
                        assert(post[post.len() - 1].sequence == q);
                    }
                    if self.has_reliable(q) && q != seq {
                        let j = choose|j: int| 0 <= j < post.len() && post[j].sequence == q;
                        assert(j < post.len() - 1);
                        assert(mid.reliable_model()[j].sequence == q);
                    }
                }
                assert forall|i1: int, j1: int|
                    0 <= i1 < j1 < self.reliable_model().len() implies self.reliable_model()[i1].sequence
                    != self.reliable_model()[j1].sequence by {
                    if j1 == self.reliable_model().len() - 1 {
                        if mid.reliable_model()[i1].sequence == seq {
                            assert(mid.has_reliable(seq));
                        }
                        assert(mid.reliable_model()[i1].sequence != seq);
                    }
                }
            }
        }
        let ghost before_push = *self;
        let accepted = self.buffer.push_outgoing(packet);
        proof {
            assert(accepted);
        }
        self.sequence_number = self.sequence_number.wrapping_add(1);
        proof {
            assert(self.reliable_model() == before_push.reliable_model());
            lemma_same_model_same_reliable(*self, before_push);
            assert(old(self).ack_bits_match(bits));
            assert(self.buffer.out() == old(self).buffer.out().push(
                old(self).next_frame(bits, payload@, now_ms),
            ));
            if record {
                assert(self.reliable_model().contains(old(self).next_frame(bits, payload@, now_ms)));
            }
        }
        Ok(())
    }

    /// Begin the handshake: enter Connecting, stamp the phase, and enqueue
    /// a handshake-request frame.
    pub fn connect(&mut self, now_ms: u64) -> (r: Result<(), TransportError>)
        requires
            old(self).wf(),
        ensures
            final(self).wf(),
            final(self).state == ProtocolState::Connecting,
            final(self).phase_started_ms == now_ms,
            r is Ok ==> (exists|b: u32|
                final(self).buffer.out() == old(self).buffer.out().push(
                    AbsPacket {
                        sequence: old(self).sequence_number,
                        ack: old(self).ack_number,
                        ack_bits: b,
                        data: frame_bytes(
                            old(self).encryption.key@,
                            old(self).encryption.nonce_sequence,
                            old(self).sequence_number,
                            old(self).ack_number,
                            b,
                            seq![CTRL_SYN],
                        ),
                        timestamp: now_ms,
                        attempts: 0,
                    },
                )),
            final(self).reliable_packets == old(self).reliable_packets,
            final(self).buffer.inc() == old(self).buffer.inc(),
            r is Ok ==> final(self).sequence_number == wrap_add32(old(self).sequence_number, 1),
            r is Ok <==> (old(self).buffer.out().len() < BUFFER_CAP && old(self).encryption.nonce_sequence < NONCE_LIMIT && (forall|b: u32|
                #[trigger] old(self).ack_bits_match(b) ==> zlib_bytes(
                    frame_plain(old(self).sequence_number, old(self).ack_number, b, seq![CTRL_SYN]),
                ).len() <= MAX_SEAL_INPUT)),
            r is Err ==> final(self).buffer.out() == old(self).buffer.out() && final(self).sequence_number == old(self).sequence_number,
    {
        self.state = ProtocolState::Connecting;
        self.phase_started_ms = now_ms;
        let mut syn: Vec<u8> = Vec::new();
        syn.push(CTRL_SYN);
        proof {
            assert(syn@ =~= seq![CTRL_SYN]);
            assert(self.reliable_model() == old(self).reliable_model());
        }
        let ghost mid = *self;
        proof {
            assert forall|b: u32| mid.ack_bits_match(b) == old(self).ack_bits_match(b) by {
                if mid.ack_bits_match(b) {
                    assert forall|i: u32|
                        i < 32 implies (((b >> i) & 1 == 1) <==> old(self).has_received(
                        wrap_sub32(old(self).ack_number, wrap_add32(i, 1)),
                    )) by {
                        assert(((b >> i) & 1 == 1) <==> mid.has_received(
                            wrap_sub32(mid.ack_number, wrap_add32(i, 1)),
                        ));
                    }
                }
                if old(self).ack_bits_match(b) {
                    assert forall|i: u32|
                        i < 32 implies (((b >> i) & 1 == 1) <==> mid.has_received(
                        wrap_sub32(mid.ack_number, wrap_add32(i, 1)),
                    )) by {
                        assert(((b >> i) & 1 == 1) <==> old(self).has_received(
                            wrap_sub32(old(self).ack_number, wrap_add32(i, 1)),
                        ));
                    }
                }
            }
        }
        let r = self.push_frame(&syn, now_ms, false);
        proof {
            assert(self.reliable_model() == mid.reliable_model());
            assert(syn@ == seq![CTRL_SYN]);
            if r is Ok {
                assert forall|b: u32| #[trigger] old(self).ack_bits_match(b) implies zlib_bytes(
                    frame_plain(old(self).sequence_number, old(self).ack_number, b, seq![CTRL_SYN]),
                ).len() <= MAX_SEAL_INPUT by {
                    assert(mid.ack_bits_match(b));
                    assert(zlib_bytes(
                        frame_plain(mid.sequence_number, mid.ack_number, b, syn@),
                    ).len() <= MAX_SEAL_INPUT);
                }
            } else {
                if old(self).buffer.out().len() < BUFFER_CAP && old(self).encryption.nonce_sequence
                    < NONCE_LIMIT && (forall|b: u32|
                    #[trigger] old(self).ack_bits_match(b) ==> zlib_bytes(
                        frame_plain(
                            old(self).sequence_number,
                            old(self).ack_number,
                            b,
                            seq![CTRL_SYN],
                        ),
                    ).len() <= MAX_SEAL_INPUT) {
                    assert forall|b: u32| #[trigger] mid.ack_bits_match(b) implies zlib_bytes(
                        frame_plain(mid.sequence_number, mid.ack_number, b, syn@),
                    ).len() <= MAX_SEAL_INPUT by {
                        assert(old(self).ack_bits_match(b));
                        assert(zlib_bytes(
                            frame_plain(
                                old(self).sequence_number,
                                old(self).ack_number,
                                b,
                                seq![CTRL_SYN],
                            ),
                        ).len() <= MAX_SEAL_INPUT);
                    }
                    assert(false);
                }
            }
            if r is Ok {
                let b = choose|b: u32|
                    #[trigger] mid.ack_bits_match(b) && self.buffer.out() == mid.buffer.out().push(
                        mid.next_frame(b, syn@, now_ms),
                    );
                assert(mid.next_frame(b, syn@, now_ms) == AbsPacket {
                    sequence: old(self).sequence_number,
                    ack: old(self).ack_number,
                    ack_bits: b,
                    data: frame_bytes(
                        old(self).encryption.key@,
                        old(self).encryption.nonce_sequence,
                        old(self).sequence_number,
                        old(self).ack_number,
                        b,
                        seq![CTRL_SYN],
                    ),
                    timestamp: now_ms,
                    attempts: 0,
                });
            }
        }
        r
    }

    /// Frame an application payload, remember it for retransmission, and
    /// enqueue it. Fails with BufferFull exactly when the outgoing queue is
    /// full, and with Crypto when sealing is no longer possible.
    pub fn send_reliable(&mut self, data: Vec<u8>, now_ms: u64) -> (r: Result<
        (),
        TransportError,
    >)
        requires
            old(self).wf(),
            data@.len() <= MAX_PAYLOAD,
        ensures
            final(self).wf(),
            r == Err::<(), TransportError>(TransportError::BufferFull) <==> old(self).buffer.out().len() >= BUFFER_CAP,
            r is Ok <==> (old(self).buffer.out().len() < BUFFER_CAP && old(self).encryption.nonce_sequence < NONCE_LIMIT && (forall|b: u32|
                #[trigger] old(self).ack_bits_match(b) ==> zlib_bytes(
                    frame_plain(old(self).sequence_number, old(self).ack_number, b, data@),
                ).len() <= MAX_SEAL_INPUT)),
            r is Ok ==> final(self).has_reliable(old(self).sequence_number),
            r is Ok ==> (forall|q: u32|
                final(self).has_reliable(q) <==> (old(self).has_reliable(q) || q == old(self).sequence_number)),
            r is Ok ==> (exists|b: u32|
                #[trigger] old(self).ack_bits_match(b) && final(self).buffer.out() == old(self).buffer.out().push(old(self).next_frame(b, data@, now_ms)) && final(self).reliable_model().contains(old(self).next_frame(b, data@, now_ms))),
            r is Ok ==> final(self).sequence_number == wrap_add32(old(self).sequence_number, 1)
                && final(self).encryption.nonce_sequence == old(self).encryption.nonce_sequence
                + 1,
            r is Err ==> final(self).buffer.out() == old(self).buffer.out() && final(self).sequence_number == old(self).sequence_number && final(self).reliable_packets == old(self).reliable_packets,
            old(self).buffer.out().len() < BUFFER_CAP && old(self).encryption.nonce_sequence
                < NONCE_LIMIT ==> (r is Ok || r == Err::<(), TransportError>(
                TransportError::Crypto,
            )),
            final(self).state == old(self).state,
            final(self).buffer.inc() == old(self).buffer.inc(),
            final(self).ack_number == old(self).ack_number,
    {
        self.push_frame(&data, now_ms, true)
    }

    /// The frame an inbound datagram delivers to the incoming queue.
    pub open spec fn delivered_frame(s: u32, a: u32, k: u32, p: Seq<u8>, now_ms: u64) -> AbsPacket {
        AbsPacket { sequence: s, ack: a, ack_bits: k, data: p, timestamp: now_ms, attempts: 0 }
    }

    /// A datagram carries a fresh frame for this state: it is the sealing of
    /// a frame under the shared key, within the MTU, its counter passes the
    /// replay window, and its sequence has not been received before.
    pub open spec fn fresh_frame(
        &self,
        datagram: Seq<u8>,
        n: u64,
        s: u32,
        a: u32,
        k: u32,
        p: Seq<u8>,
    ) -> bool {
        &&& datagram == frame_bytes(self.encryption.key@, n, s, a, k, p)
        &&& p.len() <= MAX_PAYLOAD
        &&& self.replay_ok(n)
        &&& !self.has_received(s)
    }

    /// Drop received sequences that have fallen behind the horizon, keeping
    /// the window's memory bounded across a connection's life.
    fn prune_received(&mut self)
        requires
            old(self).wf(),
        ensures
            final(self).wf(),
            forall|q: u32|
                final(self).has_received(q) <==> (old(self).has_received(q) && wrap_sub32(
                    old(self).ack_number,
                    q,
                ) < RECEIVED_HORIZON),
            final(self).state == old(self).state,
            final(self).buffer == old(self).buffer,
            final(self).sequence_number == old(self).sequence_number,
            final(self).ack_number == old(self).ack_number,
            final(self).congestion == old(self).congestion,
            final(self).encryption == old(self).encryption,
            final(self).reliable_packets == old(self).reliable_packets,
            final(self).highest_counter == old(self).highest_counter,
            final(self).counter_seen == old(self).counter_seen,
            final(self).timeout_ms == old(self).timeout_ms,
            final(self).phase_started_ms == old(self).phase_started_ms,
    {
        let mut kept: Vec<u32> = Vec::new();
        let n = self.received_window.len();
        let mut i: usize = 0;
        while i < n
            invariant
                n == old(self).received_window@.len(),
                0 <= i <= n,
                self == old(self),
                forall|k: int|
                    0 <= k < kept@.len() ==> old(self).received_window@.contains(
                        #[trigger] kept@[k],
                    ) && wrap_sub32(old(self).ack_number, kept@[k]) < RECEIVED_HORIZON,
                forall|j: int|
                    0 <= j < i && wrap_sub32(
                        old(self).ack_number,
                        #[trigger] old(self).received_window@[j],
                    ) < RECEIVED_HORIZON ==> kept@.contains(old(self).received_window@[j]),
            decreases n - i,
        {
            let v = self.received_window[i];
            if wrapping_distance(self.ack_number, v) < RECEIVED_HORIZON {
                let ghost prev = kept@;
                kept.push(v);
                proof {
                    assert(kept@[kept@.len() - 1] == old(self).received_window@[i as int]);
                    assert forall|j: int|
                        0 <= j < i + 1 && wrap_sub32(
                            old(self).ack_number,
                            #[trigger] old(self).received_window@[j],
                        ) < RECEIVED_HORIZON implies kept@.contains(
                        old(self).received_window@[j],
                    ) by {
                        if j < i {
                            let k = choose|k: int|
                                0 <= k < prev.len() && prev[k] == old(self).received_window@[j];
                            assert(kept@[k] == old(self).received_window@[j]);
                        } else {
                            assert(kept@[kept@.len() - 1] == old(self).received_window@[j]);
                        }
                    }
                }
            }
            i = i + 1;
        }
        self.received_window = kept;
        proof {
            assert(self.reliable_packets == old(self).reliable_packets);
            assert(self.reliable_model() == old(self).reliable_model());
            assert forall|i1: int, j1: int|
                0 <= i1 < j1 < self.reliable_model().len() implies self.reliable_model()[i1].sequence
                != self.reliable_model()[j1].sequence by {
                assert(old(self).reliable_model()[i1].sequence
                    != old(self).reliable_model()[j1].sequence);
            }
            assert forall|i1: int|
                0 <= i1 < self.reliable_model().len() implies self.reliable_model()[i1].attempts
                <= MAX_ATTEMPTS by {
                assert(old(self).reliable_model()[i1].attempts <= MAX_ATTEMPTS);
            }
            assert forall|q: u32|
                self.has_received(q) <==> (old(self).has_received(q) && wrap_sub32(
                    old(self).ack_number,
                    q,
                ) < RECEIVED_HORIZON) by {
                if self.has_received(q) {
                    let k = choose|k: int| 0 <= k < kept@.len() && kept@[k] == q;
                }
                if old(self).has_received(q) && wrap_sub32(old(self).ack_number, q)
                    < RECEIVED_HORIZON {
                    let j = choose|j: int|
                        0 <= j < old(self).received_window@.len() && old(
                            self,
                        ).received_window@[j] == q;
                    assert(kept@.contains(old(self).received_window@[j]));
                }
            }
        }
    }

    /// The datagram was sealed under this state's key: it is long enough to
    /// carry a counter, and the rest authenticates under the nonce that
    /// counter derives. Only a holder of the key can produce such bytes.
    pub open spec fn authentic_datagram(&self, d: Seq<u8>) -> bool {
        d.len() >= COUNTER_LEN && (exists|comp: Seq<u8>|
            d.subrange(COUNTER_LEN as int, d.len() as int) == chacha_seal_bytes(
                self.encryption.key@,
                nonce_bytes(u64_of_be(d.subrange(0, COUNTER_LEN as int))),
                comp,
            ))
    }

    /// Take one datagram in: open, decompress and parse it; drop it when it
    /// fails authentication, decoding, the replay window or the dedup; else
    /// record its sequence, advance the cumulative ack, steer the state
    /// machine on a control byte or deliver the payload, and process the
    /// acks it piggybacks.
    #[verifier::rlimit(100)]
    #[verifier::spinoff_prover]
    pub fn process_datagram(&mut self, datagram: &Vec<u8>, now_ms: u64)
        requires
            old(self).wf(),
        ensures
            final(self).wf(),
            forall|n: u64, s: u32, a: u32, k: u32, p: Seq<u8>|
                old(self).fresh_frame(datagram@, n, s, a, k, p) ==> final(self).has_received(s)
                    || wrap_sub32(final(self).ack_number, s) >= RECEIVED_HORIZON,
            forall|n: u64, s: u32, a: u32, k: u32, p: Seq<u8>|
                old(self).fresh_frame(datagram@, n, s, a, k, p) && is_control(p) ==> final(self).buffer.inc() == old(self).buffer.inc(),
            forall|n: u64, s: u32, a: u32, k: u32, p: Seq<u8>|
                old(self).fresh_frame(datagram@, n, s, a, k, p) && !is_control(p) && old(self).buffer.inc().len() < BUFFER_CAP ==> final(self).buffer.inc() == old(self).buffer.inc().push(Self::delivered_frame(s, a, k, p, now_ms)),
            forall|n: u64, s: u32, a: u32, k: u32, p: Seq<u8>|
                old(self).fresh_frame(datagram@, n, s, a, k, p) ==> (forall|q: u32|
                    final(self).has_reliable(q) <==> (old(self).has_reliable(q) && !covered(
                        a,
                        k,
                        q,
                    ))),
            forall|n: u64, s: u32, a: u32, k: u32, p: Seq<u8>|
                old(self).fresh_frame(datagram@, n, s, a, k, p) ==> final(self).ack_number == (
                if seq_newer(s, old(self).ack_number) {
                    s
                } else {
                    old(self).ack_number
                }),
            forall|n: u64, s: u32, a: u32, k: u32, p: Seq<u8>|
                old(self).fresh_frame(datagram@, n, s, a, k, p) && is_control(p) && p[0]
                    == CTRL_SYN && (old(self).state == ProtocolState::Idle || old(self).state
                    == ProtocolState::Connecting) ==> final(self).state
                    == ProtocolState::Connected,
            forall|n: u64, s: u32, a: u32, k: u32, p: Seq<u8>|
                old(self).fresh_frame(datagram@, n, s, a, k, p) && is_control(p) && p[0]
                    == CTRL_SYN_ACK && old(self).state == ProtocolState::Connecting ==> final(self).state == ProtocolState::Connected,
            forall|n: u64, s: u32, a: u32, k: u32, p: Seq<u8>|
                old(self).fresh_frame(datagram@, n, s, a, k, p) && !is_control(p) ==> final(self).state == old(self).state,
            forall|n: u64, s: u32, a: u32, k: u32, p: Seq<u8>|
                old(self).fresh_frame(datagram@, n, s, a, k, p) && is_control(p) && p[0]
                    == CTRL_SYN && (old(self).state == ProtocolState::Idle || old(self).state
                    == ProtocolState::Connecting) ==> (old(self).buffer.out().len() >= BUFFER_CAP
                    || old(self).encryption.nonce_sequence >= NONCE_LIMIT || (exists|b: u32|
                    #[trigger] final(self).ack_bits_match(b) && (final(self).buffer.out() == old(self).buffer.out().push(
                        AbsPacket {
                            sequence: old(self).sequence_number,
                            ack: final(self).ack_number,
                            ack_bits: b,
                            data: frame_bytes(
                                old(self).encryption.key@,
                                old(self).encryption.nonce_sequence,
                                old(self).sequence_number,
                                final(self).ack_number,
                                b,
                                seq![CTRL_SYN_ACK],
                            ),
                            timestamp: now_ms,
                            attempts: 0,
                        },
                    ) || zlib_bytes(
                        frame_plain(
                            old(self).sequence_number,
                            final(self).ack_number,
                            b,
                            seq![CTRL_SYN_ACK],
                        ),
                    ).len() > MAX_SEAL_INPUT))),
            !old(self).authentic_datagram(datagram@) ==> *final(self) == *old(self),
            forall|n: u64, s: u32, a: u32, k: u32, p: Seq<u8>|
                datagram@ == frame_bytes(old(self).encryption.key@, n, s, a, k, p) && p.len()
                    <= MAX_PAYLOAD && (!old(self).replay_ok(n) || old(self).has_received(s))
                    ==> *final(self) == *old(self),
            final(self).timeout_ms == old(self).timeout_ms,
            final(self).phase_started_ms == old(self).phase_started_ms,
            final(self).encryption.key@ == old(self).encryption.key@,
            final(self).buffer.out().len() >= old(self).buffer.out().len(),
    {
        let f = match decode_frame(&self.encryption, datagram) {
            Some(f) => f,
            None => {
                return ;
            },
        };
        proof {
            assert(datagram@.len() >= COUNTER_LEN);
            assert(f.counter == u64_of_be(datagram@.subrange(0, COUNTER_LEN as int)));
            assert(old(self).authentic_datagram(datagram@));
        }
        let replay_pass = f.counter >= self.highest_counter || self.highest_counter - f.counter
            < REPLAY_WINDOW;
        proof {
            assert(replay_pass == (f.counter + REPLAY_WINDOW > self.highest_counter));
        }
        if self.counter_seen && !replay_pass {
            return ;
        }
        if self.contains_received(f.sequence) {
            return ;
        }
        proof {
            assert(old(self).replay_ok(f.counter));
            assert(!old(self).has_received(f.sequence));
            assert forall|n: u64, s: u32, a: u32, k: u32, p: Seq<u8>|
                old(self).fresh_frame(datagram@, n, s, a, k, p) implies f.counter == n
                && f.sequence == s && f.ack == a && f.ack_bits == k && f.payload@ == p by {
            }
            assert forall|n: u64, s: u32, a: u32, k: u32, p: Seq<u8>|
                !(datagram@ == frame_bytes(old(self).encryption.key@, n, s, a, k, p) && p.len()
                    <= MAX_PAYLOAD && (!old(self).replay_ok(n) || old(self).has_received(
                    s,
                ))) by {
                if datagram@ == frame_bytes(old(self).encryption.key@, n, s, a, k, p) && p.len()
                    <= MAX_PAYLOAD {
                    assert(f.counter == n && f.sequence == s);
                }
            }
        }
        self.counter_seen = true;
        if f.counter > self.highest_counter {
            self.highest_counter = f.counter;
        }
        self.received_window.push(f.sequence);
        if is_newer(f.sequence, self.ack_number) {
            self.ack_number = f.sequence;
        }
        proof {
            assert(self.reliable_model() == old(self).reliable_model());
            lemma_same_model_same_reliable(*self, *old(self));
            assert(self.received_window@[self.received_window@.len() - 1] == f.sequence);
            assert(self.has_received(f.sequence));
        }
        self.prune_received();
        proof {
            assert(self.has_received(f.sequence) || wrap_sub32(self.ack_number, f.sequence)
                >= RECEIVED_HORIZON);
        }
        let ghost pre_ack = *self;
        self.handle_ack(f.ack, f.ack_bits, now_ms);
        proof {
            lemma_same_model_same_reliable(pre_ack, *old(self));
        }
        let ghost post_ack = *self;
        let ctrl = f.payload.len() == 1 && (f.payload[0] == CTRL_SYN || f.payload[0]
            == CTRL_SYN_ACK || f.payload[0] == CTRL_FIN);
        if ctrl {
            let b = f.payload[0];
            if b == CTRL_SYN && (self.state == ProtocolState::Idle || self.state
                == ProtocolState::Connecting) {
                self.state = ProtocolState::Connected;
                proof {
                    assert(self.reliable_model() == post_ack.reliable_model());
                    lemma_same_model_same_reliable(*self, post_ack);
                }
                let mut answer: Vec<u8> = Vec::new();
                answer.push(CTRL_SYN_ACK);
                let ghost mid = *self;
                proof {
                    assert(answer@ =~= seq![CTRL_SYN_ACK]);
                }
                let rr = self.push_frame(&answer, now_ms, false);
                proof {
                    assert(self.reliable_model() == mid.reliable_model());
                    lemma_same_model_same_reliable(*self, mid);
                    lemma_same_window_same_mask(mid, *self);
                    if rr is Ok {
                        let w = choose|w: u32|
                            #[trigger] mid.ack_bits_match(w) && self.buffer.out()
                                == mid.buffer.out().push(mid.next_frame(w, answer@, now_ms));
                        assert(self.ack_bits_match(w));
                        assert(mid.next_frame(w, answer@, now_ms) == AbsPacket {
                            sequence: old(self).sequence_number,
                            ack: self.ack_number,
                            ack_bits: w,
                            data: frame_bytes(
                                old(self).encryption.key@,
                                old(self).encryption.nonce_sequence,
                                old(self).sequence_number,
                                self.ack_number,
                                w,
                                seq![CTRL_SYN_ACK],
                            ),
                            timestamp: now_ms,
                            attempts: 0,
                        });
                    } else {
                        if mid.buffer.out().len() < BUFFER_CAP && mid.encryption.nonce_sequence
                            < NONCE_LIMIT {
                            let w = choose|w: u32|
                                #[trigger] mid.ack_bits_match(w) && zlib_bytes(
                                    frame_plain(mid.sequence_number, mid.ack_number, w, answer@),
                                ).len() > MAX_SEAL_INPUT;
                            assert(self.ack_bits_match(w));
                            assert(zlib_bytes(
                                frame_plain(
                                    old(self).sequence_number,
                                    self.ack_number,
                                    w,
                                    seq![CTRL_SYN_ACK],
                                ),
                            ).len() > MAX_SEAL_INPUT);
                        }
                    }
                }
            } else if b == CTRL_SYN_ACK && self.state == ProtocolState::Connecting {
                self.state = ProtocolState::Connected;
                proof {
                    lemma_same_model_same_reliable(*self, post_ack);
                }
            }
        } else {
            let packet = Packet {
                sequence: f.sequence,
                ack: f.ack,
                ack_bits: f.ack_bits,
                data: f.payload,
                timestamp: now_ms,
                attempts: 0,
            };
            let _ = self.buffer.push_incoming(packet);
            proof {
                assert(self.reliable_model() == post_ack.reliable_model());
                lemma_same_model_same_reliable(*self, post_ack);
            }
        }
        proof {
            assert(self.reliable_model() == post_ack.reliable_model());
            assert forall|i1: int, j1: int|
                0 <= i1 < j1 < self.reliable_model().len() implies self.reliable_model()[i1].sequence
                != self.reliable_model()[j1].sequence by {
                assert(post_ack.reliable_model()[i1].sequence
                    != post_ack.reliable_model()[j1].sequence);
            }
            assert forall|i1: int|
                0 <= i1 < self.reliable_model().len() implies self.reliable_model()[i1].attempts
                <= MAX_ATTEMPTS by {
                assert(post_ack.reliable_model()[i1].attempts <= MAX_ATTEMPTS);
            }
        }
    }

    /// Scan the unacked store: a due frame below the attempt bound is
    /// re-enqueued with one more attempt and a fresh stamp, and counts as a
    /// loss; a due frame at the bound is given up, and the connection moves
    /// to Disconnecting and sends a disconnect notice. Frames not yet due
    /// stay exactly as they were, and a scan with nothing due changes
    /// nothing.
    #[verifier::rlimit(100)]
    #[verifier::spinoff_prover]
    pub fn retransmit_scan(&mut self, now_ms: u64)
        requires
            old(self).wf(),
        ensures
            final(self).wf(),
            retransmit_rel(*old(self), *final(self), now_ms),
    {
        let ghost model = old(self).reliable_model();
        let ghost orig = old(self).reliable_packets@;
        let rto = self.congestion.rto();
        let n = self.reliable_packets.len();
        let mut any_due = false;
        let mut i: usize = 0;
        while i < n
            invariant
                n == old(self).reliable_model().len(),
                0 <= i <= n,
                self == old(self),
                model == old(self).reliable_model(),
                orig == old(self).reliable_packets@,
                rto == rto_spec(old(self).congestion.rtt, old(self).congestion.rtt_var),
                any_due == (exists|j: int|
                    0 <= j < i && due(
                        #[trigger] old(self).reliable_model()[j],
                        now_ms,
                        rto_spec(old(self).congestion.rtt, old(self).congestion.rtt_var),
                    )),
            decreases n - i,
        {
            let ts = self.reliable_packets[i].timestamp;
            let elapsed = if now_ms >= ts {
                now_ms - ts
            } else {
                0
            };
            if elapsed > rto {
                any_due = true;
                proof {
                    assert(old(self).reliable_model()[i as int] == orig[i as int]@);
                    assert(due(old(self).reliable_model()[i as int], now_ms, rto));
                }
            }
            i = i + 1;
        }
        if !any_due {
            proof {
                assert forall|j: int|
                    0 <= j < model.len() && !due(#[trigger] model[j], now_ms, rto) implies self.reliable_model().contains(
                    model[j],
                ) by {
                    assert(self.reliable_model()[j] == model[j]);
                }
            }
            return ;
        }
        let mut kept: Vec<Packet> = Vec::new();
        let mut abandoned = false;
        i = 0;
        while i < n
            invariant
                old(self).wf(),
                n == old(self).reliable_model().len(),
                0 <= i <= n,
                model == old(self).reliable_model(),
                orig == old(self).reliable_packets@,
                rto == rto_spec(old(self).congestion.rtt, old(self).congestion.rtt_var),
                self.wf(),
                self.reliable_packets == old(self).reliable_packets,
                self.state == old(self).state,
                self.buffer.inc() == old(self).buffer.inc(),
                self.buffer.max_size == old(self).buffer.max_size,
                self.sequence_number == old(self).sequence_number,
                self.ack_number == old(self).ack_number,
                self.encryption == old(self).encryption,
                self.received_window == old(self).received_window,
                self.highest_counter == old(self).highest_counter,
                self.counter_seen == old(self).counter_seen,
                self.timeout_ms == old(self).timeout_ms,
                self.phase_started_ms == old(self).phase_started_ms,
                self.congestion.rtt == old(self).congestion.rtt,
                self.congestion.rtt_var == old(self).congestion.rtt_var,
                self.buffer.out().len() >= old(self).buffer.out().len(),
                forall|x: AbsPacket|
                    old(self).buffer.out().contains(x) ==> self.buffer.out().contains(x),
                (exists|j: int|
                    0 <= j < i && due(#[trigger] old(self).reliable_model()[j], now_ms, rto)
                        && old(self).reliable_model()[j].attempts < MAX_ATTEMPTS)
                    ==> self.congestion.window_size == 1 && self.congestion.accum == 0
                    && self.congestion.last_window_decrease == now_ms,
                (forall|j: int|
                    0 <= j < i ==> !(due(#[trigger] old(self).reliable_model()[j], now_ms, rto)
                        && old(self).reliable_model()[j].attempts < MAX_ATTEMPTS))
                    ==> self.congestion == old(self).congestion,
                abandoned == (exists|j: int|
                    0 <= j < i && due(#[trigger] old(self).reliable_model()[j], now_ms, rto)
                        && old(self).reliable_model()[j].attempts == MAX_ATTEMPTS),
                forall|k: int|
                    0 <= k < kept@.len() ==> exists|j: int|
                        0 <= j < i && #[trigger] kept@[k]@.sequence == old(self).reliable_packets@[j]@.sequence,
                forall|j: int|
                    0 <= j < i && !due(#[trigger] old(self).reliable_packets@[j]@, now_ms, rto)
                        ==> kept@.map_values(|p: Packet| p@).contains(
                        old(self).reliable_packets@[j]@,
                    ),
                forall|j: int|
                    0 <= j < i && due(#[trigger] old(self).reliable_packets@[j]@, now_ms, rto)
                        && old(self).reliable_packets@[j]@.attempts < MAX_ATTEMPTS
                        ==> kept@.map_values(|p: Packet| p@).contains(
                        retransmitted(old(self).reliable_packets@[j]@, now_ms),
                    ) && (self.buffer.out().contains(
                        retransmitted(old(self).reliable_packets@[j]@, now_ms),
                    ) || self.buffer.out().len() >= BUFFER_CAP),
                forall|j: int|
                    0 <= j < i && due(#[trigger] old(self).reliable_packets@[j]@, now_ms, rto)
                        && old(self).reliable_packets@[j]@.attempts == MAX_ATTEMPTS
                        ==> (forall|k: int|
                        0 <= k < kept@.len() ==> #[trigger] kept@[k]@.sequence != old(self).reliable_packets@[j]@.sequence),
                forall|k1: int, k2: int|
                    0 <= k1 < k2 < kept@.len() ==> kept@[k1]@.sequence != kept@[k2]@.sequence,
                forall|k: int| 0 <= k < kept@.len() ==> #[trigger] kept@[k]@.attempts
                    <= MAX_ATTEMPTS,
            decreases n - i,
        {
            let ghost prev = kept@;
            let ghost prev_out = self.buffer.out();
            let sent_at = self.reliable_packets[i].timestamp;
            let attempts = self.reliable_packets[i].attempts;
            let elapsed = if now_ms >= sent_at {
                now_ms - sent_at
            } else {
                0
            };
            if elapsed > rto {
                if attempts < MAX_ATTEMPTS {
                    let mut copy = self.reliable_packets[i].clone();
                    copy.attempts = attempts + 1;
                    copy.timestamp = now_ms;
                    let resend = copy.clone();
                    proof {
                        assert(copy@ == retransmitted(orig[i as int]@, now_ms));
                        assert(resend@ == retransmitted(orig[i as int]@, now_ms));
                    }
                    kept.push(copy);
                    let accepted = self.buffer.push_outgoing(resend);
                    proof {
                        if accepted {
                            assert(self.buffer.out()[self.buffer.out().len() - 1]
                                == retransmitted(orig[i as int]@, now_ms));
                            assert(self.buffer.out().contains(
                                retransmitted(orig[i as int]@, now_ms),
                            ));
                        } else {
                            assert(self.buffer.out().len() >= BUFFER_CAP);
                        }
                    }
                    self.congestion.on_loss(now_ms);
                } else {
                    abandoned = true;
                }
            } else {
                let copy = self.reliable_packets[i].clone();
                kept.push(copy);
            }
            proof {
                assert(model[i as int] == orig[i as int]@);
                if kept@.len() > prev.len() {
                    assert(kept@[kept@.len() - 1] == kept@.last());
                }
                assert forall|x: AbsPacket| prev_out.contains(x) implies self.buffer.out().contains(
                    x,
                ) by {
                    let k = choose|k: int| 0 <= k < prev_out.len() && prev_out[k] == x;
                    assert(self.buffer.out()[k] == x);
                }
                assert forall|k: int| 0 <= k < kept@.len() implies (exists|j: int|
                    0 <= j < i + 1 && #[trigger] kept@[k]@.sequence == orig[j]@.sequence) by {
                    if k < prev.len() {
                        let j = choose|j: int|
                            0 <= j < i && #[trigger] prev[k]@.sequence == orig[j]@.sequence;
                        assert(kept@[k]@.sequence == orig[j]@.sequence);
                    } else {
                        assert(kept@[k]@.sequence == orig[i as int]@.sequence);
                    }
                }
                assert forall|j: int|
                    0 <= j < i + 1 && !due(#[trigger] orig[j]@, now_ms, rto) implies kept@.map_values(
                    |p: Packet| p@,
                ).contains(orig[j]@) by {
                    let m = kept@.map_values(|p: Packet| p@);
                    let pm = prev.map_values(|p: Packet| p@);
                    if j < i {
                        let k = choose|k: int| 0 <= k < pm.len() && #[trigger] pm[k] == orig[j]@;
                        assert(m[k] == orig[j]@);
                    } else {
                        assert(m[m.len() - 1] == orig[j]@);
                    }
                }
                assert forall|j: int|
                    0 <= j < i + 1 && due(#[trigger] orig[j]@, now_ms, rto) && orig[j]@.attempts
                        < MAX_ATTEMPTS implies kept@.map_values(|p: Packet| p@).contains(
                    retransmitted(orig[j]@, now_ms),
                ) && (self.buffer.out().contains(retransmitted(orig[j]@, now_ms))
                    || self.buffer.out().len() >= BUFFER_CAP) by {
                    let m = kept@.map_values(|p: Packet| p@);
                    let pm = prev.map_values(|p: Packet| p@);
                    if j < i {
                        let k = choose|k: int|
                            0 <= k < pm.len() && #[trigger] pm[k] == retransmitted(
                                orig[j]@,
                                now_ms,
                            );
                        assert(m[k] == retransmitted(orig[j]@, now_ms));
                    } else {
                        assert(m[m.len() - 1] == retransmitted(orig[j]@, now_ms));
                    }
                }
                assert forall|k1: int, k2: int| 0 <= k1 < k2 < kept@.len() implies kept@[k1]@.sequence
                    != kept@[k2]@.sequence by {
                    if k2 == kept@.len() - 1 && kept@.len() > prev.len() {
                        let j = choose|j: int|
                            0 <= j < i && #[trigger] prev[k1]@.sequence == orig[j]@.sequence;
                        assert(model[j] == orig[j]@);
                        assert(model[j].sequence != model[i as int].sequence);
                    }
                }
                assert forall|j: int|
                    0 <= j < i + 1 && due(#[trigger] orig[j]@, now_ms, rto) && orig[j]@.attempts
                        == MAX_ATTEMPTS implies (forall|k: int|
                    0 <= k < kept@.len() ==> #[trigger] kept@[k]@.sequence
                        != orig[j]@.sequence) by {
                    assert forall|k: int|
                        0 <= k < kept@.len() implies #[trigger] kept@[k]@.sequence
                        != orig[j]@.sequence by {
                        if k == kept@.len() - 1 && kept@.len() > prev.len() {
                            assert(kept@[k]@.sequence == orig[i as int]@.sequence);
                            assert(model[j] == orig[j]@ && model[i as int] == orig[i as int]@);
                            assert(model[j].sequence != model[i as int].sequence);
                        } else {
                            let j2 = choose|j2: int|
                                0 <= j2 < i && #[trigger] prev[k]@.sequence
                                    == orig[j2]@.sequence;
                            if j == i {
                                assert(model[j2] == orig[j2]@ && model[j] == orig[j]@);
                                assert(model[j2].sequence != model[j].sequence);
                            }
                        }
                    }
                }
            }
            i = i + 1;
        }
        self.reliable_packets = kept;
        proof {
            let post = self.reliable_model();
            assert forall|q: u32| self.has_reliable(q) implies old(self).has_reliable(q) by {
                let k = choose|k: int| 0 <= k < post.len() && post[k].sequence == q;
                assert(kept@[k]@.sequence == q);
                let j = choose|j: int|
                    0 <= j < n && #[trigger] kept@[k]@.sequence == orig[j]@.sequence;
                assert(model[j].sequence == q);
            }
            assert forall|j: int|
                0 <= j < model.len() && due(#[trigger] model[j], now_ms, rto) && model[j].attempts
                    == MAX_ATTEMPTS implies !self.has_reliable(model[j].sequence) by {
                if self.has_reliable(model[j].sequence) {
                    let k = choose|k: int|
                        0 <= k < post.len() && post[k].sequence == model[j].sequence;
                    assert(kept@[k]@.sequence == orig[j]@.sequence);
                }
            }
        }
        if abandoned {
            self.state = ProtocolState::Disconnecting;
            self.phase_started_ms = now_ms;
            let mut fin: Vec<u8> = Vec::new();
            fin.push(CTRL_FIN);
            let ghost mid = *self;
            proof {
                assert(fin@ =~= seq![CTRL_FIN]);
            }
            let rr = self.push_frame(&fin, now_ms, false);
            proof {
                assert(self.reliable_model() == mid.reliable_model());
                lemma_same_model_same_reliable(*self, mid);
                lemma_same_window_same_mask(mid, *old(self));
                assert forall|x: AbsPacket| mid.buffer.out().contains(x) implies self.buffer.out().contains(
                    x,
                ) by {
                    let k = choose|k: int|
                        0 <= k < mid.buffer.out().len() && mid.buffer.out()[k] == x;
                    assert(self.buffer.out()[k] == x);
                }
                if rr is Ok {
                    let w = choose|w: u32|
                        #[trigger] mid.ack_bits_match(w) && self.buffer.out()
                            == mid.buffer.out().push(mid.next_frame(w, fin@, now_ms));
                    assert(old(self).ack_bits_match(w));
                    assert(mid.next_frame(w, fin@, now_ms) == AbsPacket {
                        sequence: old(self).sequence_number,
                        ack: old(self).ack_number,
                        ack_bits: w,
                        data: frame_bytes(
                            old(self).encryption.key@,
                            old(self).encryption.nonce_sequence,
                            old(self).sequence_number,
                            old(self).ack_number,
                            w,
                            seq![CTRL_FIN],
                        ),
                        timestamp: now_ms,
                        attempts: 0,
                    });
                    assert(self.buffer.out()[self.buffer.out().len() - 1] == mid.next_frame(
                        w,
                        fin@,
                        now_ms,
                    ));
                    assert(self.buffer.out().contains(mid.next_frame(w, fin@, now_ms)));
                } else {
                    if mid.buffer.out().len() < BUFFER_CAP && mid.encryption.nonce_sequence
                        < NONCE_LIMIT {
                        let w = choose|w: u32|
                            #[trigger] mid.ack_bits_match(w) && zlib_bytes(
                                frame_plain(mid.sequence_number, mid.ack_number, w, fin@),
                            ).len() > MAX_SEAL_INPUT;
                        assert(old(self).ack_bits_match(w));
                        assert(zlib_bytes(
                            frame_plain(
                                old(self).sequence_number,
                                old(self).ack_number,
                                w,
                                seq![CTRL_FIN],
                            ),
                        ).len() > MAX_SEAL_INPUT);
                    }
                }
            }
        }
    }

    /// The milliseconds since the current phase began.
    pub open spec fn phase_elapsed(&self, now_ms: u64) -> u64 {
        if now_ms >= self.phase_started_ms {
            (now_ms - self.phase_started_ms) as u64
        } else {
            0
        }
    }

    /// Step the state machine on its timers: a handshake that has waited
    /// longer than the timeout falls back to Idle, and a disconnect whose
    /// grace has expired settles in Idle with the unacked store cleared.
    pub fn update_state(&mut self, now_ms: u64)
        requires
            old(self).wf(),
        ensures
            final(self).wf(),
            old(self).state == ProtocolState::Connecting && old(self).phase_elapsed(now_ms) > old(self).timeout_ms ==> final(self).state == ProtocolState::Idle
                && final(self).reliable_packets == old(self).reliable_packets,
            old(self).state == ProtocolState::Connecting && old(self).phase_elapsed(now_ms) <= old(self).timeout_ms ==> final(self).state == old(self).state,
            old(self).state == ProtocolState::Disconnecting && old(self).phase_elapsed(now_ms)
                > old(self).timeout_ms ==> final(self).state == ProtocolState::Idle && final(self).reliable_model().len() == 0,
            old(self).state == ProtocolState::Disconnecting && old(self).phase_elapsed(now_ms)
                <= old(self).timeout_ms ==> final(self).state == old(self).state,
            old(self).state == ProtocolState::Idle || old(self).state == ProtocolState::Connected
                ==> *final(self) == *old(self),
            old(self).state == ProtocolState::Connecting && old(self).phase_elapsed(now_ms) <= old(self).timeout_ms ==> *final(self) == *old(self),
            old(self).state == ProtocolState::Disconnecting && old(self).phase_elapsed(now_ms)
                <= old(self).timeout_ms ==> *final(self) == *old(self),
            final(self).buffer == old(self).buffer,
            final(self).sequence_number == old(self).sequence_number,
            final(self).ack_number == old(self).ack_number,
            final(self).congestion == old(self).congestion,
            final(self).encryption == old(self).encryption,
            final(self).received_window == old(self).received_window,
            final(self).timeout_ms == old(self).timeout_ms,
    {
        let elapsed = if now_ms >= self.phase_started_ms {
            now_ms - self.phase_started_ms
        } else {
            0
        };
        if self.state == ProtocolState::Connecting {
            if elapsed > self.timeout_ms {
                self.state = ProtocolState::Idle;
            }
        } else if self.state == ProtocolState::Disconnecting {
            if elapsed > self.timeout_ms {
                self.state = ProtocolState::Idle;
                self.reliable_packets = Vec::new();
                proof {
                    assert(self.reliable_model() =~= Seq::<AbsPacket>::empty());
                }
            }
        }
        proof {
            if self.reliable_packets == old(self).reliable_packets {
                assert(self.reliable_model() == old(self).reliable_model());
            }
        }
    }

    /// One engine tick, in the load-bearing order: retransmit what is due,
    /// take every received datagram in, let up to one congestion window of
    /// frames leave, and step the state machine's timers. Returns the
    /// datagrams to put on the wire, oldest first. The four phases and what
    /// each does are pinned by the chained relations in the contract.
    pub fn update(&mut self, now_ms: u64, received: Vec<Vec<u8>>) -> (out: Vec<Vec<u8>>)
        requires
            old(self).wf(),
        ensures
            final(self).wf(),
            out@.len() <= final(self).congestion.window_size,
            final(self).congestion.window_size >= 1,
            final(self).timeout_ms == old(self).timeout_ms,
            exists|m1: NetworkProtocol, m2: NetworkProtocol, m3: NetworkProtocol|
                #![trigger retransmit_rel(*old(self), m1, now_ms),
                    receive_chain(m1, m2, views_of(received@), now_ms),
                    state_step_rel(m3, *final(self), now_ms)]
                retransmit_rel(*old(self), m1, now_ms) && receive_chain(
                    m1,
                    m2,
                    views_of(received@),
                    now_ms,
                ) && drain_rel(m2, m3, views_of(out@)) && state_step_rel(m3, *final(self), now_ms),
    {
        self.retransmit_scan(now_ms);
        let ghost m1v = *self;
        let mut i: usize = 0;
        proof {
            assert(received@.subrange(0, 0).map_values(|d: Vec<u8>| d@)
                =~= Seq::<Seq<u8>>::empty());
        }
        while i < received.len()
            invariant
                self.wf(),
                0 <= i <= received@.len(),
                self.timeout_ms == old(self).timeout_ms,
                receive_chain(
                    m1v,
                    *self,
                    received@.subrange(0, i as int).map_values(|d: Vec<u8>| d@),
                    now_ms,
                ),
            decreases received@.len() - i,
        {
            let ghost prev = *self;
            let ghost ds = received@.subrange(0, i as int).map_values(|d: Vec<u8>| d@);
            self.process_datagram(&received[i], now_ms);
            proof {
                assert(process_rel(prev, *self, received@[i as int]@, now_ms));
                lemma_receive_chain_snoc(m1v, prev, *self, ds, received@[i as int]@, now_ms);
                assert(received@.subrange(0, i + 1).map_values(|d: Vec<u8>| d@) =~= ds.push(
                    received@[i as int]@,
                ));
            }
            i = i + 1;
        }
        let ghost m2v = *self;
        proof {
            assert(received@.subrange(0, received@.len() as int) =~= received@);
        }
        let window = self.congestion.window_size;
        let mut out: Vec<Vec<u8>> = Vec::new();
        let mut sent: u32 = 0;
        let mut drained = false;
        while !drained && sent < window
            invariant
                self.wf(),
                self.timeout_ms == old(self).timeout_ms,
                out@.len() == sent,
                sent <= window,
                sent <= m2v.buffer.out().len(),
                window == m2v.congestion.window_size,
                drained ==> sent == m2v.buffer.out().len(),
                forall|j: int| 0 <= j < sent ==> out@[j]@ == #[trigger] m2v.buffer.out()[j].data,
                self.buffer.out() == m2v.buffer.out().subrange(
                    sent as int,
                    m2v.buffer.out().len() as int,
                ),
                self.buffer.inc() == m2v.buffer.inc(),
                self.buffer.max_size == m2v.buffer.max_size,
                self.state == m2v.state,
                self.sequence_number == m2v.sequence_number,
                self.ack_number == m2v.ack_number,
                self.congestion == m2v.congestion,
                self.encryption == m2v.encryption,
                self.reliable_packets == m2v.reliable_packets,
                self.received_window == m2v.received_window,
                self.highest_counter == m2v.highest_counter,
                self.counter_seen == m2v.counter_seen,
                self.phase_started_ms == m2v.phase_started_ms,
            decreases window - sent, (if drained { 0int } else { 1int }),
        {
            let ghost pre = *self;
            let popped = self.buffer.pop_outgoing();
            proof {
                assert(self.reliable_packets == pre.reliable_packets);
                assert(self.reliable_model() == pre.reliable_model());
            }
            match popped {
                Some(p) => {
                    proof {
                        assert(p@ == m2v.buffer.out()[sent as int]);
                    }
                    out.push(p.data);
                    sent = sent + 1;
                    proof {
                        assert(self.buffer.out() =~= m2v.buffer.out().subrange(
                            sent as int,
                            m2v.buffer.out().len() as int,
                        ));
                    }
                },
                None => {
                    drained = true;
                },
            }
        }
        proof {
            let outs = out@.map_values(|d: Vec<u8>| d@);
            assert(outs.len() == sent);
            assert forall|j: int| 0 <= j < outs.len() implies outs[j]
                == #[trigger] m2v.buffer.out()[j].data by {
                assert(outs[j] == out@[j]@);
                assert(out@[j]@ == m2v.buffer.out()[j].data);
            }
            if drained {
                assert(sent == m2v.buffer.out().len());
            } else {
                assert(sent == window);
            }
            assert(drain_rel(m2v, *self, outs));
        }
        let ghost m3v = *self;
        self.update_state(now_ms);
        proof {
            assert(state_step_rel(m3v, *self, now_ms));
            assert(views_of(received@) == received@.map_values(|d: Vec<u8>| d@));
            assert(views_of(out@) == out@.map_values(|d: Vec<u8>| d@));
            assert(retransmit_rel(*old(self), m1v, now_ms) && receive_chain(
                m1v,
                m2v,
                views_of(received@),
                now_ms,
            ) && drain_rel(m2v, m3v, views_of(out@)) && state_step_rel(m3v, *self, now_ms));
        }
        out
    }

    /// Hand the application the oldest fully decoded inbound payload.
    pub fn recv(&mut self) -> (r: Option<Vec<u8>>)
        requires
            old(self).wf(),
        ensures
            final(self).wf(),
            r is Some <==> old(self).buffer.inc().len() > 0,
            r is Some ==> r.unwrap()@ == old(self).buffer.inc()[0].data && final(self).buffer.inc() == old(self).buffer.inc().subrange(
                1,
                old(self).buffer.inc().len() as int,
            ),
            r is None ==> final(self).buffer.inc() == old(self).buffer.inc(),
            final(self).buffer.out() == old(self).buffer.out(),
            final(self).state == old(self).state,
            final(self).reliable_packets == old(self).reliable_packets,
            final(self).sequence_number == old(self).sequence_number,
            final(self).ack_number == old(self).ack_number,
            final(self).congestion == old(self).congestion,
            final(self).encryption == old(self).encryption,
    {
        let popped = self.buffer.pop_incoming();
        proof {
            assert(self.reliable_model() == old(self).reliable_model());
        }
        match popped {
            Some(p) => Some(p.data),
            None => None,
        }
    }
}

/// A frame is due for retransmission once more than the timeout has passed
/// since its last transmission.
pub open spec fn due(x: AbsPacket, now_ms: u64, rto: u64) -> bool {
    (if now_ms >= x.timestamp {
        (now_ms - x.timestamp) as u64
    } else {
        0
    }) > rto
}

/// The round-trip sample a frame acknowledged at `now_ms` yields.
pub open spec fn rtt_sample(now_ms: u64, sent_ms: u64) -> u64 {
    if now_ms >= sent_ms {
        (now_ms - sent_ms) as u64
    } else {
        0
    }
}

/// The congestion state after acknowledging one frame: an estimator sample
/// for a frame never retransmitted (Karn's rule), then one window-growth
/// step.
pub open spec fn ack_step(c: CongestionControl, x: AbsPacket, now_ms: u64) -> CongestionControl {
    if x.attempts == 0 {
        after_ack(after_rtt(c, rtt_sample(now_ms, x.timestamp)))
    } else {
        after_ack(c)
    }
}

/// The frames of the store that an ack with its bits covers, in store order.
pub open spec fn covered_frames(model: Seq<AbsPacket>, ack: u32, ack_bits: u32) -> Seq<AbsPacket>
    decreases model.len(),
{
    if model.len() == 0 {
        Seq::empty()
    } else if covered(ack, ack_bits, model[0].sequence) {
        seq![model[0]] + covered_frames(model.subrange(1, model.len() as int), ack, ack_bits)
    } else {
        covered_frames(model.subrange(1, model.len() as int), ack, ack_bits)
    }
}

/// The congestion state after acknowledging the given frames in order.
pub open spec fn ack_fold(
    c: CongestionControl,
    removed: Seq<AbsPacket>,
    now_ms: u64,
) -> CongestionControl
    decreases removed.len(),
{
    if removed.len() == 0 {
        c
    } else {
        ack_fold(
            ack_step(c, removed[0], now_ms),
            removed.subrange(1, removed.len() as int),
            now_ms,
        )
    }
}

/// Folding the acks of a store tail whose head is covered: one step on the
/// head, then the rest.
proof fn lemma_fold_skip_covered(
    model: Seq<AbsPacket>,
    i: int,
    ack: u32,
    ack_bits: u32,
    c: CongestionControl,
    now_ms: u64,
)
    requires
        0 <= i < model.len(),
        covered(ack, ack_bits, model[i].sequence),
    ensures
        ack_fold(c, covered_frames(model.subrange(i, model.len() as int), ack, ack_bits), now_ms)
            == ack_fold(
            ack_step(c, model[i], now_ms),
            covered_frames(model.subrange(i + 1, model.len() as int), ack, ack_bits),
            now_ms,
        ),
{
    let n = model.len() as int;
    let si = model.subrange(i, n);
    assert(si[0] == model[i]);
    assert(si.subrange(1, si.len() as int) =~= model.subrange(i + 1, n));
    let cf = covered_frames(si, ack, ack_bits);
    assert(cf == seq![model[i]] + covered_frames(model.subrange(i + 1, n), ack, ack_bits));
    assert(cf[0] == model[i]);
    assert(cf.subrange(1, cf.len() as int) =~= covered_frames(
        model.subrange(i + 1, n),
        ack,
        ack_bits,
    ));
}

/// Folding the acks of a store tail whose head is not covered: the head
/// contributes nothing.
proof fn lemma_fold_skip_uncovered(
    model: Seq<AbsPacket>,
    i: int,
    ack: u32,
    ack_bits: u32,
    c: CongestionControl,
    now_ms: u64,
)
    requires
        0 <= i < model.len(),
        !covered(ack, ack_bits, model[i].sequence),
    ensures
        ack_fold(c, covered_frames(model.subrange(i, model.len() as int), ack, ack_bits), now_ms)
            == ack_fold(
            c,
            covered_frames(model.subrange(i + 1, model.len() as int), ack, ack_bits),
            now_ms,
        ),
{
    let n = model.len() as int;
    let si = model.subrange(i, n);
    assert(si[0] == model[i]);
    assert(si.subrange(1, si.len() as int) =~= model.subrange(i + 1, n));
    assert(covered_frames(si, ack, ack_bits) == covered_frames(
        model.subrange(i + 1, n),
        ack,
        ack_bits,
    ));
}

/// A frame after one more transmission, stamped at `now_ms`.
pub open spec fn retransmitted(x: AbsPacket, now_ms: u64) -> AbsPacket {
    AbsPacket { timestamp: now_ms, attempts: (x.attempts + 1) as u8, ..x }
}

/// What one retransmit scan at `now_ms` does, `pre` to `post`. With `model`
/// the unacked store and `rto` the timeout that `pre` calls for: a scan with
/// nothing due changes nothing; a frame not yet due survives untouched; a
/// due frame below the attempt bound survives with one more attempt and a
/// fresh stamp and its wire bytes are re-enqueued (unless the queue is
/// full), and the loss drops the window to one; a due frame at the bound
/// leaves the store, the connection moves to Disconnecting stamped at
/// `now_ms`, and a disconnect-notice frame is enqueued (unless the queue is
/// full or sealing is impossible). Inbound state, acks, timers and the
/// estimator are untouched.
pub open spec fn retransmit_rel(pre: NetworkProtocol, post: NetworkProtocol, now_ms: u64) -> bool {
    let model = pre.reliable_model();
    let rto = rto_spec(pre.congestion.rtt, pre.congestion.rtt_var);
    &&& (forall|q: u32| post.has_reliable(q) ==> pre.has_reliable(q))
    &&& (forall|j: int|
        0 <= j < model.len() && !due(#[trigger] model[j], now_ms, rto)
            ==> post.reliable_model().contains(model[j]))
    &&& (forall|j: int|
        0 <= j < model.len() && due(#[trigger] model[j], now_ms, rto) && model[j].attempts
            < MAX_ATTEMPTS ==> post.reliable_model().contains(retransmitted(model[j], now_ms)) && (
        post.buffer.out().contains(retransmitted(model[j], now_ms)) || post.buffer.out().len()
            >= BUFFER_CAP))
    &&& ((exists|j: int|
        0 <= j < model.len() && due(#[trigger] model[j], now_ms, rto) && model[j].attempts
            < MAX_ATTEMPTS) ==> post.congestion.window_size == 1 && post.congestion.accum == 0
        && post.congestion.last_window_decrease == now_ms)
    &&& ((forall|j: int|
        0 <= j < model.len() ==> !(due(#[trigger] model[j], now_ms, rto) && model[j].attempts
            < MAX_ATTEMPTS)) ==> post.congestion == pre.congestion)
    &&& (forall|j: int|
        0 <= j < model.len() && due(#[trigger] model[j], now_ms, rto) && model[j].attempts
            == MAX_ATTEMPTS ==> !post.has_reliable(model[j].sequence))
    &&& ((exists|j: int|
        0 <= j < model.len() && due(#[trigger] model[j], now_ms, rto) && model[j].attempts
            == MAX_ATTEMPTS) ==> post.state == ProtocolState::Disconnecting
        && post.phase_started_ms == now_ms && (post.buffer.out().len() >= BUFFER_CAP
        || pre.encryption.nonce_sequence >= NONCE_LIMIT || (exists|b: u32|
        #[trigger] pre.ack_bits_match(b) && (post.buffer.out().contains(
            AbsPacket {
                sequence: pre.sequence_number,
                ack: pre.ack_number,
                ack_bits: b,
                data: frame_bytes(
                    pre.encryption.key@,
                    pre.encryption.nonce_sequence,
                    pre.sequence_number,
                    pre.ack_number,
                    b,
                    seq![CTRL_FIN],
                ),
                timestamp: now_ms,
                attempts: 0,
            },
        ) || zlib_bytes(
            frame_plain(pre.sequence_number, pre.ack_number, b, seq![CTRL_FIN]),
        ).len() > MAX_SEAL_INPUT))))
    &&& ((forall|j: int|
        0 <= j < model.len() ==> !(due(#[trigger] model[j], now_ms, rto) && model[j].attempts
            == MAX_ATTEMPTS)) ==> post.state == pre.state && post.phase_started_ms
        == pre.phase_started_ms && post.sequence_number == pre.sequence_number && post.encryption
        == pre.encryption)
    &&& ((forall|j: int| 0 <= j < model.len() ==> !due(#[trigger] model[j], now_ms, rto)) ==> post
        == pre)
    &&& (forall|x: AbsPacket| pre.buffer.out().contains(x) ==> post.buffer.out().contains(x))
    &&& post.buffer.inc() == pre.buffer.inc()
    &&& post.ack_number == pre.ack_number
    &&& post.received_window == pre.received_window
    &&& post.highest_counter == pre.highest_counter
    &&& post.counter_seen == pre.counter_seen
    &&& post.timeout_ms == pre.timeout_ms
    &&& post.congestion.rtt == pre.congestion.rtt
    &&& post.congestion.rtt_var == pre.congestion.rtt_var
    &&& post.encryption.key@ == pre.encryption.key@
}


/// An ack covering every outstanding sequence leaves the unacked store
/// empty: acknowledged reliable frames never linger.
pub proof fn lemma_covering_ack_empties(
    pre: NetworkProtocol,
    post: NetworkProtocol,
    ack: u32,
    ack_bits: u32,
)
    requires
        forall|s: u32| post.has_reliable(s) <==> (pre.has_reliable(s) && !covered(ack, ack_bits, s)),
        forall|s: u32| pre.has_reliable(s) ==> covered(ack, ack_bits, s),
    ensures
        post.reliable_model().len() == 0,
{
    if post.reliable_model().len() > 0 {
        let x = post.reliable_model()[0];
        assert(post.has_reliable(x.sequence));
        assert(pre.has_reliable(x.sequence));
        assert(false);
    }
}

/// A state's received window and cumulative ack determine its selective-ack
/// mask uniquely.
pub proof fn lemma_ack_bits_match_unique(a: NetworkProtocol, b1: u32, b2: u32)
    requires
        a.ack_bits_match(b1),
        a.ack_bits_match(b2),
    ensures
        b1 == b2,
{
    assert forall|i: u32| i < 32 implies ((b1 >> i) & 1) == ((b2 >> i) & 1) by {
        lemma_bit_cases(b1, i);
        lemma_bit_cases(b2, i);
        assert(((b1 >> i) & 1 == 1) <==> a.has_received(
            wrap_sub32(a.ack_number, wrap_add32(i, 1)),
        ));
        assert(((b2 >> i) & 1 == 1) <==> a.has_received(
            wrap_sub32(a.ack_number, wrap_add32(i, 1)),
        ));
    }
    lemma_mask_bits_unique(b1, b2);
}

/// The byte strings of a sequence of datagrams.
pub open spec fn views_of(ds: Seq<Vec<u8>>) -> Seq<Seq<u8>> {
    ds.map_values(|d: Vec<u8>| d@)
}

/// What taking one datagram in at `now_ms` does, `pre` to `post`: the
/// conjunction of `process_datagram`'s contract.
pub open spec fn process_rel(
    pre: NetworkProtocol,
    post: NetworkProtocol,
    d: Seq<u8>,
    now_ms: u64,
) -> bool {
    &&& post.wf()
    &&& (forall|n: u64, s: u32, a: u32, k: u32, p: Seq<u8>|
        pre.fresh_frame(d, n, s, a, k, p) ==> post.has_received(s) || wrap_sub32(
            post.ack_number,
            s,
        ) >= RECEIVED_HORIZON)
    &&& (forall|n: u64, s: u32, a: u32, k: u32, p: Seq<u8>|
        pre.fresh_frame(d, n, s, a, k, p) && is_control(p) ==> post.buffer.inc()
            == pre.buffer.inc())
    &&& (forall|n: u64, s: u32, a: u32, k: u32, p: Seq<u8>|
        pre.fresh_frame(d, n, s, a, k, p) && !is_control(p) && pre.buffer.inc().len() < BUFFER_CAP
            ==> post.buffer.inc() == pre.buffer.inc().push(
            NetworkProtocol::delivered_frame(s, a, k, p, now_ms),
        ))
    &&& (forall|n: u64, s: u32, a: u32, k: u32, p: Seq<u8>|
        pre.fresh_frame(d, n, s, a, k, p) ==> (forall|q: u32|
            post.has_reliable(q) <==> (pre.has_reliable(q) && !covered(a, k, q))))
    &&& (forall|n: u64, s: u32, a: u32, k: u32, p: Seq<u8>|
        pre.fresh_frame(d, n, s, a, k, p) ==> post.ack_number == (if seq_newer(s, pre.ack_number) {
            s
        } else {
            pre.ack_number
        }))
    &&& (forall|n: u64, s: u32, a: u32, k: u32, p: Seq<u8>|
        pre.fresh_frame(d, n, s, a, k, p) && is_control(p) && p[0] == CTRL_SYN && (pre.state
            == ProtocolState::Idle || pre.state == ProtocolState::Connecting) ==> post.state
            == ProtocolState::Connected)
    &&& (forall|n: u64, s: u32, a: u32, k: u32, p: Seq<u8>|
        pre.fresh_frame(d, n, s, a, k, p) && is_control(p) && p[0] == CTRL_SYN_ACK && pre.state
            == ProtocolState::Connecting ==> post.state == ProtocolState::Connected)
    &&& (forall|n: u64, s: u32, a: u32, k: u32, p: Seq<u8>|
        pre.fresh_frame(d, n, s, a, k, p) && !is_control(p) ==> post.state == pre.state)
    &&& (!pre.authentic_datagram(d) ==> post == pre)
    &&& (forall|n: u64, s: u32, a: u32, k: u32, p: Seq<u8>|
        d == frame_bytes(pre.encryption.key@, n, s, a, k, p) && p.len() <= MAX_PAYLOAD && (
        !pre.replay_ok(n) || pre.has_received(s)) ==> post == pre)
    &&& post.timeout_ms == pre.timeout_ms
    &&& post.phase_started_ms == pre.phase_started_ms
    &&& post.encryption.key@ == pre.encryption.key@
    &&& post.buffer.out().len() >= pre.buffer.out().len()
}

/// Datagrams taken in one after the other, `pre` to `post`.
pub open spec fn receive_chain(
    pre: NetworkProtocol,
    post: NetworkProtocol,
    ds: Seq<Seq<u8>>,
    now_ms: u64,
) -> bool
    decreases ds.len(),
{
    if ds.len() == 0 {
        post == pre
    } else {
        exists|mid: NetworkProtocol|
            #[trigger] process_rel(pre, mid, ds[0], now_ms) && receive_chain(
                mid,
                post,
                ds.subrange(1, ds.len() as int),
                now_ms,
            )
    }
}

/// Taking in one more datagram extends a chain.
pub proof fn lemma_receive_chain_snoc(
    a: NetworkProtocol,
    b: NetworkProtocol,
    c: NetworkProtocol,
    ds: Seq<Seq<u8>>,
    d: Seq<u8>,
    now_ms: u64,
)
    requires
        receive_chain(a, b, ds, now_ms),
        process_rel(b, c, d, now_ms),
    ensures
        receive_chain(a, c, ds.push(d), now_ms),
    decreases ds.len(),
{
    if ds.len() == 0 {
        assert(b == a);
        assert(ds.push(d)[0] == d);
        assert(ds.push(d).subrange(1, ds.push(d).len() as int) =~= Seq::<Seq<u8>>::empty());
        assert(receive_chain(c, c, ds.push(d).subrange(1, ds.push(d).len() as int), now_ms));
        assert(process_rel(a, c, ds.push(d)[0], now_ms));
    } else {
        let mid = choose|mid: NetworkProtocol|
            #[trigger] process_rel(a, mid, ds[0], now_ms) && receive_chain(
                mid,
                b,
                ds.subrange(1, ds.len() as int),
                now_ms,
            );
        lemma_receive_chain_snoc(mid, b, c, ds.subrange(1, ds.len() as int), d, now_ms);
        assert(ds.push(d)[0] == ds[0]);
        assert(ds.push(d).subrange(1, ds.push(d).len() as int) =~= ds.subrange(
            1,
            ds.len() as int,
        ).push(d));
        assert(process_rel(a, mid, ds.push(d)[0], now_ms));
    }
}

/// What the window-gated send drain does, `pre` to `post`: the first
/// `min(window, queued)` outgoing frames leave, oldest first, as the
/// returned datagrams; the rest stay queued; nothing else moves.
pub open spec fn drain_rel(
    pre: NetworkProtocol,
    post: NetworkProtocol,
    outs: Seq<Seq<u8>>,
) -> bool {
    let k = if (pre.congestion.window_size as int) <= pre.buffer.out().len() {
        pre.congestion.window_size as int
    } else {
        pre.buffer.out().len() as int
    };
    &&& outs.len() == k
    &&& (forall|i: int| 0 <= i < k ==> outs[i] == #[trigger] pre.buffer.out()[i].data)
    &&& post.buffer.out() == pre.buffer.out().subrange(k, pre.buffer.out().len() as int)
    &&& post.buffer.inc() == pre.buffer.inc()
    &&& post.buffer.max_size == pre.buffer.max_size
    &&& post.state == pre.state
    &&& post.sequence_number == pre.sequence_number
    &&& post.ack_number == pre.ack_number
    &&& post.congestion == pre.congestion
    &&& post.encryption == pre.encryption
    &&& post.reliable_packets == pre.reliable_packets
    &&& post.received_window == pre.received_window
    &&& post.highest_counter == pre.highest_counter
    &&& post.counter_seen == pre.counter_seen
    &&& post.timeout_ms == pre.timeout_ms
    &&& post.phase_started_ms == pre.phase_started_ms
}

/// What the timer step does, `pre` to `post`: the conjunction of
/// `update_state`'s contract.
pub open spec fn state_step_rel(pre: NetworkProtocol, post: NetworkProtocol, now_ms: u64) -> bool {
    &&& post.wf()
    &&& (pre.state == ProtocolState::Connecting && pre.phase_elapsed(now_ms) > pre.timeout_ms
        ==> post.state == ProtocolState::Idle && post.reliable_packets == pre.reliable_packets)
    &&& (pre.state == ProtocolState::Connecting && pre.phase_elapsed(now_ms) <= pre.timeout_ms
        ==> post == pre)
    &&& (pre.state == ProtocolState::Disconnecting && pre.phase_elapsed(now_ms) > pre.timeout_ms
        ==> post.state == ProtocolState::Idle && post.reliable_model().len() == 0)
    &&& (pre.state == ProtocolState::Disconnecting && pre.phase_elapsed(now_ms) <= pre.timeout_ms
        ==> post == pre)
    &&& (pre.state == ProtocolState::Idle || pre.state == ProtocolState::Connected ==> post == pre)
    &&& post.buffer == pre.buffer
    &&& post.sequence_number == pre.sequence_number
    &&& post.ack_number == pre.ack_number
    &&& post.congestion == pre.congestion
    &&& post.encryption == pre.encryption
    &&& post.received_window == pre.received_window
    &&& post.timeout_ms == pre.timeout_ms
}

/// Two states with the same received window and cumulative ack call for the
/// same selective-ack masks.
pub proof fn lemma_same_window_same_mask(x: NetworkProtocol, y: NetworkProtocol)
    requires
        x.received_window == y.received_window,
        x.ack_number == y.ack_number,
    ensures
        forall|b: u32| x.ack_bits_match(b) == y.ack_bits_match(b),
{
    assert forall|b: u32| x.ack_bits_match(b) == y.ack_bits_match(b) by {
        if x.ack_bits_match(b) {
            assert forall|i: u32|
                i < 32 implies (((b >> i) & 1 == 1) <==> y.has_received(
                wrap_sub32(y.ack_number, wrap_add32(i, 1)),
            )) by {
                assert(((b >> i) & 1 == 1) <==> x.has_received(
                    wrap_sub32(x.ack_number, wrap_add32(i, 1)),
                ));
            }
        }
        if y.ack_bits_match(b) {
            assert forall|i: u32|
                i < 32 implies (((b >> i) & 1 == 1) <==> x.has_received(
                wrap_sub32(x.ack_number, wrap_add32(i, 1)),
            )) by {
                assert(((b >> i) & 1 == 1) <==> y.has_received(
                    wrap_sub32(y.ack_number, wrap_add32(i, 1)),
                ));
            }
        }
    }
}

/// Two states whose unacked stores hold the same frames hold the same
/// sequences.
pub proof fn lemma_same_model_same_reliable(a: NetworkProtocol, b: NetworkProtocol)
    requires
        a.reliable_model() == b.reliable_model(),
    ensures
        forall|q: u32| a.has_reliable(q) == b.has_reliable(q),
{
    assert forall|q: u32| a.has_reliable(q) == b.has_reliable(q) by {
        if a.has_reliable(q) {
            let i = choose|i: int|
                0 <= i < a.reliable_model().len() && a.reliable_model()[i].sequence == q;
            assert(b.reliable_model()[i].sequence == q);
        }
        if b.has_reliable(q) {
            let i = choose|i: int|
                0 <= i < b.reliable_model().len() && b.reliable_model()[i].sequence == q;
            assert(a.reliable_model()[i].sequence == q);
        }
    }
}

/// The kept prefix after scanning `i` frames: exactly the uncovered ones,
/// in order, each an element of the original store, with distinct sequences
/// and attempts below the bound.
pub open spec fn queue_kept_ok(
    kept: Seq<Packet>,
    orig: Seq<Packet>,
    i: int,
    ack: u32,
    ack_bits: u32,
) -> bool {
    &&& (forall|k: int|
        0 <= k < kept.len() ==> exists|j: int| 0 <= j < i && #[trigger] kept[k]@ == orig[j]@)
    &&& (forall|k: int| 0 <= k < kept.len() ==> !covered(ack, ack_bits, #[trigger] kept[k]@.sequence))
    &&& (forall|j: int|
        0 <= j < i && !covered(ack, ack_bits, #[trigger] orig[j]@.sequence) ==> exists|k: int|
            0 <= k < kept.len() && #[trigger] kept[k]@.sequence == orig[j]@.sequence)
    &&& (forall|k1: int, k2: int|
        0 <= k1 < k2 < kept.len() ==> kept[k1]@.sequence != kept[k2]@.sequence)
    &&& (forall|k: int| 0 <= k < kept.len() ==> #[trigger] kept[k]@.attempts <= MAX_ATTEMPTS)
}

} // verus!

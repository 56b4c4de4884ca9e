use dserve::ProtocolState;
use dserve::TransportError;
use dserve::buffer::{Packet, PacketBuffer};
use dserve::codec::{decode_frame, encode_frame};
use dserve::congestion::CongestionControl;
use dserve::encryption::EncryptionManager;
use dserve::protocol::NetworkProtocol;
use dserve::wire::{is_newer, push_u32_be, push_u64_be, read_u32_be, read_u64_be};

fn test_key() -> Vec<u8> {
    (0u8..32).collect()
}

fn pkt(seq: u32) -> Packet {
    Packet { sequence: seq, ack: 0, ack_bits: 0, data: vec![seq as u8], timestamp: 0, attempts: 0 }
}

#[test]
fn u32_big_endian_round_trip() {
    let mut out: Vec<u8> = Vec::new();
    push_u32_be(&mut out, 0x12345678);
    assert_eq!(out, vec![0x12, 0x34, 0x56, 0x78]);
    assert_eq!(read_u32_be(&out, 0), 0x12345678);
}

#[test]
fn u64_big_endian_round_trip() {
    let mut out: Vec<u8> = Vec::new();
    push_u64_be(&mut out, 0x0102030405060708);
    assert_eq!(out.len(), 8);
    assert_eq!(read_u64_be(&out, 0), 0x0102030405060708);
}

#[test]
fn newer_respects_wraparound() {
    assert!(is_newer(5, 3));
    assert!(!is_newer(3, 5));
    assert!(!is_newer(7, 7));
    // one past the top of the range is newer than the top
    assert!(is_newer(0, u32::MAX));
}

#[test]
fn buffer_rejects_when_full_and_keeps_order() {
    let mut b = PacketBuffer::new(2);
    assert!(b.push_outgoing(pkt(1)));
    assert!(b.push_outgoing(pkt(2)));
    assert!(!b.push_outgoing(pkt(3)));
    assert_eq!(b.pop_outgoing().unwrap().sequence, 1);
    assert_eq!(b.pop_outgoing().unwrap().sequence, 2);
    assert!(b.pop_outgoing().is_none());
    assert!(b.push_incoming(pkt(9)));
    assert_eq!(b.peek_incoming().unwrap().sequence, 9);
    assert_eq!(b.pop_incoming().unwrap().sequence, 9);
}

#[test]
fn slow_start_then_additive_increase() {
    let mut c = CongestionControl::new();
    assert_eq!(c.window_size, 1);
    for _ in 0..15 {
        c.on_ack();
    }
    // slow start: one frame per ack up to the threshold of 16
    assert_eq!(c.window_size, 16);
    // congestion avoidance: one frame per full window of acks
    for _ in 0..15 {
        c.on_ack();
    }
    assert_eq!(c.window_size, 16);
    c.on_ack();
    assert_eq!(c.window_size, 17);
}

#[test]
fn loss_halves_threshold_and_resets_window() {
    let mut c = CongestionControl::new();
    for _ in 0..19 {
        c.on_ack();
    }
    let w = c.window_size;
    c.on_loss(1234);
    assert_eq!(c.window_size, 1);
    assert_eq!(c.threshold, std::cmp::max(2, w / 2));
    assert_eq!(c.last_window_decrease, 1234);
    // window never drops below one
    c.on_loss(5678);
    assert_eq!(c.window_size, 1);
    assert_eq!(c.threshold, 2);
}

#[test]
fn rtt_estimator_follows_jacobson() {
    let mut c = CongestionControl::new();
    assert_eq!(c.rtt, 100);
    assert_eq!(c.rtt_var, 50);
    c.update_rtt(180);
    // rtt moves an eighth of the way: 100 + 80/8
    assert_eq!(c.rtt, 110);
    // variation moves a quarter of the way toward |180 - 100|
    assert_eq!(c.rtt_var, 50 + (80 - 50) / 4);
    assert_eq!(c.rto(), 110 + 4 * 57);
    // the timeout is floored
    let mut quick = CongestionControl::new();
    for _ in 0..60 {
        quick.update_rtt(1);
    }
    assert_eq!(quick.rto(), 100);
}

#[test]
fn seal_appends_tag_and_counter_advances() {
    let mut em = EncryptionManager::from_key(test_key());
    assert_eq!(em.nonce_sequence, 0);
    let plain = vec![1u8, 2, 3, 4];
    let sealed = em.encrypt(&plain).unwrap();
    // the tag is appended: the wrapper did not hand the input back
    assert_eq!(sealed.len(), plain.len() + 16);
    assert_ne!(&sealed[..4], &plain[..]);
    assert_eq!(em.nonce_sequence, 1);
    let again = em.encrypt(&plain).unwrap();
    // a fresh nonce gives a different ciphertext for the same plaintext
    assert_ne!(sealed, again);
    assert_eq!(em.nonce_sequence, 2);
}

#[test]
fn open_inverts_seal_and_rejects_tampering() {
    let mut em = EncryptionManager::from_key(test_key());
    let plain = vec![42u8; 100];
    let sealed = em.encrypt(&plain).unwrap();
    let opened = em.decrypt(0, &sealed).unwrap();
    assert_eq!(opened, plain);
    // a flipped byte fails authentication
    let mut forged = sealed.clone();
    forged[10] ^= 0xff;
    assert!(em.decrypt(0, &forged).is_none());
    // the wrong counter derives the wrong nonce
    assert!(em.decrypt(1, &sealed).is_none());
}

#[test]
fn frame_round_trip_up_to_the_mtu() {
    let mut em = EncryptionManager::from_key(test_key());
    let peer = EncryptionManager::from_key(test_key());
    for payload in [vec![0xDEu8, 0xAD], vec![7u8; 1024], Vec::new()] {
        let datagram = encode_frame(&mut em, 7, 9, 0b101, &payload).unwrap();
        let f = decode_frame(&peer, &datagram).unwrap();
        assert_eq!(f.sequence, 7);
        assert_eq!(f.ack, 9);
        assert_eq!(f.ack_bits, 0b101);
        assert_eq!(f.payload, payload);
    }
}

#[test]
fn framing_compresses_the_plaintext() {
    let mut em = EncryptionManager::from_key(test_key());
    let payload = vec![0u8; 1000];
    let datagram = encode_frame(&mut em, 1, 0, 0, &payload).unwrap();
    // counter (8) + sealed compressed bytes; far below header + payload + tag
    assert!(datagram.len() < 8 + 12 + 1000 + 16);
}

#[test]
fn ack_bits_reflect_the_received_window() {
    let mut p = NetworkProtocol::new(test_key());
    p.ack_number = 20;
    p.received_window = vec![20, 18, 16, 14, 12, 10];
    let bits = p.generate_ack_bits();
    // bit i set exactly when 20 - (i + 1) was received
    assert_eq!(bits, (1 << 1) | (1 << 3) | (1 << 5) | (1 << 7) | (1 << 9));
}

#[test]
fn ack_with_bits_removes_exactly_the_covered_frames() {
    let mut a = NetworkProtocol::new(test_key());
    a.sequence_number = 10;
    for i in 0..11u32 {
        a.send_reliable(vec![i as u8, 0xAA], 0).unwrap();
    }
    let mut seqs: Vec<u32> = a.reliable_packets.iter().map(|p| p.sequence).collect();
    seqs.sort();
    assert_eq!(seqs, (10..=20).collect::<Vec<u32>>());
    let bits = (1 << 1) | (1 << 3) | (1 << 5) | (1 << 7) | (1 << 9);
    a.handle_ack(20, bits, 0);
    let mut left: Vec<u32> = a.reliable_packets.iter().map(|p| p.sequence).collect();
    left.sort();
    assert_eq!(left, vec![11, 13, 15, 17, 19]);
}

#[test]
fn handshake_happy_path() {
    let mut a = NetworkProtocol::new(test_key());
    let mut b = NetworkProtocol::new(test_key());
    a.connect(0).unwrap();
    assert_eq!(a.state(), ProtocolState::Connecting);
    let a_out = a.update(0, Vec::new());
    assert_eq!(a_out.len(), 1);
    let b_out = b.update(0, a_out);
    assert_eq!(b.state(), ProtocolState::Connected);
    assert_eq!(b_out.len(), 1);
    let _ = a.update(1, b_out);
    assert_eq!(a.state(), ProtocolState::Connected);
    assert!(a.reliable_packets.is_empty());
    // the handshake delivered nothing to either application
    assert!(a.recv().is_none());
    assert!(b.recv().is_none());
}

fn connected_pair() -> (NetworkProtocol, NetworkProtocol) {
    let mut a = NetworkProtocol::new(test_key());
    let mut b = NetworkProtocol::new(test_key());
    a.connect(0).unwrap();
    let a_out = a.update(0, Vec::new());
    let b_out = b.update(0, a_out);
    let _ = a.update(1, b_out);
    (a, b)
}

#[test]
fn loss_and_retransmit() {
    let (mut a, mut b) = connected_pair();
    a.send_reliable(vec![0xDE, 0xAD], 10).unwrap();
    let lost = a.update(10, Vec::new());
    assert_eq!(lost.len(), 1);
    // the link drops the datagram; after the timeout the frame is resent
    let resent = a.update(500, Vec::new());
    assert_eq!(resent.len(), 1);
    assert_eq!(a.reliable_packets.len(), 1);
    assert_eq!(a.reliable_packets[0].attempts, 1);
    assert_eq!(a.congestion.window_size, 1);
    let _ = b.update(500, resent);
    assert_eq!(b.recv(), Some(vec![0xDE, 0xAD]));
    // the ack rides on B's next frame and clears A's store
    b.send_reliable(vec![9, 9], 510).unwrap();
    let b_out = b.update(510, Vec::new());
    let _ = a.update(520, b_out);
    assert!(a.reliable_packets.is_empty());
}

#[test]
fn handshake_times_out_to_idle() {
    let mut a = NetworkProtocol::new(test_key());
    a.connect(0).unwrap();
    let first = a.update(0, Vec::new());
    assert_eq!(first.len(), 1);
    assert_eq!(a.state(), ProtocolState::Connecting);
    let _ = a.update(4999, Vec::new());
    assert_eq!(a.state(), ProtocolState::Connecting);
    let _ = a.update(5001, Vec::new());
    assert_eq!(a.state(), ProtocolState::Idle);
    assert!(a.reliable_packets.is_empty());
    // the handshake request is no longer queued
    assert!(a.update(5002, Vec::new()).is_empty());
}

#[test]
fn forged_datagram_is_dropped_silently() {
    let (_, mut b) = connected_pair();
    let state_before = b.state();
    let forged: Vec<u8> = (0..200).map(|i| (i * 37 + 11) as u8).collect();
    let _ = b.update(50, vec![forged]);
    assert_eq!(b.state(), state_before);
    assert!(b.recv().is_none());
    assert_eq!(b.buffer.incoming.len(), 0);
}

#[test]
fn duplicate_datagram_is_delivered_once() {
    let (mut a, mut b) = connected_pair();
    a.send_reliable(vec![5, 6, 7], 10).unwrap();
    let out = a.update(10, Vec::new());
    assert_eq!(out.len(), 1);
    let copy = out[0].clone();
    let _ = b.update(20, vec![out[0].clone(), copy]);
    assert_eq!(b.recv(), Some(vec![5, 6, 7]));
    assert!(b.recv().is_none());
}

#[test]
fn abandonment_disconnects_then_idles() {
    let mut a = NetworkProtocol::new(test_key());
    a.send_reliable(vec![1, 2], 0).unwrap();
    let _ = a.update(0, Vec::new());
    let mut t = 0u64;
    // the link is down: each due scan retransmits until the bound
    for _ in 0..5 {
        t += 400;
        let _ = a.update(t, Vec::new());
    }
    assert_eq!(a.reliable_packets.len(), 1);
    assert_eq!(a.reliable_packets[0].attempts, 5);
    t += 400;
    let _ = a.update(t, Vec::new());
    assert_eq!(a.state(), ProtocolState::Disconnecting);
    assert!(a.reliable_packets.is_empty());
    let _ = a.update(t + 5001, Vec::new());
    assert_eq!(a.state(), ProtocolState::Idle);
}

#[test]
fn send_reliable_reports_a_full_queue() {
    let mut a = NetworkProtocol::new(test_key());
    for i in 0..1024u32 {
        a.send_reliable(vec![(i % 256) as u8], 0).unwrap();
    }
    assert_eq!(a.send_reliable(vec![0], 0), Err(TransportError::BufferFull));
}

#[test]
fn random_key_manager_still_round_trips() {
    match EncryptionManager::new() {
        Some(mut em) => {
            let plain = vec![8u8, 9, 10];
            let sealed = em.encrypt(&plain).unwrap();
            assert_eq!(em.decrypt(0, &sealed), Some(plain));
        },
        None => panic!("the system random source failed"),
    }
}

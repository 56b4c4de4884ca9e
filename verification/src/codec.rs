//! Framing: a 12-byte big-endian header (sequence, ack, ack bits) in front
//! of the payload, the whole zlib-compressed and AEAD-sealed, and the nonce
//! counter carried in the clear in front of the sealed bytes so the receiver
//! can derive the same nonce.

use vstd::prelude::*;

use crate::TransportError;
use crate::compress::{zlib_bytes, zlib_compress, zlib_decompress};
use crate::encryption::{EncryptionManager, chacha_seal_bytes, nonce_bytes, MAX_SEAL_INPUT,
    NONCE_LIMIT};
use crate::wire::{u32_of_be, u32_be_bytes, u64_of_be, u64_be_bytes, lemma_u32_be_round_trip,
    lemma_u64_be_round_trip, push_u32_be, push_u64_be, read_u32_be, read_u64_be, HEADER_LEN};

verus! {

/// Largest application payload in one frame (the configured MTU).
pub const MAX_PAYLOAD: usize = 1024;

/// Bytes of the clear counter prefix of a datagram.
pub const COUNTER_LEN: usize = 8;

/// The plaintext of a frame: the header, then the payload.
pub open spec fn frame_plain(sequence: u32, ack: u32, ack_bits: u32, payload: Seq<u8>) -> Seq<u8> {
    u32_be_bytes(sequence) + u32_be_bytes(ack) + u32_be_bytes(ack_bits) + payload
}

/// The datagram a frame leaves as, sealed under `key` with counter `n`: the
/// counter in the clear, then the sealed compressed plaintext.
pub open spec fn frame_bytes(
    key: Seq<u8>,
    n: u64,
    sequence: u32,
    ack: u32,
    ack_bits: u32,
    payload: Seq<u8>,
) -> Seq<u8> {
    u64_be_bytes(n) + chacha_seal_bytes(
        key,
        nonce_bytes(n),
        zlib_bytes(frame_plain(sequence, ack, ack_bits, payload)),
    )
}

/// A decoded inbound frame.
pub struct DecodedFrame {
    pub counter: u64,
    pub sequence: u32,
    pub ack: u32,
    pub ack_bits: u32,
    pub payload: Vec<u8>,
}

/// The bytes of `src` from `start` up to `end`.
pub fn copy_range(src: &Vec<u8>, start: usize, end: usize) -> (r: Vec<u8>)
    requires
        start <= end <= src@.len(),
    ensures
        r@ == src@.subrange(start as int, end as int),
{
    let mut r: Vec<u8> = Vec::new();
    let mut i = start;
    while i < end
        invariant
            start <= i <= end <= src@.len(),
            r@ == src@.subrange(start as int, i as int),
        decreases end - i,
    {
        r.push(src[i]);
        i = i + 1;
        proof {
            assert(r@ =~= src@.subrange(start as int, i as int));
        }
    }
    r
}

/// Assemble, compress and seal one frame under the current nonce counter,
/// advancing the counter on success. Succeeds exactly when the counter is
/// below the nonce limit and the compressed plaintext is within the sealing
/// ceiling; on failure nothing changes.
pub fn encode_frame(
    em: &mut EncryptionManager,
    sequence: u32,
    ack: u32,
    ack_bits: u32,
    payload: &Vec<u8>,
) -> (r: Result<Vec<u8>, TransportError>)
    requires
        old(em).wf(),
        payload@.len() <= MAX_PAYLOAD,
    ensures
        final(em).wf(),
        final(em).key@ == old(em).key@,
        r is Ok <==> (old(em).nonce_sequence < NONCE_LIMIT && zlib_bytes(
            frame_plain(sequence, ack, ack_bits, payload@),
        ).len() <= MAX_SEAL_INPUT),
        r is Ok ==> r.unwrap()@ == frame_bytes(
            old(em).key@,
            old(em).nonce_sequence,
            sequence,
            ack,
            ack_bits,
            payload@,
        ) && final(em).nonce_sequence == old(em).nonce_sequence + 1,
        r is Err ==> final(em).nonce_sequence == old(em).nonce_sequence && r.unwrap_err()
            == TransportError::Crypto,
{
    let mut plain: Vec<u8> = Vec::new();
    push_u32_be(&mut plain, sequence);
    push_u32_be(&mut plain, ack);
    push_u32_be(&mut plain, ack_bits);
    let mut body = payload.clone();
    proof {
        assert forall|i: int| 0 <= i < payload@.len() implies body@[i] == payload@[i] by {
            assert(cloned::<u8>(payload@[i], body@[i]));
        }
        assert(body@ =~= payload@);
    }
    plain.append(&mut body);
    proof {
        assert(plain@ =~= frame_plain(sequence, ack, ack_bits, payload@));
    }
    let compressed = zlib_compress(&plain);
    if compressed.len() > MAX_SEAL_INPUT {
        return Err(TransportError::Crypto);
    }
    let counter = em.nonce_sequence;
    match em.encrypt(&compressed) {
        Ok(sealed) => {
            let mut out: Vec<u8> = Vec::new();
            push_u64_be(&mut out, counter);
            let mut sealed = sealed;
            out.append(&mut sealed);
            proof {
                assert(out@ =~= frame_bytes(
                    old(em).key@,
                    counter,
                    sequence,
                    ack,
                    ack_bits,
                    payload@,
                ));
            }
            Ok(out)
        },
        Err(e) => Err(e),
    }
}

/// Split the counter off a datagram, open it, decompress, and parse the
/// header. A datagram that is the sealing of a frame under this key decodes
/// to exactly that frame's parts; everything else that decodes was at least
/// authentically sealed under this key, and its payload is within the MTU.
pub fn decode_frame(em: &EncryptionManager, datagram: &Vec<u8>) -> (r: Option<DecodedFrame>)
    requires
        em.wf(),
    ensures
        forall|n: u64, s: u32, a: u32, k: u32, p: Seq<u8>|
            datagram@ == frame_bytes(em.key@, n, s, a, k, p) && p.len() <= MAX_PAYLOAD ==> r
                is Some && r.unwrap().counter == n && r.unwrap().sequence == s && r.unwrap().ack
                == a && r.unwrap().ack_bits == k && r.unwrap().payload@ == p,
        r is Some ==> datagram@.len() >= COUNTER_LEN,
        r is Some ==> r.unwrap().payload@.len() <= MAX_PAYLOAD,
        r is Some ==> r.unwrap().counter == u64_of_be(datagram@.subrange(0, COUNTER_LEN as int)),
        r is Some ==> (exists|comp: Seq<u8>|
            datagram@.subrange(COUNTER_LEN as int, datagram@.len() as int) == chacha_seal_bytes(
                em.key@,
                nonce_bytes(r.unwrap().counter),
                comp,
            )),
{
    proof {
        assert forall|n: u64, s: u32, a: u32, k: u32, p: Seq<u8>|
            datagram@ == frame_bytes(em.key@, n, s, a, k, p) implies datagram@.len() >= COUNTER_LEN
            && datagram@.subrange(0, COUNTER_LEN as int) == u64_be_bytes(n)
            && datagram@.subrange(COUNTER_LEN as int, datagram@.len() as int) == chacha_seal_bytes(
            em.key@,
            nonce_bytes(n),
            zlib_bytes(frame_plain(s, a, k, p)),
        ) by {
            let sealed = chacha_seal_bytes(em.key@, nonce_bytes(n), zlib_bytes(frame_plain(s, a, k, p)));
            assert(datagram@.subrange(0, COUNTER_LEN as int) =~= u64_be_bytes(n));
            assert(datagram@.subrange(COUNTER_LEN as int, datagram@.len() as int) =~= sealed);
        }
    }
    if datagram.len() < COUNTER_LEN {
        return None;
    }
    let counter = read_u64_be(datagram, 0);
    proof {
        assert forall|n: u64, s: u32, a: u32, k: u32, p: Seq<u8>|
            datagram@ == frame_bytes(em.key@, n, s, a, k, p) implies counter == n by {
            lemma_u64_be_round_trip(n);
        }
    }
    let cipher = copy_range(datagram, COUNTER_LEN, datagram.len());
    let plain = match em.decrypt(counter, &cipher) {
        Some(plain) => plain,
        None => {
            proof {
                assert forall|n: u64, s: u32, a: u32, k: u32, p: Seq<u8>|
                    !(datagram@ == frame_bytes(em.key@, n, s, a, k, p) && p.len()
                        <= MAX_PAYLOAD) by {
                    if datagram@ == frame_bytes(em.key@, n, s, a, k, p) {
                        assert(cipher@ == chacha_seal_bytes(
                            em.key@,
                            nonce_bytes(counter),
                            zlib_bytes(frame_plain(s, a, k, p)),
                        ));
                    }
                }
            }
            return None;
        },
    };
    proof {
        assert forall|n: u64, s: u32, a: u32, k: u32, p: Seq<u8>|
            datagram@ == frame_bytes(em.key@, n, s, a, k, p) implies plain@ == zlib_bytes(
            frame_plain(s, a, k, p),
        ) by {
            assert(cipher@ == chacha_seal_bytes(
                em.key@,
                nonce_bytes(counter),
                zlib_bytes(frame_plain(s, a, k, p)),
            ));
        }
    }
    let limit: u64 = (HEADER_LEN + MAX_PAYLOAD + 1) as u64;
    let decompressed = match zlib_decompress(&plain, limit) {
        Some(d) => d,
        None => {
            proof {
                assert forall|n: u64, s: u32, a: u32, k: u32, p: Seq<u8>|
                    !(datagram@ == frame_bytes(em.key@, n, s, a, k, p) && p.len()
                        <= MAX_PAYLOAD) by {
                    if datagram@ == frame_bytes(em.key@, n, s, a, k, p) && p.len() <= MAX_PAYLOAD {
                        assert(plain@ == zlib_bytes(frame_plain(s, a, k, p)));
                        assert(frame_plain(s, a, k, p).len() == HEADER_LEN + p.len());
                        assert(frame_plain(s, a, k, p).len() < limit);
                    }
                }
            }
            return None;
        },
    };
    proof {
        assert forall|n: u64, s: u32, a: u32, k: u32, p: Seq<u8>|
            datagram@ == frame_bytes(em.key@, n, s, a, k, p) && p.len() <= MAX_PAYLOAD implies
            decompressed@ == frame_plain(s, a, k, p) by {
            assert(plain@ == zlib_bytes(frame_plain(s, a, k, p)));
            assert(frame_plain(s, a, k, p).len() == HEADER_LEN + p.len());
        }
    }
    if decompressed.len() < HEADER_LEN || decompressed.len() > HEADER_LEN + MAX_PAYLOAD {
        proof {
            assert forall|n: u64, s: u32, a: u32, k: u32, p: Seq<u8>|
                !(datagram@ == frame_bytes(em.key@, n, s, a, k, p) && p.len() <= MAX_PAYLOAD) by {
                if datagram@ == frame_bytes(em.key@, n, s, a, k, p) && p.len() <= MAX_PAYLOAD {
                    assert(decompressed@ == frame_plain(s, a, k, p));
                    assert(frame_plain(s, a, k, p).len() == HEADER_LEN + p.len());
                }
            }
        }
        return None;
    }
    let sequence = read_u32_be(&decompressed, 0);
    let ack = read_u32_be(&decompressed, 4);
    let ack_bits = read_u32_be(&decompressed, 8);
    let payload = copy_range(&decompressed, HEADER_LEN, decompressed.len());
    proof {
        assert forall|n: u64, s: u32, a: u32, k: u32, p: Seq<u8>|
            datagram@ == frame_bytes(em.key@, n, s, a, k, p) && p.len() <= MAX_PAYLOAD implies
            sequence == s && ack == a && ack_bits == k && payload@ == p by {
            let fp = frame_plain(s, a, k, p);
            assert(fp.subrange(0, 4) =~= u32_be_bytes(s));
            assert(fp.subrange(4, 8) =~= u32_be_bytes(a));
            assert(fp.subrange(8, 12) =~= u32_be_bytes(k));
            assert(fp.subrange(HEADER_LEN as int, fp.len() as int) =~= p);
            lemma_u32_be_round_trip(s);
            lemma_u32_be_round_trip(a);
            lemma_u32_be_round_trip(k);
        }
        assert(datagram@.subrange(COUNTER_LEN as int, datagram@.len() as int) == chacha_seal_bytes(
            em.key@,
            nonce_bytes(counter),
            plain@,
        ));
    }
    let result = DecodedFrame { counter, sequence, ack, ack_bits, payload };
    proof {
        assert(result.counter == counter);
        assert(datagram@.subrange(COUNTER_LEN as int, datagram@.len() as int) == chacha_seal_bytes(
            em.key@,
            nonce_bytes(result.counter),
            plain@,
        ));
        assert(exists|comp: Seq<u8>|
            datagram@.subrange(COUNTER_LEN as int, datagram@.len() as int) == chacha_seal_bytes(
                em.key@,
                nonce_bytes(result.counter),
                comp,
            ));
    }
    Some(result)
}

} // verus!

//! AEAD protection of frames: ChaCha20-Poly1305 through ring, under a
//! monotonic nonce counter that is never allowed to repeat a nonce.

use vstd::prelude::*;

use crate::TransportError;

verus! {

/// Bytes in an AEAD key.
pub const KEY_LEN: usize = 32;

/// Bytes in an AEAD nonce.
pub const NONCE_LEN: usize = 12;

/// Bytes in the authentication tag that sealing appends.
pub const TAG_LEN: usize = 16;

/// Counters at or above this would repeat an earlier nonce byte pattern, so
/// sealing refuses them.
pub const NONCE_LIMIT: u64 = 0x100_0000_0000;

/// Plaintexts up to this length are guaranteed to seal (the algorithm's own
/// ceiling is far higher).
pub const MAX_SEAL_INPUT: usize = 0xFFFF_FFFF;

/// The nonce derived from a counter: four zero bytes, then the low five
/// bytes of the counter most significant first, then three zero bytes.
/// Both peers must derive it the same way.
pub open spec fn nonce_bytes(n: u64) -> Seq<u8> {
    seq![
        0u8,
        0u8,
        0u8,
        0u8,
        ((n >> 32) & 0xff) as u8,
        ((n >> 24) & 0xff) as u8,
        ((n >> 16) & 0xff) as u8,
        ((n >> 8) & 0xff) as u8,
        (n & 0xff) as u8,
        0u8,
        0u8,
        0u8,
    ]
}

/// What ring's ChaCha20-Poly1305 seal produces, tag appended, with empty
/// associated data: a function of key, nonce and plaintext alone.
pub uninterp spec fn chacha_seal_bytes(key: Seq<u8>, nonce: Seq<u8>, plain: Seq<u8>) -> Seq<u8>;

/// Relies on ring's LessSafeKey::seal_in_place_append_tag with
/// CHACHA20_POLY1305 and empty associated data: deterministic in key, nonce
/// and plaintext, appends the 16-byte tag, and fails only when the input is
/// longer than the algorithm's ceiling.
#[verifier::external_body]
pub(crate) fn chacha_seal(key: &Vec<u8>, nonce: &Vec<u8>, data: &Vec<u8>) -> (r: Option<Vec<u8>>)
    requires
        key@.len() == KEY_LEN,
        nonce@.len() == NONCE_LEN,
    ensures
        r is Some ==> r.unwrap()@ == chacha_seal_bytes(key@, nonce@, data@) && r.unwrap()@.len()
            == data@.len() + TAG_LEN,
        data@.len() <= MAX_SEAL_INPUT ==> r is Some,
{
    let unbound = ring::aead::UnboundKey::new(&ring::aead::CHACHA20_POLY1305, key.as_slice())
        .expect("the key is 32 bytes");
    let sealing = ring::aead::LessSafeKey::new(unbound);
    let raw: [u8; 12] = nonce.as_slice().try_into().expect("the nonce is 12 bytes");
    let n = ring::aead::Nonce::assume_unique_for_key(raw);
    let mut in_out = data.clone();
    match sealing.seal_in_place_append_tag(n, ring::aead::Aad::empty(), &mut in_out) {
        Ok(()) => Some(in_out),
        Err(_) => None,
    }
}

/// Relies on ring's LessSafeKey::open_in_place with CHACHA20_POLY1305 and
/// empty associated data: opening what seal produced under the same key and
/// nonce gives the plaintext back, and everything it accepts is such an
/// output, since the cipher is invertible and the tag deterministic.
#[verifier::external_body]
pub(crate) fn chacha_open(key: &Vec<u8>, nonce: &Vec<u8>, cipher: &Vec<u8>) -> (r: Option<Vec<u8>>)
    requires
        key@.len() == KEY_LEN,
        nonce@.len() == NONCE_LEN,
    ensures
        forall|p: Seq<u8>|
            cipher@ == chacha_seal_bytes(key@, nonce@, p) ==> r is Some && r.unwrap()@ == p,
        r is Some ==> cipher@ == chacha_seal_bytes(key@, nonce@, r.unwrap()@),
{
    let unbound = ring::aead::UnboundKey::new(&ring::aead::CHACHA20_POLY1305, key.as_slice())
        .expect("the key is 32 bytes");
    let opening = ring::aead::LessSafeKey::new(unbound);
    let raw: [u8; 12] = nonce.as_slice().try_into().expect("the nonce is 12 bytes");
    let n = ring::aead::Nonce::assume_unique_for_key(raw);
    let mut in_out = cipher.clone();
    match opening.open_in_place(n, ring::aead::Aad::empty(), &mut in_out) {
        Ok(plain) => Some(plain.to_vec()),
        Err(_) => None,
    }
}

/// Relies on ring's SystemRandom: fills a fresh key from the operating
/// system's secure random source, or reports that the source failed.
#[verifier::external_body]
pub(crate) fn random_key() -> (r: Option<Vec<u8>>)
    ensures
        r is Some ==> r.unwrap()@.len() == KEY_LEN,
{
    let rng = ring::rand::SystemRandom::new();
    let mut key = vec![0u8; 32];
    match ring::rand::SecureRandom::fill(&rng, &mut key) {
        Ok(()) => Some(key),
        Err(_) => None,
    }
}

/// The 12 nonce bytes for a counter.
pub fn make_nonce(n: u64) -> (r: Vec<u8>)
    ensures
        r@ == nonce_bytes(n),
{
    let mut v: Vec<u8> = Vec::new();
    v.push(0);
    v.push(0);
    v.push(0);
    v.push(0);
    v.push(((n >> 32) & 0xff) as u8);
    v.push(((n >> 24) & 0xff) as u8);
    v.push(((n >> 16) & 0xff) as u8);
    v.push(((n >> 8) & 0xff) as u8);
    v.push((n & 0xff) as u8);
    v.push(0);
    v.push(0);
    v.push(0);
    proof {
        assert(v@ =~= nonce_bytes(n));
    }
    v
}

/// Distinct counters below the sealing limit derive distinct nonces, so
/// while the counter only grows and stays below the limit, no (key, nonce)
/// pair is ever used twice.
pub proof fn lemma_nonce_injective(a: u64, b: u64)
    requires
        a < NONCE_LIMIT,
        b < NONCE_LIMIT,
        a != b,
    ensures
        nonce_bytes(a) != nonce_bytes(b),
{
    if nonce_bytes(a) == nonce_bytes(b) {
        assert(nonce_bytes(a)[4] == nonce_bytes(b)[4]);
        assert(nonce_bytes(a)[5] == nonce_bytes(b)[5]);
        assert(nonce_bytes(a)[6] == nonce_bytes(b)[6]);
        assert(nonce_bytes(a)[7] == nonce_bytes(b)[7]);
        assert(nonce_bytes(a)[8] == nonce_bytes(b)[8]);
        assert(a == b) by (bit_vector)
            requires
                a < 0x100_0000_0000,
                b < 0x100_0000_0000,
                ((a >> 32) & 0xff) as u8 == ((b >> 32) & 0xff) as u8,
                ((a >> 24) & 0xff) as u8 == ((b >> 24) & 0xff) as u8,
                ((a >> 16) & 0xff) as u8 == ((b >> 16) & 0xff) as u8,
                ((a >> 8) & 0xff) as u8 == ((b >> 8) & 0xff) as u8,
                (a & 0xff) as u8 == (b & 0xff) as u8,
        ;
    }
}

/// AEAD state for one direction of one connection: the 256-bit key and the
/// nonce counter, which never rewinds.
pub struct EncryptionManager {
    pub key: Vec<u8>,
    pub nonce_sequence: u64,
}

impl EncryptionManager {
    /// The key has the right length.
    pub open spec fn wf(&self) -> bool {
        self.key@.len() == KEY_LEN
    }

    /// A manager over the given 256-bit key, counter at zero. Keys are
    /// provisioned out of band; both peers must hold the same one.
    pub fn from_key(key: Vec<u8>) -> (r: Self)
        requires
            key@.len() == KEY_LEN,
        ensures
            r.wf(),
            r.key@ == key@,
            r.nonce_sequence == 0,
    {
        EncryptionManager { key, nonce_sequence: 0 }
    }

    /// A manager over a fresh random key. `None` only when the operating
    /// system's random source fails.
    pub fn new() -> (r: Option<Self>)
        ensures
            r is Some ==> r.unwrap().wf() && r.unwrap().nonce_sequence == 0,
    {
        match random_key() {
            Some(key) => Some(EncryptionManager { key, nonce_sequence: 0 }),
            None => None,
        }
    }

    /// Seal a plaintext under the current counter's nonce and advance the
    /// counter. Fails, changing nothing, when the counter has reached the
    /// nonce limit or the plaintext is over the sealing ceiling; succeeds on
    /// every plaintext up to `MAX_SEAL_INPUT` while the counter is below the
    /// limit.
    pub fn encrypt(&mut self, data: &Vec<u8>) -> (r: Result<Vec<u8>, TransportError>)
        requires
            old(self).wf(),
        ensures
            final(self).wf(),
            final(self).key@ == old(self).key@,
            r is Ok ==> old(self).nonce_sequence < NONCE_LIMIT && final(self).nonce_sequence
                == old(self).nonce_sequence + 1 && r.unwrap()@ == chacha_seal_bytes(
                old(self).key@,
                nonce_bytes(old(self).nonce_sequence),
                data@,
            ) && r.unwrap()@.len() == data@.len() + TAG_LEN,
            r is Err ==> final(self).nonce_sequence == old(self).nonce_sequence && r.unwrap_err()
                == TransportError::Crypto && (old(self).nonce_sequence >= NONCE_LIMIT || data@.len()
                > MAX_SEAL_INPUT),
            old(self).nonce_sequence < NONCE_LIMIT && data@.len() <= MAX_SEAL_INPUT ==> r is Ok,
    {
        if self.nonce_sequence >= NONCE_LIMIT {
            return Err(TransportError::Crypto);
        }
        let nonce = make_nonce(self.nonce_sequence);
        match chacha_seal(&self.key, &nonce, data) {
            Some(sealed) => {
                self.nonce_sequence = self.nonce_sequence + 1;
                Ok(sealed)
            },
            None => Err(TransportError::Crypto),
        }
    }

    /// Open a ciphertext under the nonce a received counter derives.
    /// Returns the plaintext exactly when the bytes are what seal produces
    /// under this key and that counter.
    pub fn decrypt(&self, counter: u64, cipher: &Vec<u8>) -> (r: Option<Vec<u8>>)
        requires
            self.wf(),
        ensures
            forall|p: Seq<u8>|
                cipher@ == chacha_seal_bytes(self.key@, nonce_bytes(counter), p) ==> r is Some
                    && r.unwrap()@ == p,
            r is Some ==> cipher@ == chacha_seal_bytes(
                self.key@,
                nonce_bytes(counter),
                r.unwrap()@,
            ),
    {
        let nonce = make_nonce(counter);
        chacha_open(&self.key, &nonce, cipher)
    }
}

} // verus!

//! Zlib compression of frame plaintexts, through flate2.

use vstd::prelude::*;

verus! {

/// What flate2's zlib encoder, at the default compression level, produces
/// for the given bytes.
pub uninterp spec fn zlib_bytes(data: Seq<u8>) -> Seq<u8>;

/// Relies on flate2::write::ZlibEncoder at the default level: with the
/// pure-Rust backend the output is a function of the input bytes alone, and
/// writing into a Vec cannot fail.
#[verifier::external_body]
pub(crate) fn zlib_compress(data: &Vec<u8>) -> (r: Vec<u8>)
    ensures
        r@ == zlib_bytes(data@),
{
    let mut encoder = flate2::write::ZlibEncoder::new(Vec::new(), flate2::Compression::default());
    std::io::Write::write_all(&mut encoder, data).expect("writing into a Vec cannot fail");
    encoder.finish().expect("writing into a Vec cannot fail")
}

/// Relies on flate2::read::ZlibDecoder: decoding what the encoder produced
/// gives the original bytes back, and corrupt input reads as an error.
/// `Read::take` caps how many decoded bytes are taken, so no more than
/// `limit` bytes come back.
#[verifier::external_body]
pub(crate) fn zlib_decompress(data: &Vec<u8>, limit: u64) -> (r: Option<Vec<u8>>)
    ensures
        forall|p: Seq<u8>|
            data@ == zlib_bytes(p) && p.len() < limit ==> r is Some && r.unwrap()@ == p,
        r is Some ==> r.unwrap()@.len() <= limit,
{
    let decoder = flate2::read::ZlibDecoder::new(data.as_slice());
    let mut out = Vec::new();
    match std::io::Read::read_to_end(&mut std::io::Read::take(decoder, limit), &mut out) {
        Ok(_) => Some(out),
        Err(_) => None,
    }
}

} // verus!

//! The digest and compression primitives every stored object goes through.
use vstd::prelude::*;

verus! {

/// The SHA-1 digest of a byte sequence.
pub uninterp spec fn sha1_of(data: Seq<u8>) -> Seq<u8>;

/// The zlib stream that the default compression level produces for a byte
/// sequence.
pub uninterp spec fn zlib_of(data: Seq<u8>) -> Seq<u8>;

/// Relies on `sha1::Sha1` through `digest::Digest::digest`: the 20-byte SHA-1
/// digest of `data`.
#[verifier::external_body]
pub(crate) fn sha1_digest(data: &[u8]) -> (r: [u8; 20])
    ensures
        r@ == sha1_of(data@),
{
    <sha1::Sha1 as sha1::Digest>::digest(data).into()
}

/// Relies on `flate2::write::ZlibEncoder` at `Compression::default()` over a
/// `Vec`: after `write_all` and `finish` it holds the zlib stream of `data`.
/// Writing into a `Vec` never fails, and a fresh encoder at the default level
/// meets none of the backend's error cases, so the result is always there.
#[verifier::external_body]
pub(crate) fn zlib_compress(data: &[u8]) -> (r: Option<Vec<u8>>)
    ensures
        r.is_some(),
        r matches Some(v) ==> v@ == zlib_of(data@),
{
    let mut e = flate2::write::ZlibEncoder::new(Vec::new(), flate2::Compression::default());
    match std::io::Write::write_all(&mut e, data) {
        Ok(()) => e.finish().ok(),
        Err(_) => None,
    }
}

/// What `flate2::read::ZlibDecoder`, read to its end, gives for a byte
/// sequence: the inflated bytes, or `None` where it reports an error.
pub uninterp spec fn inflate_of(data: Seq<u8>) -> Option<Seq<u8>>;

/// Relies on `flate2::read::ZlibDecoder` read to its end: its outcome is
/// named `inflate_of`, and a zlib stream decodes to the bytes it was made
/// from.
#[verifier::external_body]
pub(crate) fn zlib_decompress(data: &[u8]) -> (r: Option<Vec<u8>>)
    ensures
        r.is_some() == inflate_of(data@).is_some(),
        r matches Some(v) ==> inflate_of(data@) == Some(v@),
        (exists|x: Seq<u8>| #[trigger] zlib_of(x) == data@) ==> r.is_some(),
        r matches Some(v) ==> forall|x: Seq<u8>| #[trigger] zlib_of(x) == data@ ==> v@ == x,
{
    let mut out = Vec::new();
    match std::io::Read::read_to_end(&mut flate2::read::ZlibDecoder::new(data), &mut out) {
        Ok(_) => Some(out),
        Err(_) => None,
    }
}

} // verus!

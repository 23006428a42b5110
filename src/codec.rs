use vstd::prelude::*;

verus! {

pub uninterp spec fn zstd_decoded(compressed: Seq<u8>) -> Option<Seq<u8>>;

pub uninterp spec fn zstd_encoded(plain: Seq<u8>) -> Option<Seq<u8>>;

/// Relies on `zstd::stream::decode_all`: the decompressed bytes of the frames,
/// or a failure, either of which depends on the input alone.
#[verifier::external_body]
pub(crate) fn zstd_decode(compressed: &[u8]) -> (r: Option<Vec<u8>>)
    ensures
        r is Some <==> zstd_decoded(compressed@) is Some,
        r matches Some(v) ==> zstd_decoded(compressed@) == Some(v@),
{
    zstd::stream::decode_all(std::io::Cursor::new(compressed)).ok()
}

/// Relies on `zstd::stream::encode_all` at level 6: the compressed frame, or a
/// failure, either of which depends on the input alone.
#[verifier::external_body]
pub(crate) fn zstd_encode(plain: &[u8]) -> (r: Option<Vec<u8>>)
    ensures
        r is Some <==> zstd_encoded(plain@) is Some,
        r matches Some(v) ==> zstd_encoded(plain@) == Some(v@),
{
    zstd::stream::encode_all(std::io::Cursor::new(plain), 6).ok()
}

} // verus!

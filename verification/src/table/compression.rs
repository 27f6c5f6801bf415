//! Block compression, done by the snap and zstd crates.
use std::io::{Read, Write};
use vstd::prelude::*;

verus! {

/// What snap's frame decoder makes of `data`: the decompressed bytes, or `None` when
/// `data` is not a well-formed snappy frame stream.
pub uninterp spec fn snappy_frame_decoded(data: Seq<u8>) -> Option<Seq<u8>>;

/// What zstd's stream decoder makes of `data`: the decompressed bytes, or `None` when
/// `data` is not a well-formed zstd stream.
pub uninterp spec fn zstd_decoded(data: Seq<u8>) -> Option<Seq<u8>>;

/// Reads `data` to its end through `snap::read::FrameDecoder`. The contract only names
/// the result, as a function of `data`; the snappy format is not restated here.
#[verifier::external_body]
pub(crate) fn snappy_decompress(data: &[u8]) -> (r: Result<Vec<u8>, std::io::Error>)
    ensures
        match r {
            Ok(v) => snappy_frame_decoded(data@) == Some(v@),
            Err(_) => snappy_frame_decoded(data@) is None,
        },
{
    let mut out = Vec::new();
    snap::read::FrameDecoder::new(data).read_to_end(&mut out).map(|_| out)
}

/// Reads `data` to its end through `zstd::stream::Decoder`. The contract only names the
/// result, as a function of `data`; the zstd format is not restated here.
#[verifier::external_body]
pub(crate) fn zstd_decompress(data: &[u8]) -> (r: Result<Vec<u8>, std::io::Error>)
    ensures
        match r {
            Ok(v) => zstd_decoded(data@) == Some(v@),
            Err(_) => zstd_decoded(data@) is None,
        },
{
    zstd::stream::decode_all(data)
}

/// What snap's frame encoder writes for `data`.
pub uninterp spec fn snappy_frame_encoded(data: Seq<u8>) -> Seq<u8>;

/// What zstd's stream encoder writes for `data` at compression level `level`.
pub uninterp spec fn zstd_encoded(data: Seq<u8>, level: i32) -> Seq<u8>;

/// Writes `data` through `snap::write::FrameEncoder` into a vector and flushes it. The
/// encoder cuts its input into blocks it can always compress and writes into a vector,
/// which never fails, so the result is always `Some`; the contract names the output, as a
/// function of `data`.
#[verifier::external_body]
pub(crate) fn snappy_compress(data: &[u8]) -> (r: Option<Vec<u8>>)
    ensures
        r is Some,
        r matches Some(v) ==> v@ == snappy_frame_encoded(data@),
{
    let mut out = Vec::new();
    {
        let mut encoder = snap::write::FrameEncoder::new(&mut out);
        if encoder.write_all(data).is_err() || encoder.flush().is_err() {
            return None;
        }
    }
    Some(out)
}

/// `zstd::stream::copy_encode` of `data` at `level` into a vector; `None` when zstd
/// reports an error. The contract only names the output, as a function of `data` and
/// `level`.
#[verifier::external_body]
pub(crate) fn zstd_compress(data: &[u8], level: i32) -> (r: Option<Vec<u8>>)
    ensures
        r matches Some(v) ==> v@ == zstd_encoded(data@, level),
{
    let mut out = Vec::new();
    match zstd::stream::copy_encode(data, &mut out, level) {
        Ok(()) => Some(out),
        Err(_) => None,
    }
}

} // verus!

//! Gzip compression of response bodies, done by flate2.
use vstd::prelude::*;
use flate2::write::GzEncoder;
use flate2::Compression;
use std::io::Write;

verus! {

/// What compressing `data` with flate2 at its default level gives: the gzip
/// stream, or `None` where the encoder reports an error.
pub uninterp spec fn gzip_of(data: Seq<u8>) -> Option<Seq<u8>>;

/// Relies on flate2's `GzEncoder` writing into a `Vec` at the default level:
/// the outcome (the finished stream, or a write or finish error, as `None`)
/// depends on the input bytes alone.
#[verifier::external_body]
pub fn compress(content: &[u8]) -> (r: Option<Vec<u8>>)
    ensures
        r is Some <==> gzip_of(content@) is Some,
        r matches Some(c) ==> gzip_of(content@) == Some(c@),
{
    let mut encoder = GzEncoder::new(Vec::new(), Compression::default());
    if encoder.write_all(content).is_err() {
        return None;
    }
    encoder.finish().ok()
}

} // verus!

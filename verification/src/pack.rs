//! Manual pages are also kept compressed: the bytes of a page as gzip data.

use vstd::prelude::*;
use crate::err::BashManError;
use libdeflater::{CompressionLvl, Compressor};

verus! {

/// A compressor of `libdeflater`: nothing of it is seen here.
#[verifier::external_type_specification]
#[verifier::external_body]
pub struct ExCompressor(Compressor);

/// `libdeflater::Compressor::new`, called with the level that
/// `libdeflater::CompressionLvl::best` gives. Nothing is claimed of the
/// compressor.
#[verifier::external_body]
fn best_compressor() -> Compressor {
    Compressor::new(CompressionLvl::best())
}

/// `libdeflater::Compressor::gzip_compress_bound`: how many bytes the gzip
/// data of `n` bytes may take at most. Nothing is claimed of the number.
#[verifier::external_body]
fn gzip_bound(c: &mut Compressor, n: usize) -> usize {
    c.gzip_compress_bound(n)
}

/// `libdeflater::Compressor::gzip_compress`: writes the gzip data of `src`
/// to the front of `dst` and gives the number of bytes written, or nothing
/// where `dst` is too short. The claim: `dst` keeps its length, and the
/// number is neither zero nor more than that length.
#[verifier::external_body]
fn gzip_compress(c: &mut Compressor, src: &[u8], dst: &mut Vec<u8>) -> (r: Option<usize>)
    ensures
        final(dst)@.len() == old(dst)@.len(),
        r matches Some(n) ==> 0 < n <= old(dst)@.len(),
{
    c.gzip_compress(src, dst.as_mut_slice()).ok()
}

/// What is kept of a buffer that data was written to: the first `written`
/// bytes, or all of it where it has no more; an error where nothing was
/// written.
pub fn packed(buf: Vec<u8>, written: Option<usize>) -> (r: Result<Vec<u8>, BashManError>)
    ensures
        match r {
            Ok(out) => written matches Some(n) && out@ == (if n <= buf@.len() {
                buf@.take(n as int)
            } else {
                buf@
            }),
            Err(e) => written is None && e == BashManError::Man,
        },
{
    match written {
        Some(n) => {
            let mut buf = buf;
            let ghost all = buf@;
            buf.truncate(n);
            proof {
                if n <= all.len() {
                    assert(buf@ =~= all.take(n as int));
                }
            }
            Ok(buf)
        },
        None => Err(BashManError::Man),
    }
}

/// The bytes as gzip data, compressed as well as can be. Where the
/// compressor gives nothing the page cannot be written.
pub fn gzip(src: &[u8]) -> (r: Result<Vec<u8>, BashManError>)
    ensures
        match r {
            Ok(out) => out@.len() > 0,
            Err(e) => e == BashManError::Man,
        },
{
    let mut c = best_compressor();
    let bound = gzip_bound(&mut c, src.len());
    let mut buf: Vec<u8> = Vec::new();
    buf.resize(bound, 0u8);
    let written = gzip_compress(&mut c, src, &mut buf);
    packed(buf, written)
}

} // verus!

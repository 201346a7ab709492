use std::io::Write;
use vstd::prelude::*;

verus! {

/// The number of bytes that the fixed compressor configuration — gzip
/// at flate2's default level — produces for the UTF-8 encoding of
/// `text`. The exact value follows the deflate algorithm and is not
/// restated here; it is a function of the text alone, so every call on
/// equal text yields the same size. The whole metric depends on all
/// sizes being computed under this one configuration.
pub uninterp spec fn gzip_len_of(text: Seq<char>) -> nat;

/// Relies on flate2's `GzEncoder` writing into a `Vec<u8>` at the
/// default compression level: the compressed stream is a function of
/// the input bytes and the fixed configuration alone. Writing into a
/// `Vec` sink cannot fail, so `write_all` and `finish` return `Ok`.
#[verifier::external_body]
pub(crate) fn gzip_compressed_len(text: &str) -> (r: usize)
    ensures
        r as nat == gzip_len_of(text@),
{
    let mut encoder = flate2::write::GzEncoder::new(Vec::new(), flate2::Compression::default());
    encoder.write_all(text.as_bytes()).unwrap();
    encoder.finish().unwrap().len()
}

} // verus!

//! The stream decoder: multi-member gzip decompression.
//!
//! Archive objects arrive as one or more independently compressed gzip
//! members laid back to back.  The decoder must keep going into the next
//! member rather than stopping at the first member's logical end.  The
//! decompression itself is flate2's work; this module states what that
//! work returns and is otherwise verified.
use vstd::prelude::*;

use crate::codec::concat_all;

verus! {

/// The gzip member that flate2's encoder produces, at the default
/// compression level, for the given plaintext.  The bytes depend on the
/// plaintext alone.
pub uninterp spec fn gzip_of(plain: Seq<u8>) -> Seq<u8>;

/// A whole compressed stream: the members' encodings laid back to back.
pub open spec fn gzip_members(ms: Seq<Seq<u8>>) -> Seq<u8>
    decreases ms.len(),
{
    if ms.len() == 0 {
        Seq::<u8>::empty()
    } else {
        gzip_of(ms[0]) + gzip_members(ms.drop_first())
    }
}

/// Relies on flate2's `GzEncoder` at the default compression level: the
/// encoder writes a blank header — no timestamp, no name, a fixed
/// operating-system byte — and compresses with its default pure-Rust
/// backend, so the member is a function of the input bytes alone.  The
/// writer underneath the encoder is a plain vector, which cannot fail,
/// so the two error paths cannot be taken.
#[verifier::external_body]
fn gzip_compress_raw(data: &Vec<u8>) -> (r: Vec<u8>)
    ensures
        r@ == gzip_of(data@),
{
    let mut encoder = flate2::write::GzEncoder::new(Vec::new(), flate2::Compression::default());
    std::io::Write::write_all(&mut encoder, data.as_slice()).expect("a Vec never fails to take bytes");
    encoder.finish().expect("a Vec never fails to take bytes")
}

/// Relies on flate2's `MultiGzDecoder`: a gzip file is a series of
/// members laid one after another, and the decoder decodes all of them
/// rather than stopping at the first member's end.  On malformed input
/// it reports an error instead.
#[verifier::external_body]
fn gzip_decompress_raw(data: &Vec<u8>) -> (r: Option<Vec<u8>>)
    ensures
        match r {
            Some(p) => forall|ms: Seq<Seq<u8>>|
                ms.len() >= 1 && data@ == #[trigger] gzip_members(ms) ==> p@ == concat_all(ms),
            None => forall|ms: Seq<Seq<u8>>|
                !(ms.len() >= 1 && data@ == #[trigger] gzip_members(ms)),
        },
{
    let mut decoder = flate2::read::MultiGzDecoder::new(data.as_slice());
    let mut out: Vec<u8> = Vec::new();
    match std::io::Read::read_to_end(&mut decoder, &mut out) {
        Ok(_) => Some(out),
        Err(_) => None,
    }
}

/// Compress one plaintext into a single gzip member.
pub fn compress_member(data: &Vec<u8>) -> (r: Vec<u8>)
    ensures
        r@ == gzip_of(data@),
{
    gzip_compress_raw(data)
}

/// Decompress a stream of one or more concatenated gzip members into the
/// concatenation of their plaintexts.  A stream that is not a well-formed
/// member sequence may come back as `None`; the caller treats that as the
/// archive being exhausted.
pub fn decode_stream(data: &Vec<u8>) -> (r: Option<Vec<u8>>)
    ensures
        forall|ms: Seq<Seq<u8>>|
            ms.len() >= 1 && data@ == #[trigger] gzip_members(ms) ==> (r matches Some(p)
                && p@ == concat_all(ms)),
{
    gzip_decompress_raw(data)
}

/// Multi-member decompression, spelled out for two members: the stream
/// built by concatenating two independently compressed segments stands
/// for the concatenation of their plaintexts, so `decode_stream` on it
/// returns exactly that concatenation.
pub proof fn lemma_two_member_stream(a: Seq<u8>, b: Seq<u8>)
    ensures
        gzip_members(seq![a, b]) == gzip_of(a) + gzip_of(b),
        concat_all(seq![a, b]) == a + b,
{
    let ms = seq![a, b];
    assert(ms.drop_first() =~= seq![b]);
    assert(seq![b].drop_first() =~= Seq::<Seq<u8>>::empty());
    assert(gzip_members(seq![b]) == gzip_of(b) + gzip_members(Seq::<Seq<u8>>::empty()));
    assert(gzip_of(b) + Seq::<u8>::empty() =~= gzip_of(b));
    assert(concat_all(seq![b]) == b + concat_all(Seq::<Seq<u8>>::empty()));
    assert(b + Seq::<u8>::empty() =~= b);
}

} // verus!

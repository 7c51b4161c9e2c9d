//! Android sparse images: the magic number that identifies them, and their decoding
//! into raw images.
use vstd::prelude::*;
use crate::bytes::{le32, lemma_starts_with_4, read_le32, starts_with_bytes};

verus! {

/// The little-endian magic number at the start of an Android sparse image.
pub const SPARSE_MAGIC: u32 = 0xED26FF3A;

/// Whether the first bytes of a file mark an Android sparse image: at least 4 bytes,
/// the first 4 holding the magic number in little-endian order.
pub open spec fn sparse_header(head: Seq<u8>) -> bool {
    head.len() >= 4 && le32(head, 0) == SPARSE_MAGIC
}

/// Checks the first bytes of a file for the Android sparse magic.
pub fn has_sparse_magic(head: &[u8]) -> (r: bool)
    ensures
        r == sparse_header(head@),
{
    head.len() >= 4 && read_le32(head, 0) == SPARSE_MAGIC
}


/// The raw image that the `android-sparse` crate decodes from the given sparse image
/// (its `read::Reader` blocks written through a `write::Decoder`); `None` when decoding
/// fails.
pub uninterp spec fn sparse_decoded(data: Seq<u8>) -> Option<Seq<u8>>;

/// Whether a sparse image's header is complete up to its chunk count (little-endian at
/// offset 20) and that count is zero. The `android-sparse` reader takes the count on
/// trust and decrements it for every chunk it reads, so such an image with a chunk after
/// its header makes the count underflow (a panic in a checked build).
pub open spec fn zero_chunk_count(data: Seq<u8>) -> bool {
    data.len() >= 24 && le32(data, 20) == 0
}

/// The raw image of a sparse image: none when its header announces no chunks (the
/// decoder cannot read one), else what `android-sparse` decodes (see `sparse_decoded`).
pub open spec fn sparse_raw(data: Seq<u8>) -> Option<Seq<u8>> {
    if zero_chunk_count(data) {
        None
    } else {
        sparse_decoded(data)
    }
}

/// Trusted: reads the blocks of the sparse image `data` with `android_sparse::read::Reader`
/// and writes each with `android_sparse::write::Decoder::write_block` into a growing
/// in-memory buffer, then `close`s the decoder. The result is named by `sparse_decoded`.
/// A header that announces no chunks is excluded: the reader would decrement its chunk
/// count below zero on the first chunk that follows.
#[verifier::external_body]
fn decode_sparse(data: &[u8]) -> (r: Option<Vec<u8>>)
    requires
        !zero_chunk_count(data@),
    ensures
        match r {
            Some(v) => sparse_decoded(data@) == Some(v@),
            None => sparse_decoded(data@) is None,
        },
{
    let mut out = Vec::new();
    let reader = android_sparse::read::Reader::new(data).ok()?;
    let mut decoder = android_sparse::write::Decoder::new(std::io::Cursor::new(&mut out)).ok()?;
    for block in reader {
        decoder.write_block(&block.ok()?).ok()?;
    }
    decoder.close().ok()?;
    Some(out)
}

/// Converts an Android sparse image to a raw image (see `sparse_raw`): `None` when its
/// header announces no chunks or when decoding fails.
pub fn convert_sparse_to_raw(data: &[u8]) -> (r: Option<Vec<u8>>)
    ensures
        match r {
            Some(v) => sparse_raw(data@) == Some(v@),
            None => sparse_raw(data@) is None,
        },
{
    if data.len() >= 24 && read_le32(data, 20) == 0 {
        return None;
    }
    decode_sparse(data)
}

/// The raw image of several sparse chunk files, decoded one after the other into one
/// image: the raw images of the chunks in order (see `sparse_raw`); `None` when any chunk
/// has none.
pub open spec fn chunks_decoded(chunks: Seq<Seq<u8>>) -> Option<Seq<u8>>
    decreases chunks.len(),
{
    if chunks.len() == 0 {
        Some(Seq::empty())
    } else {
        match (chunks_decoded(chunks.drop_last()), sparse_raw(chunks.last())) {
            (Some(a), Some(b)) => Some(a + b),
            _ => None,
        }
    }
}

/// Decodes several sparse chunk files into one raw image (see `chunks_decoded`).
pub fn convert_sparse_chunks_to_raw(chunks: &Vec<Vec<u8>>) -> (r: Option<Vec<u8>>)
    ensures
        match r {
            Some(v) => chunks_decoded(chunks@.map_values(|c: Vec<u8>| c@)) == Some(v@),
            None => chunks_decoded(chunks@.map_values(|c: Vec<u8>| c@)) is None,
        },
{
    let ghost cs = chunks@.map_values(|c: Vec<u8>| c@);
    let mut out: Vec<u8> = Vec::new();
    let mut i: usize = 0;
    while i < chunks.len()
        invariant
            i <= chunks@.len(),
            cs == chunks@.map_values(|c: Vec<u8>| c@),
            chunks_decoded(cs.take(i as int)) == Some(out@),
        decreases chunks.len() - i,
    {
        assert(cs.take(i + 1).drop_last() =~= cs.take(i as int));
        assert(cs.take(i + 1).last() == chunks@[i as int]@);
        match convert_sparse_to_raw(chunks[i].as_slice()) {
            Some(mut part) => {
                out.append(&mut part);
            },
            None => {
                proof {
                    lemma_chunks_failure_extends(cs, i as int + 1);
                }
                return None;
            },
        }
        i = i + 1;
    }
    assert(cs.take(chunks@.len() as int) =~= cs);
    Some(out)
}

/// Once a prefix of the chunks fails to decode, every longer prefix fails too.
proof fn lemma_chunks_failure_extends(cs: Seq<Seq<u8>>, k: int)
    requires
        0 <= k <= cs.len(),
        chunks_decoded(cs.take(k)) is None,
    ensures
        chunks_decoded(cs) is None,
    decreases cs.len() - k,
{
    if k < cs.len() {
        assert(cs.take(k + 1).drop_last() =~= cs.take(k));
        lemma_chunks_failure_extends(cs, k + 1);
    } else {
        assert(cs.take(k) =~= cs);
    }
}

/// What to do with an extracted image.
pub enum Unsparsed {
    /// It is not a sparse image: keep it as it is.
    NotSparse,
    /// It is a sparse image; this is its raw image.
    Raw(Vec<u8>),
    /// It is a sparse image that announces no chunks or does not decode.
    Failed,
}

/// Decodes an extracted image when it is a sparse image: `NotSparse` when it lacks the
/// sparse magic, else its raw image, or `Failed` when it has none (see `sparse_raw`).
pub fn maybe_unsparse(data: &[u8]) -> (r: Unsparsed)
    ensures
        match r {
            Unsparsed::NotSparse => !sparse_header(data@),
            Unsparsed::Raw(v) => sparse_header(data@) && sparse_raw(data@) == Some(v@),
            Unsparsed::Failed => sparse_header(data@) && sparse_raw(data@) is None,
        },
{
    if !has_sparse_magic(data) {
        return Unsparsed::NotSparse;
    }
    match convert_sparse_to_raw(data) {
        Some(v) => Unsparsed::Raw(v),
        None => Unsparsed::Failed,
    }
}


/// A sparse image is recognised exactly by its first four bytes, 3A FF 26 ED.
pub proof fn lemma_sparse_header_bytes(head: Seq<u8>)
    ensures
        sparse_header(head) <==> starts_with_bytes(head, seq![0x3Au8, 0xFF, 0x26, 0xED]),
{
    lemma_starts_with_4(head, 0x3A, 0xFF, 0x26, 0xED);
    if head.len() >= 4 {
        let (a, b, c, d) = (head[0], head[1], head[2], head[3]);
        assert(a + 256 * b + 65536 * c + 16777216 * d == 0xED26FF3A <==> (a == 0x3A && b == 0xFF
            && c == 0x26 && d == 0xED)) by (nonlinear_arith);
    }
}

} // verus!

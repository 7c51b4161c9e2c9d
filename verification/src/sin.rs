//! Sony SIN images: version detection, payload location and the Sony sparse
//! chunk format.
use vstd::prelude::*;
use crate::archive::{gz_tar_entries, gz_tar_entries_of, tar_entries, tar_entries_of, TarEntry};
use crate::bytes::{lemma_starts_with_4, starts_with_bytes, copy_range, le16, le32, read_le16, read_le32};
use crate::text::{
    base_name, base_or_self, chars_of, concat, file_stem, file_stem_or, has_suffix,
    lowercase_ends_with, lowercase_of, string_of,
};
use vstd::string::StringSliceAdditionalSpecFns;
use vstd::utf8::{decode_utf8, encode_utf8, encode_utf8_decode_utf8, is_char_boundary};

verus! {

/// Sony sparse chunk type: raw data.
pub const CAC_RAW: u16 = 0xCAC1;
/// Sony sparse chunk type: blocks filled with a 4-byte pattern.
pub const CAC_FILL: u16 = 0xCAC2;
/// Sony sparse chunk type: blocks of no interest, written as zeros.
pub const CAC_DONT_CARE: u16 = 0xCAC3;
/// Sony sparse chunk type: a checksum, written as nothing.
pub const CAC_CRC: u16 = 0xCAC4;
/// Sony sparse chunk type: skipped blocks, written as zeros.
pub const CAC_SKIP: u16 = 0xCAC5;

/// Bytes per block of the Sony sparse format.
pub const SONY_BLOCK_SIZE: u32 = 4096;

/// Why a SIN image could not be turned into a raw image.
#[derive(Debug, Clone, Copy, PartialEq, Eq)]
pub enum SinError {
    /// No known SIN or legacy header.
    UnknownVersion,
    /// A raw chunk claims more bytes than remain.
    RawChunkOverrun,
    /// A fill chunk has fewer than 4 data bytes or claims more bytes than remain.
    FillChunkInvalid,
    /// A version 3/4 image holds no gzip stream.
    NoGzipData,
    /// A version 5 image holds no tar header.
    NoTarData,
    /// The tar archive (for versions 3 and 4, inside its gzip stream) could not be read.
    Archive,
    /// An SSSS image is shorter than its 64-byte header.
    SsssTooSmall,
    /// An SSSS payload extends beyond the data.
    SsssOverrun,
    /// A legacy image holds no more than its 0x4040-byte header.
    LegacyTooSmall,
}

/// One step of writing an output image.
#[derive(Debug, Clone, Copy, PartialEq, Eq)]
pub enum Piece {
    /// Copy `len` bytes of the source buffer, starting at `start`.
    Copy { start: usize, len: usize },
    /// `blocks` blocks, each the 4-byte `pattern` repeated.
    Fill { pattern: [u8; 4], blocks: u32 },
    /// `blocks` blocks of zero bytes.
    Zero { blocks: u32 },
}

/// The bytes that `p` writes, reading copies from `src`.
pub open spec fn piece_bytes(src: Seq<u8>, p: Piece) -> Seq<u8> {
    match p {
        Piece::Copy { start, len } => src.subrange(start as int, start + len),
        Piece::Fill { pattern, blocks } => Seq::new(
            (4096 * blocks) as nat,
            |i: int| pattern@[i % 4],
        ),
        Piece::Zero { blocks } => Seq::new((4096 * blocks) as nat, |i: int| 0u8),
    }
}

/// Whether every copy of `ps` lies inside a buffer of `len` bytes.
pub open spec fn pieces_within(len: nat, ps: Seq<Piece>) -> bool {
    forall|k: int|
        0 <= k < ps.len() ==> (#[trigger] ps[k] matches Piece::Copy { start, len: n } ==> start
            + n <= len)
}

/// The bytes written by `ps` in order, reading copies from `src`.
pub open spec fn expand(src: Seq<u8>, ps: Seq<Piece>) -> Seq<u8>
    decreases ps.len(),
{
    if ps.len() == 0 {
        Seq::empty()
    } else {
        expand(src, ps.drop_last()) + piece_bytes(src, ps.last())
    }
}

/// `r` with `a` put in front of its success value.
pub open spec fn prefixed(a: Seq<u8>, r: Result<Seq<u8>, SinError>) -> Result<Seq<u8>, SinError> {
    match r {
        Ok(b) => Ok(a + b),
        Err(e) => Err(e),
    }
}

/// Whether `t` is one of the Sony sparse chunk types.
pub open spec fn is_sony_chunk_type(t: int) -> bool {
    t == 0xCAC1 || t == 0xCAC2 || t == 0xCAC3 || t == 0xCAC4 || t == 0xCAC5
}

/// The raw image that the Sony sparse chunks of `data`, read from offset `pos`, stand for.
/// A chunk header is 12 bytes: type (LE u16), 2 reserved bytes, block count (LE u32)
/// and data length (LE u32). Reading stops when fewer than 12 bytes remain; a header
/// whose type is not a Sony chunk type ends the chunks, and the rest is copied raw.
pub open spec fn sony_from(data: Seq<u8>, pos: int) -> Result<Seq<u8>, SinError>
    decreases (if pos < data.len() { data.len() - pos } else { 0 }),
{
    if pos < 0 || pos + 12 > data.len() {
        Ok(Seq::empty())
    } else {
        let t = le16(data, pos);
        let blocks = le32(data, pos + 4);
        let dlen = le32(data, pos + 8);
        let p = pos + 12;
        if !is_sony_chunk_type(t) {
            Ok(data.subrange(pos, data.len() as int))
        } else if t == 0xCAC1 {
            if p + dlen > data.len() {
                Err(SinError::RawChunkOverrun)
            } else {
                prefixed(data.subrange(p, p + dlen), sony_from(data, p + dlen))
            }
        } else if t == 0xCAC2 {
            if dlen < 4 || p + dlen > data.len() {
                Err(SinError::FillChunkInvalid)
            } else {
                prefixed(
                    Seq::new((4096 * blocks) as nat, |i: int| data[p + i % 4]),
                    sony_from(data, p + dlen),
                )
            }
        } else if t == 0xCAC3 || t == 0xCAC5 {
            prefixed(Seq::new((4096 * blocks) as nat, |i: int| 0u8), sony_from(data, p + dlen))
        } else {
            sony_from(data, p + dlen)
        }
    }
}

proof fn lemma_prefixed_assoc(a: Seq<u8>, b: Seq<u8>, r: Result<Seq<u8>, SinError>)
    ensures
        prefixed(a, prefixed(b, r)) == prefixed(a + b, r),
{
    match r {
        Ok(c) => {
            assert(a + (b + c) =~= (a + b) + c);
        },
        Err(_) => {},
    }
}

proof fn lemma_expand_push(src: Seq<u8>, ps: Seq<Piece>, p: Piece)
    ensures
        expand(src, ps.push(p)) == expand(src, ps) + piece_bytes(src, p),
{
    assert(ps.push(p).drop_last() =~= ps);
}

/// The Sony sparse chunks of `data` as a list of writes: on success, writing the
/// pieces in order (copies read from `data`) yields exactly the raw image that
/// `sony_from(data, 0)` describes; the error is the one that description meets first.
pub fn reassemble_sony_sparse(data: &[u8]) -> (r: Result<Vec<Piece>, SinError>)
    ensures
        match r {
            Ok(ps) => sony_from(data@, 0) == Ok::<Seq<u8>, SinError>(expand(data@, ps@))
                && pieces_within(data@.len(), ps@),
            Err(e) => sony_from(data@, 0) == Err::<Seq<u8>, SinError>(e),
        },
{
    let n = data.len();
    let len = n as u64;
    assert(len == data@.len() && data@.len() <= usize::MAX);
    let mut pos: u64 = 0;
    let mut ps: Vec<Piece> = Vec::new();
    proof {
        assert(expand(data@, ps@) =~= Seq::<u8>::empty());
        assert(Seq::<u8>::empty() + Seq::<u8>::empty() =~= Seq::<u8>::empty());
        match sony_from(data@, 0) {
            Ok(b) => {
                assert(Seq::<u8>::empty() + b =~= b);
            },
            Err(_) => {},
        }
    }
    while 12 <= len - pos
        invariant
            len == data@.len(),
            data@.len() <= usize::MAX,
            pos <= len,
            sony_from(data@, 0) == prefixed(expand(data@, ps@), sony_from(data@, pos as int)),
            pieces_within(data@.len(), ps@),
        decreases len - pos,
    {
        let ghost old_ps = ps@;
        let i = pos as usize;
        let t = read_le16(data, i);
        if !(t == CAC_RAW || t == CAC_FILL || t == CAC_DONT_CARE || t == CAC_CRC || t == CAC_SKIP) {
            let piece = Piece::Copy { start: i, len: data.len() - i };
            ps.push(piece);
            proof {
                lemma_expand_push(data@, old_ps, piece);
                lemma_prefixed_assoc(expand(data@, old_ps), piece_bytes(data@, piece), Ok(Seq::empty()));
                assert(piece_bytes(data@, piece) + Seq::<u8>::empty() =~= piece_bytes(data@, piece));
                assert(expand(data@, ps@) + Seq::<u8>::empty() =~= expand(data@, ps@));
                assert(ps@[ps@.len() - 1] == piece);
            }
            return Ok(ps);
        }
        let blocks = read_le32(data, i + 4);
        let dlen = read_le32(data, i + 8) as u64;
        let p = pos + 12;
        if t == CAC_RAW {
            if dlen > len - p {
                return Err(SinError::RawChunkOverrun);
            }
            let piece = Piece::Copy { start: p as usize, len: dlen as usize };
            ps.push(piece);
            proof {
                lemma_expand_push(data@, old_ps, piece);
                lemma_prefixed_assoc(
                    expand(data@, old_ps),
                    piece_bytes(data@, piece),
                    sony_from(data@, p + dlen),
                );
                assert(ps@[ps@.len() - 1] == piece);
            }
        } else if t == CAC_FILL {
            if dlen < 4 || dlen > len - p {
                return Err(SinError::FillChunkInvalid);
            }
            let k = p as usize;
            let pattern: [u8; 4] = [data[k], data[k + 1], data[k + 2], data[k + 3]];
            let piece = Piece::Fill { pattern, blocks };
            ps.push(piece);
            proof {
                lemma_expand_push(data@, old_ps, piece);
                assert(piece_bytes(data@, piece) =~= Seq::new(
                    (4096 * blocks) as nat,
                    |j: int| data@[p + j % 4],
                ));
                lemma_prefixed_assoc(
                    expand(data@, old_ps),
                    piece_bytes(data@, piece),
                    sony_from(data@, p + dlen),
                );
                assert(ps@[ps@.len() - 1] == piece);
            }
        } else if t == CAC_DONT_CARE || t == CAC_SKIP {
            let piece = Piece::Zero { blocks };
            ps.push(piece);
            proof {
                lemma_expand_push(data@, old_ps, piece);
                lemma_prefixed_assoc(
                    expand(data@, old_ps),
                    piece_bytes(data@, piece),
                    sony_from(data@, p + dlen),
                );
                assert(ps@[ps@.len() - 1] == piece);
            }
        }
        if dlen > len - p {
            proof {
                assert(sony_from(data@, p + dlen) == Ok::<Seq<u8>, SinError>(Seq::empty()));
                assert(expand(data@, ps@) + Seq::<u8>::empty() =~= expand(data@, ps@));
            }
            return Ok(ps);
        }
        pos = p + dlen;
    }
    proof {
        assert(sony_from(data@, pos as int) == Ok::<Seq<u8>, SinError>(Seq::empty()));
        assert(expand(data@, ps@) + Seq::<u8>::empty() =~= expand(data@, ps@));
    }
    Ok(ps)
}

/// The SIN container versions this crate reads.
#[derive(Debug, Clone, Copy, PartialEq, Eq)]
pub enum SinVersion {
    V3,
    V4,
    V5,
    LegacySsss,
    LegacyOther,
}

/// Whether `data` starts with the ASCII letters "SIN".
pub open spec fn starts_sin(data: Seq<u8>) -> bool {
    data.len() >= 3 && data[0] == 0x53 && data[1] == 0x49 && data[2] == 0x4E
}

/// Whether `data` starts with the ASCII letters "SSSS".
pub open spec fn starts_ssss(data: Seq<u8>) -> bool {
    data.len() >= 4 && data[0] == 0x53 && data[1] == 0x53 && data[2] == 0x53 && data[3] == 0x53
}

/// The version that a SIN header announces: "SIN" and a version byte 3, 4 or 5;
/// "SSSS"; or, for anything else longer than 0x4040 bytes, the other legacy layout.
pub open spec fn sin_version(data: Seq<u8>) -> Option<SinVersion> {
    if data.len() < 4 {
        None
    } else if starts_sin(data) {
        if data[3] == 3 {
            Some(SinVersion::V3)
        } else if data[3] == 4 {
            Some(SinVersion::V4)
        } else if data[3] == 5 {
            Some(SinVersion::V5)
        } else {
            None
        }
    } else if starts_ssss(data) {
        Some(SinVersion::LegacySsss)
    } else if data.len() > 0x4040 {
        Some(SinVersion::LegacyOther)
    } else {
        None
    }
}

fn is_sin_magic(data: &[u8]) -> (r: bool)
    ensures
        r == starts_sin(data@),
{
    data.len() >= 3 && data[0] == 0x53 && data[1] == 0x49 && data[2] == 0x4E
}

fn is_ssss_magic(data: &[u8]) -> (r: bool)
    ensures
        r == starts_ssss(data@),
{
    data.len() >= 4 && data[0] == 0x53 && data[1] == 0x53 && data[2] == 0x53 && data[3] == 0x53
}

/// Detects the SIN version from header bytes.
pub fn detect_version(data: &[u8]) -> (r: Option<SinVersion>)
    ensures
        r == sin_version(data@),
{
    if data.len() < 4 {
        return None;
    }
    if is_sin_magic(data) {
        return match data[3] {
            3 => Some(SinVersion::V3),
            4 => Some(SinVersion::V4),
            5 => Some(SinVersion::V5),
            _ => None,
        };
    }
    if is_ssss_magic(data) {
        return Some(SinVersion::LegacySsss);
    }
    if data.len() > 0x4040 {
        return Some(SinVersion::LegacyOther);
    }
    None
}

/// Whether raw data starts with a SIN header, an SSSS header or the bytes BF BF.
pub fn probe(data: &[u8]) -> (r: bool)
    ensures
        r == (data@.len() >= 4 && (starts_sin(data@) || starts_ssss(data@) || (data@[0] == 0xBF
            && data@[1] == 0xBF))),
{
    if data.len() < 4 {
        return false;
    }
    is_sin_magic(data) || is_ssss_magic(data) || (data[0] == 0xBF && data[1] == 0xBF)
}

/// Whether a gzip magic number (1F 8B) starts at index `i` of `data`.
pub open spec fn gzip_magic_at(data: Seq<u8>, i: int) -> bool {
    0 <= i && i + 1 < data.len() && data[i] == 0x1F && data[i + 1] == 0x8B
}

/// The first index, from `i` on, at which a gzip magic number starts.
pub open spec fn gzip_start_from(data: Seq<u8>, i: int) -> Option<int>
    decreases data.len() - i,
{
    if i < 0 || i + 1 >= data.len() {
        None
    } else if gzip_magic_at(data, i) {
        Some(i)
    } else {
        gzip_start_from(data, i + 1)
    }
}

proof fn lemma_gzip_start_from(data: Seq<u8>, i: int)
    requires
        0 <= i,
    ensures
        match gzip_start_from(data, i) {
            Some(k) => i <= k && gzip_magic_at(data, k) && forall|j: int|
                i <= j < k ==> !gzip_magic_at(data, j),
            None => forall|j: int| i <= j ==> !gzip_magic_at(data, j),
        },
    decreases data.len() - i,
{
    if i + 1 < data.len() && !gzip_magic_at(data, i) {
        lemma_gzip_start_from(data, i + 1);
    }
}

/// The index of the first gzip magic number (1F 8B) in `data`.
pub fn find_gzip_start(data: &[u8]) -> (r: Option<usize>)
    ensures
        match r {
            Some(k) => gzip_start_from(data@, 0) == Some(k as int),
            None => gzip_start_from(data@, 0) is None,
        },
        match r {
            Some(k) => gzip_magic_at(data@, k as int) && forall|j: int|
                0 <= j < k ==> !gzip_magic_at(data@, j),
            None => forall|j: int| !gzip_magic_at(data@, j),
        },
{
    proof {
        lemma_gzip_start_from(data@, 0);
    }
    let mut i: usize = 0;
    while i < data.len() && data.len() - i >= 2
        invariant
            i <= data.len(),
            gzip_start_from(data@, 0) == gzip_start_from(data@, i as int),
        decreases data.len() - i,
    {
        if data[i] == 0x1F && data[i + 1] == 0x8B {
            proof {
                lemma_gzip_start_from(data@, 0);
            }
            return Some(i);
        }
        i = i + 1;
    }
    None
}

/// Whether the tar magic "ustar" sits at offset 257 of a header starting at `i`.
pub open spec fn ustar_at(data: Seq<u8>, i: int) -> bool {
    0 <= i && i + 262 <= data.len() && data[i + 257] == 0x75 && data[i + 258] == 0x73 && data[i
        + 259] == 0x74 && data[i + 260] == 0x61 && data[i + 261] == 0x72
}

/// `len - k`, or 0 when `k` exceeds `len`.
pub open spec fn sat_sub(len: int, k: int) -> int {
    if len > k {
        len - k
    } else {
        0
    }
}

/// The first multiple of 512, from `o` on and below `len - 512`, that starts a tar header.
pub open spec fn aligned_tar_from(data: Seq<u8>, o: int) -> Option<int>
    decreases (if o < sat_sub(data.len() as int, 512) {
        sat_sub(data.len() as int, 512) - o
    } else {
        0
    }),
{
    if o < 0 || o >= sat_sub(data.len() as int, 512) {
        None
    } else if ustar_at(data, o) {
        Some(o)
    } else {
        aligned_tar_from(data, o + 512)
    }
}

/// The first index, from `i` on, at which a whole tar header magic fits and is present.
pub open spec fn any_tar_from(data: Seq<u8>, i: int) -> Option<int>
    decreases data.len() - i,
{
    if i < 0 || i + 262 > data.len() {
        None
    } else if ustar_at(data, i) {
        Some(i)
    } else {
        any_tar_from(data, i + 1)
    }
}

/// Where the tar data of a SIN v5 image starts: the first 512-aligned header
/// (below `len - 512`), else the first header at any offset whose magic fits.
pub open spec fn tar_start(data: Seq<u8>) -> Option<int> {
    match aligned_tar_from(data, 0) {
        Some(o) => Some(o),
        None => any_tar_from(data, 0),
    }
}

fn is_ustar_at(data: &[u8], i: usize) -> (r: bool)
    requires
        i + 262 <= data.len(),
    ensures
        r == ustar_at(data@, i as int),
{
    data[i + 257] == 0x75 && data[i + 258] == 0x73 && data[i + 259] == 0x74 && data[i + 260]
        == 0x61 && data[i + 261] == 0x72
}

/// Finds where tar data starts: the "ustar" magic sits 257 bytes into a header.
pub fn find_tar_start(data: &[u8]) -> (r: Option<usize>)
    ensures
        match r {
            Some(k) => tar_start(data@) == Some(k as int),
            None => tar_start(data@) is None,
        },
{
    let n = data.len();
    let bound = if n > 512 { n - 512 } else { 0 };
    let mut o: usize = 0;
    while o < bound
        invariant
            n == data@.len(),
            bound as int == sat_sub(n as int, 512),
            o % 512 == 0,
            o < bound + 512,
            aligned_tar_from(data@, 0) == aligned_tar_from(data@, o as int),
        decreases bound + 512 - o,
    {
        if o + 262 <= n && is_ustar_at(data, o) {
            return Some(o);
        }
        o = o + 512;
    }
    assert(aligned_tar_from(data@, 0) is None);
    if n >= 262 {
        let last = n - 262;
        let mut i: usize = 0;
        while i <= last
            invariant
                n == data@.len(),
                last + 262 == n,
                i <= last + 1,
                aligned_tar_from(data@, 0) is None,
                any_tar_from(data@, 0) == any_tar_from(data@, i as int),
            decreases last + 1 - i,
        {
            if is_ustar_at(data, i) {
                return Some(i);
            }
            i = i + 1;
        }
    }
    None
}

/// The raw image that one tar entry of a SIN image stands for: its Sony sparse chunks
/// when it starts with a Sony chunk type, else its bytes as they are.
pub open spec fn entry_image(e: Seq<u8>) -> Result<Seq<u8>, SinError> {
    if e.len() >= 2 && is_sony_chunk_type(le16(e, 0)) {
        sony_from(e, 0)
    } else {
        Ok(e)
    }
}

/// The raw image of a sequence of tar entries: the images of the non-empty entries
/// (by header size), in order; the first error met wins.
pub open spec fn entries_image(es: Seq<(u64, Seq<u8>)>) -> Result<Seq<u8>, SinError>
    decreases es.len(),
{
    if es.len() == 0 {
        Ok(Seq::empty())
    } else {
        match entries_image(es.drop_last()) {
            Err(e) => Err(e),
            Ok(a) => if es.last().0 == 0 {
                Ok(a)
            } else {
                prefixed(a, entry_image(es.last().1))
            },
        }
    }
}

/// The size of an SSSS payload, recorded in bytes 60..64 as two little-endian halves.
pub open spec fn ssss_payload_size(data: Seq<u8>) -> int {
    le16(data, 62) * 65536 + le16(data, 60)
}

/// The payload of an SSSS image: the recorded number of bytes after the 64-byte header.
pub open spec fn ssss_payload(data: Seq<u8>) -> Result<Seq<u8>, SinError> {
    if data.len() < 64 {
        Err(SinError::SsssTooSmall)
    } else if 64 + ssss_payload_size(data) > data.len() {
        Err(SinError::SsssOverrun)
    } else {
        Ok(data.subrange(64, 64 + ssss_payload_size(data)))
    }
}

/// The payload of a legacy image with another header: all bytes after 0x4040.
pub open spec fn legacy_payload(data: Seq<u8>) -> Result<Seq<u8>, SinError> {
    if data.len() <= 0x4040 {
        Err(SinError::LegacyTooSmall)
    } else {
        Ok(data.subrange(0x4040, data.len() as int))
    }
}

/// The raw image held by a whole SIN file: for versions 3 and 4 the entries of the tar
/// archive inside the gzip stream that starts at the first gzip magic; for version 5 the
/// entries of the tar archive found by `tar_start`; for the legacy layouts their payload.
pub open spec fn sin_image(data: Seq<u8>) -> Result<Seq<u8>, SinError> {
    match sin_version(data) {
        None => Err(SinError::UnknownVersion),
        Some(SinVersion::V3) | Some(SinVersion::V4) => match gzip_start_from(data, 0) {
            None => Err(SinError::NoGzipData),
            Some(g) => match gz_tar_entries_of(data.skip(g)) {
                None => Err(SinError::Archive),
                Some(es) => entries_image(es),
            },
        },
        Some(SinVersion::V5) => match tar_start(data) {
            None => Err(SinError::NoTarData),
            Some(s) => match tar_entries_of(data.skip(s)) {
                None => Err(SinError::Archive),
                Some(es) => entries_image(es),
            },
        },
        Some(SinVersion::LegacySsss) => ssss_payload(data),
        Some(SinVersion::LegacyOther) => legacy_payload(data),
    }
}

/// A buffer and the writes that read from it.
pub struct SinPart {
    pub bytes: Vec<u8>,
    pub pieces: Vec<Piece>,
}

impl View for SinPart {
    type V = (Seq<u8>, Seq<Piece>);

    open spec fn view(&self) -> (Seq<u8>, Seq<Piece>) {
        (self.bytes@, self.pieces@)
    }
}

/// The bytes that a list of parts writes, in order.
pub open spec fn parts_bytes(parts: Seq<(Seq<u8>, Seq<Piece>)>) -> Seq<u8>
    decreases parts.len(),
{
    if parts.len() == 0 {
        Seq::empty()
    } else {
        parts_bytes(parts.drop_last()) + expand(parts.last().0, parts.last().1)
    }
}

/// Whether the writes of every part stay inside that part's buffer.
pub open spec fn parts_within(parts: Seq<(Seq<u8>, Seq<Piece>)>) -> bool {
    forall|k: int| 0 <= k < parts.len() ==> pieces_within(#[trigger] parts[k].0.len(), parts[k].1)
}

/// The writes that turn one tar entry of a SIN image into raw image bytes.
pub fn write_entry_data(entry: &[u8]) -> (r: Result<Vec<Piece>, SinError>)
    ensures
        match r {
            Ok(ps) => entry_image(entry@) == Ok::<Seq<u8>, SinError>(expand(entry@, ps@))
                && pieces_within(entry@.len(), ps@),
            Err(e) => entry_image(entry@) == Err::<Seq<u8>, SinError>(e),
        },
{
    if entry.len() >= 2 {
        let first = read_le16(entry, 0);
        if first == CAC_RAW || first == CAC_FILL || first == CAC_DONT_CARE || first == CAC_CRC
            || first == CAC_SKIP {
            return reassemble_sony_sparse(entry);
        }
    }
    let mut ps: Vec<Piece> = Vec::new();
    let piece = Piece::Copy { start: 0, len: entry.len() };
    ps.push(piece);
    proof {
        lemma_expand_push(entry@, Seq::empty(), piece);
        assert(Seq::<Piece>::empty().push(piece) =~= ps@);
        assert(expand(entry@, Seq::empty()) =~= Seq::<u8>::empty());
        assert(Seq::<u8>::empty() + entry@.subrange(0, entry@.len() as int) =~= entry@);
        assert(ps@[0] == piece);
    }
    Ok(ps)
}

/// The raw image bytes that one tar entry of a SIN image adds: nothing for an entry
/// whose header records size 0, else its image (see `entry_image`).
pub open spec fn tar_entry_image(size: u64, e: Seq<u8>) -> Result<Seq<u8>, SinError> {
    if size == 0 {
        Ok(Seq::empty())
    } else {
        entry_image(e)
    }
}

/// The writes for one tar entry of a SIN image (see `tar_entry_image`).
pub fn tar_entry_pieces(size: u64, entry: &[u8]) -> (r: Result<Vec<Piece>, SinError>)
    ensures
        match r {
            Ok(ps) => tar_entry_image(size, entry@) == Ok::<Seq<u8>, SinError>(expand(entry@, ps@))
                && pieces_within(entry@.len(), ps@),
            Err(e) => tar_entry_image(size, entry@) == Err::<Seq<u8>, SinError>(e),
        },
{
    if size == 0 {
        let ps: Vec<Piece> = Vec::new();
        assert(expand(entry@, ps@) =~= Seq::<u8>::empty());
        return Ok(ps);
    }
    write_entry_data(entry)
}

/// The payload range `(offset, length)` of an SSSS image.
pub fn extract_legacy_ssss(data: &[u8]) -> (r: Result<(usize, usize), SinError>)
    ensures
        match r {
            Ok((off, len)) => off + len <= data@.len() && ssss_payload(data@) == Ok::<
                Seq<u8>,
                SinError,
            >(data@.subrange(off as int, off + len)),
            Err(e) => ssss_payload(data@) == Err::<Seq<u8>, SinError>(e),
        },
{
    if data.len() < 64 {
        return Err(SinError::SsssTooSmall);
    }
    let lo = read_le16(data, 60) as u64;
    let hi = read_le16(data, 62) as u64;
    let size = hi * 65536 + lo;
    if 64 + size > data.len() as u64 {
        return Err(SinError::SsssOverrun);
    }
    Ok((64, size as usize))
}

/// The payload offset of a legacy image with another header.
pub fn extract_legacy_other(data: &[u8]) -> (r: Result<usize, SinError>)
    ensures
        match r {
            Ok(off) => off <= data@.len() && legacy_payload(data@) == Ok::<Seq<u8>, SinError>(
                data@.subrange(off as int, data@.len() as int),
            ),
            Err(e) => legacy_payload(data@) == Err::<Seq<u8>, SinError>(e),
        },
{
    if data.len() <= 0x4040 {
        return Err(SinError::LegacyTooSmall);
    }
    Ok(0x4040)
}

proof fn lemma_parts_push(parts: Seq<(Seq<u8>, Seq<Piece>)>, p: (Seq<u8>, Seq<Piece>))
    ensures
        parts_bytes(parts.push(p)) == parts_bytes(parts) + expand(p.0, p.1),
{
    assert(parts.push(p).drop_last() =~= parts);
}

proof fn lemma_entries_err_extends(all: Seq<(u64, Seq<u8>)>, i: int, j: int, e: SinError)
    requires
        0 <= i <= j <= all.len(),
        entries_image(all.take(i)) == Err::<Seq<u8>, SinError>(e),
    ensures
        entries_image(all.take(j)) == Err::<Seq<u8>, SinError>(e),
    decreases j - i,
{
    if j > i {
        lemma_entries_err_extends(all, i, j - 1, e);
        assert(all.take(j).drop_last() =~= all.take(j - 1));
    }
}

proof fn lemma_tar_start_bounds(data: Seq<u8>)
    ensures
        tar_start(data) matches Some(k) ==> 0 <= k && k + 262 <= data.len(),
{
    lemma_aligned_tar(data, 0);
    lemma_any_tar(data, 0);
}

proof fn lemma_aligned_tar(data: Seq<u8>, o: int)
    ensures
        aligned_tar_from(data, o) matches Some(k) ==> ustar_at(data, k),
    decreases (if o < sat_sub(data.len() as int, 512) {
        sat_sub(data.len() as int, 512) - o
    } else {
        0
    }),
{
    if 0 <= o < sat_sub(data.len() as int, 512) && !ustar_at(data, o) {
        lemma_aligned_tar(data, o + 512);
    }
}

proof fn lemma_any_tar(data: Seq<u8>, i: int)
    ensures
        any_tar_from(data, i) matches Some(k) ==> ustar_at(data, k),
    decreases data.len() - i,
{
    if 0 <= i && i + 262 <= data.len() && !ustar_at(data, i) {
        lemma_any_tar(data, i + 1);
    }
}

/// Writes for the entries of a tar archive: one part per non-empty entry.
fn entries_parts(entries: Vec<TarEntry>) -> (r: Result<Vec<SinPart>, SinError>)
    ensures
        match r {
            Ok(parts) => entries_image(entries@.map_values(|e: TarEntry| e@)) == Ok::<
                Seq<u8>,
                SinError,
            >(parts_bytes(parts@.map_values(|p: SinPart| p@))) && parts_within(
                parts@.map_values(|p: SinPart| p@),
            ),
            Err(e) => entries_image(entries@.map_values(|e: TarEntry| e@)) == Err::<
                Seq<u8>,
                SinError,
            >(e),
        },
{
    let ghost all = entries@.map_values(|e: TarEntry| e@);
    let mut parts: Vec<SinPart> = Vec::new();
    let mut pending = entries;
    let n = pending.len();
    // take entries from the front, keeping their order
    let mut i: usize = 0;
    let mut queue: Vec<TarEntry> = Vec::new();
    while pending.len() > 0
        invariant
            pending@.len() + queue@.len() == n,
            forall|k: int|
                0 <= k < queue@.len() ==> #[trigger] queue@[k]@ == all[n - 1 - k],
            forall|k: int| 0 <= k < pending@.len() ==> #[trigger] pending@[k]@ == all[k],
            all.len() == n,
        decreases pending.len(),
    {
        let e = pending.pop().unwrap();
        queue.push(e);
    }
    assert(all.take(0) =~= Seq::<(u64, Seq<u8>)>::empty());
    assert(parts@.map_values(|p: SinPart| p@) =~= Seq::<(Seq<u8>, Seq<Piece>)>::empty());
    while queue.len() > 0
        invariant
            queue@.len() + i == n,
            all.len() == n,
            all == entries@.map_values(|e: TarEntry| e@),
            forall|k: int|
                0 <= k < queue@.len() ==> #[trigger] queue@[k]@ == all[n - 1 - k],
            entries_image(all.take(i as int)) == Ok::<Seq<u8>, SinError>(
                parts_bytes(parts@.map_values(|p: SinPart| p@)),
            ),
            parts_within(parts@.map_values(|p: SinPart| p@)),
        decreases queue.len(),
    {
        let e = queue.pop().unwrap();
        let ghost ev = e@;
        assert(ev == all[i as int]);
        assert(all.take(i + 1).drop_last() =~= all.take(i as int));
        assert(all.take(i + 1).last() == ev);
        if e.size != 0 {
            let ghost before = parts@.map_values(|p: SinPart| p@);
            match write_entry_data(e.data.as_slice()) {
                Ok(ps) => {
                    let part = SinPart { bytes: e.data, pieces: ps };
                    let ghost pv = part@;
                    parts.push(part);
                    proof {
                        assert(parts@.map_values(|p: SinPart| p@) =~= before.push(pv));
                        lemma_parts_push(before, pv);
                    }
                },
                Err(err) => {
                    proof {
                        assert(entry_image(ev.1) == Err::<Seq<u8>, SinError>(err));
                        assert(entries_image(all.take(i + 1)) == Err::<Seq<u8>, SinError>(err));
                        lemma_entries_err_extends(all, i + 1, n as int, err);
                        assert(all.take(n as int) =~= all);
                    }
                    return Err(err);
                },
            }
        }
        i = i + 1;
    }
    assert(all.take(n as int) =~= all);
    Ok(parts)
}

/// The writes that turn a whole SIN file, held in memory, into its raw image.
pub fn extract_sin_data(data: &[u8]) -> (r: Result<Vec<SinPart>, SinError>)
    ensures
        match r {
            Ok(parts) => sin_image(data@) == Ok::<Seq<u8>, SinError>(
                parts_bytes(parts@.map_values(|p: SinPart| p@)),
            ) && parts_within(parts@.map_values(|p: SinPart| p@)),
            Err(e) => sin_image(data@) == Err::<Seq<u8>, SinError>(e),
        },
{
    let n = data.len();
    assert(n == data@.len());
    let version = match detect_version(data) {
        Some(v) => v,
        None => return Err(SinError::UnknownVersion),
    };
    match version {
        SinVersion::V3 | SinVersion::V4 => {
            let g = match find_gzip_start(data) {
                Some(g) => g,
                None => return Err(SinError::NoGzipData),
            };
            assert(data@.subrange(g as int, data@.len() as int) =~= data@.skip(g as int));
            match gz_tar_entries(&data[g..data.len()]) {
                Some(es) => entries_parts(es),
                None => Err(SinError::Archive),
            }
        },
        SinVersion::V5 => {
            let s = match find_tar_start(data) {
                Some(s) => s,
                None => return Err(SinError::NoTarData),
            };
            proof {
                lemma_tar_start_bounds(data@);
            }
            assert(data@.subrange(s as int, data@.len() as int) =~= data@.skip(s as int));
            match tar_entries(&data[s..data.len()]) {
                Some(es) => entries_parts(es),
                None => Err(SinError::Archive),
            }
        },
        SinVersion::LegacySsss => {
            let (off, len) = match extract_legacy_ssss(data) {
                Ok(x) => x,
                Err(e) => return Err(e),
            };
            Ok(single_part(data, off, off + len))
        },
        SinVersion::LegacyOther => {
            let off = match extract_legacy_other(data) {
                Ok(x) => x,
                Err(e) => return Err(e),
            };
            Ok(single_part(data, off, data.len()))
        },
    }
}

/// One part that writes `data[start..end]`.
fn single_part(data: &[u8], start: usize, end: usize) -> (r: Vec<SinPart>)
    requires
        start <= end <= data@.len(),
    ensures
        parts_bytes(r@.map_values(|p: SinPart| p@)) == data@.subrange(start as int, end as int),
        parts_within(r@.map_values(|p: SinPart| p@)),
{
    let bytes = copy_range(data, start, end);
    let mut pieces: Vec<Piece> = Vec::new();
    let piece = Piece::Copy { start: 0, len: end - start };
    pieces.push(piece);
    let part = SinPart { bytes, pieces };
    let ghost pv = part@;
    let mut r: Vec<SinPart> = Vec::new();
    r.push(part);
    proof {
        lemma_expand_push(pv.0, Seq::empty(), piece);
        assert(Seq::<Piece>::empty().push(piece) =~= pv.1);
        assert(expand(pv.0, Seq::empty()) =~= Seq::<u8>::empty());
        assert(pv.0.subrange(0, pv.0.len() as int) =~= pv.0);
        assert(r@.map_values(|p: SinPart| p@) =~= Seq::<(Seq<u8>, Seq<Piece>)>::empty().push(pv));
        lemma_parts_push(Seq::empty(), pv);
        assert(parts_bytes(Seq::empty()) =~= Seq::<u8>::empty());
        assert(Seq::<u8>::empty() + (Seq::<u8>::empty() + pv.0) =~= pv.0);
        assert(pv.1[0] == piece);
    }
    r
}

/// Whether a zip member holds a SIN image: its name, in lower case, ends with ".sin".
pub open spec fn sin_member(name: Seq<char>) -> bool {
    has_suffix(lowercase_of(name), ".sin"@)
}

/// Checks whether a zip with the given member names is an FTF bundle (holds SIN images).
pub fn probe_zip(names: &Vec<String>) -> (r: bool)
    ensures
        r == exists|i: int| 0 <= i < names@.len() && sin_member(#[trigger] names@[i]@),
{
    let mut i: usize = 0;
    while i < names.len()
        invariant
            i <= names@.len(),
            forall|k: int| 0 <= k < i ==> !sin_member(#[trigger] names@[k]@),
        decreases names.len() - i,
    {
        if lowercase_ends_with(names[i].as_str(), ".sin") {
            return true;
        }
        i = i + 1;
    }
    false
}

/// The positions, in order, of the members of an FTF bundle that hold SIN images.
pub fn ftf_entries(names: &Vec<String>) -> (r: Vec<usize>)
    ensures
        r@ == Seq::new(names@.len(), |i: int| i).filter(|i: int| sin_member(names@[i]@)).map_values(
            |i: int| i as usize,
        ),
{
    let mut r: Vec<usize> = Vec::new();
    let mut i: usize = 0;
    while i < names.len()
        invariant
            i <= names@.len(),
            r@ == Seq::new(i as nat, |k: int| k).filter(|k: int| sin_member(names@[k]@)).map_values(
                |k: int| k as usize,
            ),
        decreases names.len() - i,
    {
        let ghost prev = Seq::new(i as nat, |k: int| k);
        let ghost next = Seq::new((i + 1) as nat, |k: int| k);
        assert(next.drop_last() =~= prev);
        reveal_with_fuel(Seq::filter, 1);
        if lowercase_ends_with(names[i].as_str(), ".sin") {
            r.push(i);
        }
        assert(r@ =~= next.filter(|k: int| sin_member(names@[k]@)).map_values(
            |k: int| k as usize,
        ));
        i = i + 1;
    }
    r
}

/// The output name of a SIN member of an FTF bundle: its final name component, with its
/// last four bytes (a ".sin" in any case) replaced by ".img" when its lower-case form ends
/// with ".sin". `None` when those four bytes cannot be cut off at a character boundary.
pub open spec fn ftf_output(name: Seq<char>) -> Option<Seq<char>> {
    let base = base_or_self(name);
    if has_suffix(lowercase_of(base), ".sin"@) {
        let b = encode_utf8(base);
        if b.len() >= 4 && is_char_boundary(b, b.len() - 4) {
            Some(decode_utf8(b.take(b.len() - 4)) + ".img"@)
        } else {
            None
        }
    } else {
        Some(base)
    }
}

/// Names the output of a SIN member (see `ftf_output`).
pub fn ftf_output_name(name: &str) -> (r: Option<String>)
    ensures
        match r {
            Some(s) => ftf_output(name@) == Some(s@),
            None => ftf_output(name@) is None,
        },
{
    let base = base_name(name);
    let b: &str = base.as_str();
    if !lowercase_ends_with(b, ".sin") {
        return Some(base);
    }
    let n = b.as_bytes().len();
    if n < 4 || !b.is_char_boundary(n - 4) {
        return None;
    }
    let (head, _) = b.split_at(n - 4);
    proof {
        encode_utf8_decode_utf8(head@);
        assert(head.spec_bytes() == encode_utf8(head@));
    }
    let v = concat(chars_of(head).as_slice(), chars_of(".img").as_slice());
    Some(string_of(v.as_slice()))
}

/// The output name of a SIN file extracted on its own: the stem of its path (or
/// "output") and ".img".
pub open spec fn sin_output(path: Seq<char>) -> Seq<char> {
    file_stem_or(path, "output"@) + ".img"@
}

/// Names the output of a SIN file extracted on its own (see `sin_output`).
pub fn sin_output_name(path: &str) -> (r: String)
    ensures
        r@ == sin_output(path@),
{
    let stem = file_stem(path, "output");
    string_of(concat(chars_of(stem.as_str()).as_slice(), chars_of(".img").as_slice()).as_slice())
}

/// Every SIN, version 3 to 5, and every SSSS image that `detect_version` recognises is
/// also recognised by `probe`.
pub proof fn lemma_probe_covers_versions(data: Seq<u8>)
    requires
        sin_version(data) matches Some(v) && v != SinVersion::LegacyOther,
    ensures
        data.len() >= 4 && (starts_sin(data) || starts_ssss(data)),
{
}

/// The Sony sparse chunks fail only on a bad raw or fill chunk.
proof fn lemma_sony_errors(data: Seq<u8>, pos: int)
    ensures
        sony_from(data, pos) matches Err(e) ==> e == SinError::RawChunkOverrun || e
            == SinError::FillChunkInvalid,
    decreases (if pos < data.len() { data.len() - pos } else { 0 }),
{
    if !(pos < 0 || pos + 12 > data.len()) {
        let p = pos + 12;
        let dlen = le32(data, pos + 8);
        if p + dlen >= 0 {
            lemma_sony_errors(data, p + dlen);
        }
    }
}

/// The entries of a tar archive fail only on a bad raw or fill chunk.
proof fn lemma_entries_errors(es: Seq<(u64, Seq<u8>)>)
    ensures
        entries_image(es) matches Err(e) ==> e == SinError::RawChunkOverrun || e
            == SinError::FillChunkInvalid,
    decreases es.len(),
{
    if es.len() > 0 {
        lemma_entries_errors(es.drop_last());
        lemma_sony_errors(es.last().1, 0);
    }
}

/// A version 4 SIN image is read exactly as a version 3 one: changing the version byte
/// from 4 to 3 does not change the raw image or the error.
pub proof fn lemma_v4_reads_as_v3(data: Seq<u8>)
    requires
        data.len() >= 4,
        data[0] == 0x53 && data[1] == 0x49 && data[2] == 0x4E,
        data[3] == 4,
    ensures
        sin_image(data) == sin_image(data.update(3, 3u8)),
{
    let d = data.update(3, 3u8);
    assert forall|j: int| gzip_magic_at(data, j) == gzip_magic_at(d, j) by {
        if 0 <= j && j + 1 < data.len() && j != 3 && j + 1 != 3 {
            assert(data[j] == d[j] && data[j + 1] == d[j + 1]);
        }
    }
    lemma_gzip_start_from(data, 0);
    lemma_gzip_start_from(d, 0);
    match (gzip_start_from(data, 0), gzip_start_from(d, 0)) {
        (Some(a), Some(b)) => {
            if a < b {
                assert(!gzip_magic_at(d, a));
            } else if b < a {
                assert(!gzip_magic_at(data, b));
            }
            assert(a >= 4) by {
                assert(!gzip_magic_at(data, 0) && !gzip_magic_at(data, 1) && !gzip_magic_at(data, 2)
                    && !gzip_magic_at(data, 3));
            }
            assert(data.skip(a) =~= d.skip(a));
        },
        (Some(a), None) => {
            assert(gzip_magic_at(d, a));
        },
        (None, Some(b)) => {
            assert(gzip_magic_at(data, b));
        },
        (None, None) => {},
    }
}

/// A version 3 or 4 SIN image holds its tar archive in a gzip stream: it reports
/// `NoGzipData` exactly when no gzip magic (1F 8B) occurs anywhere in it.
pub proof fn lemma_v3_v4_need_gzip(data: Seq<u8>)
    requires
        data.len() >= 4,
        data[0] == 0x53 && data[1] == 0x49 && data[2] == 0x4E,
        data[3] == 3 || data[3] == 4,
    ensures
        sin_image(data) == Err::<Seq<u8>, SinError>(SinError::NoGzipData) <==> forall|j: int|
            0 <= j && j + 1 < data.len() ==> !(#[trigger] data[j] == 0x1F && data[j + 1] == 0x8B),
{
    lemma_gzip_start_from(data, 0);
    match gzip_start_from(data, 0) {
        Some(g) => {
            match gz_tar_entries_of(data.skip(g)) {
                Some(es) => lemma_entries_errors(es),
                None => {},
            }
        },
        None => {
            assert forall|j: int| 0 <= j && j + 1 < data.len() implies !(#[trigger] data[j] == 0x1F
                && data[j + 1] == 0x8B) by {
                assert(!gzip_magic_at(data, j));
            }
        },
    }
}


proof fn lemma_any_tar_none(data: Seq<u8>, i: int)
    requires
        0 <= i,
    ensures
        any_tar_from(data, i) is None <==> forall|j: int| i <= j ==> !#[trigger] ustar_at(data, j),
    decreases data.len() - i,
{
    if i + 262 <= data.len() {
        lemma_any_tar_none(data, i + 1);
        if any_tar_from(data, i) is None {
            assert forall|j: int| i <= j implies !#[trigger] ustar_at(data, j) by {
                if j > i {
                    assert(i + 1 <= j);
                }
            }
        }
    } else {
        assert forall|j: int| i <= j implies !#[trigger] ustar_at(data, j) by {}
    }
}

/// A version 5 SIN image holds a plain tar archive: it reports `NoTarData` exactly when
/// no tar header magic ("ustar" 257 bytes into a 262-byte span) occurs anywhere in it.
pub proof fn lemma_v5_needs_tar(data: Seq<u8>)
    requires
        data.len() >= 4,
        data[0] == 0x53 && data[1] == 0x49 && data[2] == 0x4E,
        data[3] == 5,
    ensures
        sin_image(data) == Err::<Seq<u8>, SinError>(SinError::NoTarData) <==> forall|i: int|
            0 <= i && i + 262 <= data.len() ==> !(#[trigger] data[i + 257] == 0x75 && data[i + 258]
                == 0x73 && data[i + 259] == 0x74 && data[i + 260] == 0x61 && data[i + 261] == 0x72),
{
    lemma_any_tar_none(data, 0);
    lemma_aligned_tar(data, 0);
    lemma_any_tar(data, 0);
    match tar_start(data) {
        Some(s) => {
            match tar_entries_of(data.skip(s)) {
                Some(es) => lemma_entries_errors(es),
                None => {},
            }
            let k = s;
            assert(ustar_at(data, k));
            assert(data[k + 257] == 0x75);
        },
        None => {
            assert forall|i: int| 0 <= i && i + 262 <= data.len() implies !(#[trigger] data[i + 257]
                == 0x75 && data[i + 258] == 0x73 && data[i + 259] == 0x74 && data[i + 260] == 0x61
                && data[i + 261] == 0x72) by {
                assert(!ustar_at(data, i));
            }
        },
    }
}


/// The header versions: "SIN" followed by byte 3, 4 or 5 is version 3, 4 or 5; "SSSS" is
/// the SSSS layout; any other start is the other legacy layout when the data is longer
/// than 0x4040 bytes, and no version otherwise ("SIN" with another version byte is none).
pub proof fn lemma_version_by_header(data: Seq<u8>)
    ensures
        starts_with_bytes(data, seq![0x53u8, 0x49, 0x4E, 3]) ==> sin_version(data) == Some(SinVersion::V3),
        starts_with_bytes(data, seq![0x53u8, 0x49, 0x4E, 4]) ==> sin_version(data) == Some(SinVersion::V4),
        starts_with_bytes(data, seq![0x53u8, 0x49, 0x4E, 5]) ==> sin_version(data) == Some(SinVersion::V5),
        starts_with_bytes(data, seq![0x53u8, 0x53, 0x53, 0x53]) ==> sin_version(data) == Some(
            SinVersion::LegacySsss,
        ),
        data.len() >= 4 && !(data[0] == 0x53 && data[1] == 0x49 && data[2] == 0x4E)
            && !starts_with_bytes(data, seq![0x53u8, 0x53, 0x53, 0x53]) ==> sin_version(data) == (if data.len() > 0x4040 {
            Some(SinVersion::LegacyOther)
        } else {
            None::<SinVersion>
        }),
{
    lemma_starts_with_4(data, 0x53, 0x49, 0x4E, 3);
    lemma_starts_with_4(data, 0x53, 0x49, 0x4E, 4);
    lemma_starts_with_4(data, 0x53, 0x49, 0x4E, 5);
    lemma_starts_with_4(data, 0x53, 0x53, 0x53, 0x53);
}

} // verus!

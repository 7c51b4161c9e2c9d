//! Unisoc PAC (version 2) containers: header, partition table and output naming.
use vstd::prelude::*;
use crate::bytes::{le32, read_le32, starts_with_bytes};
use crate::plan::{plan_view, Extraction};
use crate::text::{
    chars_of, concat, file_name, path_file_name, string_of, cut_at_nul, before_nul,
};

verus! {

/// Size of the container header.
pub const PAC_HEADER_SIZE: usize = 0x84C;

/// Offset of the partition count in the header.
pub const PARTITION_COUNT_OFFSET: usize = 0x434;

/// Offset of the partition table's position in the header.
pub const PARTITIONS_LIST_START_OFFSET: usize = 0x438;

/// Size of one partition-table entry.
pub const ENTRY_SIZE: usize = 0xA14;

/// Why a PAC container cannot be read.
#[derive(Debug, Clone, Copy, PartialEq, Eq)]
pub enum PacError {
    /// The header does not start with the version string "BP_R" in UTF-16LE.
    BadVersion,
    /// The partition count is 0 or above 1024.
    InvalidPartitionCount(usize),
    /// A partition-table entry is shorter than 0xA14 bytes; holds its length.
    EntryTooSmall(usize),
}

/// Whether `data` starts with "BP_R" in UTF-16LE.
pub open spec fn pac_v2_magic(data: Seq<u8>) -> bool {
    data.len() >= 8 && data[0] == 0x42 && data[1] == 0 && data[2] == 0x50 && data[3] == 0
        && data[4] == 0x5F && data[5] == 0 && data[6] == 0x52 && data[7] == 0
}

/// Checks if data looks like a Unisoc PAC container.
pub fn probe(data: &[u8]) -> (r: bool)
    ensures
        r == pac_v2_magic(data@),
{
    data.len() >= 8 && data[0] == 0x42 && data[1] == 0 && data[2] == 0x50 && data[3] == 0
        && data[4] == 0x5F && data[5] == 0 && data[6] == 0x52 && data[7] == 0
}

/// The partition count (little-endian at 0x434, in 1..=1024) and the partition table's
/// position (little-endian at 0x438) that a header records.
pub fn parse_header(header: &[u8]) -> (r: Result<(usize, u64), PacError>)
    requires
        header@.len() >= PAC_HEADER_SIZE,
    ensures
        match r {
            Ok((n, start)) => pac_v2_magic(header@) && n == le32(header@, 0x434) && 1 <= n <= 1024
                && start == le32(header@, 0x438),
            Err(PacError::BadVersion) => !pac_v2_magic(header@),
            Err(PacError::InvalidPartitionCount(n)) => pac_v2_magic(header@) && n == le32(
                header@,
                0x434,
            ) && (n == 0 || n > 1024),
            Err(PacError::EntryTooSmall(_)) => false,
        },
{
    if !probe(header) {
        return Err(PacError::BadVersion);
    }
    let count = read_le32(header, PARTITION_COUNT_OFFSET) as usize;
    let start = read_le32(header, PARTITIONS_LIST_START_OFFSET) as u64;
    if count == 0 || count > 1024 {
        return Err(PacError::InvalidPartitionCount(count));
    }
    Ok((count, start))
}

/// What `encoding_rs::UTF_16LE.decode` yields for the given bytes.
pub uninterp spec fn utf16le_decoded(bytes: Seq<u8>) -> Seq<char>;

/// Trusted: decodes `bytes` with `encoding_rs::UTF_16LE.decode` (with its replacement of
/// malformed sequences and its byte-order-mark handling). The result is named by
/// `utf16le_decoded`.
#[verifier::external_body]
fn decode_utf16le_bytes(bytes: &[u8]) -> (r: String)
    ensures
        r@ == utf16le_decoded(bytes@),
{
    let (decoded, _, _) = encoding_rs::UTF_16LE.decode(bytes);
    decoded.into_owned()
}

/// The text of a fixed-size, NUL-terminated UTF-16LE field: its decoding up to the
/// first NUL.
pub open spec fn utf16_field(buf: Seq<u8>) -> Seq<char> {
    before_nul(utf16le_decoded(buf))
}

/// Decodes a NUL-terminated UTF-16LE field (see `utf16_field`).
pub fn decode_utf16le(buf: &[u8]) -> (r: String)
    ensures
        r@ == utf16_field(buf@),
{
    let decoded = decode_utf16le_bytes(buf);
    string_of(cut_at_nul(chars_of(decoded.as_str()).as_slice()).as_slice())
}

/// One partition-table entry.
pub struct PacEntry {
    pub partition_name: String,
    pub filename: String,
    pub data_offset: u64,
    pub partition_size: u64,
    pub file_flag: u32,
}

impl View for PacEntry {
    type V = (Seq<char>, Seq<char>, u64, u64, u32);

    open spec fn view(&self) -> (Seq<char>, Seq<char>, u64, u64, u32) {
        (self.partition_name@, self.filename@, self.data_offset, self.partition_size, self.file_flag)
    }
}

/// The entry a table record describes: partition name (UTF-16LE at 0x004..0x204), file
/// name (UTF-16LE at 0x204..0x404), data offset (high half at 0x600, low half at 0x610),
/// partition size (high half at 0x5FC, low half at 0x604) and file flag (at 0x608), all
/// numbers little-endian.
pub open spec fn pac_entry(buf: Seq<u8>) -> (Seq<char>, Seq<char>, u64, u64, u32) {
    (
        utf16_field(buf.subrange(0x004, 0x204)),
        utf16_field(buf.subrange(0x204, 0x404)),
        (le32(buf, 0x600) * 0x1_0000_0000 + le32(buf, 0x610)) as u64,
        (le32(buf, 0x5FC) * 0x1_0000_0000 + le32(buf, 0x604)) as u64,
        le32(buf, 0x608) as u32,
    )
}

/// Parses one partition-table entry.
pub fn parse_entry(buf: &[u8]) -> (r: Result<PacEntry, PacError>)
    ensures
        match r {
            Ok(e) => buf@.len() >= ENTRY_SIZE && e@ == pac_entry(buf@),
            Err(e) => buf@.len() < ENTRY_SIZE && e == PacError::EntryTooSmall(buf@.len() as usize),
        },
{
    if buf.len() < ENTRY_SIZE {
        return Err(PacError::EntryTooSmall(buf.len()));
    }
    let partition_name = decode_utf16le(&buf[0x004..0x204]);
    let filename = decode_utf16le(&buf[0x204..0x404]);
    let hi_partition_size = read_le32(buf, 0x5FC) as u64;
    let hi_data_offset = read_le32(buf, 0x600) as u64;
    let lo_partition_size = read_le32(buf, 0x604) as u64;
    let file_flag = read_le32(buf, 0x608);
    let lo_data_offset = read_le32(buf, 0x610) as u64;
    Ok(PacEntry {
        partition_name,
        filename,
        data_offset: hi_data_offset * 0x1_0000_0000 + lo_data_offset,
        partition_size: hi_partition_size * 0x1_0000_0000 + lo_partition_size,
        file_flag,
    })
}

/// The output name of an entry: the final component of its file name, or the partition
/// name and ".img" when that has none.
pub open spec fn pac_output_name(e: (Seq<char>, Seq<char>, u64, u64, u32)) -> Seq<char> {
    match path_file_name(e.1) {
        Some(b) => b,
        None => e.0 + ".img"@,
    }
}

/// The outputs of a container with the given entries: every entry with a non-zero size,
/// a non-empty file name and a non-zero file flag, in table order.
pub open spec fn pac_plan(entries: Seq<(Seq<char>, Seq<char>, u64, u64, u32)>) -> Seq<
    (Seq<char>, u64, u64),
>
    decreases entries.len(),
{
    if entries.len() == 0 {
        Seq::empty()
    } else {
        let p = pac_plan(entries.drop_last());
        let e = entries.last();
        if e.3 == 0 || e.1.len() == 0 || e.4 == 0 {
            p
        } else {
            p.push((pac_output_name(e), e.2, e.3))
        }
    }
}

/// Plans the extraction of a container's partitions (see `pac_plan`).
pub fn plan(entries: &Vec<PacEntry>) -> (r: Vec<Extraction>)
    ensures
        plan_view(r@) == pac_plan(entries@.map_values(|e: PacEntry| e@)),
{
    let ghost ev = entries@.map_values(|e: PacEntry| e@);
    let mut r: Vec<Extraction> = Vec::new();
    let mut i: usize = 0;
    while i < entries.len()
        invariant
            i <= entries@.len(),
            ev == entries@.map_values(|e: PacEntry| e@),
            plan_view(r@) == pac_plan(ev.take(i as int)),
        decreases entries.len() - i,
    {
        let ghost before = plan_view(r@);
        assert(ev.take(i + 1).drop_last() =~= ev.take(i as int));
        assert(ev.take(i + 1).last() == entries@[i as int]@);
        let e = &entries[i];
        if !(e.partition_size == 0 || e.filename.as_str().is_empty() || e.file_flag == 0) {
            let name = match file_name(e.filename.as_str()) {
                Some(b) => b,
                None => string_of(
                    concat(
                        chars_of(e.partition_name.as_str()).as_slice(),
                        chars_of(".img").as_slice(),
                    ).as_slice(),
                ),
            };
            let x = Extraction { name, offset: e.data_offset, size: e.partition_size };
            let ghost xv = x@;
            r.push(x);
            assert(plan_view(r@) =~= before.push(xv));
        }
        i = i + 1;
    }
    assert(ev.take(entries@.len() as int) =~= ev);
    r
}

/// Every planned output has data: partitions of size zero are never extracted.
pub proof fn lemma_plan_sizes_nonzero(entries: Seq<(Seq<char>, Seq<char>, u64, u64, u32)>)
    ensures
        forall|k: int| 0 <= k < pac_plan(entries).len() ==> (#[trigger] pac_plan(entries)[k]).2 > 0,
    decreases entries.len(),
{
    if entries.len() > 0 {
        lemma_plan_sizes_nonzero(entries.drop_last());
        let p = pac_plan(entries.drop_last());
        let e = entries.last();
        if !(e.3 == 0 || e.1.len() == 0 || e.4 == 0) {
            let x = (pac_output_name(e), e.2, e.3);
            assert forall|k: int| 0 <= k < p.push(x).len() implies (#[trigger] p.push(x)[k]).2 > 0 by {
                if k < p.len() {
                    assert(p.push(x)[k] == p[k]);
                }
            }
        }
    }
}

/// Whether an entry is extracted: it has a non-zero size, a non-empty file name and a
/// non-zero file flag.
pub open spec fn pac_extractable(e: (Seq<char>, Seq<char>, u64, u64, u32)) -> bool {
    e.3 != 0 && e.1.len() > 0 && e.4 != 0
}

/// Every extractable entry yields exactly one output, whatever the entries around it:
/// the plan is the extractable entries, in table order, each copied from its data offset
/// for its partition size.
pub proof fn lemma_plan_takes_each_extractable_entry(entries: Seq<(Seq<char>, Seq<char>, u64, u64, u32)>)
    ensures
        pac_plan(entries) == entries.filter(|e: (Seq<char>, Seq<char>, u64, u64, u32)| pac_extractable(e)).map_values(
            |e: (Seq<char>, Seq<char>, u64, u64, u32)| (pac_output_name(e), e.2, e.3),
        ),
    decreases entries.len(),
{
    reveal_with_fuel(Seq::filter, 1);
    if entries.len() > 0 {
        lemma_plan_takes_each_extractable_entry(entries.drop_last());
        let f = entries.drop_last().filter(|e: (Seq<char>, Seq<char>, u64, u64, u32)| pac_extractable(e));
        let g = |e: (Seq<char>, Seq<char>, u64, u64, u32)| (pac_output_name(e), e.2, e.3);
        assert(f.push(entries.last()).map_values(g) =~= f.map_values(g).push(g(entries.last())));
    }
}


/// A PAC v2 file is recognised exactly by its first eight bytes, "BP_R" in UTF-16LE.
pub proof fn lemma_probe_is_bp_r(data: Seq<u8>)
    ensures
        pac_v2_magic(data) <==> starts_with_bytes(
            data,
            seq![0x42u8, 0x00, 0x50, 0x00, 0x5F, 0x00, 0x52, 0x00],
        ),
{
    let p = seq![0x42u8, 0x00, 0x50, 0x00, 0x5F, 0x00, 0x52, 0x00];
    if data.len() >= 8 {
        let t = data.take(8);
        assert(forall|k: int| 0 <= k < 8 ==> t[k] == data[k]);
        if pac_v2_magic(data) {
            assert(t =~= p);
        }
        if starts_with_bytes(data, p) {
            assert(t[0] == p[0] && t[1] == p[1] && t[2] == p[2] && t[3] == p[3] && t[4] == p[4]
                && t[5] == p[5] && t[6] == p[6] && t[7] == p[7]);
        }
    }
}

} // verus!

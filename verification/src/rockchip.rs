//! Rockchip RKFW images: the RKFW header, the AFP container inside and output naming.
use vstd::prelude::*;
use crate::bytes::{le32, lemma_starts_with_4, read_le32, starts_with_bytes};
use crate::plan::{plan_view, Extraction};
use crate::text::{
    chars_of, concat, lemma_numbered_partition_within, within_dir, contains_char, file_name, nul_terminated_text, numbered_partition,
    numbered_partition_name, path_file_name, read_null_terminated, string_of, strip_suffix,
    without_suffix,
};

verus! {

/// Size of one AFP entry.
pub const AFP_ENTRY_SIZE: usize = 0x70;

/// Size of the AFP header.
pub const AFP_HEADER_SIZE: usize = 0x8C;

/// Size of the part of the RKFW header that is read.
pub const RKFW_HEADER_SIZE: usize = 0x29;

/// Why a Rockchip image cannot be read.
#[derive(Debug, Clone, Copy, PartialEq, Eq)]
pub enum RockchipError {
    /// The image does not start with "RKFW".
    BadMagic,
    /// The RKFW header records an empty firmware.
    EmptyFirmware,
    /// The AFP container starts with neither "RKAF" nor "RKAS"; holds its first bytes.
    BadAfpMagic([u8; 4]),
    /// The AFP entry count is 0 or above 1024.
    InvalidEntryCount(usize),
    /// An AFP entry is shorter than 0x70 bytes.
    EntryTooSmall,
}

/// Whether `data` starts with "RKFW".
pub open spec fn rkfw_magic(data: Seq<u8>) -> bool {
    data.len() >= 4 && data[0] == 0x52 && data[1] == 0x4B && data[2] == 0x46 && data[3] == 0x57
}

/// Checks if data looks like a Rockchip RKFW image.
pub fn probe(data: &[u8]) -> (r: bool)
    ensures
        r == rkfw_magic(data@),
{
    data.len() >= 4 && data[0] == 0x52 && data[1] == 0x4B && data[2] == 0x46 && data[3] == 0x57
}

/// The position and size of the AFP firmware that an RKFW header records (little-endian,
/// unaligned, at 0x21 and 0x25); the size must not be zero.
pub fn parse_rkfw_header(header: &[u8; 0x29]) -> (r: Result<(u64, u64), RockchipError>)
    ensures
        match r {
            Ok((off, size)) => rkfw_magic(header@) && off == le32(header@, 0x21) && size == le32(
                header@,
                0x25,
            ) && size != 0,
            Err(RockchipError::BadMagic) => !rkfw_magic(header@),
            Err(RockchipError::EmptyFirmware) => rkfw_magic(header@) && le32(header@, 0x25) == 0,
            Err(_) => false,
        },
{
    let h: &[u8] = header;
    if !probe(h) {
        return Err(RockchipError::BadMagic);
    }
    let offset = read_le32(h, 0x21) as u64;
    let size = read_le32(h, 0x25) as u64;
    if size == 0 {
        return Err(RockchipError::EmptyFirmware);
    }
    Ok((offset, size))
}

/// Whether `data` starts with "RKAF" or "RKAS".
pub open spec fn afp_magic(data: Seq<u8>) -> bool {
    data.len() >= 4 && data[0] == 0x52 && data[1] == 0x4B && data[2] == 0x41 && (data[3] == 0x46
        || data[3] == 0x53)
}

/// The entry count (little-endian at 0x88, in 1..=1024) of an AFP header.
pub fn parse_afp_header(header: &[u8; 0x8C]) -> (r: Result<usize, RockchipError>)
    ensures
        match r {
            Ok(n) => afp_magic(header@) && n == le32(header@, 0x88) && 1 <= n <= 1024,
            Err(RockchipError::BadAfpMagic(m)) => !afp_magic(header@) && m@ == header@.take(4),
            Err(RockchipError::InvalidEntryCount(n)) => afp_magic(header@) && n == le32(
                header@,
                0x88,
            ) && (n == 0 || n > 1024),
            Err(_) => false,
        },
        (r matches Err(RockchipError::BadAfpMagic(_))) <==> !(starts_with_bytes(
            header@,
            seq![0x52u8, 0x4B, 0x41, 0x46],
        ) || starts_with_bytes(header@, seq![0x52u8, 0x4B, 0x41, 0x53])),
        (starts_with_bytes(header@, seq![0x52u8, 0x4B, 0x41, 0x46]) || starts_with_bytes(
            header@,
            seq![0x52u8, 0x4B, 0x41, 0x53],
        )) && 1 <= le32(header@, 0x88) <= 1024 ==> r == Ok::<usize, RockchipError>(
            le32(header@, 0x88) as usize,
        ),
{
    proof {
        lemma_afp_header_magics(header@);
    }
    let h: &[u8] = header;
    if !(h[0] == 0x52 && h[1] == 0x4B && h[2] == 0x41 && (h[3] == 0x46 || h[3] == 0x53)) {
        let m: [u8; 4] = [h[0], h[1], h[2], h[3]];
        assert(m@ =~= header@.take(4));
        return Err(RockchipError::BadAfpMagic(m));
    }
    let count = read_le32(h, 0x88) as usize;
    if count == 0 || count > 1024 {
        return Err(RockchipError::InvalidEntryCount(count));
    }
    Ok(count)
}

/// One AFP entry.
pub struct AfpEntry {
    pub name: String,
    pub offset: u32,
    pub size: u32,
}

impl View for AfpEntry {
    type V = (Seq<char>, u32, u32);

    open spec fn view(&self) -> (Seq<char>, u32, u32) {
        (self.name@, self.offset, self.size)
    }
}

/// The entry an AFP record describes: name (NUL-terminated at 0x00..0x20), offset within
/// the AFP container (little-endian at 0x60) and size (little-endian at 0x6C).
pub open spec fn afp_entry(buf: Seq<u8>) -> (Seq<char>, u32, u32) {
    (nul_terminated_text(buf.subrange(0, 0x20)), le32(buf, 0x60) as u32, le32(buf, 0x6C) as u32)
}

/// Parses one AFP entry.
pub fn parse_afp_entry(buf: &[u8]) -> (r: Result<AfpEntry, RockchipError>)
    ensures
        match r {
            Ok(e) => buf@.len() >= AFP_ENTRY_SIZE && e@ == afp_entry(buf@),
            Err(e) => buf@.len() < AFP_ENTRY_SIZE && e == RockchipError::EntryTooSmall,
        },
{
    if buf.len() < AFP_ENTRY_SIZE {
        return Err(RockchipError::EntryTooSmall);
    }
    let name = read_null_terminated(&buf[0x00..0x20]);
    let offset = read_le32(buf, 0x60);
    let size = read_le32(buf, 0x6C);
    Ok(AfpEntry { name, offset, size })
}

/// `name` with a final "_a.img" or "_b.img" (an A/B slot) turned into ".img".
pub open spec fn without_slot(name: Seq<char>) -> Seq<char> {
    match without_suffix(name, "_a.img"@) {
        Some(b) => b + ".img"@,
        None => match without_suffix(name, "_b.img"@) {
            Some(b) => b + ".img"@,
            None => name,
        },
    }
}

/// Strips an A/B slot suffix (see `without_slot`).
pub fn strip_ab_suffix(name: &str) -> (r: String)
    ensures
        r@ == without_slot(name@),
{
    let n = chars_of(name);
    let img = chars_of(".img");
    match strip_suffix(n.as_slice(), chars_of("_a.img").as_slice()) {
        Some(b) => string_of(concat(b.as_slice(), img.as_slice()).as_slice()),
        None => match strip_suffix(n.as_slice(), chars_of("_b.img").as_slice()) {
            Some(b) => string_of(concat(b.as_slice(), img.as_slice()).as_slice()),
            None => name.to_owned(),
        },
    }
}

/// The output name of an entry, given how many outputs precede it: the entry name (with
/// ".img" added when it holds no '.') without its slot suffix, reduced to its final
/// component, or "partition_N.img" when that has none.
pub open spec fn rk_output_name(name: Seq<char>, n: nat) -> Seq<char> {
    let raw = if name.contains('.') {
        name
    } else {
        name + ".img"@
    };
    match path_file_name(without_slot(raw)) {
        Some(b) => b,
        None => numbered_partition(n),
    }
}

/// The outputs of an AFP container at `firmware_offset` with the given entries: every
/// entry with a non-zero size and a non-empty name, in table order, copied from its
/// offset within the container.
pub open spec fn rk_plan(firmware_offset: u64, entries: Seq<(Seq<char>, u32, u32)>) -> Seq<
    (Seq<char>, u64, u64),
>
    decreases entries.len(),
{
    if entries.len() == 0 {
        Seq::empty()
    } else {
        let p = rk_plan(firmware_offset, entries.drop_last());
        let e = entries.last();
        if e.2 == 0 || e.0.len() == 0 {
            p
        } else {
            p.push((rk_output_name(e.0, p.len()), (firmware_offset + e.1) as u64, e.2 as u64))
        }
    }
}

/// Plans the extraction of an AFP container's entries (see `rk_plan`). Every output name
/// stays inside the output directory.
pub fn plan(firmware_offset: u64, entries: &Vec<AfpEntry>) -> (r: Vec<Extraction>)
    requires
        firmware_offset <= u32::MAX,
    ensures
        plan_view(r@) == rk_plan(firmware_offset, entries@.map_values(|e: AfpEntry| e@)),
        forall|k: int| 0 <= k < r@.len() ==> within_dir(#[trigger] r@[k].name@),
{
    let ghost ev = entries@.map_values(|e: AfpEntry| e@);
    let mut r: Vec<Extraction> = Vec::new();
    let mut i: usize = 0;
    while i < entries.len()
        invariant
            firmware_offset <= u32::MAX,
            i <= entries@.len(),
            ev == entries@.map_values(|e: AfpEntry| e@),
            plan_view(r@) == rk_plan(firmware_offset, ev.take(i as int)),
            forall|k: int| 0 <= k < r@.len() ==> within_dir(#[trigger] r@[k].name@),
        decreases entries.len() - i,
    {
        let ghost before = plan_view(r@);
        assert(ev.take(i + 1).drop_last() =~= ev.take(i as int));
        assert(ev.take(i + 1).last() == entries@[i as int]@);
        let e = &entries[i];
        if !(e.size == 0 || e.name.as_str().is_empty()) {
            let n = chars_of(e.name.as_str());
            let raw = if contains_char(n.as_slice(), '.') {
                string_of(n.as_slice())
            } else {
                string_of(concat(n.as_slice(), chars_of(".img").as_slice()).as_slice())
            };
            let out = strip_ab_suffix(raw.as_str());
            let name = match file_name(out.as_str()) {
                Some(b) => b,
                None => {
                    proof {
                        lemma_numbered_partition_within(r.len() as nat);
                    }
                    numbered_partition_name(r.len())
                },
            };
            let x = Extraction { name, offset: firmware_offset + e.offset as u64, size: e.size as u64 };
            let ghost xv = x@;
            r.push(x);
            assert(plan_view(r@) =~= before.push(xv));
        }
        i = i + 1;
    }
    assert(ev.take(entries@.len() as int) =~= ev);
    r
}

/// Every planned output has data: entries of size zero are never extracted.
pub proof fn lemma_plan_sizes_nonzero(firmware_offset: u64, entries: Seq<(Seq<char>, u32, u32)>)
    ensures
        forall|k: int|
            0 <= k < rk_plan(firmware_offset, entries).len() ==> (#[trigger] rk_plan(
                firmware_offset,
                entries,
            )[k]).2 > 0,
    decreases entries.len(),
{
    if entries.len() > 0 {
        lemma_plan_sizes_nonzero(firmware_offset, entries.drop_last());
        let p = rk_plan(firmware_offset, entries.drop_last());
        let e = entries.last();
        if !(e.2 == 0 || e.0.len() == 0) {
            let x = (rk_output_name(e.0, p.len()), (firmware_offset + e.1) as u64, e.2 as u64);
            assert forall|k: int| 0 <= k < p.push(x).len() implies (#[trigger] p.push(x)[k]).2 > 0 by {
                if k < p.len() {
                    assert(p.push(x)[k] == p[k]);
                }
            }
        }
    }
}

/// The AFP container magic is "RKAF" or "RKAS": an AFP header passes the magic check
/// exactly when it starts with one of the two.
pub proof fn lemma_afp_header_magics(header: Seq<u8>)
    requires
        header.len() == 0x8C,
    ensures
        afp_magic(header) <==> (starts_with_bytes(header, seq![0x52u8, 0x4B, 0x41, 0x46])
            || starts_with_bytes(header, seq![0x52u8, 0x4B, 0x41, 0x53])),
{
    let t = header.take(4);
    assert(t[0] == header[0] && t[1] == header[1] && t[2] == header[2] && t[3] == header[3]);
    if header[0] == 0x52 && header[1] == 0x4B && header[2] == 0x41 {
        if header[3] == 0x46 {
            assert(t =~= seq![0x52u8, 0x4B, 0x41, 0x46]);
        }
        if header[3] == 0x53 {
            assert(t =~= seq![0x52u8, 0x4B, 0x41, 0x53]);
        }
    }
}


/// Every entry with a non-zero size and a non-empty name yields exactly one output,
/// whatever the entries around it: the k-th output is the k-th such entry, in table
/// order, copied from its offset within the container at `firmware_offset` for its size
/// and named as the k-th output.
pub proof fn lemma_plan_takes_each_named_entry(firmware_offset: u64, entries: Seq<(Seq<char>, u32, u32)>)
    ensures
        ({
            let q = entries.filter(|e: (Seq<char>, u32, u32)| e.2 != 0 && e.0.len() > 0);
            rk_plan(firmware_offset, entries) == Seq::new(
                q.len(),
                |k: int| (rk_output_name(q[k].0, k as nat), (firmware_offset + q[k].1) as u64, q[k].2 as u64),
            )
        }),
    decreases entries.len(),
{
    reveal_with_fuel(Seq::filter, 1);
    if entries.len() > 0 {
        lemma_plan_takes_each_named_entry(firmware_offset, entries.drop_last());
        let f = entries.drop_last().filter(|e: (Seq<char>, u32, u32)| e.2 != 0 && e.0.len() > 0);
        let q = entries.filter(|e: (Seq<char>, u32, u32)| e.2 != 0 && e.0.len() > 0);
        let p = rk_plan(firmware_offset, entries.drop_last());
        let e = entries.last();
        if e.2 != 0 && e.0.len() > 0 {
            assert(q == f.push(e));
            assert(p.push((rk_output_name(e.0, p.len()), (firmware_offset + e.1) as u64, e.2 as u64))
                =~= Seq::new(
                q.len(),
                |k: int| (rk_output_name(q[k].0, k as nat), (firmware_offset + q[k].1) as u64, q[k].2 as u64),
            ));
        } else {
            assert(q == f);
        }
    }
}


/// An RKFW image is recognised exactly by its first four bytes, "RKFW".
pub proof fn lemma_probe_is_rkfw(data: Seq<u8>)
    ensures
        rkfw_magic(data) <==> starts_with_bytes(data, seq![0x52u8, 0x4B, 0x46, 0x57]),
{
    lemma_starts_with_4(data, 0x52, 0x4B, 0x46, 0x57);
}

} // verus!

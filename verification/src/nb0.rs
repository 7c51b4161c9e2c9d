//! NB0 containers: a file count, a table of 64-byte entries and the data after it.
use vstd::prelude::*;
use vstd::utf8::{decode_utf8, valid_utf8};
use crate::bytes::{find_first_zero, first_zero, le32, read_le32};
use crate::plan::{plan_view, Extraction};
use crate::text::{chars_of, concat, contains_char, string_of, utf8_strict};

verus! {

/// Size of one table entry.
pub const ENTRY_SIZE: usize = 64;

/// Why an NB0 container cannot be read.
#[derive(Debug, Clone, Copy, PartialEq, Eq)]
pub enum Nb0Error {
    /// The file count is 0 or at least 256.
    InvalidFileCount(usize),
    /// An entry's file name is not valid UTF-8.
    InvalidFileName,
}

/// Checks if a file looks like an NB0 container: the little-endian file count in its
/// first 4 bytes lies in 1..=255 and the file (of `file_size` bytes) can hold the table.
pub fn probe(data: &[u8], file_size: u64) -> (r: bool)
    ensures
        r == (data@.len() >= 4 && 0 < le32(data@, 0) < 256 && file_size >= 4 + le32(data@, 0)
            * 64),
{
    if data.len() < 4 {
        return false;
    }
    let count = read_le32(data, 0) as u64;
    count > 0 && count < 256 && file_size >= 4 + count * 64
}

/// The file count of a header, once it lies in 1..=255.
pub fn check_count(header: &[u8; 4]) -> (r: Result<usize, Nb0Error>)
    ensures
        match r {
            Ok(n) => n == le32(header@, 0) && 0 < n < 256,
            Err(Nb0Error::InvalidFileCount(n)) => n == le32(header@, 0) && (n == 0 || n >= 256),
            Err(Nb0Error::InvalidFileName) => false,
        },
{
    let h: &[u8] = header;
    let count = read_le32(h, 0) as usize;
    if count == 0 || count >= 256 {
        return Err(Nb0Error::InvalidFileCount(count));
    }
    Ok(count)
}

/// One table entry.
pub struct Nb0Entry {
    pub data_offset: u32,
    pub data_size: u32,
    pub filename: String,
}

impl View for Nb0Entry {
    type V = (u32, u32, Seq<char>);

    open spec fn view(&self) -> (u32, u32, Seq<char>) {
        (self.data_offset, self.data_size, self.filename@)
    }
}

/// The bytes of an entry's file name: bytes 16..64 up to the first zero byte.
pub open spec fn name_bytes(buf: Seq<u8>) -> Seq<u8> {
    buf.subrange(16, 64).take(first_zero(buf.subrange(16, 64)))
}

/// Parses one table entry: data offset and size (little-endian at 0 and 4) and the
/// file name, which must be valid UTF-8.
pub fn parse_entry(buf: &[u8; 64]) -> (r: Result<Nb0Entry, Nb0Error>)
    ensures
        match r {
            Ok(e) => valid_utf8(name_bytes(buf@)) && e@ == (
                le32(buf@, 0) as u32,
                le32(buf@, 4) as u32,
                decode_utf8(name_bytes(buf@)),
            ),
            Err(e) => !valid_utf8(name_bytes(buf@)) && e == Nb0Error::InvalidFileName,
        },
{
    let b: &[u8] = buf;
    let data_offset = read_le32(b, 0);
    let data_size = read_le32(b, 4);
    let names = &b[16..64];
    let end = find_first_zero(names);
    assert(names@.subrange(0, end as int) =~= name_bytes(buf@));
    match utf8_strict(&names[0..end]) {
        Some(filename) => Ok(Nb0Entry { data_offset, data_size, filename }),
        None => Err(Nb0Error::InvalidFileName),
    }
}

/// The output name of an entry: its file name, with ".img" added when it holds no '.'.
pub open spec fn nb0_output_name(filename: Seq<char>) -> Seq<char> {
    if filename.contains('.') {
        filename
    } else {
        filename + ".img"@
    }
}

/// The outputs of a container of `count` entries: every entry with a non-zero size and a
/// non-empty name, in table order, copied from its offset past the table.
pub open spec fn nb0_plan(count: nat, entries: Seq<(u32, u32, Seq<char>)>) -> Seq<
    (Seq<char>, u64, u64),
>
    decreases entries.len(),
{
    if entries.len() == 0 {
        Seq::empty()
    } else {
        let p = nb0_plan(count, entries.drop_last());
        let e = entries.last();
        if e.1 == 0 || e.2.len() == 0 {
            p
        } else {
            p.push((nb0_output_name(e.2), (4 + count * 64 + e.0) as u64, e.1 as u64))
        }
    }
}

/// Plans the extraction of a container's entries (see `nb0_plan`).
pub fn plan(count: usize, entries: &Vec<Nb0Entry>) -> (r: Vec<Extraction>)
    requires
        count < 256,
    ensures
        plan_view(r@) == nb0_plan(count as nat, entries@.map_values(|e: Nb0Entry| e@)),
{
    let ghost ev = entries@.map_values(|e: Nb0Entry| e@);
    let data_start: u64 = 4 + count as u64 * 64;
    let mut r: Vec<Extraction> = Vec::new();
    let mut i: usize = 0;
    while i < entries.len()
        invariant
            count < 256,
            data_start == 4 + count * 64,
            i <= entries@.len(),
            ev == entries@.map_values(|e: Nb0Entry| e@),
            plan_view(r@) == nb0_plan(count as nat, ev.take(i as int)),
        decreases entries.len() - i,
    {
        let ghost before = plan_view(r@);
        assert(ev.take(i + 1).drop_last() =~= ev.take(i as int));
        assert(ev.take(i + 1).last() == entries@[i as int]@);
        let e = &entries[i];
        if !(e.data_size == 0 || e.filename.as_str().is_empty()) {
            let fname = chars_of(e.filename.as_str());
            let name = if contains_char(fname.as_slice(), '.') {
                string_of(fname.as_slice())
            } else {
                string_of(concat(fname.as_slice(), chars_of(".img").as_slice()).as_slice())
            };
            let x = Extraction { name, offset: data_start + e.data_offset as u64, size: e.data_size as u64 };
            let ghost xv = x@;
            r.push(x);
            assert(plan_view(r@) =~= before.push(xv));
        }
        i = i + 1;
    }
    assert(ev.take(entries@.len() as int) =~= ev);
    r
}

/// A container that `probe` accepts passes `check_count` on its first four bytes (the
/// header that extraction reads), and its file holds the whole table of that many entries.
pub proof fn lemma_probe_accepts_count(data: Seq<u8>, file_size: u64)
    requires
        data.len() >= 4 && 0 < le32(data, 0) < 256 && file_size >= 4 + le32(data, 0) * 64,
    ensures
        le32(data.take(4), 0) == le32(data, 0),
        0 < le32(data.take(4), 0) < 256,
        file_size >= 4 + le32(data.take(4), 0) * ENTRY_SIZE,
{
}

/// Every planned output has data: entries of size zero are never extracted.
pub proof fn lemma_plan_sizes_nonzero(count: nat, entries: Seq<(u32, u32, Seq<char>)>)
    ensures
        forall|k: int| 0 <= k < nb0_plan(count, entries).len() ==> (#[trigger] nb0_plan(count, entries)[k]).2 > 0,
    decreases entries.len(),
{
    if entries.len() > 0 {
        lemma_plan_sizes_nonzero(count, entries.drop_last());
        let p = nb0_plan(count, entries.drop_last());
        let e = entries.last();
        if !(e.1 == 0 || e.2.len() == 0) {
            let x = (nb0_output_name(e.2), (4 + count * 64 + e.0) as u64, e.1 as u64);
            assert forall|k: int| 0 <= k < p.push(x).len() implies (#[trigger] p.push(x)[k]).2 > 0 by {
                if k < p.len() {
                    assert(p.push(x)[k] == p[k]);
                }
            }
        }
    }
}

/// Every entry with a non-zero size and a non-empty file name yields exactly one output,
/// whatever the entries around it: the plan is those entries, in table order, each copied
/// from its offset past the table of `count` entries for its size.
pub proof fn lemma_plan_takes_each_named_entry(count: nat, entries: Seq<(u32, u32, Seq<char>)>)
    ensures
        nb0_plan(count, entries) == entries.filter(
            |e: (u32, u32, Seq<char>)| e.1 != 0 && e.2.len() > 0,
        ).map_values(
            |e: (u32, u32, Seq<char>)| (nb0_output_name(e.2), (4 + count * 64 + e.0) as u64, e.1 as u64),
        ),
    decreases entries.len(),
{
    reveal_with_fuel(Seq::filter, 1);
    if entries.len() > 0 {
        lemma_plan_takes_each_named_entry(count, entries.drop_last());
        let f = entries.drop_last().filter(|e: (u32, u32, Seq<char>)| e.1 != 0 && e.2.len() > 0);
        let g = |e: (u32, u32, Seq<char>)| (nb0_output_name(e.2), (4 + count * 64 + e.0) as u64, e.1 as u64);
        assert(f.push(entries.last()).map_values(g) =~= f.map_values(g).push(g(entries.last())));
    }
}

} // verus!

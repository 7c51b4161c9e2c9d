//! Amlogic USB Burning Tool images: header, item table and output naming.
use vstd::prelude::*;
use crate::archive::{bz2_tar_read, bz2_tar_read_of, NamedTarEntry};
use crate::bytes::{be32, lemma_starts_with_4, read_be32, starts_with_bytes};
use crate::plan::{plan_view, Extraction};
use crate::text::{
    lemma_numbered_partition_within, within_dir, base_name_or_empty, base_or_empty, chars_of, concat, eq_ignore_ascii_case, ends_with, file_name, has_suffix,
    nul_terminated_text, numbered_partition, numbered_partition_name, path_file_name,
    read_null_terminated, same_ignoring_ascii_case, string_of, strip_suffix, without_suffix,
};

verus! {

/// The big-endian magic number at the start of an image.
pub const AML_MAGIC: u32 = 0x27051956;

/// Size of the image header.
pub const HEADER_SIZE: usize = 0x40;

/// Size of one item-table entry.
pub const ITEM_SIZE: usize = 0x240;

/// Why an Amlogic image cannot be read.
#[derive(Debug, Clone, Copy, PartialEq, Eq)]
pub enum AmlError {
    /// The header does not start with the magic number; holds the value found.
    BadMagic(u32),
    /// The item count is 0 or above 1024.
    InvalidItemCount(usize),
    /// An item-table entry is shorter than 0x240 bytes.
    ItemTooSmall,
    /// A tar.bz2 package could not be read before its image was found.
    PackageUnreadable,
}

/// Checks if data looks like an Amlogic USB Burning Tool image.
pub fn probe(data: &[u8]) -> (r: bool)
    ensures
        r == (data@.len() >= 4 && be32(data@, 0) == AML_MAGIC),
{
    data.len() >= 4 && read_be32(data, 0) == AML_MAGIC
}

/// Whether a file starts with the bzip2 signature "BZh" (an image packed in a tar.bz2).
pub open spec fn bzip2_head(head: Seq<u8>) -> bool {
    head.len() >= 3 && head[0] == 0x42 && head[1] == 0x5A && head[2] == 0x68
}

/// Checks for the bzip2 signature (see `bzip2_head`).
pub fn is_bzip2(head: &[u8]) -> (r: bool)
    ensures
        r == bzip2_head(head@),
{
    head.len() >= 3 && head[0] == 0x42 && head[1] == 0x5A && head[2] == 0x68
}

/// Whether a member of a tar.bz2 package may hold the image: the final component of its
/// path (empty when it has none) ends with ".img". The member holds the image when its
/// contents also start as `probe` requires.
pub fn is_image_member(path: &str) -> (r: bool)
    ensures
        r == has_suffix(base_or_empty(path@), ".img"@),
{
    let base = base_name_or_empty(path);
    ends_with(chars_of(base.as_str()).as_slice(), chars_of(".img").as_slice())
}

/// Whether a tar member (path and contents) is the packed image: its final path
/// component ends with ".img" and its contents start with the Amlogic magic.
pub open spec fn image_member(m: (Seq<char>, Seq<u8>)) -> bool {
    has_suffix(base_or_empty(m.0), ".img"@) && m.1.len() >= 4 && be32(m.1, 0) == AML_MAGIC
}

/// The position of the first packed image among the members, from position `i` on.
pub open spec fn first_image_member(ms: Seq<(Seq<char>, Seq<u8>)>, i: int) -> Option<int>
    decreases ms.len() - i,
{
    if i < 0 || i >= ms.len() {
        None
    } else if image_member(ms[i]) {
        Some(i)
    } else {
        first_image_member(ms, i + 1)
    }
}

/// The image packed in a file: none when the file is not bzip2-compressed; else the
/// final path component and contents of the first packed image among the members of the
/// tar archive inside, read up to the first failure; none when the archive ends without
/// one, and an error when reading failed first.
pub open spec fn packed_image(data: Seq<u8>) -> Result<Option<(Seq<char>, Seq<u8>)>, AmlError> {
    if !bzip2_head(data) {
        Ok(None)
    } else {
        let (ms, ok) = bz2_tar_read_of(data);
        match first_image_member(ms, 0) {
            Some(k) => Ok(Some((base_or_empty(ms[k].0), ms[k].1))),
            None => if ok {
                Ok(None)
            } else {
                Err(AmlError::PackageUnreadable)
            },
        }
    }
}

/// Unpacks the image of a tar.bz2 package (see `packed_image`): its name and contents.
pub fn unwrap_tar_bz2(data: &[u8]) -> (r: Result<Option<(String, Vec<u8>)>, AmlError>)
    ensures
        match r {
            Ok(Some((name, bytes))) => packed_image(data@) == Ok::<
                Option<(Seq<char>, Seq<u8>)>,
                AmlError,
            >(Some((name@, bytes@))),
            Ok(None) => packed_image(data@) == Ok::<Option<(Seq<char>, Seq<u8>)>, AmlError>(None),
            Err(e) => packed_image(data@) == Err::<Option<(Seq<char>, Seq<u8>)>, AmlError>(e),
        },
{
    if !is_bzip2(data) {
        return Ok(None);
    }
    let read = bz2_tar_read(data);
    let ok = read.1;
    let mut members = read.0;
    let ghost ms = members@.map_values(|e: NamedTarEntry| e@);
    let mut i: usize = 0;
    while i < members.len()
        invariant
            i <= members@.len(),
            ms == members@.map_values(|e: NamedTarEntry| e@),
            first_image_member(ms, 0) == first_image_member(ms, i as int),
            bz2_tar_read_of(data@) == (ms, ok),
            bzip2_head(data@),
        decreases members.len() - i,
    {
        assert(ms[i as int] == members@[i as int]@);
        let hit = is_image_member(members[i].path.as_str()) && members[i].data.len() >= 4
            && probe(members[i].data.as_slice());
        if hit {
            let m = members.remove(i);
            assert(m@ == ms[i as int]);
            let name = base_name_or_empty(m.path.as_str());
            return Ok(Some((name, m.data)));
        }
        i = i + 1;
    }
    if ok {
        Ok(None)
    } else {
        Err(AmlError::PackageUnreadable)
    }
}

/// The number of items an image header announces, once its magic and count are valid:
/// the count (big-endian at 0x14) must lie in 1..=1024.
pub fn parse_header(header: &[u8; 64]) -> (r: Result<usize, AmlError>)
    ensures
        match r {
            Ok(n) => be32(header@, 0) == AML_MAGIC && n == be32(header@, 0x14) && 1 <= n <= 1024,
            Err(AmlError::BadMagic(m)) => be32(header@, 0) != AML_MAGIC && m == be32(header@, 0),
            Err(AmlError::InvalidItemCount(n)) => be32(header@, 0) == AML_MAGIC && n == be32(
                header@,
                0x14,
            ) && (n == 0 || n > 1024),
            Err(AmlError::ItemTooSmall) => false,
            Err(AmlError::PackageUnreadable) => false,
        },
{
    let h: &[u8] = header;
    let magic = read_be32(h, 0);
    if magic != AML_MAGIC {
        return Err(AmlError::BadMagic(magic));
    }
    let count = read_be32(h, 0x14) as usize;
    if count == 0 || count > 1024 {
        return Err(AmlError::InvalidItemCount(count));
    }
    Ok(count)
}

/// One entry of the item table.
pub struct AmlItem {
    pub offset: u64,
    pub file_size: u64,
    pub extension: String,
    pub name: String,
}

impl View for AmlItem {
    type V = (u64, u64, Seq<char>, Seq<char>);

    open spec fn view(&self) -> (u64, u64, Seq<char>, Seq<char>) {
        (self.offset, self.file_size, self.extension@, self.name@)
    }
}

/// The item an entry describes: offset (big-endian at 0x10), size (big-endian at 0x18),
/// extension (NUL-terminated at 0x20..0x40) and name (NUL-terminated at 0x120..0x140).
pub open spec fn aml_item(buf: Seq<u8>) -> (u64, u64, Seq<char>, Seq<char>) {
    (
        be32(buf, 0x10) as u64,
        be32(buf, 0x18) as u64,
        nul_terminated_text(buf.subrange(0x20, 0x40)),
        nul_terminated_text(buf.subrange(0x120, 0x140)),
    )
}

/// Parses one item-table entry.
pub fn parse_item(buf: &[u8]) -> (r: Result<AmlItem, AmlError>)
    ensures
        match r {
            Ok(item) => buf@.len() >= ITEM_SIZE && item@ == aml_item(buf@),
            Err(e) => buf@.len() < ITEM_SIZE && e == AmlError::ItemTooSmall,
        },
{
    if buf.len() < ITEM_SIZE {
        return Err(AmlError::ItemTooSmall);
    }
    let offset = read_be32(buf, 0x10) as u64;
    let file_size = read_be32(buf, 0x18) as u64;
    let extension = read_null_terminated(&buf[0x20..0x40]);
    let name = read_null_terminated(&buf[0x120..0x140]);
    Ok(AmlItem { offset, file_size, extension, name })
}

/// The output name of an item with the given name and extension:
/// a "PARTITION" extension (any ASCII case) gives "name.img", with a final "_a.img"
/// turned into ".img"; "…_aml_dtb.img" and "…_aml_dtb.PARTITION" give "dtb.img";
/// otherwise "name.ext", with a final "_a.img" turned into ".img".
pub open spec fn aml_renamed(name: Seq<char>, ext: Seq<char>) -> Seq<char> {
    let raw = name + "."@ + ext;
    if same_ignoring_ascii_case(ext, "PARTITION"@) {
        let img = name + ".img"@;
        match without_suffix(img, "_a.img"@) {
            Some(b) => b + ".img"@,
            None => img,
        }
    } else if has_suffix(raw, "_aml_dtb.img"@) || has_suffix(raw, "_aml_dtb.PARTITION"@) {
        "dtb.img"@
    } else {
        match without_suffix(raw, "_a.img"@) {
            Some(b) => b + ".img"@,
            None => raw,
        }
    }
}

/// Applies the Amlogic output naming rules (see `aml_renamed`).
pub fn rename_output(name: &str, ext: &str) -> (r: String)
    ensures
        r@ == aml_renamed(name@, ext@),
{
    let n = chars_of(name);
    let e = chars_of(ext);
    let img = chars_of(".img");
    let a_img = chars_of("_a.img");
    let raw = concat(concat(n.as_slice(), chars_of(".").as_slice()).as_slice(), e.as_slice());
    if eq_ignore_ascii_case(e.as_slice(), chars_of("PARTITION").as_slice()) {
        let img_name = concat(n.as_slice(), img.as_slice());
        return match strip_suffix(img_name.as_slice(), a_img.as_slice()) {
            Some(b) => string_of(concat(b.as_slice(), img.as_slice()).as_slice()),
            None => string_of(img_name.as_slice()),
        };
    }
    if ends_with(raw.as_slice(), chars_of("_aml_dtb.img").as_slice()) || ends_with(
        raw.as_slice(),
        chars_of("_aml_dtb.PARTITION").as_slice(),
    ) {
        return string_of(chars_of("dtb.img").as_slice());
    }
    match strip_suffix(raw.as_slice(), a_img.as_slice()) {
        Some(b) => string_of(concat(b.as_slice(), img.as_slice()).as_slice()),
        None => string_of(raw.as_slice()),
    }
}

/// The output name of an item, given how many outputs precede it: the final component
/// of its renamed name, or "partition_N.img" when that has none.
pub open spec fn aml_output_name(item: (u64, u64, Seq<char>, Seq<char>), n: nat) -> Seq<char> {
    match path_file_name(aml_renamed(item.3, item.2)) {
        Some(b) => b,
        None => numbered_partition(n),
    }
}

/// The outputs of an image with the given items: every item with a non-zero size and a
/// non-empty name, in table order, copied from its offset.
pub open spec fn aml_plan(items: Seq<(u64, u64, Seq<char>, Seq<char>)>) -> Seq<
    (Seq<char>, u64, u64),
>
    decreases items.len(),
{
    if items.len() == 0 {
        Seq::empty()
    } else {
        let p = aml_plan(items.drop_last());
        let it = items.last();
        if it.1 == 0 || it.3.len() == 0 {
            p
        } else {
            p.push((aml_output_name(it, p.len()), it.0, it.1))
        }
    }
}

/// Plans the extraction of an image's items (see `aml_plan`). Every output name stays
/// inside the output directory.
pub fn plan(items: &Vec<AmlItem>) -> (r: Vec<Extraction>)
    ensures
        plan_view(r@) == aml_plan(items@.map_values(|it: AmlItem| it@)),
        forall|k: int| 0 <= k < r@.len() ==> within_dir(#[trigger] r@[k].name@),
{
    let ghost iv = items@.map_values(|it: AmlItem| it@);
    let mut r: Vec<Extraction> = Vec::new();
    let mut i: usize = 0;
    while i < items.len()
        invariant
            i <= items@.len(),
            iv == items@.map_values(|it: AmlItem| it@),
            plan_view(r@) == aml_plan(iv.take(i as int)),
            forall|k: int| 0 <= k < r@.len() ==> within_dir(#[trigger] r@[k].name@),
        decreases items.len() - i,
    {
        let ghost before = plan_view(r@);
        assert(iv.take(i + 1).drop_last() =~= iv.take(i as int));
        assert(iv.take(i + 1).last() == items@[i as int]@);
        let item = &items[i];
        if !(item.file_size == 0 || item.name.as_str().is_empty()) {
            let raw = rename_output(item.name.as_str(), item.extension.as_str());
            let name = match file_name(raw.as_str()) {
                Some(b) => b,
                None => {
                    proof {
                        lemma_numbered_partition_within(r.len() as nat);
                    }
                    numbered_partition_name(r.len())
                },
            };
            let e = Extraction { name, offset: item.offset, size: item.file_size };
            let ghost ev = e@;
            r.push(e);
            assert(plan_view(r@) =~= before.push(ev));
        }
        i = i + 1;
    }
    assert(iv.take(items@.len() as int) =~= iv);
    r
}

/// Every planned output has data: items of size zero are never extracted.
pub proof fn lemma_plan_sizes_nonzero(items: Seq<(u64, u64, Seq<char>, Seq<char>)>)
    ensures
        forall|k: int| 0 <= k < aml_plan(items).len() ==> (#[trigger] aml_plan(items)[k]).2 > 0,
    decreases items.len(),
{
    if items.len() > 0 {
        lemma_plan_sizes_nonzero(items.drop_last());
        let p = aml_plan(items.drop_last());
        let it = items.last();
        if !(it.1 == 0 || it.3.len() == 0) {
            let x = (aml_output_name(it, p.len()), it.0, it.1);
            assert forall|k: int| 0 <= k < p.push(x).len() implies (#[trigger] p.push(x)[k]).2 > 0 by {
                if k < p.len() {
                    assert(p.push(x)[k] == p[k]);
                }
            }
        }
    }
}

/// Every item with a non-zero size and a non-empty name yields exactly one output,
/// whatever the items around it: the k-th output is the k-th such item, in table order,
/// copied from its offset for its size and named as the k-th output.
pub proof fn lemma_plan_takes_each_named_item(items: Seq<(u64, u64, Seq<char>, Seq<char>)>)
    ensures
        ({
            let q = items.filter(|it: (u64, u64, Seq<char>, Seq<char>)| it.1 != 0 && it.3.len() > 0);
            aml_plan(items) == Seq::new(
                q.len(),
                |k: int| (aml_output_name(q[k], k as nat), q[k].0, q[k].1),
            )
        }),
    decreases items.len(),
{
    reveal_with_fuel(Seq::filter, 1);
    if items.len() > 0 {
        lemma_plan_takes_each_named_item(items.drop_last());
        let f = items.drop_last().filter(|it: (u64, u64, Seq<char>, Seq<char>)| it.1 != 0 && it.3.len() > 0);
        let q = items.filter(|it: (u64, u64, Seq<char>, Seq<char>)| it.1 != 0 && it.3.len() > 0);
        let p = aml_plan(items.drop_last());
        let it = items.last();
        if it.1 != 0 && it.3.len() > 0 {
            assert(q == f.push(it));
            assert(p.push((aml_output_name(it, p.len()), it.0, it.1)) =~= Seq::new(
                q.len(),
                |k: int| (aml_output_name(q[k], k as nat), q[k].0, q[k].1),
            ));
        } else {
            assert(q == f);
        }
    }
}


/// An Amlogic image is recognised exactly by its first four bytes, 27 05 19 56.
pub proof fn lemma_probe_is_magic(data: Seq<u8>)
    ensures
        (data.len() >= 4 && be32(data, 0) == AML_MAGIC) <==> starts_with_bytes(
            data,
            seq![0x27u8, 0x05, 0x19, 0x56],
        ),
{
    lemma_starts_with_4(data, 0x27, 0x05, 0x19, 0x56);
    if data.len() >= 4 {
        let (a, b, c, d) = (data[0], data[1], data[2], data[3]);
        assert(16777216 * a + 65536 * b + 256 * c + d == 0x27051956 <==> (a == 0x27 && b == 0x05
            && c == 0x19 && d == 0x56)) by (nonlinear_arith);
    }
}

} // verus!

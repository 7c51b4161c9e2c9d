//! ZTE update packages: partition names, "-pNN" chunk grouping and ".bin" members.
use vstd::prelude::*;
use crate::order::{
    group_by_name, groups_view, is_grouping, items_view, same_chars, sort_by_key,
    sorted_by_key,
};
use crate::pattern::{captures_1_2, is_match, regex_groups, regex_matches};
use crate::text::{
    base_name_or_empty, base_or_empty, chars_of, concat, ends_with, has_suffix, lowercase_of,
    parse_u32, parsed_u32, replace, replace_all, string_of, strip_suffix, to_lowercase,
    without_suffix,
};

verus! {

/// How a ZTE package stores its partitions.
#[derive(Debug, Clone, Copy, PartialEq, Eq)]
pub enum ZteMode {
    /// Partitions split into "name-p00", "name-p01", ... members.
    PChunks,
    /// Partitions stored whole as "name.bin" members.
    Bin,
}

/// The pattern of a chunk member name: the partition, "-p", and the chunk number,
/// ignoring case.
pub const P_CHUNK_PATTERN: &'static str = "(?i)^([^/]*?)-p(\\d+)$";

/// The partition names that the packages are known to carry.
pub const PARTITION_NAMES: [&'static str; 39] = [
    "system",
    "vendor",
    "boot",
    "recovery",
    "modem",
    "userdata",
    "cache",
    "dtbo",
    "vbmeta",
    "vbmeta_system",
    "vbmeta_vendor",
    "super",
    "product",
    "system_ext",
    "system_other",
    "odm",
    "odm_dlkm",
    "vendor_dlkm",
    "vendor_boot",
    "init_boot",
    "metadata",
    "persist",
    "splash",
    "aboot",
    "preloader",
    "lk",
    "logo",
    "tz",
    "sbl1",
    "rpm",
    "hyp",
    "pmic",
    "abl",
    "xbl",
    "devcfg",
    "cmnlib",
    "cmnlib64",
    "keymaster",
    "sec",
];

/// Whether `stem` is one of `PARTITION_NAMES`.
pub open spec fn known_partition(stem: Seq<char>) -> bool {
    exists|i: int| 0 <= i < 39 && #[trigger] PARTITION_NAMES[i]@ == stem
}

/// A lower-cased name without a final ".bin", or else without a final ".img".
pub open spec fn partition_stem(lower: Seq<char>) -> Seq<char> {
    match without_suffix(lower, ".bin"@) {
        Some(s) => s,
        None => match without_suffix(lower, ".img"@) {
            Some(s) => s,
            None => lower,
        },
    }
}

/// Whether a file name names a known partition: its lower-case form, without a
/// ".bin" or ".img" extension, is one of `PARTITION_NAMES`.
pub open spec fn partition_name(name: Seq<char>) -> bool {
    known_partition(partition_stem(lowercase_of(name)))
}

/// Checks whether a file name looks like a known partition name.
pub fn is_partition_name(name: &str) -> (r: bool)
    ensures
        r == partition_name(name@),
{
    let lower = to_lowercase(name);
    let lc = chars_of(lower.as_str());
    let stem = match strip_suffix(lc.as_slice(), chars_of(".bin").as_slice()) {
        Some(s) => s,
        None => match strip_suffix(lc.as_slice(), chars_of(".img").as_slice()) {
            Some(s) => s,
            None => lc,
        },
    };
    let mut i: usize = 0;
    while i < 39
        invariant
            i <= 39,
            stem@ == partition_stem(lowercase_of(name@)),
            forall|k: int| 0 <= k < i ==> #[trigger] PARTITION_NAMES[k]@ != stem@,
        decreases 39 - i,
    {
        let known = chars_of(PARTITION_NAMES[i]);
        if same_chars(known.as_slice(), stem.as_slice()) {
            return true;
        }
        i = i + 1;
    }
    false
}

/// Whether a member's final name component is a partition stored as ".bin".
pub open spec fn bin_member(base: Seq<char>) -> bool {
    has_suffix(base, ".bin"@) && partition_name(base)
}

/// Whether a member's final name component is a "-pNN" chunk.
pub open spec fn chunk_member(base: Seq<char>) -> bool {
    regex_matches(P_CHUNK_PATTERN@, base)
}

/// How a package with the given member names stores its partitions: chunked when any
/// member is a chunk, else whole when any member is a partition ".bin".
pub open spec fn zte_mode(names: Seq<Seq<char>>) -> Option<ZteMode> {
    if exists|i: int| 0 <= i < names.len() && chunk_member(base_or_empty(#[trigger] names[i])) {
        Some(ZteMode::PChunks)
    } else if exists|i: int| 0 <= i < names.len() && bin_member(base_or_empty(#[trigger] names[i])) {
        Some(ZteMode::Bin)
    } else {
        None
    }
}

/// Member names as plain values.
pub open spec fn names_view(names: Seq<String>) -> Seq<Seq<char>> {
    names.map_values(|n: String| n@)
}

fn is_bin_member(base: &str) -> (r: bool)
    ensures
        r == bin_member(base@),
{
    let bc = chars_of(base);
    ends_with(bc.as_slice(), chars_of(".bin").as_slice()) && is_partition_name(base)
}

/// Detects whether a zip with the given member names is a ZTE update package, and how
/// it stores its partitions.
pub fn probe_zip(names: &Vec<String>) -> (r: Option<ZteMode>)
    ensures
        r == zte_mode(names_view(names@)),
{
    let ghost nv = names_view(names@);
    let mut has_p = false;
    let mut has_bin = false;
    let mut i: usize = 0;
    while i < names.len()
        invariant
            i <= names@.len(),
            nv == names_view(names@),
            has_p == exists|k: int| 0 <= k < i && chunk_member(base_or_empty(#[trigger] nv[k])),
            has_bin == exists|k: int| 0 <= k < i && bin_member(base_or_empty(#[trigger] nv[k])),
        decreases names.len() - i,
    {
        let base = base_name_or_empty(names[i].as_str());
        assert(nv[i as int] == names@[i as int]@);
        if is_match(P_CHUNK_PATTERN, base.as_str()) {
            has_p = true;
        }
        if is_bin_member(base.as_str()) {
            has_bin = true;
        }
        i = i + 1;
    }
    if has_p {
        Some(ZteMode::PChunks)
    } else if has_bin {
        Some(ZteMode::Bin)
    } else {
        None
    }
}

/// The partition ".bin" members of a package: each member's position and final name
/// component, in member order.
pub open spec fn bin_members(names: Seq<Seq<char>>) -> Seq<(usize, Seq<char>)>
    decreases names.len(),
{
    if names.len() == 0 {
        Seq::empty()
    } else {
        let rest = bin_members(names.drop_last());
        let base = base_or_empty(names.last());
        if bin_member(base) {
            rest.push(((names.len() - 1) as usize, base))
        } else {
            rest
        }
    }
}

/// Lists the partition ".bin" members of a package (see `bin_members`).
pub fn bin_entries(names: &Vec<String>) -> (r: Vec<(usize, String)>)
    ensures
        r@.map_values(|e: (usize, String)| (e.0, e.1@)) == bin_members(names_view(names@)),
{
    let ghost nv = names_view(names@);
    let mut r: Vec<(usize, String)> = Vec::new();
    let mut i: usize = 0;
    while i < names.len()
        invariant
            i <= names@.len(),
            nv == names_view(names@),
            r@.map_values(|e: (usize, String)| (e.0, e.1@)) == bin_members(nv.take(i as int)),
        decreases names.len() - i,
    {
        let ghost before = r@;
        assert(nv.take(i + 1).drop_last() =~= nv.take(i as int));
        assert(nv.take(i + 1).last() == names@[i as int]@);
        let base = base_name_or_empty(names[i].as_str());
        if is_bin_member(base.as_str()) {
            let ghost bv = base@;
            r.push((i, base));
            assert(r@.map_values(|e: (usize, String)| (e.0, e.1@)) =~= before.map_values(
                |e: (usize, String)| (e.0, e.1@),
            ).push((i, bv)));
        }
        i = i + 1;
    }
    assert(nv.take(names@.len() as int) =~= nv);
    r
}

/// The output name of a ".bin" member: every ".bin" in its name becomes ".img".
pub open spec fn bin_output_name(base: Seq<char>) -> Seq<char> {
    replace_all(base, ".bin"@, ".img"@)
}

/// Renames a ".bin" member for output (see `bin_output_name`).
pub fn bin_output(base: &str) -> (r: String)
    ensures
        r@ == bin_output_name(base@),
{
    let from = chars_of(".bin");
    proof {
        reveal_strlit(".bin");
    }
    let v = replace(chars_of(base).as_slice(), from.as_slice(), chars_of(".img").as_slice());
    string_of(v.as_slice())
}

/// The chunk number of a chunk member: the parsed number, or 0 when it does not parse.
pub open spec fn chunk_number(digits: Seq<char>) -> u64 {
    match parsed_u32(digits) {
        Some(v) => v as u64,
        None => 0,
    }
}

/// The chunk members of a package: for each, in member order, its lower-cased partition
/// name and the pair (chunk number, member position).
pub open spec fn chunk_items(names: Seq<Seq<char>>) -> Seq<(Seq<char>, (u64, usize))>
    decreases names.len(),
{
    if names.len() == 0 {
        Seq::empty()
    } else {
        let rest = chunk_items(names.drop_last());
        match regex_groups(P_CHUNK_PATTERN@, base_or_empty(names.last())) {
            Some((part, digits)) => rest.push(
                (lowercase_of(part), (chunk_number(digits), (names.len() - 1) as usize)),
            ),
            None => rest,
        }
    }
}

/// A partition assembled from chunk members.
pub struct ChunkedPartition {
    /// The lower-cased partition name.
    pub partition: String,
    /// The output file name: the partition name and ".img".
    pub file_name: String,
    /// The member positions, in the order their contents are written.
    pub members: Vec<usize>,
}

/// The chunk members of a package gathered by partition: partitions in name order,
/// and each partition's members ordered by chunk number (stably, so equal numbers keep
/// member order).
pub fn chunk_partitions(names: &Vec<String>) -> (r: Vec<ChunkedPartition>)
    ensures
        exists|gs: Seq<(Seq<char>, Seq<(u64, usize)>)>|
            #![trigger is_grouping(chunk_items(names_view(names@)), gs)]
            {
                &&& is_grouping(chunk_items(names_view(names@)), gs)
                &&& r@.len() == gs.len()
                &&& forall|g: int|
                    0 <= g < gs.len() ==> {
                        &&& (#[trigger] r@[g]).partition@ == gs[g].0
                        &&& r@[g].file_name@ == gs[g].0 + ".img"@
                        &&& r@[g].members@ == sorted_by_key(gs[g].1).map_values(
                            |x: (u64, usize)| x.1,
                        )
                    }
            },
        r@.len() > 0 <==> zte_mode(names_view(names@)) == Some(ZteMode::PChunks),
{
    let ghost nv = names_view(names@);
    let mut items: Vec<(Vec<char>, (u64, usize))> = Vec::new();
    let mut i: usize = 0;
    while i < names.len()
        invariant
            i <= names@.len(),
            nv == names_view(names@),
            items_view(items@) == chunk_items(nv.take(i as int)),
            items@.len() > 0 <==> exists|k: int|
                0 <= k < i && chunk_member(base_or_empty(#[trigger] nv[k])),
        decreases names.len() - i,
    {
        let ghost before = items@;
        assert(nv.take(i + 1).drop_last() =~= nv.take(i as int));
        assert(nv.take(i + 1).last() == names@[i as int]@);
        let base = base_name_or_empty(names[i].as_str());
        match captures_1_2(P_CHUNK_PATTERN, base.as_str()) {
            Some((part, digits)) => {
                let lower = to_lowercase(part.as_str());
                let number: u64 = match parse_u32(chars_of(digits.as_str()).as_slice()) {
                    Some(v) => v as u64,
                    None => 0,
                };
                let key = chars_of(lower.as_str());
                let ghost kv = key@;
                items.push((key, (number, i)));
                assert(items_view(items@) =~= items_view(before).push((kv, (number, i))));
            },
            None => {},
        }
        i = i + 1;
    }
    assert(nv.take(names@.len() as int) =~= nv);
    let groups = group_by_name(&items);
    let ghost gs = groups_view(groups@);
    proof {
        let iv = items_view(items@);
        if iv.len() > 0 {
            assert(crate::order::named_group(gs, iv[0].0));
        }
        if gs.len() > 0 {
            crate::order::lemma_group_nonempty_has_items(iv, gs[0].0);
        }
    }
    let mut r: Vec<ChunkedPartition> = Vec::new();
    let mut g: usize = 0;
    let img = chars_of(".img");
    while g < groups.len()
        invariant
            g <= groups@.len(),
            gs == groups_view(groups@),
            img@ == ".img"@,
            r@.len() == g,
            forall|k: int|
                0 <= k < g ==> {
                    &&& (#[trigger] r@[k]).partition@ == gs[k].0
                    &&& r@[k].file_name@ == gs[k].0 + ".img"@
                    &&& r@[k].members@ == sorted_by_key(gs[k].1).map_values(
                        |x: (u64, usize)| x.1,
                    )
                },
        decreases groups.len() - g,
    {
        let sorted = sort_by_key(&groups[g].1);
        let mut members: Vec<usize> = Vec::new();
        let mut j: usize = 0;
        while j < sorted.len()
            invariant
                j <= sorted@.len(),
                members@ == sorted@.take(j as int).map_values(|x: (u64, usize)| x.1),
            decreases sorted.len() - j,
        {
            members.push(sorted[j].1);
            assert(sorted@.take(j + 1) =~= sorted@.take(j as int).push(sorted@[j as int]));
            assert(sorted@.take(j + 1).map_values(|x: (u64, usize)| x.1) =~= sorted@.take(
                j as int,
            ).map_values(|x: (u64, usize)| x.1).push(sorted@[j as int].1));
            j = j + 1;
        }
        assert(sorted@.take(sorted@.len() as int) =~= sorted@);
        let name = &groups[g].0;
        let file_name = string_of(concat(name.as_slice(), img.as_slice()).as_slice());
        let partition = string_of(name.as_slice());
        r.push(ChunkedPartition { partition, file_name, members });
        g = g + 1;
    }
    r
}

} // verus!

//! Qualcomm QFIL packages: rawprogram XML programs and how they become partition images.
use vstd::prelude::*;
use crate::order::{
    group_by_name, groups_view, insert_by_key, is_grouping, items_view, lemma_sorted_by_key_ascending,
    lemma_sorted_by_key_members, sort_by_key, sorted_by_key,
};
use vstd::seq_lib::to_multiset_build;
use crate::text::{
    lemma_numbered_partition_within, within_dir, chars_of, concat, decimal, decimal_of, ends_with, extension, extension_of,
    file_name, file_stem, file_stem_or, has_prefix, has_suffix, lowercase_of, parse_u32,
    parsed_u32, path_file_name, starts_with, string_of, to_lowercase,
};
use crate::zte::names_view;
use crate::bytes::copy_range;
use crate::sparse::{chunks_decoded, convert_sparse_chunks_to_raw, has_sparse_magic, sparse_header};

verus! {

/// Sector size assumed when a program does not record one.
pub const DEFAULT_SECTOR_SIZE: u64 = 512;

/// One `<program>` element of a rawprogram XML file.
pub struct Program {
    pub filename: String,
    pub label: String,
    pub num_partition_sectors: u64,
    pub start_sector: u64,
    pub file_sector_offset: u64,
    pub sector_size: Option<u64>,
}

/// A program as plain values: file name, label, partition sectors, start sector, file
/// sector offset and recorded sector size.
pub type ProgramView = (Seq<char>, Seq<char>, u64, u64, u64, Option<u64>);

impl View for Program {
    type V = ProgramView;

    open spec fn view(&self) -> ProgramView {
        (
            self.filename@,
            self.label@,
            self.num_partition_sectors,
            self.start_sector,
            self.file_sector_offset,
            self.sector_size,
        )
    }
}

/// Programs as plain values.
pub open spec fn programs_view(v: Seq<Program>) -> Seq<ProgramView> {
    v.map_values(|p: Program| p@)
}

/// The sector size of a program: the recorded one, else 512.
pub open spec fn sector_size_of(p: ProgramView) -> u64 {
    match p.5 {
        Some(s) => s,
        None => 512,
    }
}

/// The lower-cased final component of a member name, or the empty text when it has none.
pub open spec fn lower_base(name: Seq<char>) -> Seq<char> {
    match path_file_name(name) {
        Some(b) => lowercase_of(b),
        None => Seq::empty(),
    }
}

/// Whether a lower-cased file name is a rawprogram XML file.
pub open spec fn rawprogram_name(lower: Seq<char>) -> bool {
    has_prefix(lower, "rawprogram"@) && has_suffix(lower, ".xml"@)
}

fn is_rawprogram_name(lower: &str) -> (r: bool)
    ensures
        r == rawprogram_name(lower@),
{
    let l = chars_of(lower);
    starts_with(l.as_slice(), chars_of("rawprogram").as_slice()) && ends_with(
        l.as_slice(),
        chars_of(".xml").as_slice(),
    )
}

/// Checks whether a zip with the given member names is a QFIL package: some member's
/// final name component, lower-cased, is a rawprogram XML file.
pub fn probe_zip(names: &Vec<String>) -> (r: bool)
    ensures
        r == exists|i: int|
            0 <= i < names@.len() && rawprogram_name(lower_base(#[trigger] names@[i]@)),
{
    let mut i: usize = 0;
    while i < names.len()
        invariant
            i <= names@.len(),
            forall|k: int| 0 <= k < i ==> !rawprogram_name(lower_base(#[trigger] names@[k]@)),
        decreases names.len() - i,
    {
        let lower = match file_name(names[i].as_str()) {
            Some(b) => to_lowercase(b.as_str()),
            None => String::new(),
        };
        if is_rawprogram_name(lower.as_str()) {
            return true;
        }
        i = i + 1;
    }
    false
}

/// Which rawprogram XML file a package is read from.
#[derive(Debug, Clone, Copy, PartialEq, Eq)]
pub enum RawprogramChoice {
    /// "rawprogram_unsparse0.xml".
    Preferred,
    /// The file at this position of the directory listing.
    Listed(usize),
}

/// The rawprogram XML file to read: "rawprogram_unsparse0.xml" when it is a file, else
/// the first listed name that, lower-cased, is a rawprogram XML file.
pub open spec fn rawprogram_choice(preferred_is_file: bool, dir: Seq<Seq<char>>) -> Option<
    RawprogramChoice,
> {
    if preferred_is_file {
        Some(RawprogramChoice::Preferred)
    } else {
        first_rawprogram(dir, 0)
    }
}

/// The first listed name, from position `j` on, that lower-cased is a rawprogram XML
/// file.
pub open spec fn first_rawprogram(dir: Seq<Seq<char>>, j: int) -> Option<RawprogramChoice>
    decreases dir.len() - j,
{
    if j < 0 || j >= dir.len() {
        None
    } else if rawprogram_name(lowercase_of(dir[j])) {
        Some(RawprogramChoice::Listed(j as usize))
    } else {
        first_rawprogram(dir, j + 1)
    }
}

/// Finds the rawprogram XML file (see `rawprogram_choice`).
pub fn find_rawprogram_xml(preferred_is_file: bool, dir_names: &Vec<String>) -> (r: Option<
    RawprogramChoice,
>)
    ensures
        r == rawprogram_choice(preferred_is_file, names_view(dir_names@)),
{
    if preferred_is_file {
        return Some(RawprogramChoice::Preferred);
    }
    let ghost dv = names_view(dir_names@);
    let mut j: usize = 0;
    while j < dir_names.len()
        invariant
            j <= dir_names@.len(),
            !preferred_is_file,
            dv == names_view(dir_names@),
            first_rawprogram(dv, 0) == first_rawprogram(dv, j as int),
        decreases dir_names.len() - j,
    {
        assert(dv[j as int] == dir_names@[j as int]@);
        let lower = to_lowercase(dir_names[j].as_str());
        if is_rawprogram_name(lower.as_str()) {
            return Some(RawprogramChoice::Listed(j));
        }
        j = j + 1;
    }
    None
}

/// Whether a listed name starts a sparse-chunk file of the partition with the given
/// program file name and label: "<stem>_sparsechunk.", "<stem>.img_sparsechunk.",
/// "<label>_sparsechunk." or "<label>.img_sparsechunk.", where <stem> is the stem of the
/// program file name (empty when it has none).
pub open spec fn chunk_candidate(name: Seq<char>, filename: Seq<char>, label: Seq<char>) -> bool {
    let stem = file_stem_or(filename, Seq::empty());
    has_prefix(name, stem + "_sparsechunk."@) || has_prefix(name, stem + ".img_sparsechunk."@)
        || has_prefix(name, label + "_sparsechunk."@) || has_prefix(name, label + ".img_sparsechunk."@)
}

/// The chunk number of a sparse-chunk file: its extension parsed as a number, or 0.
pub open spec fn chunk_key(name: Seq<char>) -> u64 {
    match extension(name) {
        Some(e) => match parsed_u32(e) {
            Some(v) => v as u64,
            None => 0,
        },
        None => 0,
    }
}

/// The sparse-chunk files among the first `n` listed names, in listing order, each
/// keyed by its chunk number.
pub open spec fn chunk_items(dir: Seq<Seq<char>>, filename: Seq<char>, label: Seq<char>, n: int) -> Seq<
    (u64, usize),
>
    decreases n,
{
    if n <= 0 || n > dir.len() {
        Seq::empty()
    } else {
        let rest = chunk_items(dir, filename, label, n - 1);
        if chunk_candidate(dir[n - 1], filename, label) {
            rest.push((chunk_key(dir[n - 1]), (n - 1) as usize))
        } else {
            rest
        }
    }
}

/// The second components of a sequence of pairs.
pub open spec fn seconds(s: Seq<(u64, usize)>) -> Seq<usize> {
    s.map_values(|x: (u64, usize)| x.1)
}

/// The sparse-chunk files of a partition, as listing positions, ordered by chunk number
/// (stably, so equal numbers keep listing order).
pub open spec fn sparse_chunks(dir: Seq<Seq<char>>, filename: Seq<char>, label: Seq<char>) -> Seq<
    usize,
> {
    seconds(sorted_by_key(chunk_items(dir, filename, label, dir.len() as int)))
}

fn seconds_of(v: &Vec<(u64, usize)>) -> (r: Vec<usize>)
    ensures
        r@ == seconds(v@),
{
    let mut r: Vec<usize> = Vec::new();
    let mut j: usize = 0;
    while j < v.len()
        invariant
            j <= v@.len(),
            r@ == seconds(v@.take(j as int)),
        decreases v.len() - j,
    {
        r.push(v[j].1);
        assert(seconds(v@.take(j + 1)) =~= seconds(v@.take(j as int)).push(v@[j as int].1));
        j = j + 1;
    }
    assert(v@.take(v@.len() as int) =~= v@);
    r
}

/// Finds the sparse-chunk files of a partition in a directory listing (see `sparse_chunks`).
pub fn find_sparse_chunks(filename: &str, label: &str, dir_names: &Vec<String>) -> (r: Vec<usize>)
    ensures
        r@ == sparse_chunks(names_view(dir_names@), filename@, label@),
{
    let ghost dv = names_view(dir_names@);
    let stem = chars_of(file_stem(filename, "").as_str());
    proof {
        reveal_strlit("");
    }
    assert(stem@ == file_stem_or(filename@, Seq::empty()));
    let lab = chars_of(label);
    let p1 = concat(stem.as_slice(), chars_of("_sparsechunk.").as_slice());
    let p2 = concat(stem.as_slice(), chars_of(".img_sparsechunk.").as_slice());
    let p3 = concat(lab.as_slice(), chars_of("_sparsechunk.").as_slice());
    let p4 = concat(lab.as_slice(), chars_of(".img_sparsechunk.").as_slice());
    let mut items: Vec<(u64, usize)> = Vec::new();
    let mut j: usize = 0;
    while j < dir_names.len()
        invariant
            j <= dir_names@.len(),
            dv == names_view(dir_names@),
            p1@ == file_stem_or(filename@, Seq::empty()) + "_sparsechunk."@,
            p2@ == file_stem_or(filename@, Seq::empty()) + ".img_sparsechunk."@,
            p3@ == label@ + "_sparsechunk."@,
            p4@ == label@ + ".img_sparsechunk."@,
            items@ == chunk_items(dv, filename@, label@, j as int),
        decreases dir_names.len() - j,
    {
        assert(dv[j as int] == dir_names@[j as int]@);
        let name = chars_of(dir_names[j].as_str());
        let n = name.as_slice();
        if starts_with(n, p1.as_slice()) || starts_with(n, p2.as_slice()) || starts_with(
            n,
            p3.as_slice(),
        ) || starts_with(n, p4.as_slice()) {
            let key: u64 = match extension_of(n) {
                Some(e) => match parse_u32(e.as_slice()) {
                    Some(v) => v as u64,
                    None => 0,
                },
                None => 0,
            };
            items.push((key, j));
        }
        j = j + 1;
    }
    let sorted = sort_by_key(&items);
    seconds_of(&sorted)
}

/// Where the bytes of a chunk come from.
#[derive(Debug, Clone, Copy, PartialEq, Eq)]
pub enum Source {
    /// The file that the program at this position names, as found in the package.
    Program(usize),
    /// The listed file at this position of the package directory.
    Listed(usize),
}

/// What to write for a partition, as plain values.
pub enum ActionSpec {
    CopyFile(usize),
    CopyRange(usize, u64, u64),
    Concat(Seq<Source>),
    Slices(usize, Seq<(u64, u64)>),
}

/// What to write for a partition.
pub enum Action {
    /// Copy the whole file of this program.
    CopyFile(usize),
    /// Copy `length` bytes from `offset` of this program's file (stopping early at its end).
    CopyRange { program: usize, offset: u64, length: u64 },
    /// Join these files: decode them as one Android sparse image when the first is
    /// sparse, else concatenate their bytes.
    Concat(Vec<Source>),
    /// Copy these `(offset, length)` slices of this program's file, in order (each
    /// stopping early at the file's end).
    Slices { program: usize, slices: Vec<(u64, u64)> },
}

impl View for Action {
    type V = ActionSpec;

    open spec fn view(&self) -> ActionSpec {
        match self {
            Action::CopyFile(p) => ActionSpec::CopyFile(*p),
            Action::CopyRange { program, offset, length } => ActionSpec::CopyRange(
                *program,
                *offset,
                *length,
            ),
            Action::Concat(v) => ActionSpec::Concat(v@),
            Action::Slices { program, slices } => ActionSpec::Slices(*program, slices@),
        }
    }
}

/// Why a package's programs cannot be turned into partitions: a sector offset or count
/// times the sector size does not fit in 64 bits (the arithmetic the package calls for
/// overflows).
#[derive(Debug, Clone, Copy, PartialEq, Eq)]
pub enum QfilError {
    Overflow,
}

/// The programs that describe partitions, keyed by label: those with a file name, a
/// label and a non-zero sector count, in XML order, as (label, position).
pub open spec fn labelled(progs: Seq<ProgramView>, n: int) -> Seq<(Seq<char>, usize)>
    decreases n,
{
    if n <= 0 || n > progs.len() {
        Seq::empty()
    } else {
        let rest = labelled(progs, n - 1);
        let p = progs[n - 1];
        if p.0.len() == 0 || p.1.len() == 0 || p.2 == 0 {
            rest
        } else {
            rest.push((p.1, (n - 1) as usize))
        }
    }
}

/// Programs keyed by start sector.
pub open spec fn by_start(progs: Seq<ProgramView>, idxs: Seq<usize>) -> Seq<(u64, usize)> {
    idxs.map_values(|i: usize| (progs[i as int].3, i))
}

/// Whether the given programs all name the same file.
pub open spec fn same_file(progs: Seq<ProgramView>, idxs: Seq<usize>) -> bool {
    forall|k: int|
        0 <= k < idxs.len() - 1 ==> #[trigger] progs[idxs[k] as int].0 == progs[idxs[k + 1] as int].0
}

/// The `(offset, length)` slices, in bytes, of the given programs, or an overflow.
pub open spec fn slices_of(progs: Seq<ProgramView>, idxs: Seq<usize>) -> Result<
    Seq<(u64, u64)>,
    QfilError,
>
    decreases idxs.len(),
{
    if idxs.len() == 0 {
        Ok(Seq::empty())
    } else {
        match slices_of(progs, idxs.drop_last()) {
            Err(e) => Err(e),
            Ok(s) => {
                let p = progs[idxs.last() as int];
                let ss = sector_size_of(p);
                if p.4 * ss > u64::MAX || p.2 * ss > u64::MAX {
                    Err(QfilError::Overflow)
                } else {
                    Ok(s.push(((p.4 * ss) as u64, (p.2 * ss) as u64)))
                }
            },
        }
    }
}

/// The given programs whose files are found in the package.
pub open spec fn found_only(resolved: Seq<bool>, idxs: Seq<usize>) -> Seq<usize>
    decreases idxs.len(),
{
    if idxs.len() == 0 {
        Seq::empty()
    } else {
        let rest = found_only(resolved, idxs.drop_last());
        if resolved[idxs.last() as int] {
            rest.push(idxs.last())
        } else {
            rest
        }
    }
}

/// The files of the programs at the given positions.
pub open spec fn as_programs(idxs: Seq<usize>) -> Seq<Source> {
    idxs.map_values(|i: usize| Source::Program(i))
}

/// The listed files at the given positions.
pub open spec fn as_listed(idxs: Seq<usize>) -> Seq<Source> {
    idxs.map_values(|j: usize| Source::Listed(j))
}

/// The sparse-chunk files for a partition, or nothing when there are none.
pub open spec fn chunks_action(dir: Seq<Seq<char>>, filename: Seq<char>, label: Seq<char>) -> Option<
    Result<ActionSpec, QfilError>,
> {
    let c = sparse_chunks(dir, filename, label);
    if c.len() == 0 {
        None
    } else {
        Some(Ok(ActionSpec::Concat(as_listed(c))))
    }
}

/// What to write for the partition with the given label and programs (`None`: nothing).
/// One program: a found file is copied, from its file sector offset and for its sector
/// count when the offset is non-zero, whole otherwise; a file not found falls back to
/// sparse-chunk files. Several programs, ordered by start sector: when all name one
/// file, that file's slices are copied if it is found; otherwise the found files are
/// joined, or, when none is found, the sparse-chunk files of the first.
pub open spec fn group_action(
    progs: Seq<ProgramView>,
    resolved: Seq<bool>,
    dir: Seq<Seq<char>>,
    label: Seq<char>,
    idxs: Seq<usize>,
) -> Option<Result<ActionSpec, QfilError>> {
    if idxs.len() == 1 {
        let i = idxs[0];
        let p = progs[i as int];
        let ss = sector_size_of(p);
        if resolved[i as int] {
            if p.4 > 0 && p.2 > 0 {
                if p.4 * ss > u64::MAX || p.2 * ss > u64::MAX {
                    Some(Err(QfilError::Overflow))
                } else {
                    Some(Ok(ActionSpec::CopyRange(i, (p.4 * ss) as u64, (p.2 * ss) as u64)))
                }
            } else {
                Some(Ok(ActionSpec::CopyFile(i)))
            }
        } else {
            chunks_action(dir, p.0, label)
        }
    } else {
        let sorted = seconds(sorted_by_key(by_start(progs, idxs)));
        if same_file(progs, sorted) {
            if !resolved[sorted[0] as int] {
                None
            } else {
                match slices_of(progs, sorted) {
                    Err(e) => Some(Err(e)),
                    Ok(sl) => Some(Ok(ActionSpec::Slices(sorted[0], sl))),
                }
            }
        } else {
            let files = found_only(resolved, sorted);
            if files.len() == 0 {
                chunks_action(dir, progs[sorted[0] as int].0, label)
            } else {
                Some(Ok(ActionSpec::Concat(as_programs(files))))
            }
        }
    }
}

/// The output name of a partition, given how many outputs precede it: the final
/// component of its label, or "partition_N", and ".img".
pub open spec fn label_output_name(label: Seq<char>, n: nat) -> Seq<char> {
    match path_file_name(label) {
        Some(b) => b + ".img"@,
        None => "partition_"@ + decimal(n) + ".img"@,
    }
}

/// The outputs of a package whose programs are gathered into the given label groups,
/// in group order; the first overflow wins.
pub open spec fn plan_groups(
    progs: Seq<ProgramView>,
    resolved: Seq<bool>,
    dir: Seq<Seq<char>>,
    gs: Seq<(Seq<char>, Seq<usize>)>,
) -> Result<Seq<(Seq<char>, ActionSpec)>, QfilError>
    decreases gs.len(),
{
    if gs.len() == 0 {
        Ok(Seq::empty())
    } else {
        match plan_groups(progs, resolved, dir, gs.drop_last()) {
            Err(e) => Err(e),
            Ok(p) => match group_action(progs, resolved, dir, gs.last().0, gs.last().1) {
                None => Ok(p),
                Some(Err(e)) => Err(e),
                Some(Ok(a)) => Ok(p.push((label_output_name(gs.last().0, p.len()), a))),
            },
        }
    }
}

/// One partition to write.
pub struct QfilOutput {
    pub name: String,
    pub action: Action,
}

impl View for QfilOutput {
    type V = (Seq<char>, ActionSpec);

    open spec fn view(&self) -> (Seq<char>, ActionSpec) {
        (self.name@, self.action@)
    }
}

/// Partition outputs as plain values.
pub open spec fn outputs_view(v: Seq<QfilOutput>) -> Seq<(Seq<char>, ActionSpec)> {
    v.map_values(|o: QfilOutput| o@)
}

fn as_listed_vec(v: &Vec<usize>) -> (r: Vec<Source>)
    ensures
        r@ == as_listed(v@),
{
    let mut r: Vec<Source> = Vec::new();
    let mut j: usize = 0;
    while j < v.len()
        invariant
            j <= v@.len(),
            r@ == as_listed(v@.take(j as int)),
        decreases v.len() - j,
    {
        r.push(Source::Listed(v[j]));
        assert(as_listed(v@.take(j + 1)) =~= as_listed(v@.take(j as int)).push(
            Source::Listed(v@[j as int]),
        ));
        j = j + 1;
    }
    assert(v@.take(v@.len() as int) =~= v@);
    r
}

fn chunks_action_exec(filename: &str, label: &str, dir_names: &Vec<String>) -> (r: Option<
    Result<Action, QfilError>,
>)
    ensures
        match (r, chunks_action(names_view(dir_names@), filename@, label@)) {
            (None, None) => true,
            (Some(Ok(a)), Some(Ok(b))) => a@ == b,
            (Some(Err(e)), Some(Err(f))) => e == f,
            _ => false,
        },
{
    let c = find_sparse_chunks(filename, label, dir_names);
    if c.len() == 0 {
        None
    } else {
        Some(Ok(Action::Concat(as_listed_vec(&c))))
    }
}

/// Whether `r` and `s` describe the same optional action.
pub open spec fn same_outcome(r: Option<Result<Action, QfilError>>, s: Option<Result<ActionSpec, QfilError>>) -> bool {
    match (r, s) {
        (None, None) => true,
        (Some(Ok(a)), Some(Ok(b))) => a@ == b,
        (Some(Err(e)), Some(Err(f))) => e == f,
        _ => false,
    }
}

/// Decides what to write for one label group (see `group_action`).
pub fn plan_group(
    programs: &Vec<Program>,
    resolved: &Vec<bool>,
    dir_names: &Vec<String>,
    label: &str,
    idxs: &Vec<usize>,
) -> (r: Option<Result<Action, QfilError>>)
    requires
        resolved@.len() == programs@.len(),
        idxs@.len() > 0,
        forall|k: int| 0 <= k < idxs@.len() ==> #[trigger] idxs@[k] < programs@.len(),
    ensures
        same_outcome(
            r,
            group_action(
                programs_view(programs@),
                resolved@,
                names_view(dir_names@),
                label@,
                idxs@,
            ),
        ),
{
    let ghost pv = programs_view(programs@);
    if idxs.len() == 1 {
        let i = idxs[0];
        let p = &programs[i];
        assert(pv[i as int] == p@);
        let ss: u64 = match p.sector_size {
            Some(s) => s,
            None => DEFAULT_SECTOR_SIZE,
        };
        if resolved[i] {
            if p.file_sector_offset > 0 && p.num_partition_sectors > 0 {
                let offset = p.file_sector_offset.checked_mul(ss);
                let length = p.num_partition_sectors.checked_mul(ss);
                match (offset, length) {
                    (Some(o), Some(l)) => Some(Ok(Action::CopyRange { program: i, offset: o, length: l })),
                    _ => Some(Err(QfilError::Overflow)),
                }
            } else {
                Some(Ok(Action::CopyFile(i)))
            }
        } else {
            chunks_action_exec(p.filename.as_str(), label, dir_names)
        }
    } else {
        let mut keyed: Vec<(u64, usize)> = Vec::new();
        let mut k: usize = 0;
        while k < idxs.len()
            invariant
                k <= idxs@.len(),
                pv == programs_view(programs@),
                forall|j: int| 0 <= j < idxs@.len() ==> #[trigger] idxs@[j] < programs@.len(),
                keyed@ == by_start(pv, idxs@.take(k as int)),
            decreases idxs.len() - k,
        {
            let i = idxs[k];
            assert(pv[i as int] == programs@[i as int]@);
            keyed.push((programs[i].start_sector, i));
            assert(by_start(pv, idxs@.take(k + 1)) =~= by_start(pv, idxs@.take(k as int)).push(
                (pv[i as int].3, i),
            ));
            k = k + 1;
        }
        assert(idxs@.take(idxs@.len() as int) =~= idxs@);
        let sorted_pairs = sort_by_key(&keyed);
        let sorted = seconds_of(&sorted_pairs);
        proof {
            crate::order::lemma_sorted_by_key_ascending(keyed@);
            crate::order::lemma_sorted_by_key_members(keyed@);
        }
        assert(sorted@.len() == idxs@.len());
        assert forall|j: int| 0 <= j < sorted@.len() implies #[trigger] sorted@[j] < programs@.len() by {
            crate::order::lemma_sorted_by_key_members(keyed@);
            let x = sorted_by_key(keyed@)[j];
            let w = choose|w: int| 0 <= w < keyed@.len() && keyed@[w] == x;
            assert(keyed@[w].1 == idxs@[w]);
        }
        // do all programs name the same file?
        let mut same = true;
        let mut w: usize = 0;
        while w + 1 < sorted.len()
            invariant
                sorted@.len() >= 2,
                w + 1 <= sorted@.len(),
                pv == programs_view(programs@),
                forall|j: int| 0 <= j < sorted@.len() ==> #[trigger] sorted@[j] < programs@.len(),
                same == forall|k: int|
                    0 <= k < w ==> #[trigger] pv[sorted@[k] as int].0 == pv[sorted@[k + 1] as int].0,
            decreases sorted.len() - w,
        {
            let a = sorted[w];
            let b = sorted[w + 1];
            assert(pv[a as int] == programs@[a as int]@);
            assert(pv[b as int] == programs@[b as int]@);
            let eq = programs[a].filename == programs[b].filename;
            let ghost old_same = same;
            if !eq {
                same = false;
            }
            proof {
                assert(eq == (pv[sorted@[w as int] as int].0 == pv[sorted@[w + 1] as int].0));
                if same {
                    assert forall|k: int| 0 <= k < w + 1 implies #[trigger] pv[sorted@[k] as int].0
                        == pv[sorted@[k + 1] as int].0 by {
                        if k < w {
                            assert(old_same);
                        }
                    }
                } else if old_same {
                    assert(!(pv[sorted@[w as int] as int].0 == pv[sorted@[w + 1] as int].0));
                }
            }
            w = w + 1;
        }
        let first = sorted[0];
        assert(pv[first as int] == programs@[first as int]@);
        if same {
            if !resolved[first] {
                return None;
            }
            let mut slices: Vec<(u64, u64)> = Vec::new();
            let mut k: usize = 0;
            while k < sorted.len()
                invariant
                    k <= sorted@.len(),
                    pv == programs_view(programs@),
                    forall|j: int| 0 <= j < sorted@.len() ==> #[trigger] sorted@[j] < programs@.len(),
                    slices_of(pv, sorted@.take(k as int)) == Ok::<Seq<(u64, u64)>, QfilError>(slices@),
                    sorted@ == seconds(sorted_by_key(by_start(pv, idxs@))),
                    same_file(pv, sorted@),
                    resolved@[first as int],
                    first == sorted@[0],
                    idxs@.len() != 1,
                decreases sorted.len() - k,
            {
                let i = sorted[k];
                let p = &programs[i];
                assert(pv[i as int] == p@);
                assert(sorted@.take(k + 1).drop_last() =~= sorted@.take(k as int));
                let ss: u64 = match p.sector_size {
                    Some(s) => s,
                    None => DEFAULT_SECTOR_SIZE,
                };
                match (p.file_sector_offset.checked_mul(ss), p.num_partition_sectors.checked_mul(ss)) {
                    (Some(o), Some(l)) => {
                        slices.push((o, l));
                    },
                    _ => {
                        proof {
                            assert(sorted@.take(k + 1).last() == i);
                            assert(slices_of(pv, sorted@.take(k + 1)) is Err);
                            lemma_slices_err_extends(pv, sorted@, k as int + 1);
                            assert(sorted@.take(sorted@.len() as int) =~= sorted@);
                        }
                        return Some(Err(QfilError::Overflow));
                    },
                }
                k = k + 1;
            }
            assert(sorted@.take(sorted@.len() as int) =~= sorted@);
            Some(Ok(Action::Slices { program: first, slices }))
        } else {
            let mut files: Vec<usize> = Vec::new();
            let mut k: usize = 0;
            while k < sorted.len()
                invariant
                    k <= sorted@.len(),
                    resolved@.len() == programs@.len(),
                    forall|j: int| 0 <= j < sorted@.len() ==> #[trigger] sorted@[j] < programs@.len(),
                    files@ == found_only(resolved@, sorted@.take(k as int)),
                decreases sorted.len() - k,
            {
                assert(sorted@.take(k + 1).drop_last() =~= sorted@.take(k as int));
                if resolved[sorted[k]] {
                    files.push(sorted[k]);
                }
                k = k + 1;
            }
            assert(sorted@.take(sorted@.len() as int) =~= sorted@);
            if files.len() == 0 {
                chunks_action_exec(programs[first].filename.as_str(), label, dir_names)
            } else {
                let mut srcs: Vec<Source> = Vec::new();
                let mut j: usize = 0;
                while j < files.len()
                    invariant
                        j <= files@.len(),
                        srcs@ == as_programs(files@.take(j as int)),
                    decreases files.len() - j,
                {
                    srcs.push(Source::Program(files[j]));
                    assert(as_programs(files@.take(j + 1)) =~= as_programs(files@.take(j as int)).push(
                        Source::Program(files@[j as int]),
                    ));
                    j = j + 1;
                }
                assert(files@.take(files@.len() as int) =~= files@);
                Some(Ok(Action::Concat(srcs)))
            }
        }
    }
}

proof fn lemma_slices_err_extends(progs: Seq<ProgramView>, idxs: Seq<usize>, k: int)
    requires
        0 <= k <= idxs.len(),
        slices_of(progs, idxs.take(k)) is Err,
    ensures
        slices_of(progs, idxs.take(idxs.len() as int)) == Err::<Seq<(u64, u64)>, QfilError>(
            QfilError::Overflow,
        ),
    decreases idxs.len() - k,
{
    if k < idxs.len() {
        assert(idxs.take(k + 1).drop_last() =~= idxs.take(k));
        lemma_slices_err_extends(progs, idxs, k + 1);
    }
}

/// Names a partition output (see `label_output_name`); the name stays inside the output
/// directory.
pub fn output_name(label: &str, n: usize) -> (r: String)
    ensures
        r@ == label_output_name(label@, n as nat),
        within_dir(r@),
{
    let img = chars_of(".img");
    match file_name(label) {
        Some(b) => {
            proof {
                reveal_strlit(".img");
                let s = b@ + ".img"@;
                assert forall|i: int| 0 <= i < s.len() implies s[i] != '/' by {
                    if i < b@.len() {
                        assert(s[i] == b@[i]);
                    }
                }
            }
            string_of(concat(chars_of(b.as_str()).as_slice(), img.as_slice()).as_slice())
        },
        None => {
            proof {
                lemma_numbered_partition_within(n as nat);
            }
            let a = concat(chars_of("partition_").as_slice(), decimal_of(n).as_slice());
            string_of(concat(a.as_slice(), img.as_slice()).as_slice())
        },
    }
}

proof fn lemma_labelled_bounded(progs: Seq<ProgramView>, n: int)
    ensures
        forall|k: int|
            0 <= k < labelled(progs, n).len() ==> (#[trigger] labelled(progs, n)[k]).1 < progs.len(),
    decreases n,
{
    if 0 < n <= progs.len() {
        lemma_labelled_bounded(progs, n - 1);
        let rest = labelled(progs, n - 1);
        let p = progs[n - 1];
        if !(p.0.len() == 0 || p.1.len() == 0 || p.2 == 0) {
            assert forall|k: int| 0 <= k < rest.push((p.1, (n - 1) as usize)).len() implies (
            #[trigger] rest.push((p.1, (n - 1) as usize))[k]).1 < progs.len() by {
                if k < rest.len() {
                    assert(rest.push((p.1, (n - 1) as usize))[k] == rest[k]);
                }
            }
        }
    }
}

proof fn lemma_group_values_bounded(items: Seq<(Seq<char>, usize)>, key: Seq<char>, bound: int)
    requires
        forall|k: int| 0 <= k < items.len() ==> (#[trigger] items[k]).1 < bound,
    ensures
        forall|j: int|
            0 <= j < crate::order::group_of(items, key).len() ==> #[trigger] crate::order::group_of(
                items,
                key,
            )[j] < bound,
    decreases items.len(),
{
    if items.len() > 0 {
        let rest = items.drop_last();
        assert forall|k: int| 0 <= k < rest.len() implies (#[trigger] rest[k]).1 < bound by {
            assert(rest[k] == items[k]);
        }
        lemma_group_values_bounded(rest, key, bound);
        crate::order::lemma_group_of_push(rest, items.last(), key);
        assert(rest.push(items.last()) =~= items);
    } else {
        crate::order::lemma_group_nonempty_has_items(items, key);
    }
}

proof fn lemma_plan_err_extends(
    progs: Seq<ProgramView>,
    resolved: Seq<bool>,
    dir: Seq<Seq<char>>,
    gs: Seq<(Seq<char>, Seq<usize>)>,
    k: int,
)
    requires
        0 <= k <= gs.len(),
        plan_groups(progs, resolved, dir, gs.take(k)) == Err::<Seq<(Seq<char>, ActionSpec)>, QfilError>(
            QfilError::Overflow,
        ),
    ensures
        plan_groups(progs, resolved, dir, gs) == Err::<Seq<(Seq<char>, ActionSpec)>, QfilError>(
            QfilError::Overflow,
        ),
    decreases gs.len() - k,
{
    if k < gs.len() {
        assert(gs.take(k + 1).drop_last() =~= gs.take(k));
        lemma_plan_err_extends(progs, resolved, dir, gs, k + 1);
    } else {
        assert(gs.take(k) =~= gs);
    }
}

/// Turns a package's programs into the partitions to write: the programs with a file
/// name, a label and a non-zero sector count are gathered by label (labels in name
/// order, programs in XML order), and each label group becomes at most one output (see
/// `group_action`, `plan_groups`). `resolved[i]` tells whether the file of program `i`
/// is in the package; `dir_names` lists the package's files.
pub fn plan(programs: &Vec<Program>, resolved: &Vec<bool>, dir_names: &Vec<String>) -> (r: Result<
    Vec<QfilOutput>,
    QfilError,
>)
    requires
        resolved@.len() == programs@.len(),
    ensures
        exists|gs: Seq<(Seq<char>, Seq<usize>)>|
            #![trigger is_grouping(labelled(programs_view(programs@), programs@.len() as int), gs)]
            {
                &&& is_grouping(labelled(programs_view(programs@), programs@.len() as int), gs)
                &&& match r {
                    Ok(v) => plan_groups(
                        programs_view(programs@),
                        resolved@,
                        names_view(dir_names@),
                        gs,
                    ) == Ok::<Seq<(Seq<char>, ActionSpec)>, QfilError>(outputs_view(v@)),
                    Err(e) => plan_groups(
                        programs_view(programs@),
                        resolved@,
                        names_view(dir_names@),
                        gs,
                    ) == Err::<Seq<(Seq<char>, ActionSpec)>, QfilError>(e),
                }
            },
        r matches Ok(v) ==> forall|k: int| 0 <= k < v@.len() ==> within_dir(#[trigger] v@[k].name@),
{
    let ghost pv = programs_view(programs@);
    let ghost dv = names_view(dir_names@);
    let mut items: Vec<(Vec<char>, usize)> = Vec::new();
    let mut i: usize = 0;
    while i < programs.len()
        invariant
            i <= programs@.len(),
            pv == programs_view(programs@),
            items_view(items@) == labelled(pv, i as int),
        decreases programs.len() - i,
    {
        let p = &programs[i];
        assert(pv[i as int] == p@);
        let ghost before = items@;
        if !(p.filename.as_str().is_empty() || p.label.as_str().is_empty() || p.num_partition_sectors == 0) {
            let key = chars_of(p.label.as_str());
            let ghost kv = key@;
            items.push((key, i));
            assert(items_view(items@) =~= items_view(before).push((kv, i)));
        }
        i = i + 1;
    }
    let groups = group_by_name(&items);
    let ghost gs = groups_view(groups@);
    let ghost iv = items_view(items@);
    proof {
        lemma_labelled_bounded(pv, programs@.len() as int);
    }
    let mut out: Vec<QfilOutput> = Vec::new();
    let mut g: usize = 0;
    assert(gs.take(0) =~= Seq::<(Seq<char>, Seq<usize>)>::empty());
    assert(outputs_view(out@) =~= Seq::<(Seq<char>, ActionSpec)>::empty());
    while g < groups.len()
        invariant
            g <= groups@.len(),
            resolved@.len() == programs@.len(),
            pv == programs_view(programs@),
            dv == names_view(dir_names@),
            gs == groups_view(groups@),
            iv == labelled(pv, programs@.len() as int),
            is_grouping(iv, gs),
            forall|k: int| 0 <= k < iv.len() ==> (#[trigger] iv[k]).1 < programs@.len(),
            plan_groups(pv, resolved@, dv, gs.take(g as int)) == Ok::<
                Seq<(Seq<char>, ActionSpec)>,
                QfilError,
            >(outputs_view(out@)),
            forall|k: int| 0 <= k < out@.len() ==> within_dir(#[trigger] out@[k].name@),
        decreases groups.len() - g,
    {
        let label = string_of(groups[g].0.as_slice());
        let idxs = &groups[g].1;
        assert(gs[g as int] == (groups@[g as int].0@, groups@[g as int].1@));
        proof {
            lemma_group_values_bounded(iv, gs[g as int].0, programs@.len() as int);
        }
        assert(gs.take(g + 1).drop_last() =~= gs.take(g as int));
        assert(gs.take(g + 1).last() == gs[g as int]);
        let ghost before = outputs_view(out@);
        match plan_group(programs, resolved, dir_names, label.as_str(), idxs) {
            None => {},
            Some(Err(e)) => {
                proof {
                    lemma_plan_err_extends(pv, resolved@, dv, gs, g + 1);
                }
                return Err(e);
            },
            Some(Ok(a)) => {
                let name = output_name(label.as_str(), out.len());
                let o = QfilOutput { name, action: a };
                let ghost ov = o@;
                out.push(o);
                assert(outputs_view(out@) =~= before.push(ov));
            },
        }
        g = g + 1;
    }
    assert(gs.take(groups@.len() as int) =~= gs);
    Ok(out)
}


/// The bytes of several files, one after the other.
pub open spec fn concat_all(cs: Seq<Seq<u8>>) -> Seq<u8>
    decreases cs.len(),
{
    if cs.len() == 0 {
        Seq::empty()
    } else {
        concat_all(cs.drop_last()) + cs.last()
    }
}

/// What joining the chunk files of a partition gives: when the first is an Android
/// sparse image, all of them decoded one after the other into one raw image (`None` when
/// one fails to decode); else their bytes concatenated.
pub open spec fn joined_chunks(cs: Seq<Seq<u8>>) -> Option<Seq<u8>> {
    if sparse_header(cs[0]) {
        chunks_decoded(cs)
    } else {
        Some(concat_all(cs))
    }
}

/// Joins the chunk files of a partition (see `joined_chunks`).
pub fn write_chunks(chunks: &Vec<Vec<u8>>) -> (r: Option<Vec<u8>>)
    requires
        chunks@.len() > 0,
    ensures
        match r {
            Some(v) => joined_chunks(chunks@.map_values(|c: Vec<u8>| c@)) == Some(v@),
            None => joined_chunks(chunks@.map_values(|c: Vec<u8>| c@)) is None,
        },
{
    let ghost cs = chunks@.map_values(|c: Vec<u8>| c@);
    assert(cs[0] == chunks@[0]@);
    if has_sparse_magic(chunks[0].as_slice()) {
        return convert_sparse_chunks_to_raw(chunks);
    }
    let mut out: Vec<u8> = Vec::new();
    let mut i: usize = 0;
    while i < chunks.len()
        invariant
            i <= chunks@.len(),
            cs == chunks@.map_values(|c: Vec<u8>| c@),
            concat_all(cs.take(i as int)) == out@,
        decreases chunks.len() - i,
    {
        assert(cs.take(i + 1).drop_last() =~= cs.take(i as int));
        assert(cs.take(i + 1).last() == chunks@[i as int]@);
        let n = chunks[i].len();
        let mut part = copy_range(chunks[i].as_slice(), 0, n);
        assert(part@ =~= chunks@[i as int]@);
        out.append(&mut part);
        i = i + 1;
    }
    assert(cs.take(chunks@.len() as int) =~= cs);
    Some(out)
}


proof fn lemma_seconds_push(s: Seq<(u64, usize)>, x: (u64, usize))
    ensures
        seconds(s.push(x)) == seconds(s).push(x.1),
{
    assert(seconds(s.push(x)) =~= seconds(s).push(x.1));
}

/// Inserting by key adds the inserted position to the positions, as a multiset.
proof fn lemma_insert_seconds_multiset(s: Seq<(u64, usize)>, x: (u64, usize))
    ensures
        seconds(insert_by_key(s, x)).to_multiset() =~= seconds(s).to_multiset().insert(x.1),
    decreases s.len(),
{
    broadcast use vstd::multiset::group_multiset_axioms;

    if s.len() == 0 || s.last().0 <= x.0 {
        lemma_seconds_push(s, x);
        to_multiset_build(seconds(s), x.1);
    } else {
        let d = s.drop_last();
        let l = s.last();
        lemma_insert_seconds_multiset(d, x);
        lemma_seconds_push(insert_by_key(d, x), l);
        to_multiset_build(seconds(insert_by_key(d, x)), l.1);
        assert(s =~= d.push(l));
        lemma_seconds_push(d, l);
        to_multiset_build(seconds(d), l.1);
    }
}

/// Sorting by key keeps the positions, as a multiset.
proof fn lemma_sorted_seconds_multiset(s: Seq<(u64, usize)>)
    ensures
        seconds(sorted_by_key(s)).to_multiset() =~= seconds(s).to_multiset(),
    decreases s.len(),
{
    broadcast use vstd::multiset::group_multiset_axioms;

    if s.len() > 0 {
        let d = s.drop_last();
        lemma_sorted_seconds_multiset(d);
        lemma_insert_seconds_multiset(sorted_by_key(d), s.last());
        assert(s =~= d.push(s.last()));
        lemma_seconds_push(d, s.last());
        to_multiset_build(seconds(d), s.last().1);
    }
}

/// Keeping the found programs keeps each found position as often as it occurs.
proof fn lemma_found_only_count(resolved: Seq<bool>, u: Seq<usize>, i: usize)
    ensures
        found_only(resolved, u).to_multiset().count(i) == (if resolved[i as int] {
            u.to_multiset().count(i)
        } else {
            0
        }),
    decreases u.len(),
{
    broadcast use vstd::multiset::group_multiset_axioms;

    if u.len() == 0 {
        assert(found_only(resolved, u) =~= Seq::<usize>::empty());
        u.to_multiset_ensures();
        (Seq::<usize>::empty()).to_multiset_ensures();
    } else {
        let d = u.drop_last();
        lemma_found_only_count(resolved, d, i);
        assert(u =~= d.push(u.last()));
        to_multiset_build(d, u.last());
        if resolved[u.last() as int] {
            to_multiset_build(found_only(resolved, d), u.last());
        }
    }
}

/// The found programs are taken from `u`, in its order.
proof fn lemma_found_only_members(resolved: Seq<bool>, u: Seq<usize>)
    ensures
        forall|a: int|
            0 <= a < found_only(resolved, u).len() ==> exists|j: int|
                0 <= j < u.len() && u[j] == #[trigger] found_only(resolved, u)[a],
    decreases u.len(),
{
    if u.len() > 0 {
        let d = u.drop_last();
        lemma_found_only_members(resolved, d);
        let f = found_only(resolved, d);
        assert forall|a: int| 0 <= a < found_only(resolved, u).len() implies exists|j: int|
            0 <= j < u.len() && u[j] == #[trigger] found_only(resolved, u)[a] by {
            if a < f.len() {
                let j = choose|j: int| 0 <= j < d.len() && d[j] == f[a];
                assert(u[j] == d[j]);
            } else {
                assert(u[u.len() - 1] == found_only(resolved, u)[a]);
            }
        }
    }
}

/// Keeping the found programs of a sequence ordered by start sector keeps that order.
proof fn lemma_found_only_ascending(progs: Seq<ProgramView>, resolved: Seq<bool>, u: Seq<usize>)
    requires
        forall|j: int, k: int|
            0 <= j < k < u.len() ==> progs[u[j] as int].3 <= progs[u[k] as int].3,
    ensures
        forall|a: int, b: int|
            0 <= a < b < found_only(resolved, u).len() ==> progs[found_only(resolved, u)[a] as int].3
                <= progs[found_only(resolved, u)[b] as int].3,
    decreases u.len(),
{
    if u.len() > 0 {
        let d = u.drop_last();
        assert forall|j: int, k: int| 0 <= j < k < d.len() implies progs[d[j] as int].3 <= progs[d[
            k] as int].3 by {
            assert(d[j] == u[j] && d[k] == u[k]);
        }
        lemma_found_only_ascending(progs, resolved, d);
        lemma_found_only_members(resolved, d);
        let f = found_only(resolved, d);
        if resolved[u.last() as int] {
            let g = f.push(u.last());
            assert forall|a: int, b: int| 0 <= a < b < g.len() implies progs[g[a] as int].3 <= progs[g[
                b] as int].3 by {
                if b < f.len() {
                    assert(g[a] == f[a] && g[b] == f[b]);
                } else {
                    let j = choose|j: int| 0 <= j < d.len() && d[j] == f[a];
                    assert(u[j] == d[j]);
                    assert(g[a] == f[a]);
                }
            }
        }
    }
}

/// Joining the files of a label's programs, when they do not all name one file, takes
/// every program whose file is found exactly once, and orders them by start sector:
/// each source is a program, the start sectors of the sources never decrease, and each
/// program occurs among the sources as often as among the label's found programs.
pub proof fn lemma_joined_programs_by_start(
    progs: Seq<ProgramView>,
    resolved: Seq<bool>,
    dir: Seq<Seq<char>>,
    label: Seq<char>,
    idxs: Seq<usize>,
    srcs: Seq<Source>,
)
    requires
        idxs.len() > 1,
        exists|k: int| 0 <= k < idxs.len() && resolved[#[trigger] idxs[k] as int],
        group_action(progs, resolved, dir, label, idxs) == Some(
            Ok::<ActionSpec, QfilError>(ActionSpec::Concat(srcs)),
        ),
    ensures
        forall|k: int| 0 <= k < srcs.len() ==> #[trigger] srcs[k] is Program,
        forall|a: int, b: int|
            0 <= a < b < srcs.len() ==> progs[srcs[a]->Program_0 as int].3 <= progs[srcs[
                b]->Program_0 as int].3,
        forall|i: usize|
            #[trigger] srcs.to_multiset().count(Source::Program(i)) == (if resolved[i as int] {
                idxs.to_multiset().count(i)
            } else {
                0
            }),
{
    broadcast use vstd::multiset::group_multiset_axioms;

    let bs = by_start(progs, idxs);
    let t = sorted_by_key(bs);
    let u = seconds(t);
    let f = found_only(resolved, u);
    assert(seconds(bs) =~= idxs);
    lemma_sorted_seconds_multiset(bs);
    lemma_sorted_by_key_ascending(bs);
    lemma_sorted_by_key_members(bs);
    let k0 = choose|k: int| 0 <= k < idxs.len() && resolved[#[trigger] idxs[k] as int];
    let i0 = idxs[k0];
    idxs.to_multiset_ensures();
    assert(idxs.contains(i0));
    lemma_found_only_count(resolved, u, i0);
    f.to_multiset_ensures();
    assert(f.len() > 0) by {
        if f.len() == 0 {
            assert(f =~= Seq::<usize>::empty());
            assert(f.to_multiset().count(i0) == 0);
        }
    }
    assert(srcs == as_programs(f));
    assert forall|j: int, k: int| 0 <= j < k < u.len() implies progs[u[j] as int].3 <= progs[u[
        k] as int].3 by {
        let wj = choose|w: int| 0 <= w < bs.len() && bs[w] == #[trigger] t[j];
        let wk = choose|w: int| 0 <= w < bs.len() && bs[w] == #[trigger] t[k];
        assert(t[j].0 <= t[k].0);
    }
    lemma_found_only_ascending(progs, resolved, u);
    assert forall|i: usize| #[trigger] srcs.to_multiset().count(Source::Program(i)) == (if resolved[
        i as int] {
        idxs.to_multiset().count(i)
    } else {
        0
    }) by {
        lemma_as_programs_count(f, i);
        lemma_found_only_count(resolved, u, i);
    }
}

/// Naming positions as program sources keeps how often each occurs.
proof fn lemma_as_programs_count(f: Seq<usize>, i: usize)
    ensures
        as_programs(f).to_multiset().count(Source::Program(i)) == f.to_multiset().count(i),
    decreases f.len(),
{
    broadcast use vstd::multiset::group_multiset_axioms;

    if f.len() == 0 {
        assert(as_programs(f) =~= Seq::<Source>::empty());
        f.to_multiset_ensures();
        (Seq::<Source>::empty()).to_multiset_ensures();
    } else {
        let d = f.drop_last();
        lemma_as_programs_count(d, i);
        assert(f =~= d.push(f.last()));
        assert(as_programs(f) =~= as_programs(d).push(Source::Program(f.last())));
        to_multiset_build(d, f.last());
        to_multiset_build(as_programs(d), Source::Program(f.last()));
    }
}


/// The positions of a label's programs, ordered by start sector (stably), are the same
/// positions, and their start sectors never decrease.
proof fn lemma_by_start_order(progs: Seq<ProgramView>, idxs: Seq<usize>)
    ensures
        ({
            let u = seconds(sorted_by_key(by_start(progs, idxs)));
            &&& u.to_multiset() =~= idxs.to_multiset()
            &&& u.len() == idxs.len()
            &&& forall|j: int, k: int|
                0 <= j < k < u.len() ==> progs[u[j] as int].3 <= progs[u[k] as int].3
        }),
{
    let bs = by_start(progs, idxs);
    let t = sorted_by_key(bs);
    let u = seconds(t);
    assert(seconds(bs) =~= idxs);
    lemma_sorted_seconds_multiset(bs);
    lemma_sorted_by_key_ascending(bs);
    lemma_sorted_by_key_members(bs);
    assert forall|j: int, k: int| 0 <= j < k < u.len() implies progs[u[j] as int].3 <= progs[u[
        k] as int].3 by {
        let wj = choose|w: int| 0 <= w < bs.len() && bs[w] == #[trigger] t[j];
        let wk = choose|w: int| 0 <= w < bs.len() && bs[w] == #[trigger] t[k];
        assert(t[j].0 <= t[k].0);
    }
}

/// When several programs of a label all name one file, that file is copied slice by
/// slice in start-sector order: the slices are those of the label's programs (each
/// program once), taken in an order whose start sectors never decrease, and the file
/// is that of the first of them.
pub proof fn lemma_slices_by_start(
    progs: Seq<ProgramView>,
    resolved: Seq<bool>,
    dir: Seq<Seq<char>>,
    label: Seq<char>,
    idxs: Seq<usize>,
    p: usize,
    sl: Seq<(u64, u64)>,
)
    requires
        idxs.len() > 1,
        group_action(progs, resolved, dir, label, idxs) == Some(
            Ok::<ActionSpec, QfilError>(ActionSpec::Slices(p, sl)),
        ),
    ensures
        exists|u: Seq<usize>|
            {
                &&& #[trigger] u.to_multiset() == idxs.to_multiset()
                &&& forall|j: int, k: int|
                    0 <= j < k < u.len() ==> progs[u[j] as int].3 <= progs[u[k] as int].3
                &&& u.len() > 0 && p == u[0]
                &&& slices_of(progs, u) == Ok::<Seq<(u64, u64)>, QfilError>(sl)
            },
{
    lemma_by_start_order(progs, idxs);
    let u = seconds(sorted_by_key(by_start(progs, idxs)));
    assert(u.to_multiset() == idxs.to_multiset());
}

} // verus!

//! KDDI packages: zips of partition ".bin" members without QFIL or ZTE chunk markers.
use vstd::prelude::*;
use crate::pattern::{is_match, regex_matches};
use crate::text::{
    base_name_or_empty, base_or_empty, chars_of, contains, contains_seq, ends_with, has_suffix,
    lowercase_of, to_lowercase,
};
use crate::zte::{bin_member, names_view};

verus! {

/// The pattern of a "-pNN" chunk suffix, ignoring case.
pub const P_SUFFIX_PATTERN: &'static str = "(?i)-p\\d+$";

/// Whether a member name, lower-cased, mentions "rawprogram" and ends with ".xml".
pub open spec fn rawprogram_member(name: Seq<char>) -> bool {
    contains_seq(lowercase_of(name), "rawprogram"@) && has_suffix(lowercase_of(name), ".xml"@)
}

/// Whether a package with the given member names is a KDDI package: some member is a
/// partition ".bin", and no member is a rawprogram XML or carries a "-pNN" suffix.
pub open spec fn kddi_package(names: Seq<Seq<char>>) -> bool {
    &&& exists|i: int| 0 <= i < names.len() && bin_member(base_or_empty(#[trigger] names[i]))
    &&& !exists|i: int| 0 <= i < names.len() && rawprogram_member(#[trigger] names[i])
    &&& !exists|i: int|
        0 <= i < names.len() && regex_matches(P_SUFFIX_PATTERN@, base_or_empty(#[trigger] names[i]))
}

/// Checks whether a zip with the given member names is a KDDI package.
pub fn probe_zip(names: &Vec<String>) -> (r: bool)
    ensures
        r == kddi_package(names_view(names@)),
{
    let ghost nv = names_view(names@);
    let mut has_bins = false;
    let mut has_rawprogram = false;
    let mut has_p_suffix = false;
    let raw = chars_of("rawprogram");
    let xml = chars_of(".xml");
    let bin = chars_of(".bin");
    let mut i: usize = 0;
    while i < names.len()
        invariant
            i <= names@.len(),
            nv == names_view(names@),
            raw@ == "rawprogram"@,
            xml@ == ".xml"@,
            bin@ == ".bin"@,
            has_bins == exists|k: int| 0 <= k < i && bin_member(base_or_empty(#[trigger] nv[k])),
            has_rawprogram == exists|k: int| 0 <= k < i && rawprogram_member(#[trigger] nv[k]),
            has_p_suffix == exists|k: int|
                0 <= k < i && regex_matches(P_SUFFIX_PATTERN@, base_or_empty(#[trigger] nv[k])),
        decreases names.len() - i,
    {
        assert(nv[i as int] == names@[i as int]@);
        let name = names[i].as_str();
        let lower = to_lowercase(name);
        let lc = chars_of(lower.as_str());
        let base = base_name_or_empty(name);
        if contains(lc.as_slice(), raw.as_slice()) && ends_with(lc.as_slice(), xml.as_slice()) {
            has_rawprogram = true;
        }
        if ends_with(chars_of(base.as_str()).as_slice(), bin.as_slice())
            && crate::zte::is_partition_name(base.as_str()) {
            has_bins = true;
        }
        if is_match(P_SUFFIX_PATTERN, base.as_str()) {
            has_p_suffix = true;
        }
        i = i + 1;
    }
    has_bins && !has_rawprogram && !has_p_suffix
}

/// A KDDI package always holds a partition ".bin" member, so the ZTE probe recognises
/// it as a ZTE package: in ".bin" mode, unless some member name matches the ZTE chunk
/// pattern.
pub proof fn lemma_kddi_is_zte(names: Seq<Seq<char>>)
    requires
        kddi_package(names),
    ensures
        crate::zte::zte_mode(names) is Some,
        !(exists|i: int|
            0 <= i < names.len() && crate::zte::chunk_member(base_or_empty(#[trigger] names[i])))
            ==> crate::zte::zte_mode(names) == Some(crate::zte::ZteMode::Bin),
{
}
} // verus!

//! MediaTek signed images ("*-sign.img" members of a zip): header stripping and naming.
use vstd::prelude::*;
use crate::bytes::{le16, read_le16};
use crate::sin::{sin_image, starts_sin, SinError};
use crate::text::{
    base_name, base_or_self, chars_of, concat, has_suffix, lowercase_ends_with, lowercase_of,
    string_of, strip_suffix, without_suffix,
};

verus! {

/// Why a signed image holds no payload.
#[derive(Debug, Clone, Copy, PartialEq, Eq)]
pub enum MtkError {
    /// The SSSS header records a payload that extends beyond the data.
    PayloadBeyondFile { offset: usize, size: usize, file: usize },
    /// The data is neither SSSS-headed nor longer than 0x4040 bytes.
    TooSmall { file: usize },
}

/// Whether `data` is at least 64 bytes long and starts with "SSSS".
pub open spec fn ssss_headed(data: Seq<u8>) -> bool {
    data.len() >= 64 && data[0] == 0x53 && data[1] == 0x53 && data[2] == 0x53 && data[3] == 0x53
}

/// The payload `(offset, length)` of a signed image: after an SSSS header, the size
/// recorded in bytes 60..64 (two little-endian halves, high half last); otherwise
/// everything after the first 0x4040 bytes.
pub open spec fn signed_payload(data: Seq<u8>) -> Result<(int, int), MtkError> {
    if ssss_headed(data) {
        let size = le16(data, 62) * 65536 + le16(data, 60);
        if 64 + size > data.len() {
            Err(
                MtkError::PayloadBeyondFile {
                    offset: 64,
                    size: size as usize,
                    file: data.len() as usize,
                },
            )
        } else {
            Ok((64, size))
        }
    } else if data.len() > 0x4040 {
        Ok((0x4040, data.len() - 0x4040))
    } else {
        Err(MtkError::TooSmall { file: data.len() as usize })
    }
}

/// Determines the payload offset and size of a "*-sign.img" image.
pub fn strip_header(data: &[u8]) -> (r: Result<(usize, usize), MtkError>)
    ensures
        match r {
            Ok((off, len)) => signed_payload(data@) == Ok::<(int, int), MtkError>(
                (off as int, len as int),
            ) && off + len <= data@.len(),
            Err(e) => signed_payload(data@) == Err::<(int, int), MtkError>(e),
        },
{
    let n = data.len();
    if n >= 64 && data[0] == 0x53 && data[1] == 0x53 && data[2] == 0x53 && data[3] == 0x53 {
        let lo = read_le16(data, 60) as usize;
        let hi = read_le16(data, 62) as usize;
        let size = hi * 65536 + lo;
        if size > n - 64 {
            return Err(MtkError::PayloadBeyondFile { offset: 64, size, file: n });
        }
        Ok((64, size))
    } else if n > 0x4040 {
        Ok((0x4040, n - 0x4040))
    } else {
        Err(MtkError::TooSmall { file: n })
    }
}

/// `name` with a final "-sign.img" or "-sign.IMG" turned into ".img".
pub open spec fn unsigned_name(name: Seq<char>) -> Seq<char> {
    match without_suffix(name, "-sign.img"@) {
        Some(b) => b + ".img"@,
        None => match without_suffix(name, "-sign.IMG"@) {
            Some(b) => b + ".img"@,
            None => name,
        },
    }
}

/// Renames "*-sign.img" to "*.img".
pub fn strip_sign_suffix(name: &str) -> (r: String)
    ensures
        r@ == unsigned_name(name@),
{
    let n = chars_of(name);
    let img = chars_of(".img");
    match strip_suffix(n.as_slice(), chars_of("-sign.img").as_slice()) {
        Some(b) => string_of(concat(b.as_slice(), img.as_slice()).as_slice()),
        None => match strip_suffix(n.as_slice(), chars_of("-sign.IMG").as_slice()) {
            Some(b) => string_of(concat(b.as_slice(), img.as_slice()).as_slice()),
            None => name.to_owned(),
        },
    }
}

/// Whether a zip member name marks a signed image: its lower-case form ends with "-sign.img".
pub open spec fn is_sign_entry(name: Seq<char>) -> bool {
    has_suffix(lowercase_of(name), "-sign.img"@)
}

/// Whether a zip archive with the given member names holds any signed image.
pub fn probe_zip(names: &Vec<String>) -> (r: bool)
    ensures
        r == exists|i: int| 0 <= i < names@.len() && is_sign_entry(#[trigger] names@[i]@),
{
    let mut i: usize = 0;
    while i < names.len()
        invariant
            i <= names@.len(),
            forall|k: int| 0 <= k < i ==> !is_sign_entry(#[trigger] names@[k]@),
        decreases names.len() - i,
    {
        if lowercase_ends_with(names[i].as_str(), "-sign.img") {
            assert(is_sign_entry(names@[i as int]@));
            return true;
        }
        i = i + 1;
    }
    false
}

/// The positions, in order, of the members whose names mark signed images.
pub fn sign_entries(names: &Vec<String>) -> (r: Vec<usize>)
    ensures
        r@ == Seq::new(names@.len(), |i: int| i).filter(|i: int| is_sign_entry(names@[i]@)).map_values(
            |i: int| i as usize,
        ),
{
    let mut r: Vec<usize> = Vec::new();
    let mut i: usize = 0;
    while i < names.len()
        invariant
            i <= names@.len(),
            r@ == Seq::new(i as nat, |k: int| k).filter(|k: int| is_sign_entry(names@[k]@)).map_values(
                |k: int| k as usize,
            ),
        decreases names.len() - i,
    {
        let ghost prev = Seq::new(i as nat, |k: int| k);
        let ghost next = Seq::new((i + 1) as nat, |k: int| k);
        assert(next.drop_last() =~= prev);
        reveal_with_fuel(Seq::filter, 1);
        if lowercase_ends_with(names[i].as_str(), "-sign.img") {
            r.push(i);
        }
        assert(r@ =~= next.filter(|k: int| is_sign_entry(names@[k]@)).map_values(
            |k: int| k as usize,
        ));
        i = i + 1;
    }
    r
}

/// The output file name for a signed member: its final path component, renamed by
/// `strip_sign_suffix`.
pub fn output_name(member: &str) -> (r: String)
    ensures
        r@ == unsigned_name(base_or_self(member@)),
{
    let base = base_name(member);
    strip_sign_suffix(base.as_str())
}

/// A signed image that does not start with "SIN" is read alike as a legacy SIN image:
/// where the header stripper finds a payload, the SIN reader yields exactly those bytes,
/// and where it finds none, the SIN reader fails too.
pub proof fn lemma_legacy_sin_agrees(data: Seq<u8>)
    requires
        !starts_sin(data),
    ensures
        match signed_payload(data) {
            Ok((off, len)) => sin_image(data) == Ok::<Seq<u8>, SinError>(
                data.subrange(off, off + len),
            ),
            Err(_) => sin_image(data) is Err,
        },
{
}


/// The payload of an image with a 64-byte "SSSS" header starts right after the header
/// and is as long as the 32-bit little-endian size stored at bytes 60..64, when that
/// fits in the data.
pub proof fn lemma_ssss_payload_bytes(data: Seq<u8>)
    requires
        data.len() >= 64,
        data[0] == 0x53 && data[1] == 0x53 && data[2] == 0x53 && data[3] == 0x53,
        64 + (data[60] + 256 * data[61] + 65536 * data[62] + 16777216 * data[63]) <= data.len(),
    ensures
        signed_payload(data) == Ok::<(int, int), MtkError>(
            (64, data[60] + 256 * data[61] + 65536 * data[62] + 16777216 * data[63]),
        ),
{
}

} // verus!

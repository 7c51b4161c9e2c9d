//! Tar archives read from in-memory buffers, plain or inside a gzip or bzip2 stream.
use std::io::Read;
use vstd::prelude::*;

verus! {

/// The entries that `tar::Archive` reads from the given bytes: for each, in archive order,
/// the size its header records and the bytes its reader yields; `None` when reading fails.
pub uninterp spec fn tar_entries_of(data: Seq<u8>) -> Option<Seq<(u64, Seq<u8>)>>;

/// The entries that `tar::Archive` reads through a `flate2::read::GzDecoder` over the given
/// bytes, in the same form as `tar_entries_of`; `None` when reading fails.
pub uninterp spec fn gz_tar_entries_of(data: Seq<u8>) -> Option<Seq<(u64, Seq<u8>)>>;

/// The entries that `tar::Archive` reads through a `bzip2::read::BzDecoder` over the given
/// bytes, up to the end of the archive or the first failure: for each, in archive order,
/// its path (lossily as text) and its bytes; and whether reading ended without failure.
pub uninterp spec fn bz2_tar_read_of(data: Seq<u8>) -> (Seq<(Seq<char>, Seq<u8>)>, bool);

/// One entry of a tar archive.
pub struct TarEntry {
    pub size: u64,
    pub data: Vec<u8>,
}

impl View for TarEntry {
    type V = (u64, Seq<u8>);

    open spec fn view(&self) -> (u64, Seq<u8>) {
        (self.size, self.data@)
    }
}

/// One entry of a tar archive, with its path.
pub struct NamedTarEntry {
    pub path: String,
    pub data: Vec<u8>,
}

impl View for NamedTarEntry {
    type V = (Seq<char>, Seq<u8>);

    open spec fn view(&self) -> (Seq<char>, Seq<u8>) {
        (self.path@, self.data@)
    }
}

/// Trusted: reads every entry of the tar archive in `data` with `tar::Archive::entries`,
/// keeping each entry's header size and its contents. The result is named by `tar_entries_of`.
#[verifier::external_body]
pub(crate) fn tar_entries(data: &[u8]) -> (r: Option<Vec<TarEntry>>)
    ensures
        match r {
            Some(v) => tar_entries_of(data@) == Some(v@.map_values(|e: TarEntry| e@)),
            None => tar_entries_of(data@) is None,
        },
{
    let mut archive = tar::Archive::new(data);
    let mut out = Vec::new();
    for entry in archive.entries().ok()? {
        let mut entry = entry.ok()?;
        let size = entry.size();
        let mut buf = Vec::new();
        entry.read_to_end(&mut buf).ok()?;
        out.push(TarEntry { size, data: buf });
    }
    Some(out)
}

/// Trusted: reads every entry of the tar archive that `flate2::read::GzDecoder` decompresses
/// from `data`, with `tar::Archive::entries`, keeping each entry's header size and its
/// contents. The archive is read straight from the decoder, so reading stops at the tar
/// end-of-archive marker. The result is named by `gz_tar_entries_of`.
#[verifier::external_body]
pub(crate) fn gz_tar_entries(data: &[u8]) -> (r: Option<Vec<TarEntry>>)
    ensures
        match r {
            Some(v) => gz_tar_entries_of(data@) == Some(v@.map_values(|e: TarEntry| e@)),
            None => gz_tar_entries_of(data@) is None,
        },
{
    let mut archive = tar::Archive::new(flate2::read::GzDecoder::new(data));
    let mut out = Vec::new();
    for entry in archive.entries().ok()? {
        let mut entry = entry.ok()?;
        let size = entry.size();
        let mut buf = Vec::new();
        entry.read_to_end(&mut buf).ok()?;
        out.push(TarEntry { size, data: buf });
    }
    Some(out)
}

/// Trusted: reads the entries of the tar archive that `bzip2::read::BzDecoder` decompresses
/// from `data`, with `tar::Archive::entries`, keeping each entry's path (`Entry::path`,
/// lossily as text) and contents, until the archive ends or a read fails; the flag tells
/// whether it ended without failure. The result is named by `bz2_tar_read_of`.
#[verifier::external_body]
pub(crate) fn bz2_tar_read(data: &[u8]) -> (r: (Vec<NamedTarEntry>, bool))
    ensures
        bz2_tar_read_of(data@) == (r.0@.map_values(|e: NamedTarEntry| e@), r.1),
{
    let mut out = Vec::new();
    let mut archive = tar::Archive::new(bzip2::read::BzDecoder::new(data));
    let Ok(entries) = archive.entries() else { return (out, false) };
    for entry in entries {
        let Ok(mut entry) = entry else { return (out, false) };
        let Ok(path) = entry.path().map(|p| p.to_string_lossy().into_owned()) else { return (out, false) };
        let mut buf = Vec::new();
        if entry.read_to_end(&mut buf).is_err() { return (out, false) }
        out.push(NamedTarEntry { path, data: buf });
    }
    (out, true)
}

} // verus!

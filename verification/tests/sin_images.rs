use firmware_parsers::sin::{
    detect_version, extract_legacy_other, extract_legacy_ssss, extract_sin_data, find_gzip_start,
    find_tar_start, ftf_entries, ftf_output_name, probe, probe_zip, reassemble_sony_sparse,
    sin_output_name, tar_entry_pieces, write_entry_data, Piece, SinError, SinPart, SinVersion,
};
use std::io::Write;

fn expand(src: &[u8], pieces: &[Piece]) -> Vec<u8> {
    let mut out = Vec::new();
    for p in pieces {
        match *p {
            Piece::Copy { start, len } => out.extend_from_slice(&src[start..start + len]),
            Piece::Fill { pattern, blocks } => {
                for _ in 0..(blocks as usize * 1024) {
                    out.extend_from_slice(&pattern);
                }
            }
            Piece::Zero { blocks } => out.extend(std::iter::repeat(0u8).take(blocks as usize * 4096)),
        }
    }
    out
}

fn image(parts: &[SinPart]) -> Vec<u8> {
    let mut out = Vec::new();
    for p in parts {
        out.extend(expand(&p.bytes, &p.pieces));
    }
    out
}

fn chunk(kind: u16, blocks: u32, data: &[u8]) -> Vec<u8> {
    let mut v = Vec::new();
    v.extend_from_slice(&kind.to_le_bytes());
    v.extend_from_slice(&[0, 0]);
    v.extend_from_slice(&blocks.to_le_bytes());
    v.extend_from_slice(&(data.len() as u32).to_le_bytes());
    v.extend_from_slice(data);
    v
}

fn tar_of(entries: &[(&str, &[u8])]) -> Vec<u8> {
    let mut b = tar::Builder::new(Vec::new());
    for (name, data) in entries {
        let mut h = tar::Header::new_gnu();
        h.set_size(data.len() as u64);
        h.set_mode(0o644);
        h.set_cksum();
        b.append_data(&mut h, name, *data).unwrap();
    }
    b.into_inner().unwrap()
}

#[test]
fn versions_are_detected() {
    let mut v3 = b"SIN\x03".to_vec();
    v3.resize(16, 0);
    assert_eq!(detect_version(&v3), Some(SinVersion::V3));
    assert_eq!(detect_version(b"SIN\x04abcd"), Some(SinVersion::V4));
    assert_eq!(detect_version(b"SIN\x05abcd"), Some(SinVersion::V5));
    assert_eq!(detect_version(b"SIN\x07abcd"), None);
    assert_eq!(detect_version(b"SSSSxyz"), Some(SinVersion::LegacySsss));
    assert_eq!(detect_version(&vec![0xBFu8; 0x4041]), Some(SinVersion::LegacyOther));
    assert_eq!(detect_version(&vec![0xBFu8; 0x4040]), None);
    assert_eq!(detect_version(b"SIN"), None);
}

#[test]
fn probe_accepts_sin_ssss_and_bfbf() {
    assert!(probe(b"SIN\x09"));
    assert!(probe(b"SSSS"));
    assert!(probe(&[0xBF, 0xBF, 0, 0]));
    assert!(!probe(&[0xBF, 0xBF, 0]));
    assert!(!probe(b"ABCD"));
}

#[test]
fn gzip_start_is_first_magic() {
    assert_eq!(find_gzip_start(&[0, 1, 0x1F, 0x8B, 5, 0x1F, 0x8B]), Some(2));
    assert_eq!(find_gzip_start(&[0x1F]), None);
    assert_eq!(find_gzip_start(&[0x8B, 0x1F]), None);
}

#[test]
fn tar_start_prefers_aligned_headers() {
    let mut data = vec![0u8; 2048];
    data[512 + 257..512 + 262].copy_from_slice(b"ustar");
    assert_eq!(find_tar_start(&data), Some(512));
    let mut odd = vec![0u8; 1000];
    odd[3 + 257..3 + 262].copy_from_slice(b"ustar");
    assert_eq!(find_tar_start(&odd), Some(3));
    assert_eq!(find_tar_start(&[0u8; 100]), None);
}

#[test]
fn sony_sparse_chunks_are_reassembled() {
    let mut data = chunk(0xCAC1, 0, b"abc");
    data.extend(chunk(0xCAC2, 1, &[1, 2, 3, 4]));
    data.extend(chunk(0xCAC3, 1, &[]));
    data.extend(chunk(0xCAC4, 0, &[9, 9, 9, 9]));
    data.extend(chunk(0xCAC5, 2, &[]));
    let pieces = reassemble_sony_sparse(&data).unwrap();
    let out = expand(&data, &pieces);
    let mut expected = b"abc".to_vec();
    for _ in 0..1024 {
        expected.extend_from_slice(&[1, 2, 3, 4]);
    }
    expected.extend(vec![0u8; 4096 * 3]);
    assert_eq!(out, expected);
}

#[test]
fn unknown_chunk_type_copies_the_rest() {
    let mut data = chunk(0xCAC1, 0, b"xy");
    data.extend_from_slice(b"0123456789abcdef");
    let pieces = reassemble_sony_sparse(&data).unwrap();
    let mut expected = b"xy".to_vec();
    expected.extend_from_slice(b"0123456789abcdef");
    assert_eq!(expand(&data, &pieces), expected);
}

#[test]
fn sony_chunk_errors() {
    let mut raw = chunk(0xCAC1, 0, b"abc");
    raw.truncate(13);
    assert_eq!(reassemble_sony_sparse(&raw), Err(SinError::RawChunkOverrun));
    let fill = chunk(0xCAC2, 1, &[1, 2]);
    assert_eq!(reassemble_sony_sparse(&fill), Err(SinError::FillChunkInvalid));
}

#[test]
fn entry_data_without_sony_header_is_copied() {
    let pieces = write_entry_data(b"plain data").unwrap();
    assert_eq!(expand(b"plain data", &pieces), b"plain data".to_vec());
    // a Sony chunk type with fewer than 12 bytes writes nothing
    let short = [0xC1u8, 0xCA, 0, 0];
    assert_eq!(expand(&short, &write_entry_data(&short).unwrap()), Vec::<u8>::new());
}

#[test]
fn legacy_payloads() {
    let mut ssss = b"SSSS".to_vec();
    ssss.resize(64, 0);
    ssss[60] = 3;
    ssss.extend_from_slice(b"payload");
    assert_eq!(extract_legacy_ssss(&ssss), Ok((64, 3)));
    ssss[62] = 1;
    assert_eq!(extract_legacy_ssss(&ssss), Err(SinError::SsssOverrun));
    assert_eq!(extract_legacy_ssss(b"SSSS"), Err(SinError::SsssTooSmall));
    assert_eq!(extract_legacy_other(&vec![0u8; 0x4041]), Ok(0x4040));
    assert_eq!(extract_legacy_other(&vec![0u8; 0x4040]), Err(SinError::LegacyTooSmall));
}

#[test]
fn sin_v3_gzip_tar_is_unpacked() {
    let mut sony = chunk(0xCAC1, 0, b"raw-part");
    sony.extend(chunk(0xCAC3, 1, &[]));
    let tar = tar_of(&[("a.bin", b"first"), ("empty", b""), ("b.bin", &sony)]);
    let mut gz = flate2::write::GzEncoder::new(Vec::new(), flate2::Compression::default());
    gz.write_all(&tar).unwrap();
    let gz = gz.finish().unwrap();
    let mut data = b"SIN\x03".to_vec();
    data.extend(vec![7u8; 20]);
    data.extend(gz);
    let parts = extract_sin_data(&data).unwrap();
    let mut expected = b"first".to_vec();
    expected.extend_from_slice(b"raw-part");
    expected.extend(vec![0u8; 4096]);
    assert_eq!(image(&parts), expected);
}

#[test]
fn sin_v5_tar_is_unpacked() {
    let tar = tar_of(&[("a.bin", b"hello")]);
    let mut data = b"SIN\x05".to_vec();
    data.resize(512, 0);
    data.extend(tar);
    let parts = extract_sin_data(&data).unwrap();
    assert_eq!(image(&parts), b"hello".to_vec());
}

#[test]
fn sin_data_errors() {
    assert_eq!(extract_sin_data(b"SIN\x03no-gzip-here").err(), Some(SinError::NoGzipData));
    assert_eq!(extract_sin_data(b"SIN\x03\x1F\x8Bbroken").err(), Some(SinError::Archive));
    assert_eq!(extract_sin_data(b"SIN\x05short").err(), Some(SinError::NoTarData));
    assert_eq!(extract_sin_data(b"ABCD").err(), Some(SinError::UnknownVersion));
}

#[test]
fn legacy_sin_data_is_its_payload() {
    let mut data = vec![0xBFu8; 0x4040];
    data.extend_from_slice(b"tail");
    assert_eq!(image(&extract_sin_data(&data).unwrap()), b"tail".to_vec());
}

#[test]
fn ftf_members_and_names() {
    let names = vec!["a/system.SIN".to_string(), "readme.txt".to_string(), "b.sin".to_string()];
    assert!(probe_zip(&names));
    assert_eq!(ftf_entries(&names), vec![0, 2]);
    assert!(!probe_zip(&vec!["x.zip".to_string()]));
    assert_eq!(ftf_output_name("a/system.SIN"), Some("system.img".to_string()));
    assert_eq!(ftf_output_name("boot.sin"), Some("boot.img".to_string()));
    assert_eq!(ftf_output_name("dir/readme.txt"), Some("readme.txt".to_string()));
    assert_eq!(sin_output_name("/tmp/kernel.sin"), "kernel.img");
    assert_eq!(sin_output_name("/"), "output.img");
}

#[test]
fn legacy_sin_and_signed_image_readers_agree() {
    let mut ssss = b"SSSS".to_vec();
    ssss.resize(64, 0);
    ssss[60] = 3;
    ssss.extend_from_slice(b"payload");
    let (off, len) = firmware_parsers::mtk_sign::strip_header(&ssss).unwrap();
    assert_eq!(image(&extract_sin_data(&ssss).unwrap()), ssss[off..off + len].to_vec());

    let mut other = vec![0xBFu8; 0x4040];
    other.extend_from_slice(b"tail");
    let (off, len) = firmware_parsers::mtk_sign::strip_header(&other).unwrap();
    assert_eq!(image(&extract_sin_data(&other).unwrap()), other[off..off + len].to_vec());

    let small = vec![0u8; 100];
    assert!(firmware_parsers::mtk_sign::strip_header(&small).is_err());
    assert!(extract_sin_data(&small).is_err());
}

#[test]
fn tar_header_at_the_last_possible_offset_is_found() {
    let mut data = vec![0u8; 257];
    data.extend_from_slice(b"ustar");
    assert_eq!(find_tar_start(&data), Some(0));
    let mut shifted = vec![9u8; 3];
    shifted.extend_from_slice(&data);
    assert_eq!(find_tar_start(&shifted), Some(3));
    assert_eq!(find_tar_start(&data[..261]), None);
}

#[test]
fn empty_tar_entries_write_nothing() {
    assert_eq!(tar_entry_pieces(0, b"ignored"), Ok(vec![]));
    let ps = tar_entry_pieces(5, b"hello").unwrap();
    assert_eq!(expand(b"hello", &ps), b"hello".to_vec());
}

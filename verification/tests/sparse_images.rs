use firmware_parsers::qfil;
use firmware_parsers::sparse::{
    convert_sparse_chunks_to_raw, convert_sparse_to_raw, maybe_unsparse, Unsparsed,
};

fn sparse_image(chunks: &[(u16, u32, Vec<u8>)]) -> Vec<u8> {
    let total_blocks: u32 = chunks.iter().map(|c| c.1).sum();
    let mut v = Vec::new();
    v.extend_from_slice(&0xED26FF3Au32.to_le_bytes());
    v.extend_from_slice(&1u16.to_le_bytes());
    v.extend_from_slice(&0u16.to_le_bytes());
    v.extend_from_slice(&28u16.to_le_bytes());
    v.extend_from_slice(&12u16.to_le_bytes());
    v.extend_from_slice(&4096u32.to_le_bytes());
    v.extend_from_slice(&total_blocks.to_le_bytes());
    v.extend_from_slice(&(chunks.len() as u32).to_le_bytes());
    v.extend_from_slice(&0u32.to_le_bytes());
    for (kind, blocks, data) in chunks {
        v.extend_from_slice(&kind.to_le_bytes());
        v.extend_from_slice(&0u16.to_le_bytes());
        v.extend_from_slice(&blocks.to_le_bytes());
        v.extend_from_slice(&(12 + data.len() as u32).to_le_bytes());
        v.extend_from_slice(data);
    }
    v
}

#[test]
fn sparse_images_decode_to_raw_blocks() {
    let raw_block = vec![7u8; 4096];
    let img = sparse_image(&[
        (0xCAC1, 1, raw_block.clone()),
        (0xCAC2, 2, vec![1, 2, 3, 4]),
        (0xCAC3, 1, vec![]),
    ]);
    let out = convert_sparse_to_raw(&img).unwrap();
    assert_eq!(out.len(), 4 * 4096);
    assert_eq!(&out[..4096], &raw_block[..]);
    assert_eq!(&out[4096..4100], &[1, 2, 3, 4]);
    assert_eq!(&out[3 * 4096..], &vec![0u8; 4096][..]);
    assert!(convert_sparse_to_raw(b"not sparse").is_none());
}

#[test]
fn sparse_chunks_decode_one_after_the_other() {
    let a = sparse_image(&[(0xCAC2, 1, vec![9, 9, 9, 9])]);
    let b = sparse_image(&[(0xCAC3, 1, vec![])]);
    let out = convert_sparse_chunks_to_raw(&vec![a.clone(), b.clone()]).unwrap();
    assert_eq!(out.len(), 2 * 4096);
    assert_eq!(&out[..4], &[9, 9, 9, 9]);
    assert_eq!(&out[4096..], &vec![0u8; 4096][..]);
    assert!(convert_sparse_chunks_to_raw(&vec![a.clone(), b"junk".to_vec()]).is_none());
    assert_eq!(qfil::write_chunks(&vec![a, b]).unwrap(), out);
    assert_eq!(qfil::write_chunks(&vec![b"ab".to_vec(), b"cd".to_vec()]).unwrap(), b"abcd".to_vec());
}

#[test]
fn only_sparse_images_are_unsparsed() {
    assert!(matches!(maybe_unsparse(b"plain data"), Unsparsed::NotSparse));
    let img = sparse_image(&[(0xCAC2, 1, vec![5, 5, 5, 5])]);
    match maybe_unsparse(&img) {
        Unsparsed::Raw(v) => assert_eq!(v, vec![5u8; 4096]),
        _ => panic!("expected a raw image"),
    }
    let mut broken = img.clone();
    broken[4] = 2;
    assert!(matches!(maybe_unsparse(&broken), Unsparsed::Failed));
}

#[test]
fn a_header_without_chunks_gives_no_image() {
    let mut img = sparse_image(&[(0xCAC3, 1, vec![])]);
    img[20..24].copy_from_slice(&0u32.to_le_bytes());
    assert!(convert_sparse_to_raw(&img).is_none());
    assert!(matches!(maybe_unsparse(&img), Unsparsed::Failed));
    let good = sparse_image(&[(0xCAC3, 1, vec![])]);
    assert!(convert_sparse_chunks_to_raw(&vec![good, img]).is_none());
}

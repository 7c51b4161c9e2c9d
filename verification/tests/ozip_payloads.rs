use aes::cipher::{BlockEncrypt, KeyInit};
use firmware_parsers::ozip::{
    classify, decrypt_payload, find_key, is_zip_magic, member_output_name, probe, probe_zip,
    strip_ozip_ext, OzipError, OzipLayout, KNOWN_KEYS, PERIOD,
};

fn encrypt(key: &[u8; 16], block: &[u8; 16]) -> [u8; 16] {
    let cipher = aes::Aes128::new(cipher::generic_array::GenericArray::from_slice(key));
    let mut b = cipher::generic_array::GenericArray::clone_from_slice(block);
    cipher.encrypt_block(&mut b);
    b.into()
}

fn payload(key: &[u8; 16], len: usize) -> (Vec<u8>, Vec<u8>) {
    // plaintext and its ozip encoding
    let plain: Vec<u8> = (0..len).map(|i| (i * 7 + 3) as u8).collect();
    let mut enc = plain.clone();
    let mut pos = 0;
    while pos < len {
        if len - pos < 16 {
            break;
        }
        let mut block = [0u8; 16];
        block.copy_from_slice(&plain[pos..pos + 16]);
        enc[pos..pos + 16].copy_from_slice(&encrypt(key, &block));
        pos += PERIOD;
    }
    (plain, enc)
}

#[test]
fn magic_is_recognised() {
    assert!(probe(b"OPPOENCRYPT!rest"));
    assert!(!probe(b"OPPOENCRYPT"));
    assert!(!probe(b"OPPOENCRYPT?"));
}

#[test]
fn layouts_are_classified() {
    assert_eq!(classify(b"PK\x03\x04xxxxxxxx"), Ok(OzipLayout::ZipWrapped));
    assert_eq!(classify(b"OPPOENCRYPT!"), Ok(OzipLayout::Encrypted));
    assert_eq!(classify(b"ANDROID!xxxx"), Err(OzipError::NotOzip(*b"ANDR")));
}

#[test]
fn key_is_found_by_plaintext_magic() {
    let key = KNOWN_KEYS[3];
    let mut plain = [0u8; 16];
    plain[..4].copy_from_slice(b"PK\x03\x04");
    assert_eq!(find_key(&encrypt(&key, &plain)), Some(key));
    plain[..4].copy_from_slice(b"AVB0");
    assert_eq!(find_key(&encrypt(&KNOWN_KEYS[30], &plain)), Some(KNOWN_KEYS[30]));
    assert_eq!(find_key(&[0u8; 16]).is_some(), false);
}

#[test]
fn payload_decrypts_block_by_period() {
    let key = KNOWN_KEYS[0];
    let (plain, enc) = payload(&key, 2 * PERIOD + 20);
    let dec = decrypt_payload(&key, &enc);
    assert_eq!(dec, plain);
    let (plain_tail, enc_tail) = payload(&key, PERIOD + 10);
    assert_eq!(decrypt_payload(&key, &enc_tail), plain_tail);
    assert_eq!(decrypt_payload(&key, &[1, 2, 3]), vec![1, 2, 3]);
}

#[test]
fn payload_decrypts_in_period_pieces() {
    let key = KNOWN_KEYS[7];
    let (_, enc) = payload(&key, 3 * PERIOD + 100);
    let whole = decrypt_payload(&key, &enc);
    let mut pieces = decrypt_payload(&key, &enc[..PERIOD]);
    pieces.extend(decrypt_payload(&key, &enc[PERIOD..3 * PERIOD]));
    pieces.extend(decrypt_payload(&key, &enc[3 * PERIOD..]));
    assert_eq!(pieces, whole);
}

#[test]
fn ozip_extension_is_stripped() {
    assert_eq!(strip_ozip_ext("boot.ozip"), "boot");
    assert_eq!(strip_ozip_ext("system.new.dat.br.ozip"), "system.new.dat.br");
    assert_eq!(strip_ozip_ext("BOOT.OZIP"), "BOOT");
    assert_eq!(strip_ozip_ext("boot.img"), "boot.img");
    assert_eq!(member_output_name("dir/boot.ozip", true), "boot");
    assert_eq!(member_output_name("dir/boot.ozip", false), "boot.ozip");
}

#[test]
fn zip_wrapped_ozip_is_probed() {
    assert!(probe_zip(&vec!["a.txt".to_string(), "x/Boot.OZIP".to_string()]));
    assert!(!probe_zip(&vec!["a.txt".to_string()]));
    assert!(is_zip_magic(b"PK\x03\x04"));
    assert!(!is_zip_magic(b"P"));
}

//! OPPO ozip images: the encrypted payload layout, key search and naming.
use aes::cipher::{BlockDecrypt, KeyInit};
use vstd::prelude::*;
use crate::bytes::starts_with_bytes;
use crate::text::{
    base_name, base_or_self, chars_of, has_suffix, lowercase_ends_with, lowercase_of, string_of,
    strip_suffix, without_suffix,
};

verus! {

/// Size of the ozip header that precedes the encrypted payload.
pub const HEADER_SIZE: u64 = 0x1050;

/// Length of each encrypted block of the payload.
pub const BLOCK_ENC: usize = 16;

/// Length of the plaintext run that follows each encrypted block.
pub const BLOCK_PLAIN: usize = 0x4000;

/// One period of the payload layout: an encrypted block and a plaintext run.
pub const PERIOD: usize = 0x4010;

/// The AES-128 keys known to protect ozip payloads.
pub const KNOWN_KEYS: [[u8; 16]; 35] = [
    [0xD6, 0xEE, 0xCF, 0x0A, 0xE5, 0xAC, 0xD4, 0xE0, 0xE9, 0xFE, 0x52, 0x2D, 0xE7, 0xCE, 0x38, 0x1E],
    [0xD6, 0xEC, 0xCF, 0x0A, 0xE5, 0xAC, 0xD4, 0xE0, 0xE9, 0x2E, 0x52, 0x2D, 0xE7, 0xC1, 0x38, 0x1E],
    [0xD6, 0xDC, 0xCF, 0x0A, 0xD5, 0xAC, 0xD4, 0xE0, 0x29, 0x2E, 0x52, 0x2D, 0xB7, 0xC1, 0x38, 0x1E],
    [0xD7, 0xDC, 0xCE, 0x1A, 0xD4, 0xAF, 0xDC, 0xE2, 0x39, 0x3E, 0x51, 0x61, 0xCB, 0xDC, 0x43, 0x21],
    [0xD7, 0xDB, 0xCE, 0x2A, 0xD4, 0xAD, 0xDC, 0xE1, 0x39, 0x3E, 0x55, 0x21, 0xCB, 0xDC, 0x43, 0x21],
    [0xD7, 0xDB, 0xCE, 0x1A, 0xD4, 0xAF, 0xDC, 0xE1, 0x39, 0x3E, 0x51, 0x21, 0xCB, 0xDC, 0x43, 0x21],
    [0xD4, 0xD2, 0xCD, 0x61, 0xD4, 0xAF, 0xDC, 0xE1, 0x3B, 0x5E, 0x01, 0x22, 0x1B, 0xD1, 0x4D, 0x20],
    [0x26, 0x1C, 0xC7, 0x13, 0x1D, 0x7C, 0x14, 0x81, 0x29, 0x4E, 0x53, 0x2D, 0xB7, 0x52, 0x38, 0x1E],
    [0x1C, 0xA2, 0x1E, 0x12, 0x27, 0x13, 0x35, 0xAE, 0x33, 0xAB, 0x81, 0xB2, 0xA7, 0xB1, 0x46, 0x22],
    [0xD4, 0xD2, 0xCE, 0x11, 0xD4, 0xAF, 0xDC, 0xE1, 0x3B, 0x3E, 0x01, 0x21, 0xCB, 0xD1, 0x4D, 0x20],
    [0x1C, 0x4C, 0x1E, 0xA3, 0xA1, 0x25, 0x31, 0xAE, 0x49, 0x1B, 0x21, 0xBB, 0x31, 0x61, 0x3C, 0x11],
    [0x1C, 0x4C, 0x1E, 0xA3, 0xA1, 0x25, 0x31, 0xAE, 0x4A, 0x1B, 0x21, 0xBB, 0x31, 0xC1, 0x3C, 0x21],
    [0x1C, 0x4A, 0x11, 0xA3, 0xA1, 0x25, 0x13, 0xAE, 0x44, 0x1B, 0x23, 0xBB, 0x31, 0x51, 0x31, 0x21],
    [0x1C, 0x4A, 0x11, 0xA3, 0xA1, 0x25, 0x89, 0xAE, 0x44, 0x1A, 0x23, 0xBB, 0x31, 0x51, 0x77, 0x33],
    [0x1C, 0x4A, 0x11, 0xA3, 0xA2, 0x25, 0x13, 0xAE, 0x54, 0x1B, 0x53, 0xBB, 0x31, 0x51, 0x31, 0x21],
    [0x24, 0x42, 0xCE, 0x82, 0x1A, 0x4F, 0x35, 0x2E, 0x33, 0xAE, 0x81, 0xB2, 0x2B, 0xC1, 0x46, 0x2E],
    [0x14, 0xC2, 0xCD, 0x62, 0x14, 0xCF, 0xDC, 0x27, 0x33, 0xAE, 0x81, 0xB2, 0x2B, 0xC1, 0x46, 0x2C],
    [0x1E, 0x38, 0xC1, 0xB7, 0x2D, 0x52, 0x2E, 0x29, 0xE0, 0xD4, 0xAC, 0xD5, 0x0A, 0xCF, 0xDC, 0xD6],
    [0x12, 0x34, 0x1E, 0xAA, 0xC4, 0xC1, 0x23, 0xCE, 0x19, 0x35, 0x56, 0xA1, 0xBB, 0xCC, 0x23, 0x2D],
    [0x21, 0x43, 0xDC, 0xCB, 0x21, 0x51, 0x3E, 0x39, 0xE1, 0xDC, 0xAF, 0xD4, 0x1A, 0xCE, 0xDB, 0xD7],
    [0x2D, 0x23, 0xCC, 0xBB, 0xA1, 0x56, 0x35, 0x19, 0xCE, 0x23, 0xC1, 0xC4, 0xAA, 0x1E, 0x34, 0x12],
    [0x17, 0x2B, 0x3E, 0x14, 0xE4, 0x6F, 0x3C, 0xE1, 0x3E, 0x2B, 0x51, 0x21, 0xCB, 0xDC, 0x43, 0x21],
    [0xAC, 0xAA, 0x1E, 0x12, 0xA7, 0x14, 0x31, 0xCE, 0x4A, 0x1B, 0x21, 0xBB, 0xA1, 0xC1, 0xC6, 0xA2],
    [0xAC, 0xAC, 0x1E, 0x13, 0xA7, 0x25, 0x31, 0xAE, 0x4A, 0x1B, 0x22, 0xBB, 0x31, 0xC1, 0xCC, 0x22],
    [0x1C, 0x44, 0x11, 0xA3, 0xA1, 0x25, 0x33, 0xAE, 0x44, 0x1B, 0x21, 0xBB, 0x31, 0x61, 0x3C, 0x11],
    [0x1C, 0x44, 0x16, 0xA8, 0xA4, 0x27, 0x17, 0xAE, 0x44, 0x15, 0x23, 0xB3, 0x36, 0x51, 0x31, 0x21],
    [0x55, 0xEE, 0xAA, 0x33, 0x11, 0x21, 0x33, 0xAE, 0x44, 0x1B, 0x23, 0xBB, 0x31, 0x51, 0x31, 0x21],
    [0xAC, 0xAC, 0x1E, 0x13, 0xA1, 0x25, 0x31, 0xAE, 0x4A, 0x1B, 0x21, 0xBB, 0x31, 0xC1, 0x3C, 0x21],
    [0xAC, 0xAC, 0x1E, 0x13, 0xA7, 0x24, 0x31, 0xAE, 0x4A, 0x1B, 0x22, 0xBB, 0xA1, 0xC1, 0xC6, 0xA2],
    [0x12, 0xCA, 0xC1, 0x12, 0x11, 0xAA, 0xC3, 0xAE, 0xA2, 0x65, 0x86, 0x90, 0x12, 0x2C, 0x1E, 0x81],
    [0x1C, 0xA2, 0x1E, 0x12, 0x27, 0x14, 0x35, 0xAE, 0x33, 0x1B, 0x81, 0xBB, 0xA7, 0xC1, 0x46, 0x12],
    [0xD1, 0xDA, 0xCF, 0x24, 0x35, 0x1C, 0xE4, 0x28, 0xA9, 0xCE, 0x32, 0xED, 0x87, 0x32, 0x32, 0x16],
    [0xA1, 0xCC, 0x75, 0x11, 0x5C, 0xAE, 0xCB, 0x89, 0x0E, 0x4A, 0x56, 0x3C, 0xA1, 0xAC, 0x67, 0xC8],
    [0x21, 0x32, 0x32, 0x1E, 0xA2, 0xCA, 0x86, 0x62, 0x1A, 0x11, 0x24, 0x1A, 0xBA, 0x51, 0x27, 0x22],
    [0x22, 0xA2, 0x1E, 0x82, 0x17, 0x43, 0xE5, 0xEE, 0x33, 0xAE, 0x81, 0xB2, 0x27, 0xB1, 0x46, 0x2E],
];

/// What AES-128 decryption (the `aes` crate's `Aes128`) of one block gives.
pub uninterp spec fn aes128_decrypt(key: Seq<u8>, block: Seq<u8>) -> Seq<u8>;

/// Trusted: decrypts one 16-byte block with `aes::Aes128` (key set up with `KeyInit::new`,
/// block decrypted with `BlockDecrypt::decrypt_block`). The result is named by `aes128_decrypt`.
#[verifier::external_body]
pub(crate) fn decrypt_block(key: &[u8; 16], block: &[u8; 16]) -> (r: [u8; 16])
    ensures
        r@ == aes128_decrypt(key@, block@),
{
    let cipher = aes::Aes128::new(cipher::generic_array::GenericArray::from_slice(key));
    let mut b = cipher::generic_array::GenericArray::clone_from_slice(block);
    cipher.decrypt_block(&mut b);
    b.into()
}

/// The ozip magic, "OPPOENCRYPT!".
pub open spec fn ozip_magic() -> Seq<u8> {
    seq![0x4Fu8, 0x50, 0x50, 0x4F, 0x45, 0x4E, 0x43, 0x52, 0x59, 0x50, 0x54, 0x21]
}

fn is_ozip_magic_at_start(data: &[u8]) -> (r: bool)
    requires
        data@.len() >= 12,
    ensures
        r == (data@.subrange(0, 12) == ozip_magic()),
{
    let r = data[0] == 0x4F && data[1] == 0x50 && data[2] == 0x50 && data[3] == 0x4F && data[4]
        == 0x45 && data[5] == 0x4E && data[6] == 0x43 && data[7] == 0x52 && data[8] == 0x59
        && data[9] == 0x50 && data[10] == 0x54 && data[11] == 0x21;
    proof {
        if r {
            assert(data@.subrange(0, 12) =~= ozip_magic());
        } else {
            if data@.subrange(0, 12) == ozip_magic() {
                assert(data@.subrange(0, 12)[0] == ozip_magic()[0]);
                assert(data@.subrange(0, 12)[1] == ozip_magic()[1]);
                assert(data@.subrange(0, 12)[2] == ozip_magic()[2]);
                assert(data@.subrange(0, 12)[3] == ozip_magic()[3]);
                assert(data@.subrange(0, 12)[4] == ozip_magic()[4]);
                assert(data@.subrange(0, 12)[5] == ozip_magic()[5]);
                assert(data@.subrange(0, 12)[6] == ozip_magic()[6]);
                assert(data@.subrange(0, 12)[7] == ozip_magic()[7]);
                assert(data@.subrange(0, 12)[8] == ozip_magic()[8]);
                assert(data@.subrange(0, 12)[9] == ozip_magic()[9]);
                assert(data@.subrange(0, 12)[10] == ozip_magic()[10]);
                assert(data@.subrange(0, 12)[11] == ozip_magic()[11]);
            }
        }
    }
    r
}

/// Whether data starts with the "OPPOENCRYPT!" magic.
pub fn probe(data: &[u8]) -> (r: bool)
    ensures
        r == (data@.len() >= 12 && data@.subrange(0, 12) == ozip_magic()),
{
    data.len() >= 12 && is_ozip_magic_at_start(data)
}

/// Whether a decrypted first block looks like plaintext: it starts with a zip local
/// header ("PK\x03\x04"), "ANDR" (an Android boot image) or "AVB0" (a vbmeta image).
pub open spec fn plausible_plaintext(b: Seq<u8>) -> bool {
    b.len() >= 4 && ((b[0] == 0x50 && b[1] == 0x4B && b[2] == 0x03 && b[3] == 0x04) || (b[0]
        == 0x41 && b[1] == 0x4E && b[2] == 0x44 && b[3] == 0x52) || (b[0] == 0x41 && b[1]
        == 0x56 && b[2] == 0x42 && b[3] == 0x30))
}

/// The first known key, from index `i` on, that decrypts `block` to plausible plaintext.
pub open spec fn first_key_from(block: Seq<u8>, i: int) -> Option<Seq<u8>>
    decreases 35 - i,
{
    if i < 0 || i >= 35 {
        None
    } else if plausible_plaintext(aes128_decrypt(KNOWN_KEYS@[i]@, block)) {
        Some(KNOWN_KEYS@[i]@)
    } else {
        first_key_from(block, i + 1)
    }
}

/// Tries each known key, in order, and returns the first that decrypts the first
/// encrypted block to plausible plaintext.
pub fn find_key(first_enc_block: &[u8; 16]) -> (r: Option<[u8; 16]>)
    ensures
        match r {
            Some(k) => first_key_from(first_enc_block@, 0) == Some(k@),
            None => first_key_from(first_enc_block@, 0) is None,
        },
{
    let mut i: usize = 0;
    while i < 35
        invariant
            i <= 35,
            first_key_from(first_enc_block@, 0) == first_key_from(first_enc_block@, i as int),
        decreases 35 - i,
    {
        let key = KNOWN_KEYS[i];
        let b = decrypt_block(&key, first_enc_block);
        if b[0] == 0x50 && b[1] == 0x4B && b[2] == 0x03 && b[3] == 0x04 || b[0] == 0x41 && b[1]
            == 0x4E && b[2] == 0x44 && b[3] == 0x52 || b[0] == 0x41 && b[1] == 0x56 && b[2] == 0x42
            && b[3] == 0x30 {
            return Some(key);
        }
        i = i + 1;
    }
    None
}

/// The plaintext of an ozip payload (the file after its header) under `key`: the
/// payload is a run of periods, each one 16-byte AES block followed by up to 0x4000
/// plaintext bytes; a final piece shorter than a block is left as it is.
pub open spec fn ozip_plain(key: Seq<u8>, s: Seq<u8>) -> Seq<u8>
    decreases s.len(),
{
    if s.len() < 16 {
        s
    } else if s.len() <= 0x4010 {
        aes128_decrypt(key, s.take(16)) + s.subrange(16, s.len() as int)
    } else {
        aes128_decrypt(key, s.take(16)) + s.subrange(16, 0x4010) + ozip_plain(key, s.skip(0x4010))
    }
}

/// Decrypting a payload in pieces, each piece but the last a whole number of periods
/// long, gives the same bytes as decrypting it at once.
pub proof fn lemma_ozip_plain_concat(key: Seq<u8>, a: Seq<u8>, b: Seq<u8>)
    requires
        a.len() % 0x4010 == 0,
    ensures
        ozip_plain(key, a + b) == ozip_plain(key, a) + ozip_plain(key, b),
    decreases a.len(),
{
    let ab = a + b;
    if a.len() == 0 {
        assert(ab =~= b);
        assert(ozip_plain(key, a) + ozip_plain(key, b) =~= ozip_plain(key, b));
    } else {
        assert(ab.take(16) =~= a.take(16));
        if b.len() == 0 {
            assert(ab =~= a);
            assert(ozip_plain(key, b) =~= Seq::<u8>::empty());
            assert(ozip_plain(key, a) + Seq::<u8>::empty() =~= ozip_plain(key, a));
        } else {
            assert(ab.skip(0x4010) =~= a.skip(0x4010) + b);
            assert(ab.subrange(16, 0x4010) =~= a.subrange(16, 0x4010));
            lemma_ozip_plain_concat(key, a.skip(0x4010), b);
            let head = aes128_decrypt(key, a.take(16)) + a.subrange(16, 0x4010);
            if a.len() == 0x4010 {
                assert(a.skip(0x4010) =~= Seq::<u8>::empty());
                assert(a.skip(0x4010) + b =~= b);
                assert(a.subrange(16, a.len() as int) =~= a.subrange(16, 0x4010));
                assert(ozip_plain(key, a.skip(0x4010)) =~= Seq::<u8>::empty());
            } else {
                assert(ozip_plain(key, a) == head + ozip_plain(key, a.skip(0x4010)));
            }
            assert(head + (ozip_plain(key, a.skip(0x4010)) + ozip_plain(key, b)) =~= head
                + ozip_plain(key, a.skip(0x4010)) + ozip_plain(key, b));
        }
    }
}

/// Decrypts an ozip payload, or any piece of it that starts at a period boundary.
pub fn decrypt_payload(key: &[u8; 16], payload: &[u8]) -> (r: Vec<u8>)
    ensures
        r@ == ozip_plain(key@, payload@),
        r@.len() == payload@.len(),
{
    let n = payload.len();
    let mut out: Vec<u8> = Vec::new();
    let mut pos: usize = 0;
    assert(payload@.skip(0) =~= payload@);
    while pos < n
        invariant
            n == payload@.len(),
            pos <= n,
            out@ + ozip_plain(key@, payload@.skip(pos as int)) == ozip_plain(key@, payload@),
            out@.len() == pos,
        decreases n - pos,
    {
        let ghost rest = payload@.skip(pos as int);
        let ghost out0 = out@;
        if n - pos < 16 {
            let mut k = pos;
            while k < n
                invariant
                    pos <= k <= n,
                    n == payload@.len(),
                    out@ == out0 + payload@.subrange(pos as int, k as int),
                decreases n - k,
            {
                out.push(payload[k]);
                assert(payload@.subrange(pos as int, k + 1) =~= payload@.subrange(
                    pos as int,
                    k as int,
                ).push(payload@[k as int]));
                k = k + 1;
            }
            assert(rest =~= payload@.subrange(pos as int, n as int));
            assert(payload@.skip(n as int) =~= Seq::<u8>::empty());
            assert(out@ + Seq::<u8>::empty() =~= out@);
            assert(ozip_plain(key@, payload@.skip(n as int)) =~= Seq::<u8>::empty());
            pos = n;
        } else {
            let block: [u8; 16] = [
                payload[pos], payload[pos + 1], payload[pos + 2], payload[pos + 3], payload[pos
                + 4], payload[pos + 5], payload[pos + 6], payload[pos + 7], payload[pos + 8],
                payload[pos + 9], payload[pos + 10], payload[pos + 11], payload[pos + 12],
                payload[pos + 13], payload[pos + 14], payload[pos + 15],
            ];
            assert(block@ =~= rest.take(16));
            let dec = decrypt_block(key, &block);
            let mut j: usize = 0;
            while j < 16
                invariant
                    j <= 16,
                    out@ == out0 + dec@.take(j as int),
                decreases 16 - j,
            {
                out.push(dec[j]);
                assert(dec@.take(j + 1) =~= dec@.take(j as int).push(dec@[j as int]));
                j = j + 1;
            }
            assert(dec@.take(16) =~= dec@);
            let end = if n - pos <= PERIOD { n } else { pos + PERIOD };
            let ghost out1 = out@;
            let mut k = pos + 16;
            while k < end
                invariant
                    pos + 16 <= k <= end <= n,
                    n == payload@.len(),
                    out@ == out1 + payload@.subrange(pos + 16, k as int),
                decreases end - k,
            {
                out.push(payload[k]);
                assert(payload@.subrange(pos + 16, k + 1) =~= payload@.subrange(
                    pos + 16,
                    k as int,
                ).push(payload@[k as int]));
                k = k + 1;
            }
            proof {
                if n - pos <= PERIOD {
                    assert(rest.subrange(16, rest.len() as int) =~= payload@.subrange(
                        pos + 16,
                        n as int,
                    ));
                    assert(payload@.skip(n as int) =~= Seq::<u8>::empty());
                    assert(ozip_plain(key@, payload@.skip(n as int)) =~= Seq::<u8>::empty());
                    assert(out@ + Seq::<u8>::empty() =~= out@);
                    assert(out@ =~= out0 + ozip_plain(key@, rest));
                } else {
                    assert(rest.subrange(16, 0x4010) =~= payload@.subrange(pos + 16, end as int));
                    assert(rest.skip(0x4010) =~= payload@.skip(end as int));
                    assert(out0 + ozip_plain(key@, rest) =~= out@ + ozip_plain(
                        key@,
                        payload@.skip(end as int),
                    ));
                }
            }
            pos = end;
        }
    }
    out
}

/// What the first bytes of an ozip file say about its layout.
#[derive(Debug, Clone, Copy, PartialEq, Eq)]
pub enum OzipLayout {
    /// A standard zip ("PK") whose members may themselves be ozip files.
    ZipWrapped,
    /// An "OPPOENCRYPT!" header followed by the encrypted payload.
    Encrypted,
}

/// Why a file is not an ozip file.
#[derive(Debug, Clone, Copy, PartialEq, Eq)]
pub enum OzipError {
    /// Neither a zip nor an "OPPOENCRYPT!" header; holds the first four bytes.
    NotOzip([u8; 4]),
    /// No known key decrypts the first block to plausible plaintext.
    NoMatchingKey,
}

/// Classifies an ozip file by its first 12 bytes: "PK" first, then the ozip magic.
pub fn classify(magic: &[u8; 12]) -> (r: Result<OzipLayout, OzipError>)
    ensures
        match r {
            Ok(OzipLayout::ZipWrapped) => magic@[0] == 0x50 && magic@[1] == 0x4B,
            Ok(OzipLayout::Encrypted) => !(magic@[0] == 0x50 && magic@[1] == 0x4B) && magic@
                == ozip_magic(),
            Err(e) => !(magic@[0] == 0x50 && magic@[1] == 0x4B) && magic@ != ozip_magic() && e
                == OzipError::NotOzip([magic[0], magic[1], magic[2], magic[3]]),
        },
{
    if magic[0] == 0x50 && magic[1] == 0x4B {
        return Ok(OzipLayout::ZipWrapped);
    }
    let m: &[u8] = magic;
    assert(m@.subrange(0, 12) =~= magic@);
    if is_ozip_magic_at_start(m) {
        return Ok(OzipLayout::Encrypted);
    }
    Err(OzipError::NotOzip([magic[0], magic[1], magic[2], magic[3]]))
}

/// `name` without a final ".ozip", or else without a final ".OZIP".
pub open spec fn without_ozip(name: Seq<char>) -> Seq<char> {
    match without_suffix(name, ".ozip"@) {
        Some(b) => b,
        None => match without_suffix(name, ".OZIP"@) {
            Some(b) => b,
            None => name,
        },
    }
}

/// Strips the ".ozip" extension: "boot.ozip" gives "boot" and
/// "system.new.dat.br.ozip" gives "system.new.dat.br".
pub fn strip_ozip_ext(name: &str) -> (r: String)
    ensures
        r@ == without_ozip(name@),
{
    let n = chars_of(name);
    match strip_suffix(n.as_slice(), chars_of(".ozip").as_slice()) {
        Some(b) => string_of(b.as_slice()),
        None => match strip_suffix(n.as_slice(), chars_of(".OZIP").as_slice()) {
            Some(b) => string_of(b.as_slice()),
            None => name.to_owned(),
        },
    }
}

/// The output name of a member of a zip-wrapped ozip: its final name component, without
/// its ".ozip" extension when its contents were encrypted.
pub open spec fn member_output(member: Seq<char>, encrypted: bool) -> Seq<char> {
    if encrypted {
        without_ozip(base_or_self(member))
    } else {
        base_or_self(member)
    }
}

/// Names the output of a zip member (see `member_output`).
pub fn member_output_name(member: &str, encrypted: bool) -> (r: String)
    ensures
        r@ == member_output(member@, encrypted),
{
    let base = base_name(member);
    if encrypted {
        strip_ozip_ext(base.as_str())
    } else {
        base
    }
}

/// Whether a zip with the given member names wraps ozip files: some member name, in
/// lower case, ends with ".ozip".
pub fn probe_zip(names: &Vec<String>) -> (r: bool)
    ensures
        r == exists|i: int|
            0 <= i < names@.len() && has_suffix(lowercase_of(#[trigger] names@[i]@), ".ozip"@),
{
    let mut i: usize = 0;
    while i < names.len()
        invariant
            i <= names@.len(),
            forall|k: int|
                0 <= k < i ==> !has_suffix(lowercase_of(#[trigger] names@[k]@), ".ozip"@),
        decreases names.len() - i,
    {
        if lowercase_ends_with(names[i].as_str(), ".ozip") {
            return true;
        }
        i = i + 1;
    }
    false
}

/// Whether decrypted data starts like a zip ("PK").
pub fn is_zip_magic(head: &[u8]) -> (r: bool)
    ensures
        r == (head@.len() >= 2 && head@[0] == 0x50 && head@[1] == 0x4B),
{
    head.len() >= 2 && head[0] == 0x50 && head[1] == 0x4B
}

/// A file that `probe` recognises as an ozip file is classified as an encrypted
/// payload, never as a zip wrapper: the magic starts with 'O', not "PK".
pub proof fn lemma_probe_means_encrypted(magic: Seq<u8>)
    requires
        magic.len() == 12,
        magic == ozip_magic(),
    ensures
        !(magic[0] == 0x50 && magic[1] == 0x4B),
{
}

/// Whether a decrypted block starts with one of the prefixes the original tests for: a zip
/// local header, "ANDR" (of "ANDROID!", a boot image) or "AVB0" (a vbmeta image).
pub open spec fn known_plaintext_prefix(b: Seq<u8>) -> bool {
    ||| starts_with_bytes(b, seq![0x50u8, 0x4B, 0x03, 0x04])
    ||| starts_with_bytes(b, seq![0x41u8, 0x4E, 0x44, 0x52])
    ||| starts_with_bytes(b, seq![0x41u8, 0x56, 0x42, 0x30])
}

proof fn lemma_plausible_is_known_prefix(b: Seq<u8>)
    ensures
        plausible_plaintext(b) == known_plaintext_prefix(b),
{
    if b.len() >= 4 {
        let t = b.take(4);
        assert(t[0] == b[0] && t[1] == b[1] && t[2] == b[2] && t[3] == b[3]);
        if b[0] == 0x50 && b[1] == 0x4B && b[2] == 0x03 && b[3] == 0x04 {
            assert(t =~= seq![0x50u8, 0x4B, 0x03, 0x04]);
        }
        if b[0] == 0x41 && b[1] == 0x4E && b[2] == 0x44 && b[3] == 0x52 {
            assert(t =~= seq![0x41u8, 0x4E, 0x44, 0x52]);
        }
        if b[0] == 0x41 && b[1] == 0x56 && b[2] == 0x42 && b[3] == 0x30 {
            assert(t =~= seq![0x41u8, 0x56, 0x42, 0x30]);
        }
    }
}

proof fn lemma_first_key_from(block: Seq<u8>, i: int)
    requires
        0 <= i <= 35,
    ensures
        forall|j: int|
            i <= j < 35 && known_plaintext_prefix(#[trigger] aes128_decrypt(KNOWN_KEYS@[j]@, block))
                && (forall|m: int|
                i <= m < j ==> !known_plaintext_prefix(
                    #[trigger] aes128_decrypt(KNOWN_KEYS@[m]@, block),
                )) ==> first_key_from(block, i) == Some(KNOWN_KEYS@[j]@),
        (forall|j: int|
            i <= j < 35 ==> !known_plaintext_prefix(#[trigger] aes128_decrypt(KNOWN_KEYS@[j]@, block)))
            ==> first_key_from(block, i) is None,
    decreases 35 - i,
{
    if i < 35 {
        lemma_plausible_is_known_prefix(aes128_decrypt(KNOWN_KEYS@[i]@, block));
        lemma_first_key_from(block, i + 1);
    }
}

/// The key search picks the first known key, in table order, whose decryption of the
/// first block starts with a zip local header, "ANDR" or "AVB0", and finds none exactly
/// when no known key gives such a block.
pub proof fn lemma_find_key_first_recognised(block: Seq<u8>)
    ensures
        forall|j: int|
            0 <= j < 35 && known_plaintext_prefix(#[trigger] aes128_decrypt(KNOWN_KEYS@[j]@, block))
                && (forall|m: int|
                0 <= m < j ==> !known_plaintext_prefix(
                    #[trigger] aes128_decrypt(KNOWN_KEYS@[m]@, block),
                )) ==> first_key_from(block, 0) == Some(KNOWN_KEYS@[j]@),
        (forall|j: int|
            0 <= j < 35 ==> !known_plaintext_prefix(#[trigger] aes128_decrypt(KNOWN_KEYS@[j]@, block)))
            ==> first_key_from(block, 0) is None,
{
    lemma_first_key_from(block, 0);
}

} // verus!

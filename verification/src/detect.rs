//! Format detection from the first bytes of a file.
use vstd::prelude::*;
use crate::nb0;
use crate::pac::{self, pac_v2_magic};
use crate::bytes::le32;
use crate::mtk_sign::{self, is_sign_entry};
use crate::zte::names_view;

verus! {

/// Whether the member names of a zip are known and one of them marks a signed image.
pub open spec fn zip_has_sign_entry(zip_names: Option<Seq<Seq<char>>>) -> bool {
    &&& zip_names is Some
    &&& exists|i: int|
        0 <= i < zip_names->0.len() && is_sign_entry(#[trigger] zip_names->0[i])
}

/// The format name for the first 64 bytes of a file (zero-padded), its size, whether it
/// is an Android sparse image and, for a file starting with "PK" that opens as a zip, its
/// member names. The probes run in a fixed order: PAC, sparse, NB0, then the zip-based
/// MediaTek signed-image probe; anything else is "unknown".
pub open spec fn detected_format(
    buf: Seq<u8>,
    file_size: u64,
    sparse: bool,
    zip_names: Option<Seq<Seq<char>>>,
) -> Seq<char> {
    if pac_v2_magic(buf) {
        "pac"@
    } else if sparse {
        "sparse"@
    } else if 0 < le32(buf, 0) < 256 && file_size >= 4 + le32(buf, 0) * 64 {
        "nb0"@
    } else if buf[0] == 0x50 && buf[1] == 0x4B && zip_has_sign_entry(zip_names) {
        "mtk_sign"@
    } else {
        "unknown"@
    }
}

/// Identifies a firmware format (see `detected_format`).
pub fn probe_magic(
    buf: &[u8; 64],
    file_size: u64,
    sparse: bool,
    zip_names: Option<&Vec<String>>,
) -> (r: &'static str)
    ensures
        r@ == detected_format(
            buf@,
            file_size,
            sparse,
            match zip_names {
                Some(v) => Some(names_view(v@)),
                None => None,
            },
        ),
{
    let b: &[u8] = buf;
    if pac::probe(b) {
        return "pac";
    }
    if sparse {
        return "sparse";
    }
    if nb0::probe(b, file_size) {
        return "nb0";
    }
    if b[0] == 0x50 && b[1] == 0x4B {
        match zip_names {
            Some(names) => {
                let ghost nv = names_view(names@);
                if mtk_sign::probe_zip(names) {
                    proof {
                        let k = choose|k: int|
                            0 <= k < names@.len() && is_sign_entry(#[trigger] names@[k]@);
                        assert(nv[k] == names@[k]@);
                        assert(is_sign_entry(nv[k]));
                        let z = Some(nv);
                        assert(is_sign_entry(z->0[k]));
                        assert(zip_has_sign_entry(z));
                    }
                    return "mtk_sign";
                }
                proof {
                    assert forall|k: int| 0 <= k < nv.len() implies !is_sign_entry(
                        #[trigger] nv[k],
                    ) by {
                        assert(nv[k] == names@[k]@);
                    }
                }
            },
            None => {},
        }
    }
    "unknown"
}

/// The probes run in a fixed order: a PAC header wins over everything else, and a
/// sparse image over an NB0 count or a zip.
pub proof fn lemma_probe_order(
    buf: Seq<u8>,
    file_size: u64,
    sparse: bool,
    zip_names: Option<Seq<Seq<char>>>,
)
    ensures
        pac_v2_magic(buf) ==> detected_format(buf, file_size, sparse, zip_names) == "pac"@,
        !pac_v2_magic(buf) && sparse ==> detected_format(buf, file_size, sparse, zip_names)
            == "sparse"@,
{
}
} // verus!

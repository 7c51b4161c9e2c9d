use firmware_parsers::detect::probe_magic;
use firmware_parsers::kddi;
use firmware_parsers::mtk_sign::{self, MtkError};
use firmware_parsers::qfil::{self, Action, Program, QfilError, RawprogramChoice, Source};
use firmware_parsers::sparse::has_sparse_magic;
use firmware_parsers::zte::{self, ZteMode};

fn names(v: &[&str]) -> Vec<String> {
    v.iter().map(|s| s.to_string()).collect()
}

#[test]
fn mtk_signed_images() {
    let n = names(&["a/boot-sign.img", "readme", "LK-SIGN.IMG"]);
    assert!(mtk_sign::probe_zip(&n));
    assert_eq!(mtk_sign::sign_entries(&n), vec![0, 2]);
    assert!(!mtk_sign::probe_zip(&names(&["boot.img"])));

    let mut ssss = b"SSSS".to_vec();
    ssss.resize(64, 0);
    ssss[60] = 2;
    ssss.extend_from_slice(b"xyz");
    assert_eq!(mtk_sign::strip_header(&ssss), Ok((64, 2)));
    ssss[63] = 1;
    assert_eq!(
        mtk_sign::strip_header(&ssss),
        Err(MtkError::PayloadBeyondFile { offset: 64, size: (1 << 24) + 2, file: 67 })
    );
    assert_eq!(mtk_sign::strip_header(&vec![0u8; 0x4045]), Ok((0x4040, 5)));
    assert_eq!(mtk_sign::strip_header(&vec![0u8; 0x4040]), Err(MtkError::TooSmall { file: 0x4040 }));
}

#[test]
fn zte_modes() {
    assert_eq!(zte::probe_zip(&names(&["system-p00", "system-p01", "boot.bin"])), Some(ZteMode::PChunks));
    assert_eq!(zte::probe_zip(&names(&["dir/boot.bin", "notes.txt"])), Some(ZteMode::Bin));
    assert_eq!(zte::probe_zip(&names(&["notes.txt", "foo.bin"])), None);
}

#[test]
fn zte_chunks_are_grouped_and_ordered() {
    let n = names(&["x/System-P02", "vendor-p1", "system-p00", "other.txt", "system-p1"]);
    let parts = zte::chunk_partitions(&n);
    let got: Vec<(String, String, Vec<usize>)> =
        parts.into_iter().map(|p| (p.partition, p.file_name, p.members)).collect();
    assert_eq!(
        got,
        vec![
            ("system".to_string(), "system.img".to_string(), vec![2, 4, 0]),
            ("vendor".to_string(), "vendor.img".to_string(), vec![1]),
        ]
    );
    assert!(zte::chunk_partitions(&names(&["boot.bin"])).is_empty());
}

#[test]
fn zte_and_kddi_bin_members() {
    let n = names(&["a/boot.bin", "cache.img", "Modem.bin", "x.bin"]);
    let got: Vec<(usize, String)> = zte::bin_entries(&n);
    assert_eq!(got, vec![(0, "boot.bin".to_string()), (2, "Modem.bin".to_string())]);
    assert!(kddi::probe_zip(&n));
    assert!(!kddi::probe_zip(&names(&["boot.bin", "rawprogram0.xml"])));
    assert!(!kddi::probe_zip(&names(&["boot.bin", "system-p01"])));
    assert!(!kddi::probe_zip(&names(&["readme"])));
}

fn prog(file: &str, label: &str, sectors: u64, start: u64, offset: u64, ss: Option<u64>) -> Program {
    Program {
        filename: file.into(),
        label: label.into(),
        num_partition_sectors: sectors,
        start_sector: start,
        file_sector_offset: offset,
        sector_size: ss,
    }
}

#[test]
fn qfil_probe_and_xml_choice() {
    assert!(qfil::probe_zip(&names(&["images/RawProgram0.XML"])));
    assert!(!qfil::probe_zip(&names(&["patch0.xml"])));
    let dir = names(&["a.img", "rawprogram1.xml", "rawprogram0.xml"]);
    assert_eq!(qfil::find_rawprogram_xml(true, &dir), Some(RawprogramChoice::Preferred));
    assert_eq!(qfil::find_rawprogram_xml(false, &dir), Some(RawprogramChoice::Listed(1)));
    assert_eq!(qfil::find_rawprogram_xml(false, &names(&["a.img"])), None);
}

#[test]
fn qfil_sparse_chunks_are_ordered_by_number() {
    let dir = names(&[
        "system_sparsechunk.10",
        "system_sparsechunk.2",
        "super.img_sparsechunk.0",
        "system.img_sparsechunk.x",
        "readme",
    ]);
    assert_eq!(qfil::find_sparse_chunks("images/system.img", "system", &dir), vec![3, 1, 0]);
    assert_eq!(qfil::find_sparse_chunks("super.img", "super", &dir), vec![2]);
    assert!(qfil::find_sparse_chunks("boot.img", "boot", &dir).is_empty());
}

#[test]
fn qfil_plan_groups_programs_by_label() {
    let programs = vec![
        prog("boot.img", "boot", 10, 0, 0, None),
        prog("super.img", "super", 4, 200, 4, Some(4096)),
        prog("super.img", "super", 4, 100, 0, Some(4096)),
        prog("", "ignored", 1, 0, 0, None),
        prog("modem.img", "modem", 8, 0, 2, None),
        prog("sys_1.img", "system", 1, 9, 0, None),
        prog("sys_0.img", "system", 1, 5, 0, None),
        prog("userdata.img", "userdata", 1, 0, 0, None),
    ];
    let resolved = vec![true, true, true, false, true, true, false, false];
    let dir = names(&["userdata_sparsechunk.1", "userdata_sparsechunk.0"]);
    let plan = qfil::plan(&programs, &resolved, &dir).ok().unwrap();
    let labels: Vec<&str> = plan.iter().map(|o| o.name.as_str()).collect();
    assert_eq!(labels, vec!["boot.img", "modem.img", "super.img", "system.img", "userdata.img"]);
    assert!(matches!(plan[0].action, Action::CopyFile(0)));
    assert!(matches!(plan[1].action, Action::CopyRange { program: 4, offset: 1024, length: 4096 }));
    match &plan[2].action {
        Action::Slices { program, slices } => {
            assert_eq!(*program, 2);
            assert_eq!(slices, &vec![(0, 16384), (16384, 16384)]);
        }
        _ => panic!("expected slices"),
    }
    match &plan[3].action {
        Action::Concat(srcs) => assert_eq!(srcs, &vec![Source::Program(5)]),
        _ => panic!("expected concatenation"),
    }
    match &plan[4].action {
        Action::Concat(srcs) => assert_eq!(srcs, &vec![Source::Listed(1), Source::Listed(0)]),
        _ => panic!("expected sparse chunks"),
    }
}

#[test]
fn qfil_plan_reports_overflow() {
    let programs = vec![prog("big.img", "big", 1, 0, u64::MAX / 2, Some(4))];
    assert!(matches!(qfil::plan(&programs, &vec![true], &vec![]), Err(QfilError::Overflow)));
    assert_eq!(qfil::output_name("a/b", 3), "b.img");
    assert_eq!(qfil::output_name("..", 3), "partition_3.img");
}

#[test]
fn detection_order() {
    let mut buf = [0u8; 64];
    assert_eq!(probe_magic(&buf, 100, false, None), "unknown");
    assert_eq!(probe_magic(&buf, 100, true, None), "sparse");
    buf[0] = 1;
    assert_eq!(probe_magic(&buf, 4 + 64, false, None), "nb0");
    assert_eq!(probe_magic(&buf, 4 + 64, true, None), "sparse");
    buf[..8].copy_from_slice(b"B\0P\0_\0R\0");
    assert_eq!(probe_magic(&buf, 100, true, None), "pac");
    let mut zip = [0u8; 64];
    zip[..4].copy_from_slice(b"PK\x03\x04");
    let signed = names(&["boot-sign.img"]);
    assert_eq!(probe_magic(&zip, 100, false, Some(&signed)), "mtk_sign");
    assert_eq!(probe_magic(&zip, 100, false, Some(&names(&["x"]))), "unknown");
    assert_eq!(probe_magic(&zip, 100, false, None), "unknown");
}

#[test]
fn sparse_magic() {
    assert!(has_sparse_magic(&[0x3A, 0xFF, 0x26, 0xED, 0]));
    assert!(!has_sparse_magic(&[0x3A, 0xFF, 0x26]));
    assert!(!has_sparse_magic(&[0xED, 0x26, 0xFF, 0x3A]));
}

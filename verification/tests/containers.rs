use firmware_parsers::amlogic::{self, AmlError, AmlItem};
use firmware_parsers::nb0::{self, Nb0Entry, Nb0Error};
use firmware_parsers::pac::{self, PacError};
use firmware_parsers::rockchip::{self, AfpEntry, RockchipError};
use firmware_parsers::text::read_null_terminated;

#[test]
fn amlogic_header_and_items() {
    assert!(amlogic::probe(&[0x27, 0x05, 0x19, 0x56]));
    assert!(!amlogic::probe(&[0x27, 0x05, 0x19]));
    let mut h = [0u8; 64];
    h[..4].copy_from_slice(&[0x27, 0x05, 0x19, 0x56]);
    h[0x17] = 3;
    assert_eq!(amlogic::parse_header(&h), Ok(3));
    h[0x17] = 0;
    assert_eq!(amlogic::parse_header(&h), Err(AmlError::InvalidItemCount(0)));
    h[0] = 0;
    assert_eq!(amlogic::parse_header(&h), Err(AmlError::BadMagic(0x00051956)));

    let mut item = vec![0u8; 0x240];
    item[0x13] = 0x10;
    item[0x1B] = 0x20;
    item[0x20..0x29].copy_from_slice(b"PARTITION");
    item[0x120..0x124].copy_from_slice(b"boot");
    let it = amlogic::parse_item(&item).ok().unwrap();
    assert_eq!((it.offset, it.file_size), (0x10, 0x20));
    assert_eq!(it.extension, "PARTITION");
    assert_eq!(it.name, "boot");
    assert!(matches!(amlogic::parse_item(&item[..0x23F]), Err(AmlError::ItemTooSmall)));
}

#[test]
fn amlogic_package_member_selection() {
    assert!(amlogic::is_bzip2(b"BZh91AY"));
    assert!(!amlogic::is_bzip2(b"BZ"));
    assert!(!amlogic::is_bzip2(b"PK\x03\x04"));
    assert!(amlogic::is_image_member("pkg/aml_upgrade_package.img"));
    assert!(amlogic::is_image_member("burn.img"));
    assert!(!amlogic::is_image_member("pkg/readme.txt"));
    assert!(!amlogic::is_image_member("pkg/image.img/.."));
    assert!(amlogic::probe(&[0x27, 0x05, 0x19, 0x56]));
}

#[test]
fn amlogic_renaming_rules() {
    assert_eq!(amlogic::rename_output("boot", "PARTITION"), "boot.img");
    assert_eq!(amlogic::rename_output("boot_a", "partition"), "boot.img");
    assert_eq!(amlogic::rename_output("meson1_aml_dtb", "PARTITION"), "meson1_aml_dtb.img");
    assert_eq!(amlogic::rename_output("meson1_aml_dtb", "img"), "dtb.img");
    assert_eq!(amlogic::rename_output("logo_a", "img"), "logo.img");
    assert_eq!(amlogic::rename_output("u-boot", "bin"), "u-boot.bin");
}

#[test]
fn amlogic_plan_skips_empty_items_and_sanitises() {
    let items = vec![
        AmlItem { offset: 1, file_size: 0, extension: "img".into(), name: "skip".into() },
        AmlItem { offset: 2, file_size: 5, extension: "PARTITION".into(), name: "system".into() },
        AmlItem { offset: 3, file_size: 6, extension: "img".into(), name: "".into() },
        AmlItem { offset: 4, file_size: 7, extension: "img".into(), name: "../../evil".into() },
        AmlItem { offset: 5, file_size: 8, extension: ".".into(), name: "".into() },
    ];
    let plan = amlogic::plan(&items);
    let got: Vec<(String, u64, u64)> = plan.into_iter().map(|e| (e.name, e.offset, e.size)).collect();
    assert_eq!(got, vec![("system.img".to_string(), 2, 5), ("evil.img".to_string(), 4, 7)]);
}

#[test]
fn nul_terminated_fields_are_decoded_lossily() {
    assert_eq!(read_null_terminated(b"abc\0def"), "abc");
    assert_eq!(read_null_terminated(b"abc"), "abc");
    assert_eq!(read_null_terminated(&[0x61, 0xFF, 0x62, 0]), "a\u{FFFD}b");
}

#[test]
fn nb0_probe_and_entries() {
    assert!(nb0::probe(&[2, 0, 0, 0], 4 + 128));
    assert!(!nb0::probe(&[2, 0, 0, 0], 4 + 127));
    assert!(!nb0::probe(&[0, 1, 0, 0], 1 << 20));
    assert_eq!(nb0::check_count(&[3, 0, 0, 0]), Ok(3));
    assert_eq!(nb0::check_count(&[0, 1, 0, 0]), Err(Nb0Error::InvalidFileCount(256)));
    let mut e = [0u8; 64];
    e[0] = 8;
    e[4] = 16;
    e[16..22].copy_from_slice(b"kernel");
    let entry = nb0::parse_entry(&e).ok().unwrap();
    assert_eq!((entry.data_offset, entry.data_size, entry.filename.as_str()), (8, 16, "kernel"));
    e[16] = 0xFF;
    assert!(matches!(nb0::parse_entry(&e), Err(Nb0Error::InvalidFileName)));
}

#[test]
fn nb0_plan_offsets_follow_the_table() {
    let entries = vec![
        Nb0Entry { data_offset: 0, data_size: 10, filename: "boot".into() },
        Nb0Entry { data_offset: 10, data_size: 0, filename: "empty".into() },
        Nb0Entry { data_offset: 10, data_size: 5, filename: "logo.bin".into() },
    ];
    let plan = nb0::plan(3, &entries);
    let got: Vec<(String, u64, u64)> = plan.into_iter().map(|e| (e.name, e.offset, e.size)).collect();
    assert_eq!(got, vec![("boot.img".to_string(), 196, 10), ("logo.bin".to_string(), 206, 5)]);
}

fn utf16(s: &str, len: usize) -> Vec<u8> {
    let mut v: Vec<u8> = s.encode_utf16().flat_map(|c| c.to_le_bytes()).collect();
    v.resize(len, 0);
    v
}

#[test]
fn pac_header_and_entries() {
    let mut h = utf16("BP_R1.0.0", 0x84C);
    assert!(pac::probe(&h));
    h[0x434] = 2;
    h[0x438] = 0x4C;
    h[0x439] = 0x08;
    assert_eq!(pac::parse_header(&h), Ok((2, 0x84C)));
    h[0x434] = 0;
    assert_eq!(pac::parse_header(&h), Err(PacError::InvalidPartitionCount(0)));
    h[0] = b'X';
    assert_eq!(pac::parse_header(&h), Err(PacError::BadVersion));

    assert_eq!(pac::decode_utf16le(&utf16("system", 512)), "system");
    let mut e = vec![0u8; 0xA14];
    e[0x004..0x204].copy_from_slice(&utf16("system", 0x200));
    e[0x204..0x404].copy_from_slice(&utf16("system.img", 0x200));
    e[0x5FC] = 1; // high half of the size
    e[0x604] = 2; // low half of the size
    e[0x600] = 3; // high half of the offset
    e[0x610] = 4; // low half of the offset
    e[0x608] = 1;
    let entry = pac::parse_entry(&e).ok().unwrap();
    assert_eq!(entry.partition_name, "system");
    assert_eq!(entry.filename, "system.img");
    assert_eq!(entry.partition_size, (1u64 << 32) | 2);
    assert_eq!(entry.data_offset, (3u64 << 32) | 4);
    assert_eq!(entry.file_flag, 1);
    assert!(matches!(pac::parse_entry(&e[..100]), Err(PacError::EntryTooSmall(100))));

    let plan = pac::plan(&vec![entry]);
    assert_eq!(plan[0].name, "system.img");
    assert_eq!((plan[0].offset, plan[0].size), ((3u64 << 32) | 4, (1u64 << 32) | 2));
}

#[test]
fn rockchip_headers_entries_and_plan() {
    let mut h = [0u8; 0x29];
    h[..4].copy_from_slice(b"RKFW");
    h[0x21] = 0x66;
    h[0x25] = 0x10;
    assert_eq!(rockchip::parse_rkfw_header(&h), Ok((0x66, 0x10)));
    h[0x25] = 0;
    assert_eq!(rockchip::parse_rkfw_header(&h), Err(RockchipError::EmptyFirmware));
    h[0] = b'X';
    assert_eq!(rockchip::parse_rkfw_header(&h), Err(RockchipError::BadMagic));
    assert!(rockchip::probe(b"RKFW"));

    let mut a = [0u8; 0x8C];
    a[..4].copy_from_slice(b"RKAS");
    a[0x88] = 2;
    assert_eq!(rockchip::parse_afp_header(&a), Ok(2));
    a[..4].copy_from_slice(b"RKXX");
    assert_eq!(rockchip::parse_afp_header(&a), Err(RockchipError::BadAfpMagic(*b"RKXX")));

    let mut e = vec![0u8; 0x70];
    e[..6].copy_from_slice(b"boot_a");
    e[0x60] = 0x20;
    e[0x6C] = 0x30;
    let entry = rockchip::parse_afp_entry(&e).ok().unwrap();
    assert_eq!((entry.name.as_str(), entry.offset, entry.size), ("boot_a", 0x20, 0x30));

    let entries = vec![
        entry,
        AfpEntry { name: "parameter.txt".into(), offset: 1, size: 2 },
        AfpEntry { name: "".into(), offset: 1, size: 2 },
    ];
    let plan = rockchip::plan(0x1000, &entries);
    let got: Vec<(String, u64, u64)> = plan.into_iter().map(|e| (e.name, e.offset, e.size)).collect();
    assert_eq!(got, vec![("boot.img".to_string(), 0x1020, 0x30), ("parameter.txt".to_string(), 0x1001, 2)]);
}

#[test]
fn planned_names_stay_in_the_output_directory() {
    let entries = vec![
        AfpEntry { name: "../../etc/passwd".into(), offset: 1, size: 2 },
        AfpEntry { name: "..".into(), offset: 3, size: 4 },
    ];
    let names: Vec<String> = rockchip::plan(0, &entries).into_iter().map(|e| e.name).collect();
    assert_eq!(names, vec!["passwd".to_string(), "partition_1.img".to_string()]);
    for n in &names {
        assert!(!n.contains('/') && n != "..");
    }
    let items = vec![AmlItem { offset: 0, file_size: 1, extension: "..".into(), name: "x/".into() }];
    let aml: Vec<String> = amlogic::plan(&items).into_iter().map(|e| e.name).collect();
    assert_eq!(aml.len(), 1);
    assert!(!aml[0].contains('/') && aml[0] != "..");
}

#[test]
fn utf16_fields_end_at_the_first_nul() {
    assert_eq!(pac::decode_utf16le(&[0x41, 0x00, 0x00, 0x00, 0x42, 0x00, 0x00, 0x00]), "A");
    assert_eq!(pac::decode_utf16le(&[0x41, 0x00, 0x42, 0x00]), "AB");
    assert_eq!(pac::decode_utf16le(&[0x00, 0x00, 0x41, 0x00]), "");
}

fn tar_bz2(members: &[(&str, &[u8])]) -> Vec<u8> {
    let mut builder = tar::Builder::new(Vec::new());
    for (name, data) in members {
        let mut header = tar::Header::new_gnu();
        header.set_size(data.len() as u64);
        header.set_mode(0o644);
        header.set_cksum();
        builder.append_data(&mut header, name, *data).unwrap();
    }
    let tar = builder.into_inner().unwrap();
    let mut enc = bzip2::write::BzEncoder::new(Vec::new(), bzip2::Compression::default());
    std::io::Write::write_all(&mut enc, &tar).unwrap();
    enc.finish().unwrap()
}

#[test]
fn amlogic_tar_bz2_packages_are_unwrapped() {
    let image: &[u8] = &[0x27, 0x05, 0x19, 0x56, 1, 2, 3];
    let pkg = tar_bz2(&[
        ("pkg/readme.img", b"text"),
        ("pkg/notes.txt", &[0x27, 0x05, 0x19, 0x56]),
        ("pkg/aml_upgrade.img", image),
        ("pkg/second.img", image),
    ]);
    let (name, bytes) = amlogic::unwrap_tar_bz2(&pkg).unwrap().unwrap();
    assert_eq!(name, "aml_upgrade.img");
    assert_eq!(bytes, image.to_vec());
    assert_eq!(amlogic::unwrap_tar_bz2(b"not a package"), Ok(None));
    assert_eq!(amlogic::unwrap_tar_bz2(&tar_bz2(&[("a.txt", b"x")])), Ok(None));
    assert_eq!(amlogic::unwrap_tar_bz2(b"BZh9 broken"), Err(AmlError::PackageUnreadable));
}

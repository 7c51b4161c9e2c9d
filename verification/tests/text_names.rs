use firmware_parsers::mtk_sign::{output_name, strip_sign_suffix};
use firmware_parsers::rockchip::strip_ab_suffix;
use firmware_parsers::zte::{bin_output, is_partition_name};

#[test]
fn sign_suffix_is_stripped() {
    assert_eq!(strip_sign_suffix("boot-sign.img"), "boot.img");
    assert_eq!(strip_sign_suffix("boot-sign.IMG"), "boot.img");
    assert_eq!(strip_sign_suffix("boot.img"), "boot.img");
}

#[test]
fn sign_member_output_uses_final_component() {
    assert_eq!(output_name("images/lk-sign.img"), "lk.img");
}

#[test]
fn ab_slot_suffix_is_stripped() {
    assert_eq!(strip_ab_suffix("boot_a.img"), "boot.img");
    assert_eq!(strip_ab_suffix("boot_b.img"), "boot.img");
    assert_eq!(strip_ab_suffix("boot_c.img"), "boot_c.img");
}

#[test]
fn partition_names_ignore_case_and_extension() {
    assert!(is_partition_name("SYSTEM.BIN"));
    assert!(is_partition_name("vbmeta_system.img"));
    assert!(is_partition_name("modem"));
    assert!(!is_partition_name("readme.txt"));
}

#[test]
fn bin_members_become_img() {
    assert_eq!(bin_output("system.bin"), "system.img");
    assert_eq!(bin_output("a.bin.bin"), "a.img.img");
}

//! Patches of the firmware image.

use wiivci_core::fwimg::{
    ahbprot, apply_patches, fakesign_a, fakesign_b, fakesign_patches, homebrew_patches, memprot,
    patch_firmware,
};

#[test]
fn fakesign_patches_every_site() {
    let mut data = vec![0u8; 32];
    data[4..8].copy_from_slice(&[0x20, 0x07, 0x23, 0xA2]);
    data[20..24].copy_from_slice(&[0x20, 0x07, 0x23, 0xA2]);
    let applied = apply_patches(&mut data, &vec![fakesign_a()]);
    assert_eq!(applied, vec!["fakesign"]);
    assert_eq!(data[5], 0x00);
    assert_eq!(data[21], 0x00);
}

#[test]
fn ahbprot_replaces_first_two_bytes_of_match() {
    let mut data = vec![0xFFu8; 16];
    data[3..11].copy_from_slice(&[0xD0, 0x0B, 0x23, 0x08, 0x43, 0x13, 0x60, 0x0B]);
    let applied = apply_patches(&mut data, &vec![ahbprot()]);
    assert_eq!(applied, vec!["AHBPROT-disable"]);
    assert_eq!(&data[3..5], &[0x46, 0xC0]);
    // The rest of the matched region is untouched.
    assert_eq!(&data[5..11], &[0x23, 0x08, 0x43, 0x13, 0x60, 0x0B]);
}

#[test]
fn memprot_clears_trailing_flag() {
    let mut data = vec![0u8; 16];
    data[0..8].copy_from_slice(&[0x01, 0x94, 0xB5, 0x00, 0x4B, 0x08, 0x22, 0x01]);
    let applied = apply_patches(&mut data, &vec![memprot()]);
    assert_eq!(applied, vec!["MEMPROT-disable"]);
    assert_eq!(&data[6..8], &[0x22, 0x00]);
}

#[test]
fn missing_pattern_is_skipped_not_applied() {
    let mut data = vec![0u8; 16];
    let applied = apply_patches(&mut data, &vec![ahbprot()]);
    assert!(applied.is_empty());
    assert_eq!(data, vec![0u8; 16], "no bytes changed when pattern absent");
}

#[test]
fn first_match_only_when_not_all() {
    let mut data = vec![0u8; 32];
    data[0..8].copy_from_slice(&[0x01, 0x94, 0xB5, 0x00, 0x4B, 0x08, 0x22, 0x01]);
    data[16..24].copy_from_slice(&[0x01, 0x94, 0xB5, 0x00, 0x4B, 0x08, 0x22, 0x01]);
    apply_patches(&mut data, &vec![memprot()]);
    assert_eq!(&data[6..8], &[0x22, 0x00], "first match patched");
    assert_eq!(&data[22..24], &[0x22, 0x01], "second match left alone");
}

#[test]
fn the_other_fakesign_variant_is_found_too() {
    let mut data = vec![0u8; 16];
    data[2..6].copy_from_slice(&[0x20, 0x07, 0x4B, 0x0B]);
    let applied = apply_patches(&mut data, &vec![fakesign_b()]);
    assert_eq!(applied.len(), 1);
    assert_eq!(&data[2..6], &[0x20, 0x00, 0x4B, 0x0B]);
}

#[test]
fn homebrew_takes_the_fakesign_patches_and_its_own() {
    assert_eq!(fakesign_patches().len(), 2);
    assert_eq!(homebrew_patches().len(), 4);
    let mut image = vec![0u8; 64];
    image[0..4].copy_from_slice(&[0x20, 0x07, 0x23, 0xA2]);
    image[16..24].copy_from_slice(&[0xD0, 0x0B, 0x23, 0x08, 0x43, 0x13, 0x60, 0x0B]);
    let mut wii = image.clone();
    assert_eq!(patch_firmware(&mut wii, false), vec!["fakesign"]);
    assert_eq!(&wii[16..18], &[0xD0, 0x0B], "left alone without homebrew");
    assert_eq!(
        patch_firmware(&mut image, true),
        vec!["fakesign", "AHBPROT-disable"]
    );
    assert_eq!(&image[16..18], &[0x46, 0xC0]);
}

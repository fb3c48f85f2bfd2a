//! Keys and what the command line hands in.

use wiivci_core::base::{base_kind, finalize_stage, is_base_game_nfs, pick_title_root, safe_to_join};
use wiivci_core::base::{BaseKind, ChildEntry, REQUIRED_CODE_FILES};
use wiivci_core::cli::{choose_base, choose_loader, gamecube_mode, parse_hex, parse_title_id};
use wiivci_core::cli::{BaseChoice, LoaderSource};
use wiivci_core::error::{DiscFault, Error, KeyFault};
use wiivci_core::input::DiscKind;
use wiivci_core::keys::{md5, parse_key, validate, WiiCommonKey, WiiUCommonKey};
use wiivci_core::nus::{content_file, downloaded_records, file_url, server_url, tmd_file};

#[test]
fn hex_and_binary_parse_identically() {
    let hex = b"000102030405060708090a0b0c0d0e0f";
    let bin = [0u8, 1, 2, 3, 4, 5, 6, 7, 8, 9, 10, 11, 12, 13, 14, 15];
    assert_eq!(parse_key("t", hex).unwrap(), bin);
    assert_eq!(parse_key("t", &bin).unwrap(), bin);
}

#[test]
fn hex_with_whitespace_is_accepted() {
    let hex = b"00 01 02 03 04 05 06 07 08 09 0a 0b 0c 0d 0e 0f\n";
    assert_eq!(parse_key("t", hex).unwrap()[0], 0x00);
    assert_eq!(parse_key("t", hex).unwrap()[15], 0x0f);
}

#[test]
fn wrong_length_is_rejected() {
    assert!(parse_key("t", b"deadbeef").is_err());
}

#[test]
fn validation_matches_self() {
    let key = [0xABu8; 16];
    let fp = md5(&key);
    assert!(validate("t", &key, &fp).is_ok());
    assert!(validate("t", &key, &[0u8; 16]).is_err());
}

#[test]
fn md5_is_the_known_function() {
    assert_eq!(
        md5(b""),
        [
            0xd4, 0x1d, 0x8c, 0xd9, 0x8f, 0x00, 0xb2, 0x04, 0xe9, 0x80, 0x09, 0x98, 0xec, 0xf8,
            0x42, 0x7e
        ]
    );
}

#[test]
fn key_faults_say_what_is_wrong() {
    let err = parse_key("Wii U common key", b"deadbeef").unwrap_err();
    assert!(matches!(
        err,
        Error::InvalidKey { reason: KeyFault::Length(8), .. }
    ));
    assert!(err.message().contains("Wii U common key"), "{}", err.message());
    let err = parse_key("t", b"zz0102030405060708090a0b0c0d0e0f").unwrap_err();
    assert!(matches!(err, Error::InvalidKey { .. }));
    // A well-formed key that is not the expected one.
    let hex = b"000102030405060708090a0b0c0d0e0f";
    assert!(matches!(
        WiiUCommonKey::parse(hex),
        Err(Error::InvalidKey { reason: KeyFault::Fingerprint, .. })
    ));
    assert!(matches!(
        WiiCommonKey::parse(hex),
        Err(Error::InvalidKey { reason: KeyFault::Fingerprint, .. })
    ));
}

#[test]
fn hex_arguments_have_a_fixed_length() {
    assert_eq!(parse_hex::<2>("BEef").unwrap(), [0xBE, 0xEF]);
    assert!(matches!(
        parse_hex::<2>("be"),
        Err(Error::BadHex { wanted: 4, .. })
    ));
    assert!(parse_hex::<2>("beex").is_err());
    assert_eq!(parse_title_id("00050000101b0700").unwrap(), 0x0005_0000_101B_0700);
    assert!(matches!(parse_title_id("x"), Err(Error::BadTitleId(_))));
}

#[test]
fn the_base_is_local_or_downloaded() {
    assert!(matches!(
        choose_base(true, "00050000101b0700", None).unwrap(),
        BaseChoice::Local
    ));
    let key = "000102030405060708090a0b0c0d0e0f";
    match choose_base(false, "00050000101b0700", Some(key)).unwrap() {
        BaseChoice::Download { title_id, enc_title_key } => {
            assert_eq!(title_id, 0x0005_0000_101B_0700);
            assert_eq!(enc_title_key[15], 0x0F);
        }
        _ => panic!("expected a download"),
    }
    assert!(choose_base(false, "00050000101b0700", None).is_err());
}

#[test]
fn gamecube_mode_is_forced_or_probed() {
    assert!(gamecube_mode(true, None));
    assert!(gamecube_mode(false, Some(DiscKind::GameCube)));
    assert!(!gamecube_mode(false, Some(DiscKind::Wii)));
    assert!(!gamecube_mode(false, None));
    assert!(matches!(choose_loader(true, true).unwrap(), LoaderSource::File));
    assert!(matches!(choose_loader(false, false).unwrap(), LoaderSource::Download));
    assert!(choose_loader(false, true).is_err());
}

#[test]
fn base_images_are_told_by_their_name() {
    assert!(is_base_game_nfs("hif_000000.nfs"));
    assert!(!is_base_game_nfs("banner.gsh"));
}

#[test]
fn a_staged_base_needs_its_code_files_and_key() {
    let present: Vec<String> = REQUIRED_CODE_FILES.iter().map(|s| s.to_string()).collect();
    let htk = [7u8; 16];
    let staged = finalize_stage("/b", &present, &htk).unwrap();
    assert_eq!(staged.htk, htk);
    assert_eq!(staged.code_dir, "/b/code");
    assert_eq!(staged.content_dir, "/b/content");
    assert_eq!(staged.meta_dir, "/b/meta");
    assert!(matches!(
        finalize_stage("/b", &present[1..].to_vec(), &htk),
        Err(Error::MissingFile(_))
    ));
    assert!(matches!(
        finalize_stage("/b", &present, &htk[1..]),
        Err(Error::InvalidKey { reason: KeyFault::RawLength(15), .. })
    ));
}

fn child(name: &str, is_dir: bool) -> ChildEntry {
    ChildEntry { name: name.as_bytes().to_vec(), is_dir }
}

#[test]
fn the_title_root_is_where_the_code_directory_is() {
    let root = vec![child("code", true), child("content", true), child("meta", true)];
    let other = vec![child("readme", false)];
    assert_eq!(pick_title_root(&vec![Some(other), None, Some(root)]), Some(2));
    assert_eq!(pick_title_root(&vec![Some(vec![child("code", false)])]), None);
    assert_eq!(pick_title_root(&vec![]), None);
}

#[test]
fn a_base_is_a_directory_or_an_archive() {
    let path = "x".to_string();
    assert!(matches!(base_kind(&path, true, None).unwrap(), BaseKind::Directory));
    assert!(matches!(base_kind(&path, false, Some("WUA")).unwrap(), BaseKind::Archive));
    assert!(matches!(
        base_kind(&path, false, Some("zip")),
        Err(Error::UnsupportedDisc(DiscFault::BadBase(_)))
    ));
    assert!(base_kind(&path, false, None).is_err());
}

#[test]
fn paths_that_lead_out_are_not_joined() {
    assert!(safe_to_join("code/app.xml"));
    assert!(safe_to_join("a..b/c"));
    assert!(!safe_to_join("../x"));
    assert!(!safe_to_join("a/../x"));
    assert!(!safe_to_join("/etc"));
}

#[test]
fn update_server_paths() {
    assert_eq!(server_url("http://h/p/"), "http://h/p");
    assert_eq!(tmd_file(None), "tmd");
    assert_eq!(tmd_file(Some(16)), "tmd.16");
    assert_eq!(content_file(0x1A), "0000001A");
    assert_eq!(
        file_url("http://h/p", 0x0005_0000_101B_0700, "tmd"),
        "http://h/p/00050000101b0700/tmd"
    );
    assert!(downloaded_records(&[0u8; 10]).is_err());
}

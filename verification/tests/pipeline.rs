//! The decisions of an injection.

use wiivci_core::assets::images::BootTexture;
use wiivci_core::keys::WiiUCommonKey;
use wiivci_core::package::cert::CertChain;
use wiivci_core::package::PackageStats;
use wiivci_core::pipeline::{
    art_platform, art_source, drc_source, package_params, resolve_title, rvlt_files, steps,
    summarize, wants_lookup, ArtSource, Config, Region, Step, TITLE_KEY,
};
use wiivci_core::video::VideoPatches;

#[test]
fn drc_uses_own_art_when_present() {
    let drc = Some(vec![1, 2, 3]);
    let tv = Some(vec![9, 9]);
    assert_eq!(drc_source(drc, &tv), Some(vec![1, 2, 3]));
}

#[test]
fn drc_falls_back_to_tv_when_absent() {
    let tv = Some(vec![9, 9]);
    assert_eq!(drc_source(None, &tv), Some(vec![9, 9]));
}

#[test]
fn drc_is_none_when_neither_present() {
    assert_eq!(drc_source(None, &None), None);
}

#[test]
fn a_given_title_wins_over_a_found_one() {
    let given = Some("Given".to_string());
    let found = Some("Found".to_string());
    assert_eq!(resolve_title(&given, true, &found, "RSPE01"), "Given");
    assert_eq!(resolve_title(&None, true, &found, "RSPE01"), "Found");
    assert_eq!(resolve_title(&None, false, &found, "RSPE01"), "RSPE01");
    assert_eq!(resolve_title(&None, true, &None, "RSPE01"), "RSPE01");
    assert!(wants_lookup(&None, true));
    assert!(!wants_lookup(&given, true));
    assert!(!wants_lookup(&None, false));
}

#[test]
fn tickets_are_fakesigned_and_the_tmd_rehashed() {
    let ticket = vec![0xEEu8; 0x2A4];
    let tmd = vec![0xDDu8; 0x208];
    let files = rvlt_files(&ticket, &tmd, Some([7; 20]));
    assert!(files.ticket[4..0x104].iter().all(|&b| b == 0));
    assert_eq!(files.ticket[3], 0xEE);
    assert!(files.ticket[0x104..].iter().all(|&b| b == 0xEE));
    assert!(files.tmd[4..0x104].iter().all(|&b| b == 0));
    assert_eq!(&files.tmd[0x1F4..0x208], &[7u8; 20]);
    assert!(files.tmd[0x104..0x1F4].iter().all(|&b| b == 0xDD));
    let plain = rvlt_files(&ticket, &tmd, None);
    assert_eq!(plain.tmd[0x1F4], 0xDD);
    // Too short to hold a signature.
    assert_eq!(rvlt_files(&[1; 8], &[2; 8], Some([7; 20])).ticket, vec![1; 8]);
}

#[test]
fn the_package_is_built_from_everything_else() {
    let wii = steps(false);
    assert_eq!(wii.last(), Some(&Step::BuildPackage));
    assert!(wii.contains(&Step::PlanDisc));
    let gc = steps(true);
    assert_eq!(&gc[gc.len() - 2..], &[Step::BuildPackage, Step::WriteNincfg]);
    assert!(gc.contains(&Step::AuthorDisc));
    assert!(!gc.contains(&Step::PlanDisc));
    assert_eq!(art_platform(false), "wii");
    assert_eq!(art_platform(true), "gcn");
}

fn config(online: bool) -> Config {
    Config {
        input: "in".to_string(),
        out: "out".to_string(),
        wiiu_common_key: WiiUCommonKey([1; 16]),
        cert: CertChain(vec![]),
        title: None,
        icon_png: Some("icon.png".to_string()),
        boot_tv_png: None,
        boot_drc_png: None,
        region: Region::Europe,
        gamepad: false,
        online,
        video: VideoPatches::default(),
        skip_gaps: true,
        trim_zeros: false,
        gamecube: None,
    }
}

#[test]
fn art_comes_from_a_file_the_network_or_the_base() {
    assert!(matches!(
        art_source(&config(true), BootTexture::Icon),
        ArtSource::File(path) if path == "icon.png"
    ));
    assert!(matches!(art_source(&config(true), BootTexture::BootTv), ArtSource::Download));
    assert!(matches!(art_source(&config(false), BootTexture::BootTv), ArtSource::Base));
}

#[test]
fn parameters_and_summary_follow_from_the_identifiers() {
    let ids = wiivci_core::meta::titleid::derive(*b"RSPE");
    let cert = CertChain(vec![]);
    let params = package_params(&ids, &WiiUCommonKey([1; 16]), &cert);
    assert_eq!(params.title_id, 0x0005_0002_5253_5045);
    assert_eq!(params.group_id, 0x5045);
    assert_eq!(params.title_key, TITLE_KEY);
    assert_eq!(params.wiiu_common_key, [1; 16]);
    let stats = PackageStats { content_count: 3, total_content_bytes: 4 };
    let summary = summarize(&ids, "RSPE01", "Fever", stats, "out");
    assert_eq!(summary.title_id, params.title_id);
    assert_eq!(summary.game_id, "RSPE01");
    assert_eq!(summary.title, "Fever");
    assert_eq!(summary.out, "out");
    assert_eq!(Region::Japan.code(), 1);
    assert_eq!(Region::Usa.code(), 2);
    assert_eq!(Region::Europe.code(), 4);
}

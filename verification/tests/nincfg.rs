//! The record that Nintendont reads.

use wiivci_core::nincfg::{
    generate, Language, NincfgOptions, VideoMode, CFG_AUTO_BOOT, CFG_CHEATS, CFG_CHEAT_PATH,
    CFG_FORCE_WIDE, CFG_MEMCARDEMU, CFG_WIIU_WIDE, NINCFG_SIZE, OFF_CHEATPATH, OFF_CONFIG,
    OFF_GAMEID, OFF_GAMEPATH, OFF_LANGUAGE, OFF_MAGIC, OFF_MAXPADS, OFF_MEMCARDBLOCKS,
    OFF_VERSION, OFF_VIDEOMODE, OFF_WIIU_GAMEPAD_SLOT, PATH_LEN, VID_FORCE, VID_PROG,
};
use wiivci_core::pipeline::{gamecube_nincfg, GameCubeOptions};

fn read_u32(buf: &[u8], off: usize) -> u32 {
    u32::from_be_bytes([buf[off], buf[off + 1], buf[off + 2], buf[off + 3]])
}

#[test]
fn record_is_exactly_546_bytes() {
    assert_eq!(NINCFG_SIZE, 546);
    let cfg = generate(&NincfgOptions::default());
    assert_eq!(cfg.len(), 546);
}

#[test]
fn magic_version_and_gamepath_are_written_big_endian() {
    let cfg = generate(&NincfgOptions {
        game_id: *b"GALE",
        ..Default::default()
    });
    assert_eq!(read_u32(&cfg, OFF_MAGIC), 0x0107_0CF6);
    assert_eq!(read_u32(&cfg, OFF_VERSION), 10);
    // Big-endian byte order on disc.
    assert_eq!(&cfg[OFF_MAGIC..OFF_MAGIC + 4], &[0x01, 0x07, 0x0C, 0xF6]);

    // GamePath is NUL-terminated ASCII "di:/game.iso".
    let end = cfg[OFF_GAMEPATH..OFF_GAMEPATH + PATH_LEN]
        .iter()
        .position(|&b| b == 0)
        .unwrap();
    assert_eq!(&cfg[OFF_GAMEPATH..OFF_GAMEPATH + end], b"di:/game.iso");
    assert_eq!(cfg[OFF_GAMEPATH + end], 0);

    // GameID stored as the 4 ASCII chars in order.
    assert_eq!(&cfg[OFF_GAMEID..OFF_GAMEID + 4], b"GALE");
}

#[test]
fn default_config_autoboots_with_memcard_emulation() {
    let cfg = generate(&NincfgOptions::default());
    let config = read_u32(&cfg, OFF_CONFIG);
    assert_eq!(config & CFG_AUTO_BOOT, CFG_AUTO_BOOT, "should autoboot");
    assert_eq!(
        config & CFG_MEMCARDEMU,
        CFG_MEMCARDEMU,
        "memcard emu default"
    );
    assert_eq!(config & CFG_FORCE_WIDE, 0, "not widescreen by default");
    assert_eq!(config & CFG_CHEATS, 0, "no cheats by default");
}

#[test]
fn widescreen_sets_both_force_wide_and_wiiu_wide() {
    let cfg = generate(&NincfgOptions {
        widescreen: true,
        ..Default::default()
    });
    let config = read_u32(&cfg, OFF_CONFIG);
    assert_eq!(config & CFG_FORCE_WIDE, CFG_FORCE_WIDE);
    assert_eq!(config & CFG_WIIU_WIDE, CFG_WIIU_WIDE);
}

#[test]
fn cheat_path_enables_cheats_and_is_written() {
    let cfg = generate(&NincfgOptions {
        cheat_path: Some("sd:/codes/GALE01.gct".into()),
        ..Default::default()
    });
    let config = read_u32(&cfg, OFF_CONFIG);
    assert_eq!(config & CFG_CHEATS, CFG_CHEATS);
    assert_eq!(config & CFG_CHEAT_PATH, CFG_CHEAT_PATH);
    let end = cfg[OFF_CHEATPATH..OFF_CHEATPATH + PATH_LEN]
        .iter()
        .position(|&b| b == 0)
        .unwrap();
    assert_eq!(
        &cfg[OFF_CHEATPATH..OFF_CHEATPATH + end],
        b"sd:/codes/GALE01.gct"
    );
}

#[test]
fn language_auto_is_negative_one() {
    let cfg = generate(&NincfgOptions {
        language: Language::Auto,
        ..Default::default()
    });
    assert_eq!(read_u32(&cfg, OFF_LANGUAGE), 0xFFFF_FFFF);

    let cfg = generate(&NincfgOptions {
        language: Language::French,
        ..Default::default()
    });
    assert_eq!(read_u32(&cfg, OFF_LANGUAGE), 2);
}

#[test]
fn video_mode_auto_is_zero_and_progressive_sets_prog_bit() {
    let cfg = generate(&NincfgOptions::default());
    assert_eq!(read_u32(&cfg, OFF_VIDEOMODE), 0);

    let cfg = generate(&NincfgOptions {
        video_mode: VideoMode::ForceProgressive,
        ..Default::default()
    });
    let v = read_u32(&cfg, OFF_VIDEOMODE);
    assert_eq!(v & VID_FORCE, VID_FORCE);
    assert_eq!(v & VID_PROG, VID_PROG);
}

#[test]
fn scalar_tail_fields_land_at_their_offsets() {
    let cfg = generate(&NincfgOptions {
        memcard_blocks: 3,
        max_pads: 4,
        wiiu_gamepad_slot: 1,
        ..Default::default()
    });
    assert_eq!(read_u32(&cfg, OFF_MAXPADS), 4);
    assert_eq!(cfg[OFF_MEMCARDBLOCKS], 3);
    assert_eq!(read_u32(&cfg, OFF_WIIU_GAMEPAD_SLOT), 1);
    // The record ends immediately after WiiUGamepadSlot.
    assert_eq!(OFF_WIIU_GAMEPAD_SLOT + 4, NINCFG_SIZE);
}

#[test]
fn a_long_cheat_path_is_cut_before_its_terminator() {
    let cfg = generate(&NincfgOptions {
        cheat_path: Some("x".repeat(400)),
        ..Default::default()
    });
    assert!(cfg[OFF_CHEATPATH..OFF_CHEATPATH + PATH_LEN - 1]
        .iter()
        .all(|&b| b == b'x'));
    assert_eq!(cfg[OFF_CHEATPATH + PATH_LEN - 1], 0);
    assert_eq!(read_u32(&cfg, OFF_MAXPADS), 4);
}

#[test]
fn an_injection_takes_its_options_over() {
    let opts = GameCubeOptions {
        nintendont_dol: vec![],
        apploader: vec![],
        widescreen: true,
        language: Language::German,
        video_mode: VideoMode::Auto,
        memcard_emu: false,
        cheat_path: None,
    };
    let cfg = gamecube_nincfg(&opts, *b"GM2E");
    let same = generate(&NincfgOptions {
        game_id: *b"GM2E",
        widescreen: true,
        language: Language::German,
        video_mode: VideoMode::Auto,
        memcard_emu: false,
        ..Default::default()
    });
    assert_eq!(cfg.to_vec(), same.to_vec());
}

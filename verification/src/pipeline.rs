//! An injection from end to end: a disc and a base title become an installable package.
//!
//! [`steps`] lists what is done and in which order. The functions here decide and compute what
//! the steps need; reading, writing and fetching are up to the caller.

use vstd::prelude::*;

use crate::assets::images::BootTexture;
use crate::consts::{TMD_CONTENT0_HASH, WII_SIG_END, WII_SIG_START};
use crate::error::Result;
use crate::keys::WiiUCommonKey;
use crate::meta::metaxml::{
    body_of, mark_of, patch as patch_meta, patch_error, patched_from, MetaOptions,
};
use crate::meta::titleid::TitleIds;
use crate::meta::xml::events_of;
use crate::nincfg::{
    cheat_bytes, config_flags, generate, nincfg_bytes, Language, NincfgOptions, VideoMode,
    NINCFG_SIZE,
};
use crate::package::cert::CertChain;
use crate::package::{PackageParams, PackageStats};
use crate::util::{copy_range, spliced, write_at, zero_bytes, zeros};
use crate::video::VideoPatches;
use vstd::utf8::{decode_utf8, valid_utf8};

verus! {

/// The title key that contents are encrypted with. The ticket carries it, so its value is free.
pub const TITLE_KEY: [u8; 16] = [
    0x13, 0x37, 0x13, 0x37, 0x13, 0x37, 0x13, 0x37, 0x13, 0x37, 0x13, 0x37, 0x13, 0x37, 0x13, 0x37,
];

/// Region written to `meta.xml`.
#[derive(Clone, Copy, Debug, PartialEq, Eq, Structural)]
pub enum Region {
    /// Japan.
    Japan,
    /// USA.
    Usa,
    /// Europe.
    Europe,
}

/// The number that stands for a region.
pub open spec fn region_code(r: Region) -> u32 {
    match r {
        Region::Japan => 1,
        Region::Usa => 2,
        Region::Europe => 4,
    }
}

impl Region {
    /// The number that stands for the region.
    pub fn code(self) -> (r: u32)
        ensures
            r == region_code(self),
    {
        match self {
            Region::Japan => 1,
            Region::Usa => 2,
            Region::Europe => 4,
        }
    }
}

/// Options of a GameCube injection.
pub struct GameCubeOptions {
    /// Nintendont's `boot.dol`, which the disc boots.
    pub nintendont_dol: Vec<u8>,
    /// The Wii apploader. Without one the package is valid but does not boot.
    pub apploader: Vec<u8>,
    /// Force a 16:9 picture.
    pub widescreen: bool,
    /// Language of the game.
    pub language: Language,
    /// Forced video mode.
    pub video_mode: VideoMode,
    /// Emulate a memory card.
    pub memcard_emu: bool,
    /// Path of a cheat file on the SD card.
    pub cheat_path: Option<String>,
}

/// An injection. The base title is brought beside it.
pub struct Config {
    /// The source disc image.
    pub input: String,
    /// The directory of the package.
    pub out: String,
    /// The Wii U common key.
    pub wiiu_common_key: WiiUCommonKey,
    /// The certificate chain.
    pub cert: CertChain,
    /// The title; looked up where it is not given.
    pub title: Option<String>,
    /// PNG of the icon.
    pub icon_png: Option<String>,
    /// PNG of the TV's boot screen.
    pub boot_tv_png: Option<String>,
    /// PNG of the GamePad's boot screen.
    pub boot_drc_png: Option<String>,
    /// Region of `meta.xml`.
    pub region: Region,
    /// Whether the GamePad can be used.
    pub gamepad: bool,
    /// Whether missing art and titles are looked up online.
    pub online: bool,
    /// Video patches of `main.dol`, for Wii discs.
    pub video: VideoPatches,
    /// Whether the gaps between files are left out, for Wii discs.
    pub skip_gaps: bool,
    /// Whether files of zeros are left out too, for Wii discs.
    pub trim_zeros: bool,
    /// Options of a GameCube injection; none for a Wii disc.
    pub gamecube: Option<GameCubeOptions>,
}

/// What an injection gave.
#[derive(Debug)]
pub struct Summary {
    /// The Wii U title id.
    pub title_id: u64,
    /// The source game id.
    pub game_id: String,
    /// The title.
    pub title: String,
    /// Statistics of the package.
    pub package: PackageStats,
    /// The directory of the package.
    pub out: String,
}

/// A step of an injection.
#[derive(Clone, Copy, Debug, PartialEq, Eq, Structural)]
pub enum Step {
    /// Open the source image and derive the identifiers.
    OpenSource,
    /// Stage the base title.
    StageBase,
    /// Author a Wii disc that boots Nintendont, with the GameCube image as its game file.
    AuthorDisc,
    /// Plan the rebuilt hash tree and the patches of the disc.
    PlanDisc,
    /// Build the NFS image.
    BuildNfs,
    /// Remove the authored disc.
    RemoveScratch,
    /// Write `rvlt.tik` and `rvlt.tmd`.
    WriteTickets,
    /// Patch `fw.img`.
    PatchFirmware,
    /// Write `app.xml`.
    WriteAppXml,
    /// Patch `meta.xml`.
    PatchMetaXml,
    /// Write the boot textures.
    WriteTextures,
    /// Build the package.
    BuildPackage,
    /// Write `nincfg.bin` beside the package.
    WriteNincfg,
}

/// The steps of an injection, in order.
pub open spec fn steps_of(gamecube: bool) -> Seq<Step> {
    if gamecube {
        seq![
            Step::OpenSource,
            Step::StageBase,
            Step::AuthorDisc,
            Step::BuildNfs,
            Step::RemoveScratch,
            Step::WriteTickets,
            Step::PatchFirmware,
            Step::WriteAppXml,
            Step::PatchMetaXml,
            Step::WriteTextures,
            Step::BuildPackage,
            Step::WriteNincfg,
        ]
    } else {
        seq![
            Step::OpenSource,
            Step::StageBase,
            Step::PlanDisc,
            Step::BuildNfs,
            Step::WriteTickets,
            Step::PatchFirmware,
            Step::WriteAppXml,
            Step::PatchMetaXml,
            Step::WriteTextures,
            Step::BuildPackage,
        ]
    }
}

/// The steps of an injection, in order.
pub fn steps(gamecube: bool) -> (r: Vec<Step>)
    ensures
        r@ == steps_of(gamecube),
{
    let mut r: Vec<Step> = Vec::new();
    r.push(Step::OpenSource);
    r.push(Step::StageBase);
    if gamecube {
        r.push(Step::AuthorDisc);
    } else {
        r.push(Step::PlanDisc);
    }
    r.push(Step::BuildNfs);
    if gamecube {
        r.push(Step::RemoveScratch);
    }
    r.push(Step::WriteTickets);
    r.push(Step::PatchFirmware);
    r.push(Step::WriteAppXml);
    r.push(Step::PatchMetaXml);
    r.push(Step::WriteTextures);
    r.push(Step::BuildPackage);
    if gamecube {
        r.push(Step::WriteNincfg);
    }
    assert(r@ =~= steps_of(gamecube));
    r
}

/// Everything that goes into the package is written before the package is built, and the base is
/// staged before any of it.
pub proof fn law_package_comes_last(gamecube: bool, i: int, j: int)
    requires
        0 <= i < j < steps_of(gamecube).len(),
    ensures
        steps_of(gamecube)[i] == Step::BuildPackage ==> steps_of(gamecube)[j] == Step::WriteNincfg,
        steps_of(gamecube)[j] == Step::StageBase ==> steps_of(gamecube)[i] == Step::OpenSource,
{
}

/// The title of an injection: the one that was given, the one that was found online, or the game
/// id.
pub open spec fn title_of(
    given: Option<String>,
    online: bool,
    found: Option<String>,
    game_id: Seq<char>,
) -> Seq<char> {
    match given {
        Some(title) => title@,
        None => match found {
            Some(title) if online => title@,
            _ => game_id,
        },
    }
}

/// Choose the title of an injection; `found` is what the lookup gave, if there was one.
pub fn resolve_title(
    given: &Option<String>,
    online: bool,
    found: &Option<String>,
    game_id: &str,
) -> (r: String)
    ensures
        r@ == title_of(*given, online, *found, game_id@),
{
    if let Some(title) = given {
        return title.clone();
    }
    if online {
        if let Some(title) = found {
            return title.clone();
        }
    }
    String::from_str(game_id)
}

/// Whether the title has to be looked up: none is given, and the network may be used.
pub fn wants_lookup(given: &Option<String>, online: bool) -> (r: bool)
    ensures
        r == (*given is None && online),
{
    given.is_none() && online
}

/// Choose the picture of the GamePad's boot screen: its own, or else that of the TV, so that both
/// screens match. Without either the base's stays.
pub fn drc_source(drc: Option<Vec<u8>>, tv: &Option<Vec<u8>>) -> (r: Option<Vec<u8>>)
    ensures
        match drc {
            Some(own) => r matches Some(picture) && picture@ == own@,
            None => match *tv {
                Some(shared) => r matches Some(picture) && picture@ == shared@,
                None => r is None,
            },
        },
{
    match drc {
        Some(own) => Some(own),
        None => match tv {
            Some(shared) => {
                let copy: Vec<u8> = copy_range(shared.as_slice(), 0, shared.len());
                assert(copy@ =~= shared@);
                Some(copy)
            },
            None => None,
        },
    }
}

/// Where the picture of a texture comes from.
#[derive(Debug)]
pub enum ArtSource {
    /// The file that was named.
    File(String),
    /// A download.
    Download,
    /// Nowhere; the base's stays.
    Base,
}

/// The picture that was named for a texture.
pub open spec fn named_art(config: Config, tex: BootTexture) -> Option<String> {
    match tex {
        BootTexture::Icon => config.icon_png,
        BootTexture::BootTv => config.boot_tv_png,
        BootTexture::BootDrc => config.boot_drc_png,
        BootTexture::BootLogo => None,
    }
}

/// Where the picture of a texture comes from: the file that was named, else a download where the
/// network may be used.
pub fn art_source(config: &Config, tex: BootTexture) -> (r: ArtSource)
    ensures
        match r {
            ArtSource::File(path) => named_art(*config, tex) matches Some(named) && path@
                == named@,
            ArtSource::Download => named_art(*config, tex) is None && config.online,
            ArtSource::Base => named_art(*config, tex) is None && !config.online,
        },
{
    let named: Option<&String> = match tex {
        BootTexture::Icon => config.icon_png.as_ref(),
        BootTexture::BootTv => config.boot_tv_png.as_ref(),
        BootTexture::BootDrc => config.boot_drc_png.as_ref(),
        BootTexture::BootLogo => None,
    };
    match named {
        Some(path) => ArtSource::File(path.clone()),
        None => if config.online {
            ArtSource::Download
        } else {
            ArtSource::Base
        },
    }
}

/// A ticket or TMD whose signature is zeroed, where it is long enough to have one.
pub open spec fn fakesigned(data: Seq<u8>) -> Seq<u8> {
    if data.len() >= WII_SIG_END {
        spliced(data, WII_SIG_START as int, zeros(WII_SIG_END - WII_SIG_START))
    } else {
        data
    }
}

/// Fakesign a Wii ticket or TMD: zero its RSA signature, which the patched firmware accepts.
pub fn fakesign(data: &mut Vec<u8>)
    ensures
        final(data)@ == fakesigned(old(data)@),
        final(data)@.len() == old(data)@.len(),
{
    if data.len() >= WII_SIG_END {
        let blank: Vec<u8> = zero_bytes(WII_SIG_END - WII_SIG_START);
        write_at(data, WII_SIG_START, blank.as_slice());
    }
}

/// A TMD that states another hash for its content and is fakesigned, where it is long enough to
/// state one.
pub open spec fn rehashed_tmd(tmd: Seq<u8>, content_hash: Seq<u8>) -> Seq<u8> {
    if tmd.len() >= TMD_CONTENT0_HASH + 20 {
        spliced(fakesigned(tmd), TMD_CONTENT0_HASH as int, content_hash)
    } else {
        tmd
    }
}

/// Make a Wii TMD state the hash of the rebuilt H3 table, and fakesign it.
pub fn update_rvlt_tmd(tmd: &mut Vec<u8>, content_hash: &[u8; 20])
    ensures
        final(tmd)@ == rehashed_tmd(old(tmd)@, content_hash@),
{
    if tmd.len() >= TMD_CONTENT0_HASH + 20 {
        fakesign(tmd);
        write_at(tmd, TMD_CONTENT0_HASH, content_hash.as_slice());
    }
}

/// Fakesigning zeroes the signature and touches nothing else.
pub proof fn law_fakesigning_zeroes_the_signature_alone(data: Seq<u8>, i: int)
    requires
        data.len() >= WII_SIG_END,
        0 <= i < data.len(),
    ensures
        fakesigned(data).len() == data.len(),
        fakesigned(data)[i] == if WII_SIG_START <= i < WII_SIG_END {
            0
        } else {
            data[i]
        },
{
}

/// A rehashed TMD states the new hash, has its signature zeroed and is otherwise as it was.
pub proof fn law_rehashed_tmd_states_the_hash(tmd: Seq<u8>, content_hash: Seq<u8>, i: int)
    requires
        tmd.len() >= TMD_CONTENT0_HASH + 20,
        content_hash.len() == 20,
        0 <= i < tmd.len(),
    ensures
        rehashed_tmd(tmd, content_hash).len() == tmd.len(),
        rehashed_tmd(tmd, content_hash).subrange(
            TMD_CONTENT0_HASH as int,
            TMD_CONTENT0_HASH + 20,
        ) == content_hash,
        rehashed_tmd(tmd, content_hash)[i] == if TMD_CONTENT0_HASH <= i < TMD_CONTENT0_HASH + 20 {
            content_hash[i - TMD_CONTENT0_HASH]
        } else if WII_SIG_START <= i < WII_SIG_END {
            0
        } else {
            tmd[i]
        },
{
    assert(rehashed_tmd(tmd, content_hash).subrange(
        TMD_CONTENT0_HASH as int,
        TMD_CONTENT0_HASH + 20,
    ) =~= content_hash);
}

/// The `rvlt.tik` and `rvlt.tmd` of a Wii disc.
pub struct RvltFiles {
    /// `rvlt.tik`.
    pub ticket: Vec<u8>,
    /// `rvlt.tmd`.
    pub tmd: Vec<u8>,
}

/// Make the ticket and TMD of a Wii disc ready for the title: fakesigned both, and the TMD with
/// the hash of the rebuilt H3 table where there is one.
pub fn rvlt_files(raw_ticket: &[u8], raw_tmd: &[u8], content_hash: Option<[u8; 20]>) -> (r: RvltFiles)
    ensures
        r.ticket@ == fakesigned(raw_ticket@),
        r.tmd@ == match content_hash {
            Some(hash) => rehashed_tmd(raw_tmd@, hash@),
            None => fakesigned(raw_tmd@),
        },
{
    let mut ticket: Vec<u8> = copy_range(raw_ticket, 0, raw_ticket.len());
    assert(ticket@ =~= raw_ticket@);
    fakesign(&mut ticket);
    let mut tmd: Vec<u8> = copy_range(raw_tmd, 0, raw_tmd.len());
    assert(tmd@ =~= raw_tmd@);
    match content_hash {
        Some(hash) => update_rvlt_tmd(&mut tmd, &hash),
        None => fakesign(&mut tmd),
    }
    RvltFiles { ticket, tmd }
}

/// Patch the base's `meta.xml` for a title: its identifiers, the title as long and short name in
/// every language, no publisher, the region and the use of the GamePad.
pub fn title_meta(
    base_meta_xml: &str,
    ids: &TitleIds,
    title: &str,
    region: Region,
    gamepad: bool,
) -> (r: Result<String>)
    ensures
        ({
            let opts = MetaOptions {
                ids,
                long_name: title,
                short_name: title,
                publisher: "",
                region: region_code(region),
                drc_use: gamepad,
            };
            let patched = patched_from(events_of(body_of(base_meta_xml@)), 0, opts);
            match r {
                Ok(text) => {
                    &&& patched matches Ok(bytes)
                    &&& valid_utf8(bytes)
                    &&& text@ == mark_of(base_meta_xml@) + decode_utf8(bytes)
                },
                Err(e) => match patched {
                    Err(fault) => patch_error(e, fault),
                    Ok(bytes) => !valid_utf8(bytes) && e is Other,
                },
            }
        }),
{
    let opts = MetaOptions {
        ids,
        long_name: title,
        short_name: title,
        publisher: "",
        region: region.code(),
        drc_use: gamepad,
    };
    patch_meta(base_meta_xml, &opts)
}

/// The parameters of a title's package: its title id, the low half of its group id, the keys and
/// the certificate chain.
pub fn package_params<'a>(ids: &TitleIds, common_key: &WiiUCommonKey, cert: &'a CertChain) -> (r:
    PackageParams<'a>)
    ensures
        r.title_id == ids.title_id,
        r.group_id == ids.group_id % 0x1_0000,
        r.wiiu_common_key == common_key.0,
        r.title_key@ == TITLE_KEY@,
        r.cert == cert,
{
    PackageParams {
        title_id: ids.title_id,
        group_id: (ids.group_id % 0x1_0000) as u16,
        wiiu_common_key: common_key.0,
        title_key: TITLE_KEY,
        cert,
    }
}

/// The options of `nincfg.bin` for a GameCube injection: those of the injection and the game id;
/// the rest as it is by default.
pub open spec fn nincfg_options(opts: GameCubeOptions, game_id: [u8; 4]) -> NincfgOptions {
    NincfgOptions {
        game_id,
        widescreen: opts.widescreen,
        language: opts.language,
        video_mode: opts.video_mode,
        memcard_emu: opts.memcard_emu,
        memcard_blocks: 2,
        cheat_path: opts.cheat_path,
        max_pads: 4,
        wiiu_gamepad_slot: 0,
    }
}

/// What `nincfg.bin` holds for a GameCube injection.
pub fn gamecube_nincfg(opts: &GameCubeOptions, game_id: [u8; 4]) -> (r: [u8; NINCFG_SIZE])
    ensures
        r@ == nincfg_bytes(nincfg_options(*opts, game_id)),
{
    let cheat_path: Option<String> = match &opts.cheat_path {
        Some(path) => Some(path.clone()),
        None => None,
    };
    let base: NincfgOptions = NincfgOptions::default();
    let full = NincfgOptions {
        game_id,
        widescreen: opts.widescreen,
        language: opts.language,
        video_mode: opts.video_mode,
        memcard_emu: opts.memcard_emu,
        memcard_blocks: base.memcard_blocks,
        cheat_path,
        max_pads: base.max_pads,
        wiiu_gamepad_slot: base.wiiu_gamepad_slot,
    };
    assert(cheat_bytes(full) == cheat_bytes(nincfg_options(*opts, game_id)));
    assert(config_flags(full) == config_flags(nincfg_options(*opts, game_id)));
    generate(&full)
}

/// The part of the art repository that holds a title's pictures.
pub fn art_platform(gamecube: bool) -> (r: &'static str)
    ensures
        r@ == if gamecube {
            "gcn"@
        } else {
            "wii"@
        },
{
    if gamecube {
        "gcn"
    } else {
        "wii"
    }
}

/// The summary of an injection.
pub fn summarize(ids: &TitleIds, game_id: &str, title: &str, package: PackageStats, out: &str) -> (r:
    Summary)
    ensures
        r.title_id == ids.title_id,
        r.game_id@ == game_id@,
        r.title@ == title@,
        r.package == package,
        r.out@ == out@,
{
    Summary {
        title_id: ids.title_id,
        game_id: String::from_str(game_id),
        title: String::from_str(title),
        package,
        out: String::from_str(out),
    }
}

/// Every region is one bit of its own: the first for Japan, the second for the USA, the third for
/// Europe.
pub proof fn law_regions_are_bits_of_their_own(r: Region)
    ensures
        region_code(r) == match r {
            Region::Japan => 1int,
            Region::Usa => 2,
            Region::Europe => 4,
        },
{
}

/// An injection opens the source, stages the base, makes the disc ready, builds the NFS image,
/// writes what goes beside it and builds the package, in this order and each once. Only a
/// GameCube disc is authored, removed again and gets a `nincfg.bin`; only a Wii disc is planned.
pub proof fn law_steps_come_in_order(gamecube: bool, i: int, j: int)
    requires
        0 <= i < j < steps_of(gamecube).len(),
    ensures
        step_rank(steps_of(gamecube)[i]) < step_rank(steps_of(gamecube)[j]),
{
}

/// The place of a step among all steps.
pub open spec fn step_rank(step: Step) -> int {
    match step {
        Step::OpenSource => 0,
        Step::StageBase => 1,
        Step::AuthorDisc => 2,
        Step::PlanDisc => 3,
        Step::BuildNfs => 4,
        Step::RemoveScratch => 5,
        Step::WriteTickets => 6,
        Step::PatchFirmware => 7,
        Step::WriteAppXml => 8,
        Step::PatchMetaXml => 9,
        Step::WriteTextures => 10,
        Step::BuildPackage => 11,
        Step::WriteNincfg => 12,
    }
}

/// No step is left out that a disc needs, and none is made that it does not.
pub proof fn law_steps_are_those_that_are_needed(gamecube: bool, step: Step)
    ensures
        steps_of(gamecube).contains(step) <==> match step {
            Step::AuthorDisc | Step::RemoveScratch | Step::WriteNincfg => gamecube,
            Step::PlanDisc => !gamecube,
            _ => true,
        },
{
    let steps = steps_of(gamecube);
    assert(steps[0] == Step::OpenSource);
    assert(steps[1] == Step::StageBase);
    if gamecube {
        assert(steps[2] == Step::AuthorDisc && steps[3] == Step::BuildNfs && steps[4]
            == Step::RemoveScratch && steps[5] == Step::WriteTickets && steps[6]
            == Step::PatchFirmware && steps[7] == Step::WriteAppXml && steps[8]
            == Step::PatchMetaXml && steps[9] == Step::WriteTextures && steps[10]
            == Step::BuildPackage && steps[11] == Step::WriteNincfg);
    } else {
        assert(steps[2] == Step::PlanDisc && steps[3] == Step::BuildNfs && steps[4]
            == Step::WriteTickets && steps[5] == Step::PatchFirmware && steps[6]
            == Step::WriteAppXml && steps[7] == Step::PatchMetaXml && steps[8]
            == Step::WriteTextures && steps[9] == Step::BuildPackage);
    }
}

/// A title that is given is taken whatever was found and wherever the network may be used; one
/// that was found counts only online and only where none is given; else the game id is the title.
pub proof fn law_titles_are_chosen_in_turn(
    given: Option<String>,
    online: bool,
    found: Option<String>,
    game_id: Seq<char>,
)
    ensures
        given matches Some(title) ==> title_of(given, online, found, game_id) == title@,
        given is None && !online ==> title_of(given, online, found, game_id) == game_id,
        given is None && found is None ==> title_of(given, online, found, game_id) == game_id,
        given is None && online ==> (found matches Some(title) ==> title_of(
            given,
            online,
            found,
            game_id,
        ) == title@),
{
}

/// Each texture has a picture of its own, and the logo none.
pub proof fn law_pictures_are_named_for_their_textures(config: Config)
    ensures
        named_art(config, BootTexture::Icon) == config.icon_png,
        named_art(config, BootTexture::BootTv) == config.boot_tv_png,
        named_art(config, BootTexture::BootDrc) == config.boot_drc_png,
        named_art(config, BootTexture::BootLogo) is None,
{
}

/// Fakesigning a ticket or TMD of at least 0x104 bytes zeroes the 0x100 bytes behind the
/// signature type, and no others. A shorter one stays as it is.
pub proof fn law_signature_is_zeroed(data: Seq<u8>, i: int)
    requires
        0 <= i < data.len(),
    ensures
        fakesigned(data).len() == data.len(),
        data.len() >= 0x104 && 4 <= i < 0x104 ==> fakesigned(data)[i] == 0,
        i < 4 || 0x104 <= i || data.len() < 0x104 ==> fakesigned(data)[i] == data[i],
{
}

/// A rehashed TMD of at least 0x208 bytes states the new hash at 0x1F4, its signature is zeroed,
/// and no other byte changes. A shorter one stays as it is.
pub proof fn law_tmd_states_the_new_hash(tmd: Seq<u8>, content_hash: Seq<u8>, i: int)
    requires
        content_hash.len() == 20,
        0 <= i < tmd.len(),
    ensures
        rehashed_tmd(tmd, content_hash).len() == tmd.len(),
        tmd.len() >= 0x208 && 0x1F4 <= i < 0x208 ==> rehashed_tmd(tmd, content_hash)[i]
            == content_hash[i - 0x1F4],
        tmd.len() >= 0x208 && 4 <= i < 0x104 ==> rehashed_tmd(tmd, content_hash)[i] == 0,
        i < 4 || 0x104 <= i < 0x1F4 || 0x208 <= i || tmd.len() < 0x208 ==> rehashed_tmd(
            tmd,
            content_hash,
        )[i] == tmd[i],
{
}

/// The configuration of Nintendont takes each option of the injection as it is, and the defaults
/// for the others: a card of 251 blocks, four controllers, the first slot.
pub proof fn law_injection_options_reach_nintendont(opts: GameCubeOptions, game_id: [u8; 4])
    ensures
        ({
            let full = nincfg_options(opts, game_id);
            &&& full.game_id == game_id
            &&& full.widescreen == opts.widescreen
            &&& full.language == opts.language
            &&& full.video_mode == opts.video_mode
            &&& full.memcard_emu == opts.memcard_emu
            &&& full.cheat_path == opts.cheat_path
            &&& full.memcard_blocks == 2
            &&& full.max_pads == 4
            &&& full.wiiu_gamepad_slot == 0
        }),
{
}

} // verus!

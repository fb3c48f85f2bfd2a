//! Nintendont's configuration file (`nincfg.bin`).
//!
//! An injected GameCube title boots Nintendont, which reads its settings from `nincfg.bin` at the
//! root of the SD card. The file is therefore no part of the package; it is written beside it.
//!
//! The record is that of configuration version 10, 0x222 bytes long, every integer big-endian:
//!
//! ```text
//! 0x000  magic 0x01070CF6
//! 0x004  version 10
//! 0x008  flags
//! 0x00C  video mode
//! 0x010  language
//! 0x014  path of the game, 255 bytes with a NUL at the end
//! 0x113  path of the cheat file, 255 bytes with a NUL at the end
//! 0x212  number of controllers
//! 0x216  game id, four characters
//! 0x21A  size of the memory card
//! 0x21B  video scale, video offset, network profile
//! 0x21E  slot of the GamePad
//! ```

use vstd::prelude::*;
use vstd::utf8::encode_utf8;

use crate::util::{
    append_bytes, append_zeros, be32, be32_at, lemma_be32, lemma_be32_bytes, push_be32, zeros,
};

verus! {

/// Size of the record.
pub const NINCFG_SIZE: usize = 0x222;

/// Version of the record.
pub const NINCFG_VERSION: u32 = 0x0000_000A;

/// The record's magic number.
pub const NINCFG_MAGIC: u32 = 0x0107_0CF6;

/// Where the magic number stands.
pub const OFF_MAGIC: usize = 0x000;

/// Where the version stands.
pub const OFF_VERSION: usize = 0x004;

/// Where the flags stand.
pub const OFF_CONFIG: usize = 0x008;

/// Where the video mode stands.
pub const OFF_VIDEOMODE: usize = 0x00C;

/// Where the language stands.
pub const OFF_LANGUAGE: usize = 0x010;

/// Where the path of the game stands.
pub const OFF_GAMEPATH: usize = 0x014;

/// Where the path of the cheat file stands.
pub const OFF_CHEATPATH: usize = 0x113;

/// Where the number of controllers stands.
pub const OFF_MAXPADS: usize = 0x212;

/// Where the game id stands.
pub const OFF_GAMEID: usize = 0x216;

/// Where the size of the memory card stands.
pub const OFF_MEMCARDBLOCKS: usize = 0x21A;

/// Where the slot of the GamePad stands.
pub const OFF_WIIU_GAMEPAD_SLOT: usize = 0x21E;

/// Size of a path field.
pub const PATH_LEN: usize = 255;

/// Flag: cheats are on.
pub const CFG_CHEATS: u32 = 0x0000_0001;

/// Flag: a memory card is emulated.
pub const CFG_MEMCARDEMU: u32 = 0x0000_0008;

/// Flag: the path of a cheat file is given.
pub const CFG_CHEAT_PATH: u32 = 0x0000_0010;

/// Flag: widescreen is forced.
pub const CFG_FORCE_WIDE: u32 = 0x0000_0020;

/// Flag: the game is started at once.
pub const CFG_AUTO_BOOT: u32 = 0x0000_0080;

/// Flag: widescreen on the Wii U.
pub const CFG_WIIU_WIDE: u32 = 0x0000_8000;

/// Bit of a forced video mode.
pub const VID_FORCE: u32 = 0x0001_0000;

/// Bit of a progressive video mode.
pub const VID_PROG: u32 = 0x0000_0010;

/// Where Nintendont reads the game from, the emulated disc: `di:/game.iso`.
const GAME_PATH: [u8; 12] = [
    0x64, 0x69, 0x3a, 0x2f, 0x67, 0x61, 0x6d, 0x65, 0x2e, 0x69, 0x73, 0x6f,
];

/// Language of the game.
#[derive(Clone, Copy, Debug, Default, PartialEq, Eq, Structural)]
pub enum Language {
    /// Left to Nintendont.
    #[default]
    Auto,
    /// English.
    English,
    /// German.
    German,
    /// French.
    French,
    /// Spanish.
    Spanish,
    /// Italian.
    Italian,
    /// Dutch.
    Dutch,
}

/// The number that stands for a language.
pub open spec fn language_value(l: Language) -> u32 {
    match l {
        Language::Auto => 0xFFFF_FFFF,
        Language::English => 0,
        Language::German => 1,
        Language::French => 2,
        Language::Spanish => 3,
        Language::Italian => 4,
        Language::Dutch => 5,
    }
}

impl Language {
    /// The number that stands for the language.
    pub fn value(self) -> (r: u32)
        ensures
            r == language_value(self),
    {
        match self {
            Language::Auto => 0xFFFF_FFFF,
            Language::English => 0,
            Language::German => 1,
            Language::French => 2,
            Language::Spanish => 3,
            Language::Italian => 4,
            Language::Dutch => 5,
        }
    }
}

/// Forced video mode.
#[derive(Clone, Copy, Debug, Default, PartialEq, Eq, Structural)]
pub enum VideoMode {
    /// That of the game.
    #[default]
    Auto,
    /// NTSC 480i.
    ForceNtsc,
    /// PAL50.
    ForcePal50,
    /// PAL60.
    ForcePal60,
    /// MPAL.
    ForceMpal,
    /// Progressive, 480p.
    ForceProgressive,
    /// Nintendont leaves the video alone.
    Off,
}

/// The number that stands for a video mode: 0x10000 forces one, 0x20000 turns video handling
/// off; the low bits are 1 for PAL50, 2 for PAL60, 4 for NTSC, 8 for MPAL and 0x10 for
/// progressive.
pub open spec fn video_value(v: VideoMode) -> u32 {
    match v {
        VideoMode::Auto => 0,
        VideoMode::ForceNtsc => 0x0001_0004,
        VideoMode::ForcePal50 => 0x0001_0001,
        VideoMode::ForcePal60 => 0x0001_0002,
        VideoMode::ForceMpal => 0x0001_0008,
        VideoMode::ForceProgressive => 0x0001_0014,
        VideoMode::Off => 0x0002_0000,
    }
}

impl VideoMode {
    /// The number that stands for the video mode.
    pub fn value(self) -> (r: u32)
        ensures
            r == video_value(self),
    {
        match self {
            VideoMode::Auto => 0,
            VideoMode::ForceNtsc => 0x0001_0004,
            VideoMode::ForcePal50 => 0x0001_0001,
            VideoMode::ForcePal60 => 0x0001_0002,
            VideoMode::ForceMpal => 0x0001_0008,
            VideoMode::ForceProgressive => 0x0001_0014,
            VideoMode::Off => 0x0002_0000,
        }
    }
}

/// What goes into the record.
#[derive(Clone, Debug)]
pub struct NincfgOptions {
    /// The GameCube game id, four ASCII characters.
    pub game_id: [u8; 4],
    /// Force a 16:9 picture.
    pub widescreen: bool,
    /// Language of the game.
    pub language: Language,
    /// Forced video mode.
    pub video_mode: VideoMode,
    /// Emulate a memory card.
    pub memcard_emu: bool,
    /// Size of the memory card: `x` stands for `(1 << (x + 6)) - 5` blocks.
    pub memcard_blocks: u8,
    /// Path of a cheat file on the SD card; cheats are on where it is given.
    pub cheat_path: Option<String>,
    /// Number of controllers, 0 to 4.
    pub max_pads: u32,
    /// Which GamePad maps to a controller slot.
    pub wiiu_gamepad_slot: u32,
}

impl Default for NincfgOptions {
    fn default() -> (r: Self)
        ensures
            r.game_id@ == seq![0x5Fu8, 0x5Fu8, 0x5Fu8, 0x5Fu8],
            !r.widescreen,
            r.language == Language::Auto,
            r.video_mode == VideoMode::Auto,
            r.memcard_emu,
            r.memcard_blocks == 2,
            r.cheat_path is None,
            r.max_pads == 4,
            r.wiiu_gamepad_slot == 0,
    {
        let game_id: [u8; 4] = [0x5F, 0x5F, 0x5F, 0x5F];
        assert(game_id@ =~= seq![0x5Fu8, 0x5Fu8, 0x5Fu8, 0x5Fu8]);
        NincfgOptions {
            game_id,
            widescreen: false,
            language: Language::Auto,
            video_mode: VideoMode::Auto,
            memcard_emu: true,
            memcard_blocks: 2,
            cheat_path: None,
            max_pads: 4,
            wiiu_gamepad_slot: 0,
        }
    }
}

/// The bytes of `di:/game.iso`.
pub open spec fn game_path() -> Seq<u8> {
    seq![
        0x64u8, 0x69u8, 0x3au8, 0x2fu8, 0x67u8, 0x61u8, 0x6du8, 0x65u8, 0x2eu8, 0x69u8, 0x73u8,
        0x6fu8,
    ]
}

/// The record's flags. Each option has bits of its own.
pub open spec fn config_flags(o: NincfgOptions) -> u32 {
    (CFG_AUTO_BOOT + (if o.memcard_emu {
        CFG_MEMCARDEMU as int
    } else {
        0
    }) + (if o.widescreen {
        CFG_FORCE_WIDE + CFG_WIIU_WIDE
    } else {
        0
    }) + (if o.cheat_path is Some {
        CFG_CHEATS + CFG_CHEAT_PATH
    } else {
        0
    })) as u32
}

/// A path field: as much of the path as leaves room for a NUL, then zeros.
pub open spec fn path_field(path: Seq<u8>) -> Seq<u8> {
    if path.len() <= 254 {
        path + zeros(255 - path.len())
    } else {
        path.subrange(0, 254) + zeros(1)
    }
}

/// The path of the cheat file; empty where none is given.
pub open spec fn cheat_bytes(o: NincfgOptions) -> Seq<u8> {
    match o.cheat_path {
        Some(path) => encode_utf8(path@),
        None => Seq::empty(),
    }
}

/// The record.
pub open spec fn nincfg_bytes(o: NincfgOptions) -> Seq<u8> {
    be32(NINCFG_MAGIC) + be32(NINCFG_VERSION) + be32(config_flags(o)) + be32(
        video_value(o.video_mode),
    ) + be32(language_value(o.language)) + path_field(game_path()) + path_field(cheat_bytes(o))
        + be32(o.max_pads) + o.game_id@ + seq![o.memcard_blocks, 0u8, 0u8, 0u8] + be32(
        o.wiiu_gamepad_slot,
    )
}

/// Append a path field.
fn put_cstr(out: &mut Vec<u8>, path: &[u8])
    ensures
        final(out)@ == old(out)@ + path_field(path@),
        path_field(path@).len() == 255,
{
    let n: usize = if path.len() < 254 {
        path.len()
    } else {
        254
    };
    let part: &[u8] = vstd::slice::slice_subrange(path, 0, n);
    append_bytes(out, part);
    append_zeros(out, 255 - n);
    assert(path@.subrange(0, path@.len() as int) =~= path@);
    assert(out@ =~= old(out)@ + path_field(path@));
}

/// Build the record.
pub fn generate(opts: &NincfgOptions) -> (r: [u8; NINCFG_SIZE])
    ensures
        r@ == nincfg_bytes(*opts),
{
    let mut config: u32 = CFG_AUTO_BOOT;
    if opts.memcard_emu {
        config = config + CFG_MEMCARDEMU;
    }
    if opts.widescreen {
        config = config + CFG_FORCE_WIDE + CFG_WIIU_WIDE;
    }
    if opts.cheat_path.is_some() {
        config = config + CFG_CHEATS + CFG_CHEAT_PATH;
    }
    let mut out: Vec<u8> = Vec::with_capacity(NINCFG_SIZE);
    push_be32(&mut out, NINCFG_MAGIC);
    push_be32(&mut out, NINCFG_VERSION);
    push_be32(&mut out, config);
    push_be32(&mut out, opts.video_mode.value());
    push_be32(&mut out, opts.language.value());
    let game: &[u8] = GAME_PATH.as_slice();
    assert(game@ =~= game_path());
    put_cstr(&mut out, game);
    let none: Vec<u8> = Vec::new();
    let cheat: &[u8] = match &opts.cheat_path {
        Some(path) => path.as_str().as_bytes(),
        None => none.as_slice(),
    };
    assert(cheat@ =~= cheat_bytes(*opts));
    put_cstr(&mut out, cheat);
    push_be32(&mut out, opts.max_pads);
    append_bytes(&mut out, opts.game_id.as_slice());
    let ghost front = out@;
    out.push(opts.memcard_blocks);
    out.push(0);
    out.push(0);
    out.push(0);
    assert(out@ =~= front + seq![opts.memcard_blocks, 0u8, 0u8, 0u8]);
    push_be32(&mut out, opts.wiiu_gamepad_slot);
    assert(out@ =~= nincfg_bytes(*opts));
    let mut record: [u8; NINCFG_SIZE] = [0u8; 0x222];
    let mut i: usize = 0;
    while i < NINCFG_SIZE
        invariant
            i <= NINCFG_SIZE,
            out@.len() == NINCFG_SIZE,
            forall|j: int| 0 <= j < i ==> record@[j] == out@[j],
        decreases NINCFG_SIZE - i,
    {
        record[i] = out[i];
        i += 1;
    }
    assert(record@ =~= out@);
    record
}

/// The five words in front of the paths.
spec fn front_words(o: NincfgOptions) -> Seq<u8> {
    be32(NINCFG_MAGIC) + be32(NINCFG_VERSION) + be32(config_flags(o)) + be32(
        video_value(o.video_mode),
    ) + be32(language_value(o.language))
}

/// What stands behind the paths.
spec fn back_fields(o: NincfgOptions) -> Seq<u8> {
    be32(o.max_pads) + o.game_id@ + seq![o.memcard_blocks, 0u8, 0u8, 0u8] + be32(
        o.wiiu_gamepad_slot,
    )
}

/// The words in front, each at its place.
proof fn lemma_front_words(o: NincfgOptions)
    ensures
        front_words(o).len() == 20,
        front_words(o).subrange(0, 4) == be32(NINCFG_MAGIC),
        front_words(o).subrange(4, 8) == be32(NINCFG_VERSION),
        front_words(o).subrange(8, 12) == be32(config_flags(o)),
        front_words(o).subrange(12, 16) == be32(video_value(o.video_mode)),
        front_words(o).subrange(16, 20) == be32(language_value(o.language)),
{
    let w = front_words(o);
    assert(w.subrange(0, 4) =~= be32(NINCFG_MAGIC));
    assert(w.subrange(4, 8) =~= be32(NINCFG_VERSION));
    assert(w.subrange(8, 12) =~= be32(config_flags(o)));
    assert(w.subrange(12, 16) =~= be32(video_value(o.video_mode)));
    assert(w.subrange(16, 20) =~= be32(language_value(o.language)));
}

/// The fields behind the paths, each at its place.
proof fn lemma_back_fields(o: NincfgOptions)
    ensures
        back_fields(o).len() == 16,
        back_fields(o).subrange(0, 4) == be32(o.max_pads),
        back_fields(o).subrange(4, 8) == o.game_id@,
        back_fields(o)[8] == o.memcard_blocks,
        back_fields(o).subrange(12, 16) == be32(o.wiiu_gamepad_slot),
{
    let b = back_fields(o);
    assert(b.subrange(0, 4) =~= be32(o.max_pads));
    assert(b.subrange(4, 8) =~= o.game_id@);
    assert(b.subrange(12, 16) =~= be32(o.wiiu_gamepad_slot));
}

/// A path field has its fixed size, starts with the path where that fits, and ends in a NUL.
proof fn lemma_path_field(path: Seq<u8>)
    ensures
        path_field(path).len() == 255,
        path.len() <= 254 ==> path_field(path).subrange(0, path.len() as int) == path,
        path.len() <= 254 ==> path_field(path)[path.len() as int] == 0,
        path_field(path)[254] == 0,
{
    if path.len() <= 254 {
        assert(path_field(path).subrange(0, path.len() as int) =~= path);
    }
}

/// A stretch of one of four sequences, found again where they follow one another.
proof fn lemma_stretch(a: Seq<u8>, b: Seq<u8>, c: Seq<u8>, d: Seq<u8>, from: int, to: int)
    requires
        0 <= from <= to,
    ensures
        to <= a.len() ==> (a + b + c + d).subrange(from, to) == a.subrange(from, to),
        to <= b.len() ==> (a + b + c + d).subrange(a.len() + from, a.len() + to) == b.subrange(
            from,
            to,
        ),
        to <= c.len() ==> (a + b + c + d).subrange(
            a.len() + b.len() + from,
            a.len() + b.len() + to,
        ) == c.subrange(from, to),
        to <= d.len() ==> (a + b + c + d).subrange(
            a.len() + b.len() + c.len() + from,
            a.len() + b.len() + c.len() + to,
        ) == d.subrange(from, to),
{
    let all = a + b + c + d;
    if to <= a.len() {
        assert(all.subrange(from, to) =~= a.subrange(from, to));
    }
    if to <= b.len() {
        assert(all.subrange(a.len() + from, a.len() + to) =~= b.subrange(from, to));
    }
    if to <= c.len() {
        let at = (a.len() + b.len()) as int;
        assert(all.subrange(at + from, at + to) =~= c.subrange(from, to));
    }
    if to <= d.len() {
        let at = (a.len() + b.len() + c.len()) as int;
        assert(all.subrange(at + from, at + to) =~= d.subrange(from, to));
    }
}

/// Every field stands at its offset, and both paths end in a NUL.
pub proof fn law_fields_stand_at_their_offsets(o: NincfgOptions)
    ensures
        nincfg_bytes(o).len() == NINCFG_SIZE,
        be32_at(nincfg_bytes(o), OFF_MAGIC as int) == NINCFG_MAGIC,
        be32_at(nincfg_bytes(o), OFF_VERSION as int) == NINCFG_VERSION,
        be32_at(nincfg_bytes(o), OFF_CONFIG as int) == config_flags(o),
        be32_at(nincfg_bytes(o), OFF_VIDEOMODE as int) == video_value(o.video_mode),
        be32_at(nincfg_bytes(o), OFF_LANGUAGE as int) == language_value(o.language),
        nincfg_bytes(o).subrange(OFF_GAMEPATH as int, OFF_GAMEPATH + 12) == game_path(),
        nincfg_bytes(o)[OFF_GAMEPATH + 12] == 0,
        cheat_bytes(o).len() <= 254 ==> nincfg_bytes(o).subrange(
            OFF_CHEATPATH as int,
            OFF_CHEATPATH + cheat_bytes(o).len(),
        ) == cheat_bytes(o),
        nincfg_bytes(o)[OFF_CHEATPATH + PATH_LEN - 1] == 0,
        be32_at(nincfg_bytes(o), OFF_MAXPADS as int) == o.max_pads,
        nincfg_bytes(o).subrange(OFF_GAMEID as int, OFF_GAMEID + 4) == o.game_id@,
        nincfg_bytes(o)[OFF_MEMCARDBLOCKS as int] == o.memcard_blocks,
        be32_at(nincfg_bytes(o), OFF_WIIU_GAMEPAD_SLOT as int) == o.wiiu_gamepad_slot,
{
    let all = nincfg_bytes(o);
    let a = front_words(o);
    let b = path_field(game_path());
    let c = path_field(cheat_bytes(o));
    let d = back_fields(o);
    lemma_front_words(o);
    lemma_back_fields(o);
    lemma_path_field(game_path());
    lemma_path_field(cheat_bytes(o));
    assert(all =~= a + b + c + d);
    lemma_stretch(a, b, c, d, 0, 4);
    lemma_be32(all, 0, NINCFG_MAGIC);
    lemma_be32(all, 0x212, o.max_pads);
    lemma_stretch(a, b, c, d, 4, 8);
    lemma_be32(all, 4, NINCFG_VERSION);
    lemma_stretch(a, b, c, d, 8, 12);
    lemma_be32(all, 8, config_flags(o));
    lemma_stretch(a, b, c, d, 12, 16);
    lemma_be32(all, 12, video_value(o.video_mode));
    lemma_be32(all, 0x21E, o.wiiu_gamepad_slot);
    lemma_stretch(a, b, c, d, 16, 20);
    lemma_be32(all, 16, language_value(o.language));
    lemma_stretch(a, b, c, d, 0, 12);
    lemma_stretch(a, b, c, d, 0, cheat_bytes(o).len() as int);
}

/// The record in four parts, and the bytes of each.
proof fn lemma_record_parts(o: NincfgOptions)
    ensures
        ({
            let all = nincfg_bytes(o);
            let a = front_words(o);
            let b = path_field(game_path());
            let c = path_field(cheat_bytes(o));
            let d = back_fields(o);
            &&& all.len() == 0x222
            &&& all == a + b + c + d
            &&& a.len() == 20 && b.len() == 255 && c.len() == 255 && d.len() == 16
            &&& forall|k: int| 0 <= k < 4 ==> #[trigger] be32(config_flags(o))[k] == all[8 + k]
            &&& forall|k: int|
                0 <= k < 4 ==> #[trigger] be32(video_value(o.video_mode))[k] == all[12 + k]
            &&& forall|k: int|
                0 <= k < 4 ==> #[trigger] be32(language_value(o.language))[k] == all[16 + k]
            &&& forall|k: int| 0 <= k < 255 ==> #[trigger] b[k] == all[0x14 + k]
            &&& forall|k: int| 0 <= k < 255 ==> #[trigger] c[k] == all[0x113 + k]
            &&& forall|k: int| 0 <= k < 16 ==> #[trigger] d[k] == all[0x212 + k]
        }),
{
    let all = nincfg_bytes(o);
    let a = front_words(o);
    let b = path_field(game_path());
    let c = path_field(cheat_bytes(o));
    let d = back_fields(o);
    lemma_front_words(o);
    lemma_back_fields(o);
    lemma_path_field(game_path());
    lemma_path_field(cheat_bytes(o));
    assert(all =~= a + b + c + d);
    assert forall|k: int| 0 <= k < 4 implies #[trigger] be32(config_flags(o))[k] == all[8 + k] by {
        assert(a.subrange(8, 12)[k] == a[8 + k]);
    }
    assert forall|k: int| 0 <= k < 4 implies #[trigger] be32(video_value(o.video_mode))[k]
        == all[12 + k] by {
        assert(a.subrange(12, 16)[k] == a[12 + k]);
    }
    assert forall|k: int| 0 <= k < 4 implies #[trigger] be32(language_value(o.language))[k]
        == all[16 + k] by {
        assert(a.subrange(16, 20)[k] == a[16 + k]);
    }
}

/// Every option that is on sets bits of its own in the flags and no others, whatever the other
/// options are: the memory card bit 3, widescreen bits 5 and 15, cheats bits 0 and 4. Bit 7, which
/// starts the game at once, is always set.
pub proof fn law_options_set_bits_of_their_own(o: NincfgOptions)
    ensures
        nincfg_bytes(o)[8] == 0,
        nincfg_bytes(o)[9] == 0,
        nincfg_bytes(o)[10] == if o.widescreen {
            0x80int
        } else {
            0
        },
        nincfg_bytes(o)[11] == 0x80 + (if o.memcard_emu {
            0x08int
        } else {
            0
        }) + (if o.widescreen {
            0x20int
        } else {
            0
        }) + (if o.cheat_path is Some {
            0x11int
        } else {
            0
        }),
{
    lemma_record_parts(o);
    lemma_be32_bytes(config_flags(o));
    let w = be32(config_flags(o));
    assert(w[0] == nincfg_bytes(o)[8] && w[1] == nincfg_bytes(o)[9] && w[2] == nincfg_bytes(o)[10]
        && w[3] == nincfg_bytes(o)[11]);
}

/// The video mode is told by its four bytes: the second says whether one is forced (1) or video
/// handling is off (2), the last which one.
pub proof fn law_video_mode_is_told(o: NincfgOptions)
    ensures
        nincfg_bytes(o)[12] == 0,
        nincfg_bytes(o)[13] == match o.video_mode {
            VideoMode::Auto => 0int,
            VideoMode::Off => 2,
            _ => 1,
        },
        nincfg_bytes(o)[14] == 0,
        nincfg_bytes(o)[15] == match o.video_mode {
            VideoMode::Auto => 0int,
            VideoMode::ForcePal50 => 0x01,
            VideoMode::ForcePal60 => 0x02,
            VideoMode::ForceNtsc => 0x04,
            VideoMode::ForceMpal => 0x08,
            VideoMode::ForceProgressive => 0x14,
            VideoMode::Off => 0,
        },
{
    lemma_record_parts(o);
    lemma_be32_bytes(video_value(o.video_mode));
    let w = be32(video_value(o.video_mode));
    assert(w[0] == nincfg_bytes(o)[12] && w[1] == nincfg_bytes(o)[13] && w[2] == nincfg_bytes(
        o,
    )[14] && w[3] == nincfg_bytes(o)[15]);
}

/// The language is told by its four bytes: all ones leave it to Nintendont, and the others count
/// from English on.
pub proof fn law_language_is_told(o: NincfgOptions)
    ensures
        o.language == Language::Auto ==> nincfg_bytes(o)[16] == 0xFF && nincfg_bytes(o)[17] == 0xFF
            && nincfg_bytes(o)[18] == 0xFF && nincfg_bytes(o)[19] == 0xFF,
        o.language != Language::Auto ==> nincfg_bytes(o)[16] == 0 && nincfg_bytes(o)[17] == 0
            && nincfg_bytes(o)[18] == 0 && nincfg_bytes(o)[19] == match o.language {
            Language::English => 0int,
            Language::German => 1,
            Language::French => 2,
            Language::Spanish => 3,
            Language::Italian => 4,
            _ => 5,
        },
{
    lemma_record_parts(o);
    lemma_be32_bytes(language_value(o.language));
    let w = be32(language_value(o.language));
    assert(w[0] == nincfg_bytes(o)[16] && w[1] == nincfg_bytes(o)[17] && w[2] == nincfg_bytes(
        o,
    )[18] && w[3] == nincfg_bytes(o)[19]);
}

/// The path of the game is `di:/game.iso`, and that of the cheat file the one that was given, cut
/// to 254 bytes; zeros fill both fields up.
pub proof fn law_paths_fill_their_fields(o: NincfgOptions, k: int)
    requires
        0 <= k < 255,
    ensures
        nincfg_bytes(o)[0x14 + k] == if k < 12 {
            seq![
                0x64u8,
                0x69u8,
                0x3Au8,
                0x2Fu8,
                0x67u8,
                0x61u8,
                0x6Du8,
                0x65u8,
                0x2Eu8,
                0x69u8,
                0x73u8,
                0x6Fu8,
            ][k]
        } else {
            0
        },
        o.cheat_path matches Some(path) ==> nincfg_bytes(o)[0x113 + k] == if k < encode_utf8(
            path@,
        ).len() && k < 254 {
            encode_utf8(path@)[k]
        } else {
            0
        },
        o.cheat_path is None ==> nincfg_bytes(o)[0x113 + k] == 0,
{
    lemma_record_parts(o);
    let b = path_field(game_path());
    let c = path_field(cheat_bytes(o));
    assert(b[k] == nincfg_bytes(o)[0x14 + k]);
    assert(c[k] == nincfg_bytes(o)[0x113 + k]);
}

/// The fields behind the paths hold the number of controllers, the game id, the size of the
/// memory card, three zeros and the slot of the GamePad; those in front the magic number and the
/// version.
pub proof fn law_other_fields_are_told(o: NincfgOptions)
    ensures
        ({
            let all = nincfg_bytes(o);
            &&& all.len() == 0x222
            &&& all.subrange(0, 8) == seq![
                0x01u8,
                0x07u8,
                0x0Cu8,
                0xF6u8,
                0x00u8,
                0x00u8,
                0x00u8,
                0x0Au8,
            ]
            &&& all[0x212] * 0x100_0000 + all[0x213] * 0x1_0000 + all[0x214] * 0x100 + all[0x215]
                == o.max_pads
            &&& all[0x216] == o.game_id@[0] && all[0x217] == o.game_id@[1] && all[0x218]
                == o.game_id@[2] && all[0x219] == o.game_id@[3]
            &&& all[0x21A] == o.memcard_blocks
            &&& all[0x21B] == 0 && all[0x21C] == 0 && all[0x21D] == 0
            &&& all[0x21E] * 0x100_0000 + all[0x21F] * 0x1_0000 + all[0x220] * 0x100 + all[0x221]
                == o.wiiu_gamepad_slot
        }),
{
    let all = nincfg_bytes(o);
    lemma_record_parts(o);
    lemma_be32_bytes(o.max_pads);
    lemma_be32_bytes(o.wiiu_gamepad_slot);
    lemma_be32_bytes(NINCFG_MAGIC);
    lemma_be32_bytes(NINCFG_VERSION);
    let d = back_fields(o);
    assert(d[0] == all[0x212] && d[1] == all[0x213] && d[2] == all[0x214] && d[3] == all[0x215]);
    assert(d[4] == all[0x216] && d[5] == all[0x217] && d[6] == all[0x218] && d[7] == all[0x219]);
    assert(d[8] == all[0x21A] && d[9] == all[0x21B] && d[10] == all[0x21C] && d[11] == all[0x21D]);
    assert(d[12] == all[0x21E] && d[13] == all[0x21F] && d[14] == all[0x220] && d[15]
        == all[0x221]);
    assert(all.subrange(0, 8) =~= be32(NINCFG_MAGIC) + be32(NINCFG_VERSION));
    assert(all.subrange(0, 8) =~= seq![
        0x01u8,
        0x07u8,
        0x0Cu8,
        0xF6u8,
        0x00u8,
        0x00u8,
        0x00u8,
        0x0Au8,
    ]);
}

} // verus!

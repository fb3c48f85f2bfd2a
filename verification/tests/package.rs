//! Packages: contents, the file system table, the TMD, and extraction.

use aes::cipher::{block_padding::NoPadding, BlockEncryptMut, KeyIvInit};
use sha1::Sha1;
use sha2::{Digest, Sha256};
use wiivci_core::error::{DiscFault, Error};
use wiivci_core::io::{ByteReader, ByteWriter, MemoryWriter, SliceReader};
use wiivci_core::package::cert::{CertChain, EXPECTED_CERT_LEN};
use wiivci_core::package::content::{
    plan, PlacedFile, PlannedContent, MAX_GAME_CONTENT_BYTES, TYPE_HASHED, TYPE_NONHASHED,
};
use wiivci_core::package::content_crypto::{
    decode_hashed, decode_nonhashed, encode_hashed, encode_hashed_to_writer, encode_nonhashed,
    hashed_tmd_hash, nonhashed_tmd_hash, HASH_BLOCK_DATA, HASH_BLOCK_TOTAL, HASH_HEADER, HASH_LEN,
};
use wiivci_core::package::extract::{
    decode_content, extract_title, node_paths, ExtractSink, Extracted, MemoryContents,
    MemoryTree, SkipFiles, SkipRule,
};
use wiivci_core::package::fst::{Fst, FstContent, FstNode, FstNodeKind, OFFSET_FACTOR};
use wiivci_core::package::pack::{build_package, can_be_packed, MemorySink};
use wiivci_core::package::plaintext::{assemble_content, ContentPlaintextReader, MemoryFiles};
use wiivci_core::package::staging::{list_order, Lead, StagedBuild, StagedEntry};
use wiivci_core::package::ticket::{
    build_ticket, decrypt_title_key, encrypt_title_key, TICKET_SIZE,
};
use wiivci_core::package::tmd::{
    build_tmd, parse_content_records, ContentRecord, INFO_TABLE_LEN, RECORDS_OFF,
};
use wiivci_core::package::{app_name, h3_name, PackageParams};

type Hash = [u8; 20];

fn sha1(data: &[u8]) -> Hash {
    Sha1::digest(data).into()
}

#[test]
fn rejects_wrong_size() {
    assert!(CertChain::from_bytes(vec![0u8; 100]).is_err());
}

#[test]
fn nonhashed_pads_to_0x8000_and_hashes_padded() {
    let out = encode_nonhashed(&[0x11; 16], 5, b"hello");
    assert_eq!(out.size, 0x8000);
    assert_eq!(out.data.len(), 0x8000);
    assert!(out.h3.is_none());
}

#[test]
fn hashed_block_count_and_h3_length() {
    // 2.5 data blocks -> 3 blocks -> 3*0x10000 bytes, one H3 hash.
    let plain = vec![0xABu8; HASH_BLOCK_DATA * 2 + 100];
    let out = encode_hashed(&[0x22; 16], 3, &plain);
    assert_eq!(out.size, 3 * HASH_BLOCK_TOTAL as u64);
    assert_eq!(out.h3.as_ref().unwrap().len(), HASH_LEN);
}

fn content_iv(index: u16) -> [u8; 16] {
    let mut iv = [0u8; 16];
    iv[..2].copy_from_slice(&index.to_be_bytes());
    iv
}

fn cbc_encrypt(key: &[u8; 16], iv: [u8; 16], buf: &mut [u8]) {
    let len = buf.len();
    <cbc::Encryptor<aes::Aes128>>::new(key.into(), &iv.into())
        .encrypt_padded_mut::<NoPadding>(buf, len)
        .unwrap();
}

/// 16 hashes from `base` on, as far as there are any, in 16 slots of 20 bytes.
fn section(hashes: &[Hash], base: usize) -> Vec<u8> {
    let mut out = vec![0u8; 16 * HASH_LEN];
    for (slot, hash) in hashes.iter().skip(base).take(16).enumerate() {
        out[slot * HASH_LEN..(slot + 1) * HASH_LEN].copy_from_slice(hash);
    }
    out
}

/// A hashed content encoded from its whole plaintext at once. Returns `(data, h3)`.
fn reference_encode_hashed(key: &[u8; 16], index: u16, plaintext: &[u8]) -> (Vec<u8>, Vec<u8>) {
    let nblocks = plaintext.len().div_ceil(HASH_BLOCK_DATA).max(1);
    let mut h0 = Vec::with_capacity(nblocks);
    for b in 0..nblocks {
        let start = b * HASH_BLOCK_DATA;
        let mut block = vec![0u8; HASH_BLOCK_DATA];
        if start < plaintext.len() {
            let end = (start + HASH_BLOCK_DATA).min(plaintext.len());
            block[..end - start].copy_from_slice(&plaintext[start..end]);
        }
        h0.push(sha1(&block));
    }
    let ngroups = nblocks.div_ceil(16);
    let h1: Vec<Hash> = (0..ngroups).map(|g| sha1(&section(&h0, g * 16))).collect();
    let nsuper = ngroups.div_ceil(16);
    let h2: Vec<Hash> = (0..nsuper).map(|s| sha1(&section(&h1, s * 16))).collect();
    let nh3 = nsuper.div_ceil(16);
    let mut h3 = Vec::with_capacity(nh3 * HASH_LEN);
    for t in 0..nh3 {
        h3.extend_from_slice(&sha1(&section(&h2, t * 16)));
    }
    let mut data = Vec::with_capacity(nblocks * HASH_BLOCK_TOTAL);
    for b in 0..nblocks {
        let mut header = Vec::with_capacity(HASH_HEADER);
        header.extend_from_slice(&section(&h0, (b / 16) * 16));
        header.extend_from_slice(&section(&h1, (b / 256) * 16));
        header.extend_from_slice(&section(&h2, (b / 4096) * 16));
        header.resize(HASH_HEADER, 0);
        header[1] ^= index as u8;
        cbc_encrypt(key, content_iv(index), &mut header);
        let start = b * HASH_BLOCK_DATA;
        let mut block = vec![0u8; HASH_BLOCK_DATA];
        if start < plaintext.len() {
            let end = (start + HASH_BLOCK_DATA).min(plaintext.len());
            block[..end - start].copy_from_slice(&plaintext[start..end]);
        }
        let mut data_iv = [0u8; 16];
        data_iv.copy_from_slice(&h0[b][..16]);
        cbc_encrypt(key, data_iv, &mut block);
        data.extend_from_slice(&header);
        data.extend_from_slice(&block);
    }
    (data, h3)
}

/// A content of several blocks, well under one group, matches the reference byte for byte.
#[test]
fn streaming_matches_reference_through_buffer_growth() {
    let key = [0x77u8; 16];
    let index = 5u16;
    let len = 5 * HASH_BLOCK_DATA + 777;
    let plain: Vec<u8> = (0..len).map(|i| (i * 13) as u8).collect();
    let streamed = encode_hashed(&key, index, &plain);
    let (ref_data, ref_h3) = reference_encode_hashed(&key, index, &plain);
    assert_eq!(
        streamed.data, ref_data,
        "ciphertext must match the reference"
    );
    assert_eq!(streamed.h3.unwrap(), ref_h3, ".h3 must match the reference");
}

#[test]
fn streaming_matches_the_reference_across_hash_sections() {
    let key = [0x31u8; 16];
    // 17 blocks: a second H0 section, and with it a second H1 hash.
    let plain: Vec<u8> = (0..16 * HASH_BLOCK_DATA + 9).map(|i| (i >> 5) as u8).collect();
    let mut writer = MemoryWriter::new();
    let summary =
        encode_hashed_to_writer(&key, 0x0102, &mut SliceReader::new(&plain), &mut writer).unwrap();
    let (ref_data, ref_h3) = reference_encode_hashed(&key, 0x0102, &plain);
    assert!(writer.data == ref_data);
    assert_eq!(summary.h3, ref_h3);
    assert_eq!(summary.tmd_hash, sha1(&ref_h3));
    assert_eq!(summary.size, ref_data.len() as u64);
}

#[test]
fn encode_decode_round_trips() {
    let key = [0x5Au8; 16];
    let plain: Vec<u8> = (0..HASH_BLOCK_DATA * 2 + 500)
        .map(|i| (i * 3) as u8)
        .collect();
    // Hashed: decode returns block-padded data, so compare only the original prefix.
    let enc = encode_hashed(&key, 7, &plain);
    let dec = decode_hashed(&key, 7, &enc.data).unwrap();
    assert_eq!(&dec[..plain.len()], &plain[..]);
    assert_eq!(
        hashed_tmd_hash(&dec),
        enc.tmd_hash,
        "recomputed .h3 hash must match"
    );
    // Non-hashed: decode returns the 0x8000-padded plaintext.
    let enc = encode_nonhashed(&key, 2, &plain);
    let dec = decode_nonhashed(&key, 2, &enc.data).unwrap();
    assert_eq!(&dec[..plain.len()], &plain[..]);
    assert_eq!(nonhashed_tmd_hash(&dec), enc.tmd_hash);
}

#[test]
fn decode_nonhashed_rejects_non_block_aligned_input() {
    let key = [0x11u8; 16];
    // 17 bytes: not a multiple of the AES block size (16).
    let err = decode_nonhashed(&key, 0, &[0u8; 17]).unwrap_err().message();
    assert!(err.contains("AES block size"), "{err}");
}

#[test]
fn decode_hashed_rejects_non_block_aligned_input() {
    let key = [0x11u8; 16];
    // One byte short of a full hashed block.
    let err = decode_hashed(&key, 0, &vec![0u8; HASH_BLOCK_TOTAL - 1])
        .unwrap_err()
        .message();
    assert!(err.contains("hashed block size"), "{err}");
}

/// A flipped byte in a hashed content's plaintext must change the recomputed TMD hash.
#[test]
fn hashed_tmd_hash_detects_tampering() {
    let key = [0x33u8; 16];
    let plain: Vec<u8> = (0..HASH_BLOCK_DATA + 10).map(|i| (i * 7) as u8).collect();
    let enc = encode_hashed(&key, 9, &plain);
    let good = decode_hashed(&key, 9, &enc.data).unwrap();
    assert_eq!(hashed_tmd_hash(&good), enc.tmd_hash);

    let mut tampered = enc.data.clone();
    tampered[HASH_HEADER + 5] ^= 0xFF; // flip a byte inside the first block's ciphertext
    let bad = decode_hashed(&key, 9, &tampered).unwrap();
    assert_ne!(
        hashed_tmd_hash(&bad),
        enc.tmd_hash,
        "tampering must be detected"
    );
}

/// Same for non-hashed content: a flipped byte must change the recomputed TMD hash.
#[test]
fn nonhashed_tmd_hash_detects_tampering() {
    let key = [0x44u8; 16];
    let plain = b"hello world".to_vec();
    let enc = encode_nonhashed(&key, 4, &plain);
    let good = decode_nonhashed(&key, 4, &enc.data).unwrap();
    assert_eq!(nonhashed_tmd_hash(&good), enc.tmd_hash);

    let mut tampered = enc.data.clone();
    tampered[0] ^= 0xFF;
    let bad = decode_nonhashed(&key, 4, &tampered).unwrap();
    assert_ne!(
        nonhashed_tmd_hash(&bad),
        enc.tmd_hash,
        "tampering must be detected"
    );
}

fn small_fst() -> Fst {
    Fst {
        offset_factor: OFFSET_FACTOR,
        contents: vec![
            FstContent {
                offset_sectors: 0,
                size_sectors: 0,
                owner_title_id: 0,
                group_id: 0,
                flags: 0x0100,
            },
            FstContent {
                offset_sectors: 2,
                size_sectors: 1,
                owner_title_id: 0,
                group_id: 0x400,
                flags: 0x0200,
            },
        ],
        nodes: vec![
            FstNode {
                name: String::new(),
                kind: FstNodeKind::Dir {
                    parent_index: 0,
                    end_index: 3,
                },
                type_flags: 0,
                flags: 0,
                cluster: 0,
            },
            FstNode {
                name: "meta".into(),
                kind: FstNodeKind::Dir {
                    parent_index: 0,
                    end_index: 3,
                },
                type_flags: 0,
                flags: 0x0040,
                cluster: 1,
            },
            FstNode {
                name: "meta.xml".into(),
                kind: FstNodeKind::File {
                    offset: 0,
                    size: 9518,
                },
                type_flags: 0,
                flags: 0x0040,
                cluster: 1,
            },
        ],
    }
}

#[test]
fn round_trips_a_small_fst() {
    let fst = small_fst();
    let bytes = fst.serialize();
    let parsed = Fst::parse(&bytes).unwrap();
    assert_eq!(parsed.serialize(), bytes);
    assert_eq!(parsed.nodes[2].name, "meta.xml");
}

#[test]
fn a_table_reads_back_as_it_was_whatever_follows() {
    let fst = small_fst();
    let mut bytes = fst.serialize();
    bytes.extend_from_slice(&[0u8; 77]);
    let parsed = Fst::parse(&bytes).unwrap();
    assert_eq!(parsed.offset_factor, fst.offset_factor);
    assert_eq!(parsed.contents, fst.contents);
    assert_eq!(parsed.nodes, fst.nodes);
}

/// A bare 0x20-byte FST header claiming `content_count` content descriptors.
fn fst_header(content_count: u32) -> Vec<u8> {
    let mut out = Vec::new();
    out.extend_from_slice(b"FST\0");
    out.extend_from_slice(&OFFSET_FACTOR.to_be_bytes());
    out.extend_from_slice(&content_count.to_be_bytes());
    out.extend_from_slice(&[0u8; 20]);
    out
}

#[test]
fn parse_rejects_oversized_content_count() {
    // content_count claims far more content descriptors than the buffer could ever hold.
    let data = fst_header(u32::MAX);
    assert!(Fst::parse(&data).is_none());
}

#[test]
fn parse_rejects_truncated_content_table() {
    // content_count = 1, but the buffer ends right after the header (no content bytes).
    let data = fst_header(1);
    assert!(Fst::parse(&data).is_none());
}

#[test]
fn parse_rejects_root_size_past_buffer() {
    // content_count = 0, so entries start right after the 0x20-byte header. The root entry's
    // size field (the total entry count) claims far more entries than the buffer holds.
    let mut data = fst_header(0);
    data.extend_from_slice(&[0u8; 8]); // type byte + name_off + offset/parent_index
    data.extend_from_slice(&0x7FFF_FFFFu32.to_be_bytes()); // size = huge entry count
    data.extend_from_slice(&[0u8; 4]); // flags + cluster
    assert_eq!(data.len(), 0x30);
    assert!(Fst::parse(&data).is_none());
}

#[test]
fn parse_rejects_name_offset_past_buffer() {
    // content_count = 0, root_size = 1 (just the root entry), but its name offset points
    // far past the end of the (short) name table.
    let mut data = fst_header(0);
    data.push(0x01); // dir bit
    data.extend_from_slice(&[0xFF, 0xFF, 0xFF]); // name_off = 0x00FFFFFF
    data.extend_from_slice(&0u32.to_be_bytes()); // parent_index
    data.extend_from_slice(&1u32.to_be_bytes()); // end_index / root entry count = 1
    data.extend_from_slice(&[0u8; 4]); // flags + cluster
    assert_eq!(data.len(), 0x30);
    assert!(Fst::parse(&data).is_none());
}

#[test]
fn tmd_structure_is_self_consistent() {
    let contents = vec![
        ContentRecord { id: 0, index: 0, content_type: 0x2001, size: 0x8000, hash: [1; 20] },
        ContentRecord { id: 1, index: 1, content_type: 0x2003, size: 0x10000, hash: [2; 20] },
    ];
    let tmd = build_tmd(0x0005000252535045, 0x5045, &contents);
    assert_eq!(&tmd[0x140..0x140 + 26], b"Root-CA00000003-CP0000000b");
    assert_eq!(&tmd[0x18C..0x194], &0x0005000252535045u64.to_be_bytes());
    assert_eq!(u16::from_be_bytes([tmd[0x1DE], tmd[0x1DF]]), 2); // content count
    // info table hash chain
    let info_hash = &tmd[0x1E4..0x204];
    assert_eq!(info_hash, Sha256::digest(&tmd[0x204..0x204 + INFO_TABLE_LEN]).as_slice());
    let records = &tmd[RECORDS_OFF..];
    assert_eq!(&tmd[0x208..0x228], Sha256::digest(records).as_slice());
}

#[test]
fn records_read_back_from_the_tmd() {
    let contents = vec![
        ContentRecord { id: 0, index: 0, content_type: 0x2001, size: 0x8000, hash: [1; 20] },
        ContentRecord { id: 7, index: 3, content_type: 0x2003, size: 1 << 33, hash: [9; 20] },
    ];
    let tmd = build_tmd(0x0005000252535045, 0x5045, &contents);
    let found = parse_content_records(&tmd).unwrap();
    assert_eq!(found.len(), 2);
    assert_eq!(found[1].id, 7);
    assert_eq!(found[1].index, 3);
    assert_eq!(found[1].content_type, 0x2003);
    assert_eq!(found[1].size, 1 << 33);
    assert_eq!(found[1].hash, [9; 20]);
    assert_eq!(&tmd[0x198..0x19A], &[0x50, 0x45], "group id");
    assert_eq!(parse_content_records(&tmd[..0xB00]).unwrap_err(), "TMD too short");
    assert_eq!(
        parse_content_records(&tmd[..tmd.len() - 1]).unwrap_err(),
        "TMD content records truncated"
    );
}

#[test]
fn the_title_key_is_sealed_under_the_title_id() {
    let common = [3u8; 16];
    let key = [0x13u8; 16];
    let id = 0x0005_0002_5253_5045u64;
    let sealed = encrypt_title_key(&common, id, &key);
    let mut iv = [0u8; 16];
    iv[..8].copy_from_slice(&id.to_be_bytes());
    let mut expected = key;
    cbc_encrypt(&common, iv, &mut expected);
    assert_eq!(sealed, expected);
    assert_eq!(decrypt_title_key(&common, id, &sealed), key);
}

fn cert_bytes() -> Vec<u8> {
    let mut chain = vec![0u8; EXPECTED_CERT_LEN];
    chain[..4].copy_from_slice(&[0x00, 0x01, 0x00, 0x03]);
    chain[0x240..0x24F].copy_from_slice(b"Root-CA00000003");
    chain
}

#[test]
fn a_chain_with_its_root_issuer_is_accepted() {
    let chain = CertChain::from_bytes(cert_bytes()).unwrap();
    assert_eq!(chain.as_bytes(), &cert_bytes()[..]);
    // The issuer may stand at the very end.
    let mut last = vec![0u8; EXPECTED_CERT_LEN];
    last[..4].copy_from_slice(&[0x00, 0x01, 0x00, 0x05]);
    last[EXPECTED_CERT_LEN - 15..].copy_from_slice(b"Root-CA00000003");
    assert!(CertChain::from_bytes(last).is_ok());
}

#[test]
fn certificate_faults_are_told_apart() {
    assert!(matches!(
        CertChain::from_bytes(vec![0u8; 100]),
        Err(Error::UnsupportedDisc(DiscFault::CertSize(100)))
    ));
    let mut chain = cert_bytes();
    chain[3] = 6;
    assert!(matches!(
        CertChain::from_bytes(chain),
        Err(Error::UnsupportedDisc(DiscFault::CertSignature(0x0001_0006)))
    ));
    let mut chain = cert_bytes();
    chain[0x24E] = b'4';
    assert!(matches!(
        CertChain::from_bytes(chain),
        Err(Error::UnsupportedDisc(DiscFault::CertIssuer))
    ));
}

fn file(name: &str, size: u64) -> StagedEntry {
    StagedEntry::File { name: name.to_string(), size, regular: true }
}

fn dir(name: &str, entries: Vec<StagedEntry>) -> StagedEntry {
    StagedEntry::Dir { name: name.to_string(), entries }
}

fn small_build() -> StagedBuild {
    StagedBuild {
        code: Some(vec![file("app.xml", 6), file("cos.xml", 6), file("frisbiiU.rpx", 100)]),
        content: Some(vec![
            dir(
                "assets",
                vec![dir("shaders", vec![dir("cafe", vec![file("banner.gsh", 50)])])],
            ),
            file("hif_000000.nfs", 0x8000),
        ]),
        meta: Some(vec![file("meta.xml", 7), file("iconTex.tga", 200)]),
    }
}

#[test]
fn plans_a_small_tree() {
    let build = small_build();
    assert!(build.fits());
    let plan = plan(&build, 0x00050002_534b4a45).unwrap();
    // FST content + code content + rpx content + assets content + hif content + meta content
    assert!(plan.contents.len() >= 6);
    assert!(!plan.fst.is_empty());

    // FST must round-trip and contain the expected files.
    let parsed = Fst::parse(&plan.fst).unwrap();
    let names: Vec<_> = parsed.nodes.iter().map(|n| n.name.as_str()).collect();
    assert!(names.contains(&"frisbiiU.rpx"));
    assert!(names.contains(&"hif_000000.nfs"));
    // The hif file carries the 0x02 entry type flag.
    let hif = parsed
        .nodes
        .iter()
        .find(|n| n.name == "hif_000000.nfs")
        .unwrap();
    assert_eq!(hif.type_flags, 0x02);
    // The game (hif) content is owned by the vWii disc title and has the game group id; a
    // zero owner makes the Wii U installer hang finalising it.
    let game_ct = &parsed.contents[hif.cluster as usize];
    assert_eq!(game_ct.owner_title_id, 0x00050000_534b4a45);
    assert_eq!(game_ct.group_id, 0x4a45);
    // content/ shaders share the title-owned game content, and it is the LAST content in the
    // package.
    let banner = parsed
        .nodes
        .iter()
        .find(|n| n.name == "banner.gsh")
        .unwrap();
    assert_eq!(
        banner.cluster, hif.cluster,
        "shaders live in the game content"
    );
    assert_eq!(
        hif.cluster as usize,
        parsed.contents.len() - 1,
        "the game content is last"
    );
    // meta.xml is in its own hashed content, before the game content.
    let meta = parsed.nodes.iter().find(|n| n.name == "meta.xml").unwrap();
    assert_ne!(meta.cluster, hif.cluster);
    assert_eq!(parsed.contents[meta.cluster as usize].owner_title_id, 0);
    // Each code file gets its own content.
    let app = parsed.nodes.iter().find(|n| n.name == "app.xml").unwrap();
    let cos = parsed.nodes.iter().find(|n| n.name == "cos.xml").unwrap();
    let rpx = parsed
        .nodes
        .iter()
        .find(|n| n.name == "frisbiiU.rpx")
        .unwrap();
    assert_ne!(
        app.cluster, cos.cluster,
        "each code file gets its own content"
    );
    assert_ne!(app.cluster, rpx.cluster);
}

#[test]
fn a_file_without_a_content_stops_the_plan() {
    let mut build = small_build();
    build.code = Some(vec![dir("sub", vec![file("x", 1)])]);
    match plan(&build, 1) {
        Err(Error::UnsupportedDisc(DiscFault::Unassigned(path))) => assert_eq!(path, "code/sub/x"),
        _ => panic!("expected a fault"),
    }
}

#[test]
fn game_contents_keep_the_limit() {
    let big = MAX_GAME_CONTENT_BYTES;
    let build = StagedBuild {
        code: None,
        content: Some(vec![
            file("hif_000000.nfs", big - 0x20),
            file("hif_000001.nfs", 0x20),
            file("hif_000002.nfs", 1),
            file("hif_000003.nfs", big + 1),
        ]),
        meta: None,
    };
    let plan = plan(&build, 1).unwrap();
    let games: Vec<(u64, usize)> = plan
        .contents
        .iter()
        .filter(|c| c.is_game)
        .map(|c| (c.data_len, c.files.len()))
        .collect();
    assert_eq!(games, vec![(big, 2), (1, 1), (big + 1, 1)]);
}

#[test]
fn listings_put_the_disc_images_first() {
    let entries = vec![file("b", 1), file("hif_000001.nfs", 1), file("a", 1), file("hif_000000.nfs", 1)];
    let order = list_order(&entries, Lead::DiscImages);
    let names: Vec<&str> = order.iter().map(|&i| entries[i].name().as_str()).collect();
    assert_eq!(names, vec!["hif_000000.nfs", "hif_000001.nfs", "a", "b"]);
    assert_eq!(list_order(&entries, Lead::Nothing), vec![2, 0, 3, 1]);
}

/// The streaming reader must reproduce `assemble_content`'s buffer byte-for-byte, including the
/// zero-filled alignment gaps between files and the trailing gap up to `data_len`.
#[test]
fn content_plaintext_reader_matches_assemble_content() {
    // Three files at non-adjacent 0x20-aligned offsets → gaps before/between/after.
    let source = MemoryFiles {
        list: vec![
            ("a.bin".to_string(), vec![0xAA; 100]),
            ("b.bin".to_string(), vec![0xBB; 0x40]),
            ("c.bin".to_string(), vec![0xCC; 7]),
        ],
    };
    let files = vec![
        PlacedFile {
            path: "a.bin".to_string(),
            offset: 0x20,
            size: 100,
        }, // gap [0,0x20)
        PlacedFile {
            path: "b.bin".to_string(),
            offset: 0x100,
            size: 0x40,
        }, // gap after a.bin
        PlacedFile {
            path: "c.bin".to_string(),
            offset: 0x200,
            size: 7,
        },
    ];
    let data_len = 0x240; // trailing gap after c.bin
    let c = PlannedContent {
        index: 5,
        content_type: TYPE_HASHED,
        files,
        data_len,
        is_game: true,
    };

    let expected = assemble_content(&c, &[], &source).unwrap();
    assert_eq!(expected.len(), data_len as usize);

    let mut reader = ContentPlaintextReader::new(&c, &source);
    let mut got = Vec::new();
    loop {
        let chunk = reader.read(4096).unwrap();
        if chunk.is_empty() {
            break;
        }
        got.extend_from_slice(&chunk);
    }
    assert_eq!(
        got, expected,
        "streamed plaintext must match assemble_content"
    );

    // Also check it works with a tiny read buffer (forces many short reads across boundaries).
    let mut reader = ContentPlaintextReader::new(&c, &source);
    let mut got2 = Vec::new();
    loop {
        let chunk = reader.read(3).unwrap();
        if chunk.is_empty() {
            break;
        }
        got2.extend_from_slice(&chunk);
    }
    assert_eq!(got2, expected, "small-buffer reads must also match");
}

/// A minimal two-content title (content 0 = non-hashed FST, content 1 = hashed file data) and its
/// TMD content records, entirely in memory.
fn tiny_title(title_key: &[u8; 16], file_data: &[u8]) -> (Vec<ContentRecord>, Vec<u8>, Vec<u8>) {
    let fst = Fst {
        offset_factor: 0x20,
        contents: vec![],
        nodes: vec![
            FstNode {
                name: String::new(),
                kind: FstNodeKind::Dir {
                    parent_index: 0,
                    end_index: 2,
                },
                type_flags: 0,
                flags: 0,
                cluster: 0,
            },
            FstNode {
                name: "hello.txt".into(),
                kind: FstNodeKind::File {
                    offset: 0,
                    size: file_data.len() as u64,
                },
                type_flags: 0,
                flags: 0,
                cluster: 1,
            },
        ],
    };
    let fst_bytes = fst.serialize();
    let enc0 = encode_nonhashed(title_key, 0, &fst_bytes);
    let enc1 = encode_hashed(title_key, 1, file_data);
    let records = vec![
        ContentRecord {
            id: 0,
            index: 0,
            content_type: TYPE_NONHASHED,
            size: enc0.size,
            hash: enc0.tmd_hash,
        },
        ContentRecord {
            id: 1,
            index: 1,
            content_type: TYPE_HASHED,
            size: enc1.size,
            hash: enc1.tmd_hash,
        },
    ];
    (records, enc0.data, enc1.data)
}

fn contents(content0: &[u8], content1: &[u8]) -> MemoryContents {
    MemoryContents {
        list: vec![(0, content0.to_vec()), (1, content1.to_vec())],
        asked: vec![],
    }
}

/// What an extraction into memory gives.
struct Outcome {
    made: Vec<Extracted>,
    result: Result<(), Error>,
}

fn extract<S: SkipRule>(
    records: &[ContentRecord],
    key: &[u8; 16],
    reader: &mut MemoryContents,
    skip: S,
) -> Outcome {
    let mut out = MemoryTree::new();
    let result = extract_title(records, key, reader, &mut out, &skip);
    Outcome {
        made: out.made,
        result,
    }
}

/// Well-formed content extracts cleanly, and a single flipped byte in the (hashed) file content's
/// ciphertext is caught as a hash mismatch instead of silently producing corrupted output.
#[test]
fn extract_title_verifies_tmd_hash() {
    let title_key = [0x5Au8; 16];
    let file_data = b"hello".to_vec();
    let (records, content0, content1) = tiny_title(&title_key, &file_data);

    // Well-formed: extraction succeeds and the file matches.
    let out = extract(&records, &title_key, &mut contents(&content0, &content1), SkipFiles::Nothing);
    out.result.unwrap();
    assert_eq!(out.made.len(), 1);
    match &out.made[0] {
        Extracted::File { path, data } => {
            assert_eq!(path, "hello.txt");
            assert_eq!(data, &file_data);
        }
        Extracted::Dir(path) => panic!("unexpected directory {path}"),
    }

    // Tampered: flip a byte in content 1's ciphertext (past the hash header, in the
    // encrypted data region) and confirm extraction now fails with a hash-mismatch error
    // naming the content, instead of writing corrupted bytes.
    let mut tampered1 = content1.clone();
    let flip_at = tampered1.len() - 1;
    tampered1[flip_at] ^= 0xFF;
    let out2 = extract(&records, &title_key, &mut contents(&content0, &tampered1), SkipFiles::Nothing);
    assert!(out2.made.is_empty());
    let err = out2.result.unwrap_err().message();
    assert!(
        err.contains("TMD hash verification"),
        "unexpected error: {err}"
    );
}

#[test]
fn extraction_faults_are_told_apart() {
    let key = [0x5Au8; 16];
    let (records, content0, content1) = tiny_title(&key, b"hello");
    let fault = |records: &[ContentRecord], reader: &mut MemoryContents| {
        extract(records, &key, reader, SkipFiles::Nothing).result.unwrap_err()
    };
    // No content 0 among the records.
    assert!(matches!(
        fault(&records[1..], &mut contents(&content0, &content1)),
        Error::UnsupportedDisc(DiscFault::NoTable)
    ));
    // A content that no record lists.
    assert!(matches!(
        fault(&records[..1], &mut contents(&content0, &content1)),
        Error::UnsupportedDisc(DiscFault::MissingContent(1))
    ));
    // Content 0 that holds no table.
    let junk = encode_nonhashed(&key, 0, b"junk");
    let mut bad = records.clone();
    bad[0].hash = junk.tmd_hash;
    assert!(matches!(
        fault(&bad, &mut contents(&junk.data, &content1)),
        Error::UnsupportedDisc(DiscFault::BadTable)
    ));
    // A content that cannot be read.
    let mut reader = MemoryContents { list: vec![(0, content0.clone())], asked: vec![] };
    assert!(matches!(fault(&records, &mut reader), Error::Io(_)));
    // A content of a ragged length.
    assert!(matches!(
        decode_content(&records[1], &key, &content1[1..]),
        Err(Error::UnsupportedDisc(DiscFault::RaggedHashedContent(_)))
    ));
}

#[test]
fn node_paths_reconstructs_tree() {
    let fst = Fst {
        offset_factor: 0x20,
        contents: vec![FstContent {
            offset_sectors: 0,
            size_sectors: 0,
            owner_title_id: 0,
            group_id: 0,
            flags: 0x0100,
        }],
        nodes: vec![
            FstNode {
                name: "".into(),
                kind: FstNodeKind::Dir {
                    parent_index: 0,
                    end_index: 4,
                },
                type_flags: 0,
                flags: 0,
                cluster: 0,
            },
            FstNode {
                name: "code".into(),
                kind: FstNodeKind::Dir {
                    parent_index: 0,
                    end_index: 3,
                },
                type_flags: 0,
                flags: 0,
                cluster: 0,
            },
            FstNode {
                name: "app.xml".into(),
                kind: FstNodeKind::File { offset: 0, size: 6 },
                type_flags: 0,
                flags: 0,
                cluster: 0,
            },
            FstNode {
                name: "meta".into(),
                kind: FstNodeKind::Dir {
                    parent_index: 0,
                    end_index: 4,
                },
                type_flags: 0,
                flags: 0,
                cluster: 0,
            },
        ],
    };
    let paths = node_paths(&fst);
    assert_eq!(paths[1], "code");
    assert_eq!(paths[2], "code/app.xml");
    assert_eq!(paths[3], "meta");
}

fn source_of_small_build() -> MemoryFiles {
    MemoryFiles {
        list: vec![
            ("code/app.xml".to_string(), b"<app/>".to_vec()),
            ("code/cos.xml".to_string(), b"<cos/>".to_vec()),
            ("code/frisbiiU.rpx".to_string(), vec![5; 100]),
            (
                "content/assets/shaders/cafe/banner.gsh".to_string(),
                vec![1; 50],
            ),
            ("content/hif_000000.nfs".to_string(), vec![2; 0x8000]),
            ("meta/meta.xml".to_string(), b"<menu/>".to_vec()),
            ("meta/iconTex.tga".to_string(), vec![3; 200]),
        ],
    }
}

#[test]
fn a_built_package_extracts_to_its_build() {
    let cert = CertChain(vec![4u8; EXPECTED_CERT_LEN]);
    let params = PackageParams {
        title_id: 0x0005_0002_534B_4A45,
        group_id: 0x4A45,
        wiiu_common_key: [9; 16],
        title_key: [0x13; 16],
        cert: &cert,
    };
    let source = source_of_small_build();
    let mut sink = MemorySink { list: vec![] };
    let built = build_package(&small_build(), &source, &mut sink, &params).unwrap();
    let get = |name: &str| {
        sink.list.iter().rev().find(|(n, _)| n == name).map(|(_, data)| data.clone())
    };
    assert_eq!(get("title.cert").unwrap(), vec![4u8; EXPECTED_CERT_LEN]);
    let ticket = get("title.tik").unwrap();
    assert_eq!(ticket.len(), TICKET_SIZE);
    let carried: [u8; 16] = ticket[0x1BF..0x1CF].try_into().unwrap();
    assert_eq!(decrypt_title_key(&[9; 16], params.title_id, &carried), [0x13; 16]);
    assert_eq!(ticket[0x1DC..0x1E4], params.title_id.to_be_bytes());

    // The TMD lists the contents, and every `.app` file matches its record.
    let records = parse_content_records(&get("title.tmd").unwrap()).unwrap();
    assert_eq!(records.len(), built.stats.content_count);
    let mut reader = MemoryContents { list: vec![], asked: vec![] };
    let mut total = 0;
    for record in &records {
        let app = get(&app_name(record.index)).unwrap();
        assert_eq!(app.len() as u64, record.size);
        decode_content(record, &[0x13; 16], &app).unwrap();
        assert_eq!(get(&h3_name(record.index)).is_some(), record.content_type == TYPE_HASHED);
        if let Some(h3) = get(&h3_name(record.index)) {
            assert_eq!(sha1(&h3), record.hash);
        }
        total += app.len() as u64;
        reader.list.push((record.id, app));
    }
    assert_eq!(total, built.stats.total_content_bytes);

    // Extraction gives every file back, and leaves the disc images out where asked.
    let out = extract(&records, &[0x13; 16], &mut reader, SkipFiles::Nothing);
    out.result.unwrap();
    let mut found = Vec::new();
    for made in out.made {
        if let Extracted::File { path, data } = made {
            found.push((path, data));
        }
    }
    found.sort();
    let mut wanted = source.list.clone();
    wanted.sort();
    assert_eq!(found, wanted);
    let out = extract(&records, &[0x13; 16], &mut reader, SkipFiles::GameImages);
    out.result.unwrap();
    assert!(!out.made.iter().any(
        |m| matches!(m, Extracted::File { path, .. } if path.ends_with("hif_000000.nfs"))
    ));
}

#[test]
fn a_content_of_skipped_files_is_never_asked_for() {
    let cert = CertChain(vec![4u8; EXPECTED_CERT_LEN]);
    let params = PackageParams {
        title_id: 0x0005_0002_534B_4A45,
        group_id: 0x4A45,
        wiiu_common_key: [9; 16],
        title_key: [0x13; 16],
        cert: &cert,
    };
    let build = StagedBuild {
        code: Some(vec![file("app.xml", 6)]),
        content: Some(vec![file("hif_000000.nfs", 0x8000)]),
        meta: Some(vec![file("meta.xml", 7)]),
    };
    let mut sink = MemorySink { list: vec![] };
    let built = build_package(&build, &source_of_small_build(), &mut sink, &params).unwrap();
    let mut reader = MemoryContents { list: vec![], asked: vec![] };
    for record in &built.records {
        let name = app_name(record.index);
        let app = sink.list.iter().find(|(n, _)| *n == name).unwrap().1.clone();
        reader.list.push((record.id, app));
    }
    // The game content is the last one; without it only the disc image is out of reach.
    reader.list.pop();
    let out = extract(&built.records, &[0x13; 16], &mut reader, SkipFiles::GameImages);
    out.result.unwrap();
    let paths: Vec<&str> = out
        .made
        .iter()
        .map(|m| match m {
            Extracted::Dir(path) => path.as_str(),
            Extracted::File { path, .. } => path.as_str(),
        })
        .collect();
    assert_eq!(paths, vec!["code", "code/app.xml", "content", "meta", "meta/meta.xml"]);
    let out = extract(&built.records, &[0x13; 16], &mut reader, SkipFiles::Nothing);
    assert!(matches!(out.result, Err(Error::Io(_))));
}

/// A title of three files in two contents, the table apart: `a` and `c` lie in content 1, `b` in
/// content 2.
fn three_files(key: &[u8; 16]) -> (Vec<ContentRecord>, MemoryContents) {
    let node = |name: &str, offset: u64, cluster: u16| FstNode {
        name: name.into(),
        kind: FstNodeKind::File { offset, size: 5 },
        type_flags: 0,
        flags: 0,
        cluster,
    };
    let fst = Fst {
        offset_factor: 0x20,
        contents: vec![],
        nodes: vec![
            FstNode {
                name: String::new(),
                kind: FstNodeKind::Dir { parent_index: 0, end_index: 4 },
                type_flags: 0,
                flags: 0,
                cluster: 0,
            },
            node("b", 0, 2),
            node("a", 0, 1),
            node("c", 0x20, 1),
        ],
    };
    let mut both = b"first".to_vec();
    both.resize(0x20, 0);
    both.extend_from_slice(b"third");
    let parts = [
        encode_nonhashed(key, 0, &fst.serialize()),
        encode_nonhashed(key, 1, &both),
        encode_hashed(key, 2, b"other"),
    ];
    let mut records = Vec::new();
    let mut reader = MemoryContents { list: vec![], asked: vec![] };
    for (index, part) in parts.into_iter().enumerate() {
        records.push(ContentRecord {
            id: 10 + index as u32,
            index: index as u16,
            content_type: if index == 2 { TYPE_HASHED } else { TYPE_NONHASHED },
            size: part.size,
            hash: part.tmd_hash,
        });
        reader.list.push((10 + index as u32, part.data));
    }
    (records, reader)
}

/// Leaves one file out.
struct But(&'static str);

impl SkipRule for But {
    fn skip_file(&self, name: &str) -> bool {
        name == self.0
    }
}

#[test]
fn contents_are_read_once_in_the_order_of_their_files() {
    let key = [0x5Au8; 16];
    let (records, mut reader) = three_files(&key);
    let out = extract(&records, &key, &mut reader, SkipFiles::Nothing);
    out.result.unwrap();
    assert_eq!(out.made.len(), 3);
    assert_eq!(reader.asked, vec![10, 12, 11]);

    // The content of a left-out file is not read; one that another file needs is.
    let (_, mut reader) = three_files(&key);
    extract(&records, &key, &mut reader, But("b")).result.unwrap();
    assert_eq!(reader.asked, vec![10, 11]);
    let (_, mut reader) = three_files(&key);
    extract(&records, &key, &mut reader, But("a")).result.unwrap();
    assert_eq!(reader.asked, vec![10, 12, 11]);

    // A content that cannot be read is asked for, and nothing behind it.
    let (_, mut reader) = three_files(&key);
    reader.list.remove(2);
    assert!(extract(&records, &key, &mut reader, SkipFiles::Nothing).result.is_err());
    assert_eq!(reader.asked, vec![10, 12]);
}

/// A sink that takes so many files and no more.
struct Full {
    room: usize,
    taken: usize,
}

impl ExtractSink for Full {
    fn put(&mut self, _found: Extracted) -> Result<(), Error> {
        if self.taken == self.room {
            return Err(Error::Io("full".to_string()));
        }
        self.taken += 1;
        Ok(())
    }
}

#[test]
fn a_sink_that_fails_ends_the_extraction() {
    let key = [0x5Au8; 16];
    for (room, asked) in [(0, vec![10, 12]), (1, vec![10, 12, 11]), (2, vec![10, 12, 11])] {
        let (records, mut reader) = three_files(&key);
        let mut out = Full { room, taken: 0 };
        let result = extract_title(&records, &key, &mut reader, &mut out, &SkipFiles::Nothing);
        assert!(matches!(result, Err(Error::Io(why)) if why == "full"));
        assert_eq!(out.taken, room);
        assert_eq!(reader.asked, asked);
    }
}

#[test]
fn a_fault_of_either_stream_ends_the_encoding() {
    let key = [7u8; 16];
    let mut writer = MemoryWriter::new();
    let mut reader = Torn { left: 3 };
    assert!(encode_hashed_to_writer(&key, 1, &mut reader, &mut writer).is_err());
    let data = vec![1u8; 3 * HASH_BLOCK_DATA];
    for room in 0..6 {
        let mut writer = Torn { left: room };
        assert!(
            encode_hashed_to_writer(&key, 1, &mut SliceReader::new(&data), &mut writer).is_err(),
            "write {room} of six fails"
        );
    }
    let mut writer = Torn { left: 6 };
    assert!(encode_hashed_to_writer(&key, 1, &mut SliceReader::new(&data), &mut writer).is_ok());
}

/// A stream that fails after so many operations.
struct Torn {
    left: usize,
}

impl Torn {
    fn step(&mut self) -> Result<(), Error> {
        if self.left == 0 {
            return Err(Error::Io("torn".to_string()));
        }
        self.left -= 1;
        Ok(())
    }
}

impl ByteReader for Torn {
    fn read(&mut self, max: usize) -> Result<Vec<u8>, Error> {
        self.step()?;
        Ok(vec![2; max.min(100)])
    }
}

impl ByteWriter for Torn {
    fn write_all(&mut self, _data: &[u8]) -> Result<(), Error> {
        self.step()
    }
}

#[test]
fn every_staged_file_is_placed_once() {
    let build = small_build();
    let plan = plan(&build, 1).unwrap();
    let mut placed: Vec<(String, u64)> = Vec::new();
    for (at, c) in plan.contents.iter().enumerate() {
        assert_eq!(c.index as usize, at);
        if at == 0 {
            assert!(c.files.is_empty());
            assert_eq!(c.data_len, plan.fst.len() as u64);
            continue;
        }
        // The files follow one another.
        let mut end = 0;
        for f in &c.files {
            assert_eq!(f.offset, (end + 0x1F) / 0x20 * 0x20);
            end = f.offset + f.size;
            placed.push((f.path.clone(), f.size));
        }
        assert!(!c.files.is_empty());
        assert_eq!(c.data_len, end);
    }
    placed.sort();
    let mut staged: Vec<(String, u64)> = source_of_small_build()
        .list
        .iter()
        .map(|(path, data)| (path.clone(), data.len() as u64))
        .collect();
    staged.sort();
    assert_eq!(placed, staged);
}

#[test]
fn game_contents_come_last() {
    let big = MAX_GAME_CONTENT_BYTES;
    let mut build = small_build();
    build.content = Some(vec![file("hif_000000.nfs", big), file("a", 1), file("b", 0x1F)]);
    let plan = plan(&build, 1).unwrap();
    let first = plan.contents.iter().position(|c| c.is_game).unwrap();
    for (at, c) in plan.contents.iter().enumerate() {
        assert_eq!(c.is_game, at >= first);
        let inside = c.files.iter().filter(|f| f.path.starts_with("content/")).count();
        assert_eq!(inside, if c.is_game { c.files.len() } else { 0 });
        if c.is_game {
            assert_eq!(c.content_type, TYPE_HASHED);
            assert!(c.data_len <= big);
        }
    }
    let games: Vec<u64> = plan.contents[first..].iter().map(|c| c.data_len).collect();
    assert_eq!(games, vec![big, 0x20 + 0x1F]);
}

#[test]
fn a_long_table_takes_more_than_one_sector() {
    let files: Vec<StagedEntry> = (0..2000).map(|i| file(&format!("file_{i:04}"), 1)).collect();
    let build = StagedBuild {
        code: Some(vec![file("app.xml", 6)]),
        content: Some(files),
        meta: None,
    };
    let plan = plan(&build, 1).unwrap();
    assert!(plan.fst.len() > 0x8000);
    let sectors = plan.fst.len().div_ceil(0x8000) as u32;
    let parsed = Fst::parse(&plan.fst).unwrap();
    assert_eq!(sectors, 2);
    assert_eq!(parsed.contents[0].offset_sectors, 0);
    assert_eq!(parsed.contents[0].size_sectors, sectors);
    assert_eq!(parsed.contents[1].offset_sectors, sectors);
    assert_eq!(parsed.contents[1].size_sectors, 1);
    assert_eq!(parsed.contents[2].offset_sectors, sectors + 1);
}

#[test]
fn the_stream_is_the_assembled_content_in_any_order() {
    let place = |path: &str, offset: u64, size: u64| PlacedFile {
        path: path.to_string(),
        offset,
        size,
    };
    let content = PlannedContent {
        index: 1,
        content_type: TYPE_NONHASHED,
        is_game: false,
        data_len: 0x60,
        files: vec![place("z", 0x40, 0x10), place("e", 5, 0), place("a", 0, 0x21)],
    };
    let source = MemoryFiles {
        list: vec![
            ("z".to_string(), vec![1; 0x10]),
            ("e".to_string(), vec![]),
            ("a".to_string(), vec![2; 0x21]),
        ],
    };
    let whole = assemble_content(&content, &[], &source).unwrap();
    let mut reader = ContentPlaintextReader::new(&content, &source);
    let mut got = Vec::new();
    loop {
        let chunk = reader.read(7).unwrap();
        if chunk.is_empty() {
            break;
        }
        got.extend_from_slice(&chunk);
    }
    assert_eq!(got, whole);
    assert_eq!(&got[0x40..0x50], &[1; 0x10]);
    assert_eq!(&got[..0x21], &[2; 0x21]);
}

#[test]
fn a_missing_file_stops_the_package() {
    let cert = CertChain(vec![4u8; EXPECTED_CERT_LEN]);
    let params = PackageParams {
        title_id: 1,
        group_id: 2,
        wiiu_common_key: [9; 16],
        title_key: [0x13; 16],
        cert: &cert,
    };
    let mut source = source_of_small_build();
    source.list.remove(4);
    let mut sink = MemorySink { list: vec![] };
    assert!(matches!(
        build_package(&small_build(), &source, &mut sink, &params),
        Err(Error::Io(_))
    ));
}

#[test]
fn a_ticket_holds_its_fields_at_their_offsets() {
    let ticket = build_ticket(0x0005_0002_534B_4A45, &[0xAB; 16]);
    assert_eq!(ticket.len(), TICKET_SIZE);
    assert_eq!(ticket[..4], [0x00, 0x01, 0x00, 0x04]);
    assert!(ticket[4..0x140].iter().all(|&b| b == 0));
    assert_eq!(&ticket[0x140..0x15A], b"Root-CA00000003-XS0000000c");
    assert_eq!(ticket[0x1BC..0x1BF], [1, 0, 0]);
    assert_eq!(ticket[0x1BF..0x1CF], [0xAB; 16]);
    assert_eq!(ticket[0x1CF..0x1D2], [0, 0, 5]);
    assert_eq!(ticket[0x1DC..0x1E4], 0x0005_0002_534B_4A45u64.to_be_bytes());
    assert_eq!(ticket[0x1E4..0x1E8], [0, 0, 0, 0x11]);
    assert_eq!(ticket[0x1F0..0x1F4], [0, 0, 0, 5]);
    assert_eq!(ticket[0x2A4..0x2A8], [0x00, 0x01, 0x00, 0x14]);
    assert_eq!(ticket[0x2D0..0x2D4], [0xFF, 0xFF, 0xFF, 0x01]);
    assert!(ticket[0x2D4..].iter().all(|&b| b == 0));
}

#[test]
fn what_follows_a_tmd_is_not_looked_at() {
    let records = vec![
        ContentRecord { id: 5, index: 0, content_type: 0x2001, size: 0x8000, hash: [1; 20] },
        ContentRecord { id: 6, index: 1, content_type: 0x2003, size: 0x10000, hash: [2; 20] },
    ];
    let mut tmd = build_tmd(1, 2, &records);
    assert_eq!(tmd.len(), 0xB04 + 2 * 0x30);
    tmd.extend_from_slice(&[0xFF; 100]);
    let found = parse_content_records(&tmd).unwrap();
    assert_eq!(found.len(), records.len());
    for (a, b) in found.iter().zip(&records) {
        assert_eq!((a.id, a.index, a.content_type, a.size), (b.id, b.index, b.content_type, b.size));
        assert_eq!(a.hash, b.hash);
    }
}

#[test]
fn a_table_describes_every_content() {
    let title_id = 0x0005_0002_534B_4A45;
    let plan = plan(&small_build(), title_id).unwrap();
    let read = Fst::parse(&plan.fst).unwrap().contents;
    assert_eq!(read.len(), plan.contents.len());
    let mut next = 0;
    for (d, c) in read.iter().zip(&plan.contents) {
        assert_eq!(d.offset_sectors, next);
        assert_eq!(d.size_sectors as u64, c.data_len.div_ceil(0x8000).max(1));
        next += d.size_sectors;
        let wanted = if c.is_game {
            (0x0005_0000_534B_4A45, 0x4A45, 0x0200)
        } else if c.content_type == TYPE_HASHED {
            (0, 0x400, 0x0200)
        } else {
            (0, 0, 0x0100)
        };
        assert_eq!((d.owner_title_id, d.group_id, d.flags), wanted);
    }
}

#[test]
fn a_listing_ignores_the_case_of_letters() {
    let entries = vec![file("b_", 1), file("Ba", 1), file("a", 1), file("\u{c4}", 1), file("_", 1)];
    // In lower case `_` comes before the letters; what is not ASCII comes last.
    assert_eq!(list_order(&entries, Lead::Nothing), vec![4, 2, 0, 1, 3]);
}

#[test]
fn asking_for_nothing_reads_nothing() {
    let mut reader = SliceReader::new(b"abc");
    assert!(reader.read(0).unwrap().is_empty());
    assert_eq!(reader.read(2).unwrap(), b"ab");
    let source = MemoryFiles { list: vec![("a".to_string(), vec![7; 4])] };
    let c = PlannedContent {
        index: 1,
        content_type: TYPE_NONHASHED,
        is_game: false,
        data_len: 4,
        files: vec![PlacedFile { path: "a".to_string(), offset: 0, size: 4 }],
    };
    let mut reader = ContentPlaintextReader::new(&c, &source);
    assert!(reader.read(0).unwrap().is_empty());
    assert_eq!(reader.read(9).unwrap(), vec![7; 4]);
    assert!(reader.read(9).unwrap().is_empty());
}

#[test]
fn an_h3_file_has_one_hash_for_each_group() {
    let out = encode_hashed(&[1; 16], 0, b"");
    assert_eq!(out.h3.unwrap().len(), 20);
    let out = encode_hashed(&[1; 16], 0, &vec![3; 17 * HASH_BLOCK_DATA]);
    assert_eq!(out.size, 17 * 0x10000);
    assert_eq!(out.h3.unwrap().len(), 20);
}

#[test]
fn an_ordinary_build_can_be_packed() {
    assert!(can_be_packed(&small_build(), 1));
    let mut build = small_build();
    build.content = Some(vec![file("hif_000000.nfs", u64::MAX)]);
    assert!(!can_be_packed(&build, 1));
}

//! The NFS encoder.

use wiivci_core::consts::{DISC_SECTOR_SIZE, SECTORS_PER_GROUP};
use wiivci_core::disc_patch::{recompute_group, DiscPlan, PartitionPlan};
use wiivci_core::error::{Error, LimitFault, Result};
use wiivci_core::input::{DecryptedDisc, MemoryDisc, ReadSeek};
use wiivci_core::io::MemoryWriter;
use wiivci_core::nfs::crypto::{decrypt_sector, encrypt_sector, sector_iv};
use wiivci_core::nfs::eggs::{EggsHeader, LbaRange, HEADER_SIZE, MAX_RANGES};
use wiivci_core::nfs::split::{file_name, SplitWriter, NFS_FILE_SIZE};
use wiivci_core::nfs::{
    build_nfs, disc_header_ranges, group_runs, read_sector, splice, verify_patches_contained,
    GroupRun,
};

const SEC: u64 = DISC_SECTOR_SIZE as u64;
const DATA_PER_SECTOR: u64 = 0x7C00;
const RANGES_OFF: usize = 0x14;

#[test]
fn iv_places_sector_in_low_bytes_big_endian() {
    assert_eq!(sector_iv(0), [0u8; 16]);
    let iv = sector_iv(0x1F00);
    assert_eq!(&iv[0..12], &[0u8; 12]);
    assert_eq!(&iv[12..16], &[0x00, 0x00, 0x1F, 0x00]);
    assert_eq!(&sector_iv(1)[12..16], &[0, 0, 0, 1]);
}

#[test]
fn encrypt_decrypt_round_trips() {
    let key = [0x11u8; 16];
    let original: Vec<u8> = (0..0x8000).map(|i| (i * 7) as u8).collect();
    let mut buf = original.clone();
    encrypt_sector(&key, 42, &mut buf);
    assert_ne!(buf, original);
    decrypt_sector(&key, 42, &mut buf);
    assert_eq!(buf, original);
}

/// A buffer that is not a whole number of AES blocks must not panic: the ragged tail is left
/// untouched.
#[test]
fn ragged_buffer_does_not_panic_and_leaves_tail_untouched() {
    let key = [0x33u8; 16];
    let mut buf = [0xAAu8; 20]; // one whole block + 4 bytes
    encrypt_sector(&key, 7, &mut buf);
    assert_ne!(&buf[..16], &[0xAAu8; 16], "the whole block is encrypted");
    assert_eq!(&buf[16..], &[0xAAu8; 4], "the ragged tail is untouched");
    decrypt_sector(&key, 7, &mut buf);
    assert_eq!(buf, [0xAAu8; 20]);
}

#[test]
fn different_sectors_produce_different_ciphertext() {
    let key = [0x22u8; 16];
    let plain = [0u8; 32];
    let mut a = plain;
    let mut b = plain;
    encrypt_sector(&key, 1, &mut a);
    encrypt_sector(&key, 2, &mut b);
    assert_ne!(a, b, "IV differs by sector so ciphertext must differ");
}

#[test]
fn sector_zero_is_plain_aes_cbc() {
    // The AES-128 example of FIPS-197, whose IV of zeros is that of sector 0.
    let key = [0u8, 1, 2, 3, 4, 5, 6, 7, 8, 9, 10, 11, 12, 13, 14, 15];
    let mut block: [u8; 16] = [
        0x00, 0x11, 0x22, 0x33, 0x44, 0x55, 0x66, 0x77, 0x88, 0x99, 0xaa, 0xbb, 0xcc, 0xdd, 0xee,
        0xff,
    ];
    encrypt_sector(&key, 0, &mut block);
    assert_eq!(
        block,
        [
            0x69, 0xc4, 0xe0, 0xd8, 0x6a, 0x7b, 0x04, 0x30, 0xd8, 0xcd, 0xb7, 0x80, 0x70, 0xb4,
            0xc5, 0x5a
        ]
    );
}

#[test]
fn header_layout_is_correct() {
    let header = EggsHeader::new(vec![
        LbaRange {
            start_sector: 0,
            num_sectors: 1,
        },
        LbaRange {
            start_sector: 8,
            num_sectors: 2,
        },
        LbaRange {
            start_sector: 10,
            num_sectors: 0x1234,
        },
    ])
    .unwrap();
    let bytes = header.to_bytes();

    assert_eq!(&bytes[0..4], b"EGGS");
    assert_eq!(&bytes[4..8], &[0x00, 0x01, 0x10, 0x11]);
    assert_eq!(&bytes[8..12], &[0, 0, 0, 0]);
    assert_eq!(&bytes[12..16], &[0, 0, 0, 0]);
    assert_eq!(&bytes[16..20], &[0, 0, 0, 3]); // num ranges
                                               // range 0
    assert_eq!(&bytes[20..24], &[0, 0, 0, 0]);
    assert_eq!(&bytes[24..28], &[0, 0, 0, 1]);
    // range 1
    assert_eq!(&bytes[28..32], &[0, 0, 0, 8]);
    assert_eq!(&bytes[32..36], &[0, 0, 0, 2]);
    // range 2
    assert_eq!(&bytes[36..40], &[0, 0, 0, 10]);
    assert_eq!(&bytes[40..44], &[0, 0, 0x12, 0x34]);
    // unused range slots are 0xFF-filled (the terminator fw.img expects), up to the trailer.
    assert_eq!(&bytes[44..48], &[0xFF, 0xFF, 0xFF, 0xFF]);
    assert!(bytes[44..0x1FC].iter().all(|&b| b == 0xFF));
    // trailer
    assert_eq!(&bytes[0x1FC..0x200], b"SGGE");
    assert_eq!(bytes.len(), 0x200);
}

/// The cap is exact: 61 ranges fill the table right up to the `SGGE` trailer, and the
/// accessor hands back what was constructed.
#[test]
fn exactly_max_ranges_fills_the_table_up_to_the_trailer() {
    let ranges = vec![
        LbaRange {
            start_sector: 1,
            num_sectors: 2
        };
        MAX_RANGES
    ];
    let header = EggsHeader::new(ranges.clone()).unwrap();
    assert_eq!(header.ranges(), ranges.as_slice());
    assert_eq!(header.total_sectors(), 2 * MAX_RANGES as u64);

    let bytes = header.to_bytes();
    assert_eq!(&bytes[16..20], &[0, 0, 0, MAX_RANGES as u8]);
    assert_eq!(RANGES_OFF + MAX_RANGES * 8, HEADER_SIZE - 4);
    assert_eq!(
        &bytes[HEADER_SIZE - 12..HEADER_SIZE - 4],
        &[0, 0, 0, 1, 0, 0, 0, 2],
        "last slot sits immediately before the trailer"
    );
    assert_eq!(&bytes[HEADER_SIZE - 4..], b"SGGE");
}

#[test]
fn too_many_ranges_rejected() {
    let ranges = vec![
        LbaRange {
            start_sector: 0,
            num_sectors: 1
        };
        MAX_RANGES + 1
    ];
    assert!(EggsHeader::new(ranges).is_err());
}

#[test]
fn splice_writes_patch_fully_inside_sector() {
    let mut sector = vec![0u8; DISC_SECTOR_SIZE];
    splice(&mut sector, SEC, SEC + 0x10, &[1, 2, 3, 4]);
    assert_eq!(&sector[0x10..0x14], &[1, 2, 3, 4]);
    assert!(sector[..0x10].iter().all(|&b| b == 0));
    assert!(sector[0x14..].iter().all(|&b| b == 0));
}

#[test]
fn splice_clips_patch_overlapping_sector_head_and_tail() {
    // Patch starts before the sector: only its tail lands, at offset 0.
    let mut sector = vec![0u8; DISC_SECTOR_SIZE];
    splice(&mut sector, SEC, SEC - 2, &[1, 2, 3, 4]);
    assert_eq!(&sector[..2], &[3, 4]);
    assert!(sector[2..].iter().all(|&b| b == 0));

    // Patch runs past the sector end: only its head lands, at the end of the sector.
    let mut sector = vec![0u8; DISC_SECTOR_SIZE];
    splice(&mut sector, SEC, 2 * SEC - 2, &[1, 2, 3, 4]);
    assert_eq!(&sector[DISC_SECTOR_SIZE - 2..], &[1, 2]);
    assert!(sector[..DISC_SECTOR_SIZE - 2].iter().all(|&b| b == 0));
}

/// A patch that misses the sector leaves the buffer completely untouched, with no signal to the
/// caller.
#[test]
fn splice_ignores_patch_outside_sector() {
    let mut sector = vec![0xAAu8; DISC_SECTOR_SIZE];
    splice(&mut sector, SEC, 0, &[1, 2, 3, 4]); // entirely before
    splice(&mut sector, SEC, SEC - 4, &[1, 2, 3, 4]); // ends exactly at sector start
    splice(&mut sector, SEC, 2 * SEC, &[1, 2, 3, 4]); // starts exactly at sector end
    splice(&mut sector, SEC, 9 * SEC, &[1, 2, 3, 4]); // entirely after
    assert!(
        sector.iter().all(|&b| b == 0xAA),
        "buffer must be untouched"
    );
}

#[test]
fn splice_reassembles_patch_spanning_a_sector_boundary() {
    let patch = [1u8, 2, 3, 4];
    let patch_off = SEC - 2; // straddles sectors 0 and 1
    let mut sector0 = vec![0u8; DISC_SECTOR_SIZE];
    let mut sector1 = vec![0u8; DISC_SECTOR_SIZE];
    splice(&mut sector0, 0, patch_off, &patch);
    splice(&mut sector1, SEC, patch_off, &patch);
    assert_eq!(&sector0[DISC_SECTOR_SIZE - 2..], &[1, 2]);
    assert_eq!(&sector1[..2], &[3, 4]);
}

#[test]
fn read_sector_zero_pads_past_disc_end() {
    let disc_size = SEC + 0x100;
    let data: Vec<u8> = (0..disc_size).map(|i| i as u8).collect();
    let mut disc = MemoryDisc { data: data.clone() };
    let mut out = vec![0xFFu8; DISC_SECTOR_SIZE];

    read_sector(&mut disc, SEC, disc_size, &mut out).unwrap();
    assert_eq!(&out[..0x100], &data[SEC as usize..]);
    assert!(
        out[0x100..].iter().all(|&b| b == 0),
        "the tail past disc_size must be zero-padded"
    );
}

#[test]
fn read_sector_wholly_past_disc_end_is_all_zeros() {
    let disc_size = SEC;
    let mut disc = MemoryDisc { data: vec![0xABu8; disc_size as usize] };
    let mut out = vec![0xFFu8; DISC_SECTOR_SIZE];
    read_sector(&mut disc, disc_size, disc_size, &mut out).unwrap();
    assert!(out.iter().all(|&b| b == 0));
}

fn test_partition(stored_data_groups: Vec<(u32, u32)>) -> PartitionPlan {
    PartitionPlan {
        start_sector: 0x20,
        data_start_sector: 0x24,
        data_end_sector: 0x24 + 4 * SECTORS_PER_GROUP as u32,
        header_patches: Vec::new(),
        edits: Vec::new(),
        stored_data_groups,
    }
}

#[test]
fn group_runs_empty_plan_stores_every_group_rounding_the_tail_up() {
    let mut pp = test_partition(Vec::new());
    // 129 sectors = two full groups plus a one-sector tail group.
    pp.data_end_sector = pp.data_start_sector + 129;
    let runs = group_runs(&pp);
    assert_eq!(runs.len(), 1);
    assert_eq!(runs[0].first_group, 0);
    assert_eq!(runs[0].num_groups, 3, "the partial tail group is included");
}

#[test]
fn group_runs_passes_plan_runs_through_unclamped() {
    let pp = test_partition(vec![(0, 1), (3, 2)]);
    let runs = group_runs(&pp);
    let pairs: Vec<(u32, u32)> = runs.iter().map(|r| (r.first_group, r.num_groups)).collect();
    // Verbatim, including a run whose last group runs past `data_end_sector`; the range is cut
    // at the partition end rather than the run itself.
    assert_eq!(pairs, vec![(0, 1), (3, 2)]);
}

fn test_plan(pp: PartitionPlan, disc_patches: Vec<(u64, Vec<u8>)>) -> DiscPlan {
    DiscPlan {
        partitions: vec![pp],
        disc_patches,
        rvlt_content_hash: None,
        applied: Vec::new(),
    }
}

fn check(plan: &DiscPlan) -> Result<()> {
    let runs: Vec<Vec<GroupRun>> = plan.partitions.iter().map(group_runs).collect();
    verify_patches_contained(plan, &runs)
}

#[test]
fn verify_accepts_a_well_formed_plan() {
    let mut pp = test_partition(vec![(0, 2)]);
    // Header patch inside [0x20, 0x24) sectors, edit inside stored group 0.
    pp.header_patches = vec![(0x20 * SEC + 0x100, vec![0u8; 0x100])];
    pp.edits = vec![(0x1234, vec![0xAA; 16])];
    // Disc patch in the partition-table sectors {8, 9}.
    let plan = test_plan(pp, vec![(8 * SEC + 0x20, vec![0u8; 8])]);
    check(&plan).unwrap();
}

#[test]
fn verify_rejects_disc_patch_outside_the_written_sectors() {
    // Sector 1 is not written at disc level (only {0} and {8, 9} are).
    let plan = test_plan(test_partition(vec![(0, 2)]), vec![(SEC, vec![0u8; 4])]);
    let err = check(&plan).unwrap_err().message();
    assert!(err.contains("disc patch"), "{err}");

    // Nor may a patch straddle the gap between the two disc-level ranges.
    let plan = test_plan(test_partition(vec![(0, 2)]), vec![(SEC - 2, vec![0u8; 4])]);
    assert!(check(&plan).is_err());

    // Or overrun the end of the last one.
    let plan = test_plan(
        test_partition(vec![(0, 2)]),
        vec![(10 * SEC - 2, vec![0u8; 4])],
    );
    assert!(check(&plan).is_err());
}

#[test]
fn verify_rejects_header_patch_outside_the_partition_header() {
    // Before the partition start.
    let mut pp = test_partition(vec![(0, 2)]);
    pp.header_patches = vec![(0x1F * SEC, vec![0u8; 4])];
    let err = check(&test_plan(pp, Vec::new())).unwrap_err().message();
    assert!(err.contains("header patch"), "{err}");

    // Running past `data_start_sector` (into the cluster region, which is written from the
    // hash-group path and never sees `header_patches`).
    let mut pp = test_partition(vec![(0, 2)]);
    pp.header_patches = vec![(0x24 * SEC - 2, vec![0u8; 4])];
    assert!(check(&test_plan(pp, Vec::new())).is_err());
}

#[test]
fn verify_rejects_edit_in_an_unstored_group() {
    // Groups 0 and 3 are stored; the edit lands in group 2.
    let mut pp = test_partition(vec![(0, 1), (3, 1)]);
    let off = 2 * SECTORS_PER_GROUP as u64 * DATA_PER_SECTOR;
    pp.edits = vec![(off, vec![0xAA; 4])];
    let err = check(&test_plan(pp, Vec::new())).unwrap_err().message();
    assert!(err.contains("hash group 2"), "{err}");
}

#[test]
fn verify_rejects_edit_spilling_out_of_a_stored_group() {
    // Only group 0 is stored; the edit starts in its last data byte and spills into group 1.
    let mut pp = test_partition(vec![(0, 1)]);
    let group_data = SECTORS_PER_GROUP as u64 * DATA_PER_SECTOR;
    pp.edits = vec![(group_data - 1, vec![0xAA; 2])];
    let err = check(&test_plan(pp, Vec::new())).unwrap_err().message();
    assert!(err.contains("hash group 1"), "{err}");
}

#[test]
fn verify_accepts_any_edit_when_the_plan_stores_every_group() {
    // Empty `stored_data_groups` is the store-everything fallback (synthetic GC disc).
    let mut pp = test_partition(Vec::new());
    let off = 3 * SECTORS_PER_GROUP as u64 * DATA_PER_SECTOR;
    pp.edits = vec![(off, vec![0xAA; 4])];
    check(&test_plan(pp, Vec::new())).unwrap();
}

#[test]
fn splits_at_boundary() {
    let mut w = SplitWriter::new();
    // Write just over one file's worth to force a rollover.
    let chunk = vec![0xABu8; 1_000_000];
    let mut sizes: Vec<u64> = Vec::new();
    let mut total = 0u64;
    while total < NFS_FILE_SIZE + 1 {
        for piece in w.write_all(chunk.len()) {
            let file = piece.file as usize;
            if sizes.len() <= file {
                sizes.resize(file + 1, 0);
            }
            sizes[file] += (piece.end - piece.start) as u64;
        }
        total += chunk.len() as u64;
    }
    let count = w.file_count();
    assert_eq!(count, 2, "should roll over into a second file");
    assert_eq!(file_name(0), "hif_000000.nfs");
    assert_eq!(file_name(1), "hif_000001.nfs");
    assert_eq!(sizes[0], NFS_FILE_SIZE);
    assert!(sizes[1] > 0);
    assert_eq!(w.total_written(), total);
}

/// A small disc: the sectors up to 0x24 and one data region of `sectors` sectors.
fn small_disc(sectors: usize) -> Vec<u8> {
    let mut disc = vec![0u8; (0x24 + sectors) * 0x8000];
    for (i, byte) in disc.iter_mut().enumerate() {
        *byte = (i.wrapping_mul(31) >> 3) as u8;
    }
    disc
}

fn one_partition(sectors: u32) -> PartitionPlan {
    PartitionPlan {
        start_sector: 0x20,
        data_start_sector: 0x24,
        data_end_sector: 0x24 + sectors,
        header_patches: Vec::new(),
        edits: Vec::new(),
        stored_data_groups: Vec::new(),
    }
}

/// What a reader finds: sector numbers and decrypted sectors, in the order of the header's
/// ranges.
fn read_back(stream: &[u8], ranges: &[LbaRange], htk: &[u8; 16]) -> Vec<(u32, Vec<u8>)> {
    let mut found = Vec::new();
    let mut at = HEADER_SIZE;
    for range in ranges {
        for s in range.start_sector..range.start_sector + range.num_sectors {
            let mut sector = stream[at..at + 0x8000].to_vec();
            decrypt_sector(htk, s, &mut sector);
            found.push((s, sector));
            at += 0x8000;
        }
    }
    assert_eq!(at, stream.len(), "the ranges list every stored sector");
    found
}

#[test]
fn an_untouched_disc_reads_back() {
    let htk = [0x5A; 16];
    let data = small_disc(70);
    let plan = test_plan(one_partition(70), Vec::new());
    let mut writer = MemoryWriter::new();
    let stats = build_nfs(&mut MemoryDisc { data: data.clone() }, &htk, &mut writer, &plan).unwrap();
    assert_eq!(stats.file_count, 1);
    assert_eq!(stats.total_bytes, writer.data.len() as u64);
    assert_eq!(stats.ranges.len(), disc_header_ranges().len() + 2);
    let found = read_back(&writer.data, &stats.ranges, &htk);
    assert_eq!(found.len(), 3 + 4 + 70);
    for (s, sector) in &found {
        let at = *s as usize * 0x8000;
        let original = &data[at..at + 0x8000];
        if *s < 0x24 {
            assert_eq!(sector, original, "sector {s}");
        } else {
            assert_eq!(&sector[0x400..], &original[0x400..], "data of sector {s}");
        }
    }
    // The hash blocks are those of a rebuilt group.
    let mut group: Vec<[u8; 0x8000]> = Vec::new();
    for k in 0..64 {
        let at = (0x24 + k) * 0x8000;
        group.push(data[at..at + 0x8000].try_into().unwrap());
    }
    recompute_group(&mut group);
    for k in 0..64 {
        assert!(found[7 + k].1 == group[k], "cluster {k}");
    }
}

#[test]
fn patches_and_edits_are_stored() {
    let htk = [7; 16];
    let data = small_disc(64);
    let mut pp = one_partition(64);
    pp.header_patches = vec![(0x21 * SEC + 5, vec![1, 2, 3])];
    pp.edits = vec![(2 * DATA_PER_SECTOR - 1, vec![0xA1, 0xA2])];
    let plan = test_plan(pp, vec![(8 * SEC, vec![9; 4])]);
    let mut writer = MemoryWriter::new();
    let stats = build_nfs(&mut MemoryDisc { data }, &htk, &mut writer, &plan).unwrap();
    let found = read_back(&writer.data, &stats.ranges, &htk);
    let sector = |n: u32| &found.iter().find(|(s, _)| *s == n).unwrap().1;
    assert_eq!(&sector(8)[..4], &[9; 4]);
    assert_eq!(&sector(0x21)[5..8], &[1, 2, 3]);
    assert_eq!(sector(0x25)[0x7FFF], 0xA1);
    assert_eq!(sector(0x26)[0x400], 0xA2);
}

#[test]
fn a_refused_plan_writes_nothing() {
    let htk = [7; 16];
    let mut pp = one_partition(64);
    pp.stored_data_groups = vec![(0, 1)];
    let plan = test_plan(pp, vec![(SEC, vec![0; 4])]);
    let mut writer = MemoryWriter::new();
    let err = build_nfs(&mut MemoryDisc { data: small_disc(64) }, &htk, &mut writer, &plan).unwrap_err();
    assert!(matches!(err, Error::FormatLimit(LimitFault::DiscPatch { .. })));
    assert!(writer.data.is_empty());

    let mut pp = one_partition(64);
    pp.stored_data_groups = vec![(0, 1); 60];
    let mut writer = MemoryWriter::new();
    let err = build_nfs(
        &mut MemoryDisc { data: small_disc(64) },
        &htk,
        &mut writer,
        &test_plan(pp, Vec::new()),
    )
    .unwrap_err();
    assert!(matches!(err, Error::FormatLimit(LimitFault::TooManyRanges(63))));
    assert!(writer.data.is_empty());
}

/// A disc that counts its reads.
struct Counted {
    disc: MemoryDisc,
    reads: usize,
}

impl ReadSeek for Counted {
    fn read_at(&mut self, offset: u64, len: usize) -> Result<Vec<u8>> {
        self.reads += 1;
        self.disc.read_at(offset, len)
    }
}

impl DecryptedDisc for Counted {
    fn disc_size(&self) -> u64 {
        self.disc.disc_size()
    }
}

#[test]
fn a_refused_plan_leaves_the_disc_unread() {
    let mut source = Counted { disc: MemoryDisc { data: small_disc(64) }, reads: 0 };
    let mut writer = MemoryWriter::new();
    let refused = test_plan(one_partition(64), vec![(SEC, vec![0; 4])]);
    assert!(build_nfs(&mut source, &[7; 16], &mut writer, &refused).is_err());
    assert_eq!(source.reads, 0);
    let accepted = test_plan(one_partition(64), Vec::new());
    assert!(build_nfs(&mut source, &[7; 16], &mut writer, &accepted).is_ok());
    assert!(source.reads > 0);
}

#[test]
fn encrypting_undoes_decrypting() {
    let key = [0x11u8; 16];
    // A ragged tail is kept both ways.
    for len in [0x8000, 0x20, 37] {
        let original: Vec<u8> = (0..len).map(|i| (i * 11) as u8).collect();
        let mut buf = original.clone();
        decrypt_sector(&key, 9, &mut buf);
        assert_ne!(buf, original);
        encrypt_sector(&key, 9, &mut buf);
        assert_eq!(buf, original);
    }
}

#[test]
fn files_do_not_depend_on_how_the_stream_is_cut_up() {
    let full = NFS_FILE_SIZE as usize;
    let ranges = |writes: &[usize]| {
        let mut w = SplitWriter::new();
        let mut sizes: Vec<usize> = vec![0];
        for &len in writes {
            let mut next = 0;
            for piece in w.write_all(len) {
                assert_eq!(piece.start, next);
                next = piece.end;
                let file = piece.file as usize;
                if file == sizes.len() {
                    sizes.push(0);
                }
                sizes[file] += piece.end - piece.start;
            }
            assert_eq!(next, len);
        }
        assert_eq!(w.finish() as usize, sizes.len());
        sizes
    };
    assert_eq!(ranges(&[]), vec![0]);
    assert_eq!(ranges(&[0, 0]), vec![0]);
    assert_eq!(ranges(&[full]), vec![full], "a full file is no reason for another");
    assert_eq!(ranges(&[full + 1]), vec![full, 1]);
    assert_eq!(ranges(&[full - 1, 1, 1]), vec![full, 1]);
    assert_eq!(ranges(&[2 * full + 5]), vec![full, full, 5]);
    assert_eq!(ranges(&[7, 2 * full - 7, 0, 5]), vec![full, full, 5]);
}

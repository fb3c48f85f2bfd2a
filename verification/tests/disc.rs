//! Reading discs: which groups to store, how large `main.dol` is, and what to patch in it.

use wiivci_core::disc_patch::plan_disc;
use wiivci_core::error::{DiscFault, Error};
use wiivci_core::input::{
    disc_files, dol_size_from_header, files_of_nodes, fully_contained_groups, plan_group_runs,
    probe, region_is_zero, zero_trim_groups, DiscFacts, DiscKind, DiscNode, GcImage,
    ListedPartition, MemoryDisc, PartitionSpan, SourceDisc, MAX_DOL_SIZE,
};
use wiivci_core::io::MemoryWriter;
use wiivci_core::nfs::build_nfs;
use wiivci_core::nfs::crypto::decrypt_sector;
use wiivci_core::video::{
    find_dol_edits, VideoPatches, DEFLICKER_PATTERN, DEFLICKER_REPLACEMENT, DITHERING_PATTERN,
    DITHERING_REPLACEMENT, HALF_VFILTER_PATTERN, HALF_VFILTER_REPLACEMENT,
};

fn memory(data: Vec<u8>) -> MemoryDisc {
    MemoryDisc { data }
}

#[test]
fn region_is_zero_detects_zero_and_nonzero() {
    // All zero over more than one read chunk boundary is still zero.
    let zeros = vec![0u8; (1 << 20) + 4096];
    assert!(region_is_zero(&mut memory(zeros), 0, (1 << 20) + 4096).unwrap());
    // A single non-zero byte makes the region non-zero.
    let mut one = vec![0u8; 4096];
    one[4000] = 1;
    assert!(!region_is_zero(&mut memory(one), 0, 4096).unwrap());
    // The offset is honoured: a non-zero prefix outside the range is ignored.
    let mut data = vec![0xFFu8; 100];
    data.extend(vec![0u8; 200]);
    assert!(region_is_zero(&mut memory(data.clone()), 100, 200).unwrap());
    assert!(!region_is_zero(&mut memory(data), 0, 300).unwrap());
}

/// Logical bytes per hash group.
const GB: u64 = 64 * 0x7C00;

/// A 10-group data region (640 clusters), the size most planner tests work in.
const TEN_GROUPS: u64 = 640;

/// Build a DOL header from `(offset, size)` section pairs (offsets at `0x00..`, sizes at
/// `0x90..`); unlisted sections stay zero.
fn dol_header(sections: &[(u32, u32)]) -> [u8; 0x100] {
    let mut h = [0u8; 0x100];
    for (i, &(off, sz)) in sections.iter().enumerate() {
        h[i * 4..i * 4 + 4].copy_from_slice(&off.to_be_bytes());
        h[0x90 + i * 4..0x90 + i * 4 + 4].copy_from_slice(&sz.to_be_bytes());
    }
    h
}

/// Runs merge only across *strictly* adjacent groups; any gap, however small, splits them.
#[test]
fn plan_group_runs_coalesces_only_strictly_adjacent_groups() {
    // One byte in each of groups 0, 1, 3 and 9 (of 10).
    let extents = [(0, 1), (GB, 1), (3 * GB, 1), (9 * GB, 1)];
    let runs = plan_group_runs(&extents, TEN_GROUPS, true, &[]).unwrap();
    assert_eq!(runs, vec![(0, 2), (3, 1), (9, 1)]);
}

/// An extent marks every group it touches, including the partial groups at both ends.
#[test]
fn plan_group_runs_marks_every_group_an_extent_spans() {
    // Starts halfway through group 0 and ends halfway through group 3 → groups 0..=3.
    let runs = plan_group_runs(&[(GB / 2, 3 * GB)], TEN_GROUPS, true, &[]).unwrap();
    assert_eq!(runs, vec![(0, 4)]);
    // A single byte straddling nothing still marks exactly its own group.
    let runs = plan_group_runs(&[(4 * GB - 1, 2)], TEN_GROUPS, true, &[]).unwrap();
    assert_eq!(runs, vec![(3, 2)]);
    // The whole region as one extent is one run covering every group.
    let runs = plan_group_runs(&[(0, 10 * GB)], TEN_GROUPS, true, &[]).unwrap();
    assert_eq!(runs, vec![(0, 10)]);
}

/// A data region whose cluster count is not a multiple of 64 still gets a (partial) final
/// group: `ngroups = ceil(clusters / 64)`.
#[test]
fn plan_group_runs_handles_partial_final_group() {
    let clusters = 2 * 64 + 5; // 133 clusters → 3 groups, the last only 5 clusters wide
    let data_size = clusters * 0x7C00;
    // The very last readable byte lands in the partial group 2.
    let runs = plan_group_runs(&[(data_size - 1, 1)], clusters, true, &[]).unwrap();
    assert_eq!(runs, vec![(2, 1)]);
    // …and `skip_gaps == false` stores all three groups, partial one included.
    let runs = plan_group_runs(&[], clusters, false, &[]).unwrap();
    assert_eq!(runs, vec![(0, 3)]);
}

/// No extents (e.g. an empty FST) marks nothing at all.
#[test]
fn plan_group_runs_with_no_extents_yields_no_runs() {
    assert_eq!(plan_group_runs(&[], TEN_GROUPS, true, &[]).unwrap(), vec![]);
}

/// Zero-length FST entries mark nothing, and are exempt from the bounds check (their offset is
/// meaningless).
#[test]
fn plan_group_runs_ignores_zero_length_extents() {
    let data_size = TEN_GROUPS * 0x7C00;
    let extents = [
        (0, 1),
        (5 * GB, 0),
        (data_size + 1_000_000, 0),
        (u64::MAX, 0),
    ];
    let runs = plan_group_runs(&extents, TEN_GROUPS, true, &[]).unwrap();
    assert_eq!(runs, vec![(0, 1)]);
}

/// `skip_gaps == false` stores every group regardless of the extents given.
#[test]
fn plan_group_runs_without_skip_gaps_stores_every_group() {
    let runs = plan_group_runs(&[(0, 1)], TEN_GROUPS, false, &[]).unwrap();
    assert_eq!(runs, vec![(0, 10)]);
    let runs = plan_group_runs(&[], TEN_GROUPS, false, &[]).unwrap();
    assert_eq!(runs, vec![(0, 10)]);
}

/// Zero-fill trimming is applied *after* the `skip_gaps` fill, so it punches holes even when
/// gap-skipping is turned off.
#[test]
fn plan_group_runs_trim_applies_after_skip_gaps_fill() {
    let zero = [(0, 3 * GB)];
    let runs = plan_group_runs(&[], TEN_GROUPS, false, &zero).unwrap();
    assert_eq!(runs, vec![(3, 7)]);
}

/// Only whole groups inside a zero file are dropped; the boundary groups it shares with other
/// data are kept.
#[test]
fn plan_group_runs_trims_only_fully_contained_zero_groups() {
    let extents = [(0, 10 * GB)];
    // Zero file from mid-group-0 to mid-group-4 → whole groups 1..4 dropped.
    let zero = [(GB / 2, 4 * GB)];
    let runs = plan_group_runs(&extents, TEN_GROUPS, true, &zero).unwrap();
    assert_eq!(runs, vec![(0, 1), (4, 6)]);
    // A group-aligned zero file drops exactly its own groups.
    let zero = [(2 * GB, 3 * GB)];
    let runs = plan_group_runs(&extents, TEN_GROUPS, true, &zero).unwrap();
    assert_eq!(runs, vec![(0, 2), (5, 5)]);
}

/// Zero files shorter than two whole groups are never trimmed, even when group-aligned and so
/// nominally covering a whole group.
#[test]
fn plan_group_runs_ignores_zero_files_smaller_than_two_groups() {
    let extents = [(0, 10 * GB)];
    assert_eq!(zero_trim_groups(5 * GB, GB), None);
    let runs = plan_group_runs(&extents, TEN_GROUPS, true, &[(5 * GB, GB)]).unwrap();
    assert_eq!(runs, vec![(0, 10)]);
    // Two groups' worth is the threshold, and is trimmed.
    assert_eq!(zero_trim_groups(5 * GB, 2 * GB), Some(5..7));
    let runs = plan_group_runs(&extents, TEN_GROUPS, true, &[(5 * GB, 2 * GB)]).unwrap();
    assert_eq!(runs, vec![(0, 5), (7, 3)]);
}

/// Extents reaching past the data region are a corrupt disc and are rejected.
#[test]
fn plan_group_runs_rejects_extent_past_data_region() {
    let clusters = 2 * 64 + 5; // 133 clusters → 3 groups; group 2 is only 5 clusters wide
    let data_size = clusters * 0x7C00;

    // Ending exactly at the last byte is fine.
    assert!(plan_group_runs(&[(0, data_size)], clusters, true, &[]).is_ok());

    // One byte past the end is not.
    let err = plan_group_runs(&[(data_size - 1, 2)], clusters, true, &[])
        .unwrap_err()
        .message();
    assert!(err.contains(&(data_size - 1).to_string()), "{err}");
    assert!(err.contains(&data_size.to_string()), "{err}");

    // Starting past the end is rejected too, even though its cluster still falls inside the
    // final *partial* group (index 2 < 3).
    assert!(plan_group_runs(&[(data_size, 1)], clusters, true, &[]).is_err());

    // An offset+length that overflows u64 errors instead of wrapping.
    assert!(plan_group_runs(&[(u64::MAX, 2)], clusters, true, &[]).is_err());
}

/// The DOL size is the largest section end, floored at the 0x100-byte header.
#[test]
fn dol_size_from_header_takes_largest_section_end() {
    assert_eq!(
        dol_size_from_header(&dol_header(&[]), MAX_DOL_SIZE).unwrap(),
        0x100
    );
    let h = dol_header(&[(0x100, 0x200), (0x2000, 0x40), (0x400, 0x10)]);
    assert_eq!(dol_size_from_header(&h, MAX_DOL_SIZE).unwrap(), 0x2040);
    // A section ending exactly at the limit is accepted.
    let h = dol_header(&[(0x100, 0xF00)]);
    assert_eq!(dol_size_from_header(&h, 0x1000).unwrap(), 0x1000);
}

/// A corrupt section table is rejected before it can drive a multi-gigabyte allocation.
#[test]
fn dol_size_from_header_rejects_oversized_sections() {
    let h = dol_header(&[(0x100, 0x200), (u32::MAX, u32::MAX)]);
    let err = dol_size_from_header(&h, MAX_DOL_SIZE)
        .unwrap_err()
        .message();
    assert!(err.contains("section 1"), "{err}");
    assert!(err.contains(&MAX_DOL_SIZE.to_string()), "{err}");
    // Just one byte over is enough.
    let h = dol_header(&[(0x100, 0xF01)]);
    assert!(dol_size_from_header(&h, 0x1000).is_err());
}

#[test]
fn fully_contained_groups_excludes_boundary_groups() {
    let gb = 64 * 0x7C00u64; // logical bytes per hash group
                             // Group-aligned file of exactly 3 groups: all three are fully contained.
    assert_eq!(fully_contained_groups(0, 3 * gb, gb), 0..3);
    // Offset mid-group: the partial leading and trailing groups are excluded.
    assert_eq!(fully_contained_groups(gb / 2, 3 * gb, gb), 1..3);
    // A file smaller than a whole group contains none.
    let r = fully_contained_groups(gb / 2, gb / 4, gb);
    assert!(r.end <= r.start, "expected empty, got {r:?}");
    // Exactly one group, aligned.
    assert_eq!(fully_contained_groups(5 * gb, gb, gb), 5..6);
}

#[test]
fn deflicker_replaces_last_four_bytes_of_first_match() {
    let mut dol = vec![0u8; 32];
    dol.extend_from_slice(&DEFLICKER_PATTERN);
    dol.extend_from_slice(&[0xAAu8; 16]);
    // A second occurrence should be ignored (first match only).
    dol.extend_from_slice(&DEFLICKER_PATTERN);

    let edits = find_dol_edits(
        &dol,
        &VideoPatches {
            deflicker: true,
            ..Default::default()
        },
    );
    assert_eq!(edits.len(), 1);
    assert_eq!(edits[0].offset, 32 + DEFLICKER_PATTERN.len() - 4);
    assert_eq!(edits[0].bytes, DEFLICKER_REPLACEMENT);
    // The last 4 bytes of the pattern are the conditional branch we neutralise.
    assert_eq!(&DEFLICKER_PATTERN[352..], &[0x41, 0x82, 0x00, 0x40]);
}

#[test]
fn dithering_writes_four_bytes_before_the_match() {
    let mut dol = vec![0x11u8; 100];
    let at = 60;
    dol[at..at + DITHERING_PATTERN.len()].copy_from_slice(&DITHERING_PATTERN);

    let edits = find_dol_edits(
        &dol,
        &VideoPatches {
            dithering: true,
            ..Default::default()
        },
    );
    assert_eq!(edits.len(), 1);
    assert_eq!(edits[0].offset, at - 4);
    assert_eq!(edits[0].bytes, DITHERING_REPLACEMENT);
}

#[test]
fn half_vfilter_replaces_every_occurrence() {
    let mut dol = Vec::new();
    dol.extend_from_slice(&[0u8; 8]);
    dol.extend_from_slice(&HALF_VFILTER_PATTERN);
    dol.extend_from_slice(&[0u8; 5]);
    dol.extend_from_slice(&HALF_VFILTER_PATTERN);

    let edits = find_dol_edits(
        &dol,
        &VideoPatches {
            half_vfilter: true,
            ..Default::default()
        },
    );
    assert_eq!(edits.len(), 2);
    assert_eq!(edits[0].offset, 8);
    assert_eq!(edits[1].offset, 8 + 7 + 5);
    assert!(edits.iter().all(|e| e.bytes == HALF_VFILTER_REPLACEMENT));
}

#[test]
fn missing_pattern_is_skipped_not_errored() {
    let dol = vec![0x00u8; 1000];
    let edits = find_dol_edits(
        &dol,
        &VideoPatches {
            deflicker: true,
            half_vfilter: true,
            dithering: true,
        },
    );
    assert!(edits.is_empty());
}

#[test]
fn no_patches_yields_no_edits() {
    let dol = vec![0u8; 10];
    assert!(find_dol_edits(&dol, &VideoPatches::default()).is_empty());
    assert!(!VideoPatches::default().any());
}

#[test]
fn dithering_at_the_very_start_has_no_room_for_its_edit() {
    let patches = VideoPatches { dithering: true, ..Default::default() };
    assert!(find_dol_edits(&DITHERING_PATTERN, &patches).is_empty());
}

/// Facts of a disc with an update partition and a data partition of `groups` hash groups, each
/// whole.
fn facts(groups: u32) -> DiscFacts {
    let data = PartitionSpan {
        index: 1,
        start_sector: 0x20,
        data_start_sector: 0x24,
        data_end_sector: 0x24 + 64 * groups,
    };
    let update = PartitionSpan {
        index: 0,
        start_sector: 0x0A,
        data_start_sector: 0x0C,
        data_end_sector: 0x10,
    };
    DiscFacts {
        path: "game.iso".to_string(),
        is_wii: true,
        is_gamecube: false,
        game_id: *b"RSPE01",
        disc_size: (0x24 + 64 * groups as u64) * 0x8000,
        partitions: vec![
            ListedPartition { span: data, is_data: true },
            ListedPartition { span: update, is_data: false },
        ],
        raw_ticket: Some(vec![1; 0x2A4]),
        raw_tmd: Some(vec![2; 0x208]),
    }
}

#[test]
fn an_opened_disc_tells_what_it_is() {
    let disc = SourceDisc::open(facts(2)).unwrap();
    assert_eq!(disc.game_id(), *b"RSPE01");
    assert_eq!(disc.game_id_str(), "RSPE01");
    assert_eq!(disc.disc_id4(), *b"RSPE");
    assert_eq!(disc.data_partition().start_sector, 0x20);
    assert_eq!(disc.path(), "game.iso");
    assert_eq!(disc.raw_ticket().len(), 0x2A4);
    assert_eq!(disc.raw_tmd().len(), 0x208);
    assert_eq!(disc.data_region_clusters(), 128);
    assert_eq!(disc.data_region_size(), 128 * 0x7C00);
    // Partitions come in the order of their sectors, whatever the listing's.
    let starts: Vec<u32> = disc.partitions().iter().map(|p| p.start_sector).collect();
    assert_eq!(starts, vec![0x0A, 0x20]);
}

#[test]
fn a_disc_without_what_is_needed_is_refused() {
    let mut f = facts(1);
    f.is_wii = false;
    assert!(matches!(
        SourceDisc::open(f),
        Err(Error::UnsupportedDisc(DiscFault::NotWii(_)))
    ));
    let mut f = facts(1);
    f.partitions[0].is_data = false;
    assert!(matches!(
        SourceDisc::open(f),
        Err(Error::UnsupportedDisc(DiscFault::NoDataPartition))
    ));
    let mut f = facts(1);
    f.raw_ticket = None;
    assert!(matches!(
        SourceDisc::open(f),
        Err(Error::UnsupportedDisc(DiscFault::NoTicket))
    ));
    let mut f = facts(1);
    f.raw_tmd = None;
    assert!(matches!(
        SourceDisc::open(f),
        Err(Error::UnsupportedDisc(DiscFault::NoTmd))
    ));
    let disc = SourceDisc::open(facts(1)).unwrap();
    assert!(matches!(
        disc.partition_h3_table(1, None),
        Err(Error::UnsupportedDisc(DiscFault::NoH3Table(_)))
    ));
}

#[test]
fn the_kind_of_a_disc_is_probed() {
    let mut f = facts(1);
    assert_eq!(probe(&f).unwrap(), DiscKind::Wii);
    f.is_wii = false;
    assert!(matches!(
        probe(&f),
        Err(Error::UnsupportedDisc(DiscFault::UnknownDisc(_)))
    ));
    f.is_gamecube = true;
    f.game_id = *b"GM2E8P";
    f.disc_size = 1_459_978_240;
    assert_eq!(probe(&f).unwrap(), DiscKind::GameCube);
    let gc = GcImage::open(f).unwrap();
    assert_eq!(gc.game_id_str(), "GM2E8P");
    assert_eq!(gc.disc_id4(), *b"GM2E");
    assert_eq!(gc.region_char(), b'E');
    assert_eq!(gc.iso_size(), 1_459_978_240);
    assert!(matches!(
        GcImage::open(facts(1)),
        Err(Error::UnsupportedDisc(DiscFault::NotGameCube(_)))
    ));
}

/// A data partition of two groups whose `main.dol` at 0x1000 holds one filter pattern.
fn partition_data() -> Vec<u8> {
    let mut part = vec![0u8; 2 * GB as usize];
    part[0x420..0x424].copy_from_slice(&(0x1000u32 / 4).to_be_bytes());
    part[0x1000..0x1100].copy_from_slice(&dol_header(&[(0x100, 0x100)]));
    part[0x1180..0x1187].copy_from_slice(&HALF_VFILTER_PATTERN);
    part
}

/// The decrypted disc around that partition; its hash blocks are zero.
fn disc_data(part: &[u8]) -> Vec<u8> {
    let mut disc = vec![0u8; (0x24 + 128) * 0x8000];
    for (i, data) in part.chunks(0x7C00).enumerate() {
        let at = (0x24 + i) * 0x8000 + 0x400;
        disc[at..at + data.len()].copy_from_slice(data);
    }
    disc
}

#[test]
fn main_dol_is_found_and_read() {
    let source = SourceDisc::open(facts(2)).unwrap();
    let dol = source.read_main_dol(&mut memory(partition_data())).unwrap();
    assert_eq!(dol.offset, 0x1000);
    assert_eq!(dol.data.len(), 0x200);
    assert_eq!(&dol.data[0x180..0x187], &HALF_VFILTER_PATTERN);
}

#[test]
fn a_plan_patches_the_dol_and_the_tables_above_it() {
    let source = SourceDisc::open(facts(2)).unwrap();
    let part = partition_data();
    let disc = disc_data(&part);
    let patches = VideoPatches { half_vfilter: true, ..Default::default() };
    let plan = plan_disc(
        &source,
        &mut memory(disc),
        &mut memory(part),
        Some(vec![0u8; 0x18000]),
        &fst_of(&[(0x1000, 0x200)]),
        &patches,
        true,
        false,
    )
    .unwrap();
    assert_eq!(plan.applied, vec!["half-vfilter"]);
    assert!(plan.rvlt_content_hash.is_some());
    assert_eq!(plan.partitions.len(), 1, "the update partition is left out");
    let pp = &plan.partitions[0];
    assert_eq!(pp.edits.len(), 1);
    assert_eq!(pp.edits[0].0, 0x1180);
    assert_eq!(pp.edits[0].1, HALF_VFILTER_REPLACEMENT);
    assert_eq!(pp.stored_data_groups, vec![(0, 1)]);
    assert!(!pp.header_patches.is_empty());
}

#[test]
fn a_plan_without_patches_changes_no_hash() {
    let source = SourceDisc::open(facts(2)).unwrap();
    let part = partition_data();
    let disc = disc_data(&part);
    // Nothing is edited, so the table need not list a single group.
    for table in [vec![0u8; 0x18000], vec![]] {
        let plan = plan_disc(
            &source,
            &mut memory(disc.clone()),
            &mut memory(part.clone()),
            Some(table),
            &fst_of(&[(0x1000, 0x200)]),
            &VideoPatches::default(),
            true,
            false,
        )
        .unwrap();
        assert!(plan.rvlt_content_hash.is_none());
        assert!(plan.applied.is_empty());
        assert!(plan.partitions[0].edits.is_empty());
    }
}

#[test]
fn a_table_that_lists_the_patched_group_is_enough() {
    let source = SourceDisc::open(facts(2)).unwrap();
    let part = partition_data();
    let disc = disc_data(&part);
    let patches = VideoPatches { half_vfilter: true, ..Default::default() };
    let plan = plan_disc(
        &source,
        &mut memory(disc),
        &mut memory(part),
        Some(vec![0u8; 20]),
        &fst_of(&[(0x1000, 0x200)]),
        &patches,
        true,
        false,
    )
    .unwrap();
    assert!(plan.rvlt_content_hash.is_some());
    assert_eq!(plan.partitions[0].edits.len(), 1);
}

#[test]
fn a_refused_extent_comes_before_the_zero_files() {
    let zeros = [(u64::MAX, 2 * GB)];
    assert!(matches!(
        plan_group_runs(&[(10 * GB, 1)], TEN_GROUPS, true, &zeros),
        Err(Error::UnsupportedDisc(DiscFault::ExtentPastEnd { .. }))
    ));
}

#[test]
fn a_plan_needs_the_h3_table() {
    let source = SourceDisc::open(facts(2)).unwrap();
    let part = partition_data();
    let disc = disc_data(&part);
    assert!(matches!(
        plan_disc(
            &source,
            &mut memory(disc),
            &mut memory(part),
            None,
            &fst_of(&[]),
            &VideoPatches::default(),
            true,
            false,
        ),
        Err(Error::UnsupportedDisc(DiscFault::NoH3Table(_)))
    ));
}

/// A file system table with these entries behind its root: kind, offset field, length.
fn table_of(entries: &[(u8, u32, u32)]) -> Vec<u8> {
    let mut raw = Vec::new();
    let root = (1u8, 0u32, entries.len() as u32 + 1);
    for (kind, offset, len) in std::iter::once(&root).chain(entries) {
        raw.extend_from_slice(&[*kind, 0, 0, 0]);
        raw.extend_from_slice(&offset.to_be_bytes());
        raw.extend_from_slice(&len.to_be_bytes());
    }
    raw.extend_from_slice(b"name\0\0\0\0");
    raw
}

/// A file system table of files alone.
fn fst_of(files: &[(u64, u64)]) -> Vec<u8> {
    let entries: Vec<(u8, u32, u32)> = files
        .iter()
        .map(|&(off, len)| (0, (off / 4) as u32, len as u32))
        .collect();
    table_of(&entries)
}

/// A file system table: the root, a directory with one file, and a file beside it.
fn raw_fst() -> Vec<u8> {
    table_of(&[(1, 0, 3), (0, 0x400, 0x1234), (0, 0x5000, 9)])
}

#[test]
fn the_files_of_a_table_come_in_disc_order() {
    assert_eq!(
        disc_files(&raw_fst()).unwrap(),
        vec![(0x1000, 0x1234), (0x1_4000, 9)]
    );
    assert_eq!(
        files_of_nodes(&vec![
            DiscNode { is_dir: true, offset: 1, len: 2 },
            DiscNode { is_dir: false, offset: 3, len: 4 },
        ]),
        vec![(3, 4)]
    );
}

#[test]
fn a_table_that_does_not_hold_its_entries_is_refused() {
    let mut raw = raw_fst();
    raw[11] = 200;
    assert!(matches!(
        disc_files(&raw),
        Err(Error::UnsupportedDisc(DiscFault::NoFst("FST string table out of bounds")))
    ));
    assert!(matches!(
        disc_files(&raw[..8]),
        Err(Error::UnsupportedDisc(DiscFault::NoFst("FST root node not found")))
    ));
}

/// A data partition of six groups; a file of zeros starts in the second and ends in the fifth.
fn partition_with_zeros() -> (Vec<u8>, Vec<u8>) {
    let mut part = vec![0u8; 6 * GB as usize];
    part[0x420..0x424].copy_from_slice(&(0x1000u32 / 4).to_be_bytes());
    part[0x1000..0x1100].copy_from_slice(&dol_header(&[(0x100, 0x100)]));
    (part, fst_of(&[(0x1000, 0x200), (GB + 0x100, 3 * GB)]))
}

#[test]
fn gaps_and_zeros_are_left_out_as_asked() {
    let source = SourceDisc::open(facts(6)).unwrap();
    let (part, fst) = partition_with_zeros();
    let runs = |skip_gaps: bool, trim_zeros: bool| {
        source
            .used_data_group_runs(&mut memory(part.clone()), &fst, skip_gaps, trim_zeros)
            .unwrap()
    };
    assert_eq!(runs(true, false), vec![(0, 5)]);
    assert_eq!(runs(true, true), vec![(0, 2), (4, 1)]);
    assert_eq!(runs(false, false), vec![(0, 6)]);
    assert_eq!(runs(false, true), vec![(0, 2), (4, 2)]);
}

#[test]
fn a_file_with_one_byte_set_is_not_trimmed() {
    let source = SourceDisc::open(facts(6)).unwrap();
    let (mut part, fst) = partition_with_zeros();
    part[(2 * GB + 5) as usize] = 1;
    let runs = source.used_data_group_runs(&mut memory(part), &fst, true, true).unwrap();
    assert_eq!(runs, vec![(0, 5)]);
}

#[test]
fn a_file_past_the_data_is_refused_with_and_without_trimming() {
    let source = SourceDisc::open(facts(6)).unwrap();
    let (part, _) = partition_with_zeros();
    let fst = fst_of(&[(5 * GB, 2 * GB)]);
    for trim_zeros in [false, true] {
        assert!(matches!(
            source.used_data_group_runs(&mut memory(part.clone()), &fst, true, trim_zeros),
            Err(Error::UnsupportedDisc(DiscFault::ExtentPastEnd { .. }))
        ));
    }
    assert!(matches!(
        source.used_data_group_runs(&mut memory(part.clone()), &[], true, false),
        Err(Error::UnsupportedDisc(DiscFault::NoFst("FST root node not found")))
    ));
    assert!(matches!(
        source.runs_for_extents(&mut memory(part), &[], &[(6 * GB, 1)], true, false),
        Err(Error::UnsupportedDisc(DiscFault::ExtentPastEnd { .. }))
    ));
}

#[test]
fn files_of_a_planned_disc_read_back() {
    let source = SourceDisc::open(facts(2)).unwrap();
    let mut part = partition_data();
    let file: Vec<u8> = (0..0x9000u32).map(|i| (i * 7 + 3) as u8).collect();
    part[0x3000..0x3000 + file.len()].copy_from_slice(&file);
    let disc = disc_data(&part);
    let plan = plan_disc(
        &source,
        &mut memory(disc.clone()),
        &mut memory(part),
        Some(vec![0u8; 0x18000]),
        &fst_of(&[(0x3000, file.len() as u64)]),
        &VideoPatches { half_vfilter: true, ..Default::default() },
        true,
        false,
    )
    .unwrap();
    let htk = [0x5A; 16];
    let mut writer = MemoryWriter::new();
    let stats = build_nfs(&mut memory(disc), &htk, &mut writer, &plan).unwrap();

    // The stored sectors, by number, with their data behind the hash block.
    let mut data = vec![0u8; 64 * 0x7C00];
    let mut at = 0x200;
    for range in &stats.ranges {
        for s in range.start_sector..range.start_sector + range.num_sectors {
            let mut sector = writer.data[at..at + 0x8000].to_vec();
            decrypt_sector(&htk, s, &mut sector);
            if s >= 0x24 {
                let to = (s as usize - 0x24) * 0x7C00;
                data[to..to + 0x7C00].copy_from_slice(&sector[0x400..]);
            }
            at += 0x8000;
        }
    }
    assert_eq!(&data[0x3000..0x3000 + file.len()], &file[..]);
    assert_eq!(&data[0x1180..0x1187], &HALF_VFILTER_REPLACEMENT);
}

#[test]
fn the_first_fault_of_a_disc_is_the_one_reported() {
    let source = SourceDisc::open(facts(2)).unwrap();
    let patches = VideoPatches { half_vfilter: true, ..Default::default() };
    let fault = |disc: Vec<u8>, part: Vec<u8>, table: Option<Vec<u8>>, fst: Vec<u8>| {
        plan_disc(
            &source,
            &mut memory(disc),
            &mut memory(part),
            table,
            &fst,
            &patches,
            true,
            true,
        )
        .unwrap_err()
    };
    let part = partition_data();
    let disc = disc_data(&part);
    let table = Some(vec![0u8; 0x18000]);
    let past = fst_of(&[(0, 3 * GB)]);
    // `main.dol` comes first.
    let mut large = part.clone();
    large[0x1000 + 0x90..0x1000 + 0x94].copy_from_slice(&u32::MAX.to_be_bytes());
    assert!(matches!(
        fault(Vec::new(), large, None, past.clone()),
        Error::UnsupportedDisc(DiscFault::DolSection { .. })
    ));
    // Then the header of the partition, its H3 table, the touched groups and the files.
    assert!(matches!(fault(Vec::new(), part.clone(), None, past.clone()), Error::Io(_)));
    assert!(matches!(
        fault(disc[..0x24 * 0x8000].to_vec(), part.clone(), None, past.clone()),
        Error::UnsupportedDisc(DiscFault::NoH3Table(_))
    ));
    assert!(matches!(
        fault(disc[..0x24 * 0x8000].to_vec(), part.clone(), table.clone(), past.clone()),
        Error::Io(_)
    ));
    assert!(matches!(
        fault(disc, part, table, past),
        Error::UnsupportedDisc(DiscFault::ExtentPastEnd { .. })
    ));
}

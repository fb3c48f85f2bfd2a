//! The Wii partition hash tree.

use sha1::{Digest, Sha1};
use wiivci_core::consts::{HASH_BLOCK, SECTORS_PER_GROUP};
use wiivci_core::disc_patch::{apply_edits_to_group, partition_table_patches, recompute_group};

const SECTOR: usize = 0x8000;
const SUBBLOCK: usize = 0x400;
const N_SUBBLOCKS: usize = 31;
const SECTORS_PER_SUBGROUP: usize = 8;
const H0_REGION: usize = N_SUBBLOCKS * 20;
const H1_OFF: usize = 0x280;
const H1_REGION: usize = 8 * 20;
const H2_OFF: usize = 0x340;
const H2_REGION: usize = 8 * 20;

fn sha1(data: &[u8]) -> [u8; 20] {
    Sha1::digest(data).into()
}

/// Verification of the hash tree, sector by sector, as a reader does it.
fn verify_group(clusters: &[[u8; SECTOR]], h3_table_entry: &[u8; 20]) {
    for (part_sector, cluster) in clusters.iter().enumerate() {
        let sector = part_sector % SECTORS_PER_SUBGROUP;
        let sub_group = (part_sector / SECTORS_PER_SUBGROUP) % SECTORS_PER_SUBGROUP;

        for i in 0..N_SUBBLOCKS {
            let expected = &cluster[i * 20..i * 20 + 20];
            let got = sha1(&cluster[(i + 1) * SUBBLOCK..(i + 2) * SUBBLOCK]);
            assert_eq!(expected, got, "H0 mismatch sector {part_sector} block {i}");
        }
        let h1 = sha1(&cluster[..H0_REGION]);
        assert_eq!(
            &cluster[H1_OFF + sector * 20..H1_OFF + sector * 20 + 20],
            h1
        );
        let h2 = sha1(&cluster[H1_OFF..H1_OFF + H1_REGION]);
        assert_eq!(
            &cluster[H2_OFF + sub_group * 20..H2_OFF + sub_group * 20 + 20],
            h2
        );
    }
    let h3 = sha1(&clusters[0][H2_OFF..H2_OFF + H2_REGION]);
    assert_eq!(&h3, h3_table_entry, "H3 mismatch");
}

fn sample_group() -> Vec<[u8; SECTOR]> {
    let mut clusters = vec![[0u8; SECTOR]; SECTORS_PER_GROUP];
    // Deterministic pseudo-data in the data region of each cluster.
    for (c, cluster) in clusters.iter_mut().enumerate() {
        for (idx, byte) in cluster[HASH_BLOCK..].iter_mut().enumerate() {
            let j = HASH_BLOCK + idx;
            *byte = ((c * 7 + j * 3) & 0xFF) as u8;
        }
    }
    clusters
}

#[test]
fn recompute_produces_self_consistent_tree() {
    let mut clusters = sample_group();
    let h3 = recompute_group(&mut clusters);
    verify_group(&clusters, &h3);
}

#[test]
fn h1_and_h2_tables_are_replicated_across_the_subgroup_and_group() {
    let mut clusters = sample_group();
    recompute_group(&mut clusters);
    // H1 table identical within each subgroup.
    for sg in 0..8 {
        let first = clusters[sg * 8][H1_OFF..H1_OFF + H1_REGION].to_vec();
        for s in 1..8 {
            assert_eq!(
                &clusters[sg * 8 + s][H1_OFF..H1_OFF + H1_REGION],
                first.as_slice()
            );
        }
    }
    // H2 table identical across the whole group.
    let h2 = clusters[0][H2_OFF..H2_OFF + H2_REGION].to_vec();
    for cluster in clusters.iter().skip(1) {
        assert_eq!(&cluster[H2_OFF..H2_OFF + H2_REGION], h2.as_slice());
    }
}

#[test]
fn a_single_data_byte_change_propagates_to_h3() {
    let mut a = sample_group();
    let h3a = recompute_group(&mut a);
    let mut b = sample_group();
    b[20][HASH_BLOCK + 1234] ^= 0xFF; // flip a byte in cluster 20's data
    let h3b = recompute_group(&mut b);
    assert_ne!(h3a, h3b, "changing data must change the group's H3");
    verify_group(&b, &h3b);
}

#[test]
fn rebuilding_leaves_the_data_alone() {
    let before = sample_group();
    let mut after = sample_group();
    recompute_group(&mut after);
    for (a, b) in before.iter().zip(&after) {
        assert_eq!(&a[HASH_BLOCK..], &b[HASH_BLOCK..]);
    }
    // Rebuilding a rebuilt group changes nothing.
    let mut again = after.clone();
    recompute_group(&mut again);
    assert!(again == after);
}

#[test]
fn edits_fall_into_their_own_group_only() {
    let mut clusters = vec![[0u8; SECTOR]; SECTORS_PER_GROUP];
    let group = 64 * 0x7C00u64;
    // The second byte of cluster 3 of group 1, then an edit that runs over from group 0.
    let edits = vec![
        (group + 3 * 0x7C00 + 1, vec![9u8]),
        (group - 2, vec![1u8, 2, 3, 4]),
    ];
    apply_edits_to_group(&mut clusters, 1, &edits);
    assert_eq!(clusters[3][HASH_BLOCK + 1], 9);
    assert_eq!(&clusters[0][HASH_BLOCK..HASH_BLOCK + 3], &[3, 4, 0]);
    assert!(clusters[63].iter().all(|&b| b == 0));

    let mut first = vec![[0u8; SECTOR]; SECTORS_PER_GROUP];
    apply_edits_to_group(&mut first, 0, &edits);
    assert_eq!(&first[63][SECTOR - 2..], &[1, 2]);
    assert!(first[0].iter().all(|&b| b == 0));
}

#[test]
fn the_partition_table_keeps_the_data_partition_alone() {
    let patches = partition_table_patches(0xF80_0000);
    let mut table = vec![0xEEu8; 0x1_0000];
    for (off, bytes) in &patches {
        let at = (*off - 0x4_0000) as usize;
        table[at..at + bytes.len()].copy_from_slice(bytes);
    }
    assert_eq!(&table[0..4], &[0, 0, 0, 1], "one partition");
    assert_eq!(&table[4..8], &[0, 1, 0, 8], "the table follows, its offset in words");
    assert_eq!(&table[0x20..0x24], &[0x03, 0xE0, 0, 0], "offset in words");
    assert_eq!(&table[0x24..0x28], &[0, 0, 0, 0], "a data partition");
    assert_eq!(&table[0xE010..0xE020], &[0u8; 16], "no age ratings");
    assert_eq!(table[0xE020], 0xEE);
}

#[test]
fn the_tree_depends_on_the_data_alone() {
    let mut plain = sample_group();
    let mut dirty = sample_group();
    for cluster in dirty.iter_mut() {
        cluster[..HASH_BLOCK].fill(0xEE);
    }
    let h3 = recompute_group(&mut plain);
    assert_eq!(recompute_group(&mut dirty), h3);
    for (a, b) in plain.iter().zip(&dirty) {
        assert_eq!(&a[..H0_REGION], &b[..H0_REGION]);
        assert_eq!(&a[H1_OFF..H1_OFF + H1_REGION], &b[H1_OFF..H1_OFF + H1_REGION]);
        assert_eq!(&a[H2_OFF..H2_OFF + H2_REGION], &b[H2_OFF..H2_OFF + H2_REGION]);
        // What lies between the tables stays.
        assert_eq!(&b[0x26C..0x280], &[0xEE; 0x14]);
        assert_eq!(&b[0x320..0x340], &[0xEE; 0x20]);
        assert_eq!(&b[0x3E0..0x400], &[0xEE; 0x20]);
    }
    let before = dirty.clone();
    assert_eq!(recompute_group(&mut dirty), h3);
    assert!(dirty == before);
}

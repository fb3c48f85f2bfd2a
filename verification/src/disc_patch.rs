//! Rebuilding the Wii partition hash tree, and planning the rebuild of a disc.
//!
//! Each 0x8000 cluster is a 0x400 hash block followed by 0x7C00 bytes of data, which are 31
//! sub-blocks of 0x400. The hash block holds `H0`, the hashes of the cluster's sub-blocks; at
//! 0x280 the `H1` table of its subgroup of 8 clusters, the hashes of their `H0` regions; and at
//! 0x340 the `H2` table of its group of 64, the hashes of the subgroups' `H1` regions. `H3` is
//! the hash of the group's `H2` region. The `H3` values form the partition's H3 table, whose
//! hash is the content hash in the partition's TMD.

use vstd::prelude::*;

use crate::consts::{CLUSTER_DATA, HASH_BLOCK, SECTORS_PER_GROUP, TMD_CONTENT0_HASH, WII_SIG_START};
use crate::digest::{sha1, sha1_of};
use crate::error::{DiscFault, Error, Result};
use crate::input::{
    dol_at, dol_data, dol_failed, dol_present, dol_size, fst_files, group_count, groups_decided,
    groups_failed, nodes_held, touches, MainDol, PartitionSpan, ReadSeek, SourceDisc,
};
use crate::text::text_equal;
use crate::util::{
    append_bytes, append_zeros, be32, be32_at, copy_range, lemma_be32_bytes, push_be32, read_be32,
    spliced, write_at, zero_bytes, zeros,
};
use crate::video::{
    dol_edits, edit_inside, edit_views, find_dol_edits, law_edits_stay_inside,
    law_patches_are_made_independently, DolEdit, EditView, VideoPatches,
};

verus! {

/// A cluster: its hash block and its data.
pub type Cluster = [u8; 0x8000];

/// `H0` of a cluster: the hashes of its 31 sub-blocks.
pub open spec fn h0_of(c: Seq<u8>) -> Seq<u8> {
    Seq::new(
        0x26C,
        |i: int| sha1_of(c.subrange((i / 20 + 1) * 0x400, (i / 20 + 2) * 0x400))[i % 20],
    )
}

/// `H1` of subgroup `sg`: the hashes of its clusters' `H0` regions.
pub open spec fn h1_of(cs: Seq<Seq<u8>>, sg: int) -> Seq<u8> {
    Seq::new(0xA0, |i: int| sha1_of(h0_of(cs[sg * 8 + i / 20]))[i % 20])
}

/// `H2` of a group: the hashes of its subgroups' `H1` regions.
pub open spec fn h2_of(cs: Seq<Seq<u8>>) -> Seq<u8> {
    Seq::new(0xA0, |i: int| sha1_of(h1_of(cs, i / 20))[i % 20])
}

/// `H3` of a group: the hash of its `H2` region.
pub open spec fn h3_of(cs: Seq<Seq<u8>>) -> Seq<u8> {
    sha1_of(h2_of(cs))
}

/// Cluster `k` of a group with its three tables filled in.
pub open spec fn rebuilt_cluster(cs: Seq<Seq<u8>>, k: int) -> Seq<u8> {
    spliced(
        spliced(spliced(cs[k], 0, h0_of(cs[k])), 0x280, h1_of(cs, k / 8)),
        0x340,
        h2_of(cs),
    )
}

/// A group with its hash tree rebuilt.
pub open spec fn rebuilt(cs: Seq<Seq<u8>>) -> Seq<Seq<u8>> {
    Seq::new(cs.len(), |k: int| rebuilt_cluster(cs, k))
}

/// The views of a list of clusters.
pub open spec fn cluster_views(cs: Seq<Cluster>) -> Seq<Seq<u8>> {
    Seq::new(cs.len(), |k: int| cs[k]@)
}

/// Sub-block `i` of a cluster's data.
pub open spec fn sub_block(c: Seq<u8>, i: int) -> Seq<u8> {
    c.subrange((i + 1) * 0x400, (i + 2) * 0x400)
}

/// Entry `i` of a cluster's `H0` table.
pub open spec fn h0_entry(c: Seq<u8>, i: int) -> Seq<u8> {
    c.subrange(i * 20, i * 20 + 20)
}

/// Entry `s` of a cluster's `H1` table.
pub open spec fn h1_entry(c: Seq<u8>, s: int) -> Seq<u8> {
    c.subrange(0x280 + s * 20, 0x280 + s * 20 + 20)
}

/// Entry `sg` of a cluster's `H2` table.
pub open spec fn h2_entry(c: Seq<u8>, sg: int) -> Seq<u8> {
    c.subrange(0x340 + sg * 20, 0x340 + sg * 20 + 20)
}

/// Whether the tables of cluster `k` of a group hold what they stand for: every entry is the
/// whole hash of what it covers, a sub-block, a cluster's `H0` region or a subgroup's `H1` region.
pub open spec fn tables_hold(cs: Seq<Seq<u8>>, k: int) -> bool {
    &&& forall|i: int| 0 <= i < 31 ==> #[trigger] h0_entry(cs[k], i) == sha1_of(sub_block(cs[k], i))
    &&& forall|s: int|
        0 <= s < 8 ==> #[trigger] h1_entry(cs[k], s) == sha1_of(
            cs[k / 8 * 8 + s].subrange(0, 0x26C),
        )
    &&& forall|sg: int|
        0 <= sg < 8 ==> #[trigger] h2_entry(cs[k], sg) == sha1_of(
            cs[sg * 8].subrange(0x280, 0x320),
        )
}

/// Whether the hash tree of a group holds, as a reader checks it: the tables of every cluster do,
/// and `h3` is the hash of their `H2` region.
pub open spec fn tree_holds(cs: Seq<Seq<u8>>, h3: Seq<u8>) -> bool {
    forall|k: int|
        0 <= k < 64 ==> #[trigger] tables_hold(cs, k) && h3 == sha1_of(cs[k].subrange(0x340, 0x3E0))
}

/// Whether the hashes of a cluster's sub-blocks have their twenty bytes.
spec fn h0_whole(c: Seq<u8>) -> bool {
    forall|i: int| 0 <= i < 31 ==> sha1_of(#[trigger] sub_block(c, i)).len() == 20
}

/// Whether the hash of a cluster's `H0` region has its twenty bytes.
spec fn h1_whole(c: Seq<u8>) -> bool {
    sha1_of(h0_of(c)).len() == 20
}

/// Overwrite `cluster` at `at` with `data`.
fn put(cluster: &mut Cluster, at: usize, data: &[u8])
    requires
        at + data@.len() <= 0x8000,
    ensures
        final(cluster)@ == spliced(old(cluster)@, at as int, data@),
{
    let ghost before = cluster@;
    let mut i: usize = 0;
    while i < data.len()
        invariant
            i <= data@.len(),
            at + data@.len() <= 0x8000,
            before.len() == 0x8000,
            forall|j: int|
                0 <= j < 0x8000 ==> cluster@[j] == if at <= j < at + i {
                    data@[j - at]
                } else {
                    before[j]
                },
        decreases data@.len() - i,
    {
        cluster[at + i] = data[i];
        i += 1;
    }
    assert(cluster@ =~= spliced(before, at as int, data@));
}

/// `H0` of a cluster.
fn h0_table(cluster: &Cluster) -> (out: Vec<u8>)
    ensures
        out@ == h0_of(cluster@),
        h0_whole(cluster@),
{
    let mut out: Vec<u8> = Vec::with_capacity(0x26C);
    let ghost whole = h0_of(cluster@);
    let mut i: usize = 0;
    while i < 31
        invariant
            i <= 31,
            whole == h0_of(cluster@),
            forall|j: int| 0 <= j < i ==> sha1_of(#[trigger] sub_block(cluster@, j)).len() == 20,
            out@ == whole.subrange(0, i * 20),
        decreases 31 - i,
    {
        let block = vstd::slice::slice_subrange(cluster.as_slice(), (i + 1) * 0x400, (i + 2) * 0x400);
        let hash: [u8; 20] = sha1(block);
        assert(hash@ == sha1_of(sub_block(cluster@, i as int)));
        append_bytes(&mut out, hash.as_slice());
        assert(out@ =~= whole.subrange(0, (i + 1) * 20)) by {
            assert forall|j: int| i * 20 <= j < (i + 1) * 20 implies out@[j] == whole[j] by {
                assert(j / 20 == i && j % 20 == j - i * 20);
            }
        }
        i += 1;
    }
    assert(out@ =~= whole);
    out
}

/// `H1` of subgroup `sg`, given the `H0` tables of the whole group.
fn h1_table(h0s: &Vec<Vec<u8>>, Ghost(cs): Ghost<Seq<Seq<u8>>>, sg: usize) -> (out: Vec<u8>)
    requires
        sg < 8,
        cs.len() == 64,
        h0s@.len() == 64,
        forall|k: int| 0 <= k < 64 ==> (#[trigger] h0s@[k])@ == h0_of(cs[k]),
    ensures
        out@ == h1_of(cs, sg as int),
        forall|k: int| sg * 8 <= k < sg * 8 + 8 ==> h1_whole(#[trigger] cs[k]),
{
    let mut out: Vec<u8> = Vec::with_capacity(0xA0);
    let ghost whole = h1_of(cs, sg as int);
    let mut s: usize = 0;
    while s < 8
        invariant
            s <= 8,
            sg < 8,
            cs.len() == 64,
            h0s@.len() == 64,
            forall|k: int| 0 <= k < 64 ==> (#[trigger] h0s@[k])@ == h0_of(cs[k]),
            whole == h1_of(cs, sg as int),
            forall|k: int| sg * 8 <= k < sg * 8 + s ==> h1_whole(#[trigger] cs[k]),
            out@ == whole.subrange(0, s * 20),
        decreases 8 - s,
    {
        let hash: [u8; 20] = sha1(h0s[sg * 8 + s].as_slice());
        append_bytes(&mut out, hash.as_slice());
        assert(out@ =~= whole.subrange(0, (s + 1) * 20)) by {
            assert forall|j: int| s * 20 <= j < (s + 1) * 20 implies out@[j] == whole[j] by {
                assert(j / 20 == s && j % 20 == j - s * 20);
            }
        }
        s += 1;
    }
    assert(out@ =~= whole);
    out
}

/// Rebuild the hash blocks of a group of 64 clusters in place; the result is its `H3`. Clusters
/// past the end of the partition are passed as zeros.
pub fn recompute_group(clusters: &mut Vec<Cluster>) -> (h3: [u8; 20])
    requires
        old(clusters)@.len() == SECTORS_PER_GROUP,
    ensures
        cluster_views(final(clusters)@) == rebuilt(cluster_views(old(clusters)@)),
        h3@ == h3_of(cluster_views(old(clusters)@)),
        tree_holds(cluster_views(final(clusters)@), h3@),
{
    let ghost cs = cluster_views(clusters@);
    let mut h0s: Vec<Vec<u8>> = Vec::with_capacity(64);
    let mut k: usize = 0;
    while k < 64
        invariant
            k <= 64,
            clusters@.len() == 64,
            cs == cluster_views(clusters@),
            h0s@.len() == k,
            forall|j: int| 0 <= j < k ==> (#[trigger] h0s@[j])@ == h0_of(cs[j]),
            forall|j: int| 0 <= j < k ==> h0_whole(#[trigger] cs[j]),
        decreases 64 - k,
    {
        assert(cs[k as int] == clusters@[k as int]@);
        h0s.push(h0_table(&clusters[k]));
        k += 1;
    }
    let mut h1s: Vec<Vec<u8>> = Vec::with_capacity(8);
    let mut h2: Vec<u8> = Vec::with_capacity(0xA0);
    let ghost whole = h2_of(cs);
    let mut sg: usize = 0;
    while sg < 8
        invariant
            sg <= 8,
            cs.len() == 64,
            h0s@.len() == 64,
            forall|j: int| 0 <= j < 64 ==> (#[trigger] h0s@[j])@ == h0_of(cs[j]),
            h1s@.len() == sg,
            forall|j: int| 0 <= j < sg ==> (#[trigger] h1s@[j])@ == h1_of(cs, j),
            whole == h2_of(cs),
            forall|j: int| 0 <= j < sg * 8 ==> h1_whole(#[trigger] cs[j]),
            forall|j: int| 0 <= j < sg ==> sha1_of(#[trigger] h1_of(cs, j)).len() == 20,
            h2@ == whole.subrange(0, sg * 20),
        decreases 8 - sg,
    {
        let table: Vec<u8> = h1_table(&h0s, Ghost(cs), sg);
        let hash: [u8; 20] = sha1(table.as_slice());
        append_bytes(&mut h2, hash.as_slice());
        assert(h2@ =~= whole.subrange(0, (sg + 1) * 20)) by {
            assert forall|j: int| sg * 20 <= j < (sg + 1) * 20 implies h2@[j] == whole[j] by {
                assert(j / 20 == sg && j % 20 == j - sg * 20);
            }
        }
        h1s.push(table);
        sg += 1;
    }
    assert(h2@ =~= whole);
    let ghost start = clusters@;
    let mut c: usize = 0;
    while c < 64
        invariant
            c <= 64,
            cs == cluster_views(start),
            cs.len() == 64,
            clusters@.len() == 64,
            h0s@.len() == 64,
            forall|j: int| 0 <= j < 64 ==> (#[trigger] h0s@[j])@ == h0_of(cs[j]),
            h1s@.len() == 8,
            forall|j: int| 0 <= j < 8 ==> (#[trigger] h1s@[j])@ == h1_of(cs, j),
            h2@ == h2_of(cs),
            forall|j: int| 0 <= j < c ==> (#[trigger] clusters@[j])@ == rebuilt_cluster(cs, j),
            forall|j: int| c <= j < 64 ==> clusters@[j] == start[j],
        decreases 64 - c,
    {
        assert(cs[c as int] == start[c as int]@);
        let cluster = &mut clusters[c];
        put(cluster, 0, h0s[c].as_slice());
        put(cluster, 0x280, h1s[c / 8].as_slice());
        put(cluster, 0x340, h2.as_slice());
        c += 1;
    }
    assert(cluster_views(clusters@) =~= rebuilt(cs));
    proof {
        assert forall|j: int| 0 <= j < 64 implies (#[trigger] cs[j]).len() == 0x8000 by {
            assert(cs[j] == start[j]@);
        }
        lemma_tree_holds(cs);
    }
    sha1(h2.as_slice())
}

/// The hash tree of a rebuilt group is consistent, as a reader checks it: every sub-block, `H0`
/// region and `H1` region hashes to its entry in the next table up, and the `H2` region hashes
/// to the group's `H3`. The data itself is untouched.
pub proof fn law_rebuilt_group_verifies(cs: Seq<Seq<u8>>, k: int)
    requires
        cs.len() == 64,
        forall|j: int| 0 <= j < 64 ==> (#[trigger] cs[j]).len() == 0x8000,
        0 <= k < 64,
    ensures
        ({
            let c = rebuilt(cs)[k];
            &&& c.len() == 0x8000
            &&& c.subrange(0x400, 0x8000) == cs[k].subrange(0x400, 0x8000)
            &&& c.subrange(0, 0x26C) == h0_of(c)
            &&& c.subrange(0x280, 0x320) == h1_of(rebuilt(cs), k / 8)
            &&& c.subrange(0x340, 0x3E0) == h2_of(rebuilt(cs))
            &&& h3_of(rebuilt(cs)) == h3_of(cs)
        }),
{
    let after = rebuilt(cs);
    assert forall|j: int| 0 <= j < 64 implies (#[trigger] after[j]).len() == 0x8000
        && after[j].subrange(0x400, 0x8000) == cs[j].subrange(0x400, 0x8000) && h0_of(after[j])
        == h0_of(cs[j]) by {
        lemma_rebuilt_cluster(cs, j);
    }
    lemma_rebuilt_cluster(cs, k);
    assert forall|sg: int| 0 <= sg < 8 implies #[trigger] h1_of(after, sg) == h1_of(cs, sg) by {
        assert(h1_of(after, sg) =~= h1_of(cs, sg));
    }
    assert(h2_of(after) =~= h2_of(cs));
}

/// Where the hashes have their twenty bytes, the tables of a rebuilt group hold them whole.
proof fn lemma_tree_holds(cs: Seq<Seq<u8>>)
    requires
        cs.len() == 64,
        forall|j: int| 0 <= j < 64 ==> (#[trigger] cs[j]).len() == 0x8000,
        forall|j: int| 0 <= j < 64 ==> h0_whole(#[trigger] cs[j]),
        forall|j: int| 0 <= j < 64 ==> h1_whole(#[trigger] cs[j]),
        forall|j: int| 0 <= j < 8 ==> sha1_of(#[trigger] h1_of(cs, j)).len() == 20,
    ensures
        tree_holds(rebuilt(cs), h3_of(cs)),
{
    let after = rebuilt(cs);
    assert forall|k: int| 0 <= k < 64 implies #[trigger] tables_hold(after, k) && h3_of(cs)
        == sha1_of(after[k].subrange(0x340, 0x3E0)) by {
        let c = after[k];
        lemma_rebuilt_cluster(cs, k);
        assert forall|i: int| 0 <= i < 31 implies #[trigger] h0_entry(c, i) == sha1_of(
            sub_block(c, i),
        ) by {
            let data = c.subrange(0x400, 0x8000);
            assert(sub_block(c, i) =~= data.subrange(i * 0x400, (i + 1) * 0x400));
            assert(sub_block(cs[k], i) =~= data.subrange(i * 0x400, (i + 1) * 0x400));
            let table = c.subrange(0, 0x26C);
            assert forall|j: int| 0 <= j < 20 implies h0_entry(c, i)[j] == sha1_of(
                sub_block(c, i),
            )[j] by {
                assert(table[i * 20 + j] == h0_of(cs[k])[i * 20 + j]);
                assert((i * 20 + j) / 20 == i && (i * 20 + j) % 20 == j);
            }
            assert(h0_whole(cs[k]));
            assert(h0_entry(c, i) =~= sha1_of(sub_block(c, i)));
        }
        assert forall|s: int| 0 <= s < 8 implies #[trigger] h1_entry(c, s) == sha1_of(
            after[k / 8 * 8 + s].subrange(0, 0x26C),
        ) by {
            let m = k / 8 * 8 + s;
            lemma_rebuilt_cluster(cs, m);
            let table = c.subrange(0x280, 0x320);
            assert(h1_whole(cs[m]));
            assert forall|j: int| 0 <= j < 20 implies h1_entry(c, s)[j] == sha1_of(
                h0_of(cs[m]),
            )[j] by {
                assert(table[s * 20 + j] == h1_of(cs, k / 8)[s * 20 + j]);
                assert((s * 20 + j) / 20 == s && (s * 20 + j) % 20 == j);
            }
            assert(h1_entry(c, s) =~= sha1_of(h0_of(cs[m])));
        }
        assert forall|sg: int| 0 <= sg < 8 implies #[trigger] h2_entry(c, sg) == sha1_of(
            after[sg * 8].subrange(0x280, 0x320),
        ) by {
            lemma_rebuilt_cluster(cs, sg * 8);
            let table = c.subrange(0x340, 0x3E0);
            assert forall|j: int| 0 <= j < 20 implies h2_entry(c, sg)[j] == sha1_of(
                h1_of(cs, sg),
            )[j] by {
                assert(table[sg * 20 + j] == h2_of(cs)[sg * 20 + j]);
                assert((sg * 20 + j) / 20 == sg && (sg * 20 + j) % 20 == j);
            }
            assert(h2_entry(c, sg) =~= sha1_of(h1_of(cs, sg)));
        }
    }
}

/// Rebuilding a group changes its three tables alone: the data and the unused bytes of every hash
/// block stay.
pub proof fn law_rebuilding_changes_the_tables_alone(cs: Seq<Seq<u8>>, k: int)
    requires
        cs.len() == 64,
        forall|j: int| 0 <= j < 64 ==> (#[trigger] cs[j]).len() == 0x8000,
        0 <= k < 64,
    ensures
        ({
            let c = rebuilt(cs)[k];
            &&& c.len() == 0x8000
            &&& c.subrange(0x26C, 0x280) == cs[k].subrange(0x26C, 0x280)
            &&& c.subrange(0x320, 0x340) == cs[k].subrange(0x320, 0x340)
            &&& c.subrange(0x3E0, 0x400) == cs[k].subrange(0x3E0, 0x400)
            &&& c.subrange(0x400, 0x8000) == cs[k].subrange(0x400, 0x8000)
        }),
{
    let c = rebuilt(cs)[k];
    lemma_rebuilt_cluster(cs, k);
    assert(c.subrange(0x26C, 0x280) =~= cs[k].subrange(0x26C, 0x280));
    assert(c.subrange(0x320, 0x340) =~= cs[k].subrange(0x320, 0x340));
    assert(c.subrange(0x3E0, 0x400) =~= cs[k].subrange(0x3E0, 0x400));
}

/// The tables of a group depend on its data alone, whatever its hash blocks held: two groups of
/// the same data have the same `H0`, `H1`, `H2` and `H3`, and these stand in both once rebuilt.
pub proof fn law_tree_depends_on_the_data(a: Seq<Seq<u8>>, b: Seq<Seq<u8>>)
    requires
        a.len() == 64,
        b.len() == 64,
        forall|j: int| 0 <= j < 64 ==> (#[trigger] a[j]).len() == 0x8000,
        forall|j: int| 0 <= j < 64 ==> (#[trigger] b[j]).len() == 0x8000,
        forall|j: int|
            0 <= j < 64 ==> (#[trigger] a[j]).subrange(0x400, 0x8000) == b[j].subrange(
                0x400,
                0x8000,
            ),
    ensures
        h3_of(a) == h3_of(b),
        h2_of(a) == h2_of(b),
        forall|sg: int| 0 <= sg < 8 ==> #[trigger] h1_of(a, sg) == h1_of(b, sg),
        forall|k: int|
            0 <= k < 64 ==> {
                let x = #[trigger] rebuilt(a)[k];
                let y = rebuilt(b)[k];
                &&& x.subrange(0, 0x26C) == y.subrange(0, 0x26C)
                &&& x.subrange(0x280, 0x320) == y.subrange(0x280, 0x320)
                &&& x.subrange(0x340, 0x3E0) == y.subrange(0x340, 0x3E0)
            },
{
    assert forall|k: int| 0 <= k < 64 implies h0_of(#[trigger] a[k]) == h0_of(b[k]) by {
        lemma_h0_of_data(a[k], b[k]);
    }
    assert forall|sg: int| 0 <= sg < 8 implies #[trigger] h1_of(a, sg) == h1_of(b, sg) by {
        assert forall|i: int| 0 <= i < 0xA0 implies h1_of(a, sg)[i] == h1_of(b, sg)[i] by {
            assert(h0_of(a[sg * 8 + i / 20]) == h0_of(b[sg * 8 + i / 20]));
        }
        assert(h1_of(a, sg) =~= h1_of(b, sg));
    }
    assert(h2_of(a) =~= h2_of(b)) by {
        assert forall|i: int| 0 <= i < 0xA0 implies h2_of(a)[i] == h2_of(b)[i] by {
            assert(h1_of(a, i / 20) == h1_of(b, i / 20));
        }
    }
    assert forall|k: int| 0 <= k < 64 implies {
        let x = #[trigger] rebuilt(a)[k];
        let y = rebuilt(b)[k];
        &&& x.subrange(0, 0x26C) == y.subrange(0, 0x26C)
        &&& x.subrange(0x280, 0x320) == y.subrange(0x280, 0x320)
        &&& x.subrange(0x340, 0x3E0) == y.subrange(0x340, 0x3E0)
    } by {
        lemma_rebuilt_cluster(a, k);
        lemma_rebuilt_cluster(b, k);
        assert(h0_of(a[k]) == h0_of(b[k]));
        assert(h1_of(a, k / 8) == h1_of(b, k / 8));
    }
}

/// Rebuilding a group a second time changes nothing and gives the same `H3`.
pub proof fn law_rebuilding_twice_is_rebuilding_once(cs: Seq<Seq<u8>>)
    requires
        cs.len() == 64,
        forall|j: int| 0 <= j < 64 ==> (#[trigger] cs[j]).len() == 0x8000,
    ensures
        rebuilt(rebuilt(cs)) == rebuilt(cs),
        h3_of(rebuilt(cs)) == h3_of(cs),
{
    let once = rebuilt(cs);
    let twice = rebuilt(once);
    assert forall|j: int| 0 <= j < 64 implies (#[trigger] once[j]).len() == 0x8000
        && once[j].subrange(0x400, 0x8000) == cs[j].subrange(0x400, 0x8000) by {
        lemma_rebuilt_cluster(cs, j);
    }
    law_tree_depends_on_the_data(once, cs);
    assert forall|k: int| 0 <= k < 64 implies twice[k] == #[trigger] once[k] by {
        lemma_rebuilt_cluster(once, k);
        lemma_rebuilt_cluster(cs, k);
        law_rebuilding_changes_the_tables_alone(once, k);
        lemma_same_parts(twice[k], once[k]);
    }
    assert(twice =~= once);
}

/// Clusters of the same parts are the same.
proof fn lemma_same_parts(a: Seq<u8>, b: Seq<u8>)
    requires
        a.len() == 0x8000,
        b.len() == 0x8000,
        a.subrange(0, 0x26C) == b.subrange(0, 0x26C),
        a.subrange(0x26C, 0x280) == b.subrange(0x26C, 0x280),
        a.subrange(0x280, 0x320) == b.subrange(0x280, 0x320),
        a.subrange(0x320, 0x340) == b.subrange(0x320, 0x340),
        a.subrange(0x340, 0x3E0) == b.subrange(0x340, 0x3E0),
        a.subrange(0x3E0, 0x400) == b.subrange(0x3E0, 0x400),
        a.subrange(0x400, 0x8000) == b.subrange(0x400, 0x8000),
    ensures
        a == b,
{
    let joined = |c: Seq<u8>|
        c.subrange(0, 0x26C) + c.subrange(0x26C, 0x280) + c.subrange(0x280, 0x320) + c.subrange(
            0x320,
            0x340,
        ) + c.subrange(0x340, 0x3E0) + c.subrange(0x3E0, 0x400) + c.subrange(0x400, 0x8000);
    assert(a =~= joined(a));
    assert(b =~= joined(b));
}

/// Clusters of the same data have the same `H0`.
proof fn lemma_h0_of_data(a: Seq<u8>, b: Seq<u8>)
    requires
        a.len() == 0x8000,
        b.len() == 0x8000,
        a.subrange(0x400, 0x8000) == b.subrange(0x400, 0x8000),
    ensures
        h0_of(a) == h0_of(b),
{
    let data = a.subrange(0x400, 0x8000);
    assert forall|i: int| 0 <= i < 0x26C implies h0_of(a)[i] == h0_of(b)[i] by {
        let n = i / 20;
        assert(sub_block(a, n) =~= data.subrange(n * 0x400, (n + 1) * 0x400));
        assert(sub_block(b, n) =~= data.subrange(n * 0x400, (n + 1) * 0x400));
    }
    assert(h0_of(a) =~= h0_of(b));
}

/// A rebuilt cluster keeps its data, and its tables stand where they belong.
proof fn lemma_rebuilt_cluster(cs: Seq<Seq<u8>>, k: int)
    requires
        cs.len() == 64,
        0 <= k < 64,
        cs[k].len() == 0x8000,
    ensures
        rebuilt_cluster(cs, k).len() == 0x8000,
        rebuilt_cluster(cs, k).subrange(0x400, 0x8000) == cs[k].subrange(0x400, 0x8000),
        rebuilt_cluster(cs, k).subrange(0, 0x26C) == h0_of(cs[k]),
        rebuilt_cluster(cs, k).subrange(0x280, 0x320) == h1_of(cs, k / 8),
        rebuilt_cluster(cs, k).subrange(0x340, 0x3E0) == h2_of(cs),
        h0_of(rebuilt_cluster(cs, k)) == h0_of(cs[k]),
{
    let c = cs[k];
    let r = rebuilt_cluster(cs, k);
    assert(r.subrange(0x400, 0x8000) =~= c.subrange(0x400, 0x8000));
    assert(r.subrange(0, 0x26C) =~= h0_of(c));
    assert(r.subrange(0x280, 0x320) =~= h1_of(cs, k / 8));
    assert(r.subrange(0x340, 0x3E0) =~= h2_of(cs));
    assert forall|i: int| 0 <= i < 31 implies r.subrange((i + 1) * 0x400, (i + 2) * 0x400)
        == #[trigger] c.subrange((i + 1) * 0x400, (i + 2) * 0x400) by {
        assert(r.subrange((i + 1) * 0x400, (i + 2) * 0x400) =~= r.subrange(0x400, 0x8000).subrange(
            i * 0x400,
            (i + 1) * 0x400,
        ));
        assert(c.subrange((i + 1) * 0x400, (i + 2) * 0x400) =~= c.subrange(0x400, 0x8000).subrange(
            i * 0x400,
            (i + 1) * 0x400,
        ));
    }
    assert forall|i: int| 0 <= i < 0x26C implies h0_of(r)[i] == h0_of(c)[i] by {
        assert(c.subrange((i / 20 + 1) * 0x400, (i / 20 + 2) * 0x400) == r.subrange(
            (i / 20 + 1) * 0x400,
            (i / 20 + 2) * 0x400,
        ));
    }
    assert(h0_of(r) =~= h0_of(c));
}

/// A byte at data offset `l` written into group `g`; one outside the group leaves it as it is.
pub open spec fn byte_put(cs: Seq<Seq<u8>>, g: u32, l: int, b: u8) -> Seq<Seq<u8>> {
    if l / 0x7C00 / 64 % 0x1_0000_0000 == g {
        let k = l / 0x7C00 % 64;
        cs.update(k, cs[k].update(0x400 + l % 0x7C00, b))
    } else {
        cs
    }
}

/// The first `m` bytes of an edit at data offset `off` written into group `g`.
pub open spec fn bytes_put(cs: Seq<Seq<u8>>, g: u32, off: int, bytes: Seq<u8>, m: int) -> Seq<
    Seq<u8>,
>
    decreases m,
{
    if m <= 0 {
        cs
    } else {
        byte_put(bytes_put(cs, g, off, bytes, m - 1), g, off + m - 1, bytes[m - 1])
    }
}

/// The first `n` edits written into group `g`.
pub open spec fn edited(cs: Seq<Seq<u8>>, g: u32, edits: Seq<(u64, Seq<u8>)>, n: int) -> Seq<
    Seq<u8>,
>
    decreases n,
{
    if n <= 0 {
        cs
    } else {
        bytes_put(
            edited(cs, g, edits, n - 1),
            g,
            edits[n - 1].0 as int,
            edits[n - 1].1,
            edits[n - 1].1.len() as int,
        )
    }
}

/// The views of a list of patches.
pub open spec fn patch_views(patches: Seq<(u64, Vec<u8>)>) -> Seq<(u64, Seq<u8>)> {
    Seq::new(patches.len(), |i: int| (patches[i].0, patches[i].1@))
}

/// Whether no patch reaches past the address space.
pub open spec fn patches_addressable(patches: Seq<(u64, Seq<u8>)>) -> bool {
    forall|i: int| 0 <= i < patches.len() ==> (#[trigger] patches[i]).0 + patches[i].1.len()
        <= u64::MAX
}

/// Write into a group's clusters what of the edits falls into it.
pub fn apply_edits_to_group(clusters: &mut Vec<Cluster>, g: u32, edits: &Vec<(u64, Vec<u8>)>)
    requires
        old(clusters)@.len() == SECTORS_PER_GROUP,
        patches_addressable(patch_views(edits@)),
    ensures
        cluster_views(final(clusters)@) == edited(
            cluster_views(old(clusters)@),
            g,
            patch_views(edits@),
            edits@.len() as int,
        ),
        final(clusters)@.len() == SECTORS_PER_GROUP,
{
    let ghost cs = cluster_views(clusters@);
    let ghost views = patch_views(edits@);
    let mut e: usize = 0;
    while e < edits.len()
        invariant
            e <= edits@.len(),
            views == patch_views(edits@),
            patches_addressable(views),
            clusters@.len() == 64,
            cluster_views(clusters@) == edited(cs, g, views, e as int),
        decreases edits@.len() - e,
    {
        let ghost before = cluster_views(clusters@);
        let off: u64 = edits[e].0;
        let bytes: &Vec<u8> = &edits[e].1;
        assert(views[e as int].0 == off && views[e as int].1 == bytes@);
        let mut i: usize = 0;
        while i < bytes.len()
            invariant
                i <= bytes@.len(),
                off + bytes@.len() <= u64::MAX,
                clusters@.len() == 64,
                cluster_views(clusters@) == bytes_put(before, g, off as int, bytes@, i as int),
            decreases bytes@.len() - i,
        {
            let ghost now = cluster_views(clusters@);
            let l: u64 = off + i as u64;
            let ps: u64 = l / CLUSTER_DATA as u64;
            if (ps / SECTORS_PER_GROUP as u64) % 0x1_0000_0000 == g as u64 {
                let k: usize = (ps % SECTORS_PER_GROUP as u64) as usize;
                let within: usize = (l % CLUSTER_DATA as u64) as usize;
                let cluster = &mut clusters[k];
                cluster[HASH_BLOCK + within] = bytes[i];
                assert(cluster_views(clusters@) =~= now.update(
                    k as int,
                    now[k as int].update(0x400 + within, bytes@[i as int]),
                ));
            }
            i += 1;
            assert(cluster_views(clusters@) == byte_put(now, g, l as int, bytes@[i - 1]));
        }
        e += 1;
    }
}

/// What is to be done with one partition.
#[derive(Debug)]
pub struct PartitionPlan {
    /// First sector of the partition.
    pub start_sector: u32,
    /// First sector of its data.
    pub data_start_sector: u32,
    /// One past the last sector of its data.
    pub data_end_sector: u32,
    /// What is written over the region before the data, by disc offset.
    pub header_patches: Vec<(u64, Vec<u8>)>,
    /// What is written over the data, by offset within it, the hash blocks left out.
    pub edits: Vec<(u64, Vec<u8>)>,
    /// Runs of hash groups to store; none means every group.
    pub stored_data_groups: Vec<(u32, u32)>,
}

/// What is to be done with a disc.
#[derive(Debug)]
pub struct DiscPlan {
    /// The partitions to store.
    pub partitions: Vec<PartitionPlan>,
    /// What is written over the sectors outside the partitions, by disc offset.
    pub disc_patches: Vec<(u64, Vec<u8>)>,
    /// The new content hash of `rvlt.tmd`; none where the partition's data is not edited.
    pub rvlt_content_hash: Option<[u8; 20]>,
    /// The names of the video patches that matched.
    pub applied: Vec<&'static str>,
}

/// The partition table that lists a single data partition at `base`, and cleared age ratings.
pub open spec fn table_patches_of(base: int) -> Seq<(u64, Seq<u8>)> {
    seq![
        (0x40000u64, be32(1) + be32(0x10008) + zeros(0x18)),
        (0x40020u64, be32((base / 4 % 0x1_0000_0000) as u32) + zeros(0x1C)),
        (0x4E010u64, zeros(0x10)),
    ]
}

/// Rewrite the partition table to list a single data partition at `data_part_off`. A retail disc
/// also has an update partition; the console hangs at boot where it is listed.
pub fn partition_table_patches(data_part_off: u64) -> (r: Vec<(u64, Vec<u8>)>)
    ensures
        patch_views(r@) == table_patches_of(data_part_off as int),
{
    let mut groups: Vec<u8> = Vec::new();
    push_be32(&mut groups, 1);
    push_be32(&mut groups, 0x10008);
    append_zeros(&mut groups, 0x18);
    let mut info: Vec<u8> = Vec::new();
    push_be32(&mut info, (data_part_off / 4 % 0x1_0000_0000) as u32);
    append_zeros(&mut info, 0x1C);
    let mut r: Vec<(u64, Vec<u8>)> = Vec::new();
    r.push((0x40000, groups));
    r.push((0x40020, info));
    r.push((0x4E010, zero_bytes(0x10)));
    assert(r@[0].1@ =~= be32(1) + be32(0x10008) + zeros(0x18));
    assert(r@[1].1@ =~= be32((data_part_off as int / 4 % 0x1_0000_0000) as u32) + zeros(0x1C));
    assert(patch_views(r@) =~= table_patches_of(data_part_off as int));
    r
}

/// Cluster `k` of group `g` as the disc holds it; past the data's end it is zero.
pub open spec fn raw_cluster(disc: Seq<u8>, span: PartitionSpan, g: int, k: int) -> Seq<u8> {
    let ps = g * 64 + k;
    let at = (span.data_start_sector + ps) * 0x8000;
    if ps < span.data_end_sector - span.data_start_sector {
        disc.subrange(at, at + 0x8000)
    } else {
        zeros(0x8000)
    }
}

/// Group `g` as the disc holds it.
pub open spec fn raw_group(disc: Seq<u8>, span: PartitionSpan, g: int) -> Seq<Seq<u8>> {
    Seq::new(64, |k: int| raw_cluster(disc, span, g, k))
}

/// Whether one of the edits touches group `g`.
pub open spec fn group_touched(edits: Seq<(u64, Seq<u8>)>, g: int) -> bool {
    exists|i: int|
        0 <= i < edits.len() && touches(
            ((#[trigger] edits[i]).0, edits[i].1.len() as u64),
            g,
        )
}

/// The `H3` of group `g` once the edits are in place.
pub open spec fn edited_h3(
    disc: Seq<u8>,
    span: PartitionSpan,
    edits: Seq<(u64, Seq<u8>)>,
    g: int,
) -> Seq<u8> {
    h3_of(edited(raw_group(disc, span, g), g as u32, edits, edits.len() as int))
}

/// The H3 table with the entries of the touched groups renewed.
pub open spec fn renewed_h3_table(
    table: Seq<u8>,
    disc: Seq<u8>,
    span: PartitionSpan,
    edits: Seq<(u64, Seq<u8>)>,
) -> Seq<u8> {
    Seq::new(
        table.len(),
        |i: int|
            if group_touched(edits, i / 20) {
                edited_h3(disc, span, edits, i / 20)[i % 20]
            } else {
                table[i]
            },
    )
}

/// Whether the clusters of every touched group can be read.
pub open spec fn touched_readable(
    disc: Seq<u8>,
    span: PartitionSpan,
    edits: Seq<(u64, Seq<u8>)>,
) -> bool {
    forall|g: int| 0 <= g && #[trigger] group_touched(edits, g) ==> group_readable(disc, span, g)
}

/// Whether the clusters of group `g` that lie inside the partition's data can be read.
pub open spec fn group_readable(disc: Seq<u8>, span: PartitionSpan, g: int) -> bool {
    forall|k: int|
        0 <= k < 64 && #[trigger] in_region(span, g, k) ==> (span.data_start_sector + g * 64 + k + 1)
            * 0x8000 <= disc.len()
}

/// Whether cluster `k` of group `g` lies inside the partition's data.
pub open spec fn in_region(span: PartitionSpan, g: int, k: int) -> bool {
    g * 64 + k < span.data_end_sector - span.data_start_sector
}

/// A cluster of the given bytes.
pub fn cluster_of(data: &[u8]) -> (c: Cluster)
    requires
        data@.len() == 0x8000,
    ensures
        c@ == data@,
{
    let mut c: Cluster = [0u8; 0x8000];
    put(&mut c, 0, data);
    assert(c@ =~= data@);
    c
}

/// Read group `g` as the disc holds it.
fn read_raw_group<D: ReadSeek>(disc: &mut D, span: PartitionSpan, g: u32) -> (r: Result<Vec<Cluster>>)
    requires
        span.data_start_sector <= span.data_end_sector,
    ensures
        final(disc).bytes() == old(disc).bytes(),
        final(disc).dependable() == old(disc).dependable(),
        match r {
            Ok(clusters) => {
                &&& clusters@.len() == 64
                &&& cluster_views(clusters@) == raw_group(old(disc).bytes(), span, g as int)
                &&& group_readable(old(disc).bytes(), span, g as int)
            },
            Err(e) => e is Io && !(old(disc).dependable() && group_readable(
                old(disc).bytes(),
                span,
                g as int,
            )),
        },
{
    let ghost bytes = disc.bytes();
    let total: u64 = (span.data_end_sector - span.data_start_sector) as u64;
    let mut clusters: Vec<Cluster> = Vec::with_capacity(64);
    let mut k: usize = 0;
    while k < 64
        invariant
            k <= 64,
            bytes == old(disc).bytes(),
            disc.bytes() == bytes,
            disc.dependable() == old(disc).dependable(),
            total == span.data_end_sector - span.data_start_sector,
            clusters@.len() == k,
            forall|j: int|
                0 <= j < k ==> (#[trigger] clusters@[j])@ == raw_cluster(bytes, span, g as int, j),
            forall|j: int|
                0 <= j < k && #[trigger] in_region(span, g as int, j) ==> (span.data_start_sector
                    + g * 64 + j + 1) * 0x8000 <= bytes.len(),
        decreases 64 - k,
    {
        let ps: u64 = g as u64 * 64 + k as u64;
        if ps < total {
            let at: u64 = (span.data_start_sector as u64 + ps) * 0x8000;
            match disc.read_at(at, 0x8000) {
                Ok(data) => clusters.push(cluster_of(data.as_slice())),
                Err(e) => {
                    assert(in_region(span, g as int, k as int));
                    return Err(e);
                },
            }
        } else {
            let zero: Cluster = [0u8; 0x8000];
            assert(zero@ =~= zeros(0x8000));
            clusters.push(zero);
        }
        k += 1;
    }
    assert(cluster_views(clusters@) =~= raw_group(bytes, span, g as int));
    Ok(clusters)
}

/// Whether one of the edits touches group `g`.
fn is_touched(edits: &Vec<(u64, Vec<u8>)>, g: u64) -> (r: bool)
    requires
        patches_addressable(patch_views(edits@)),
    ensures
        r == group_touched(patch_views(edits@), g as int),
{
    let ghost views = patch_views(edits@);
    let mut i: usize = 0;
    while i < edits.len()
        invariant
            i <= edits@.len(),
            views == patch_views(edits@),
            patches_addressable(views),
            forall|j: int|
                0 <= j < i ==> !touches(
                    ((#[trigger] views[j]).0, views[j].1.len() as u64),
                    g as int,
                ),
        decreases edits@.len() - i,
    {
        let off: u64 = edits[i].0;
        let len: u64 = edits[i].1.len() as u64;
        assert(views[i as int].0 == off && views[i as int].1.len() == len);
        if len > 0 && off / 0x1F_0000 <= g && g <= (off + len - 1) / 0x1F_0000 {
            assert(touches((views[i as int].0, views[i as int].1.len() as u64), g as int));
            return true;
        }
        i += 1;
    }
    false
}

/// Whether every edit lies inside the partition's data.
pub open spec fn edits_inside(edits: Seq<(u64, Seq<u8>)>, data_size: int) -> bool {
    forall|i: int| 0 <= i < edits.len() ==> (#[trigger] edits[i]).0 + edits[i].1.len() <= data_size
}

/// Whether an H3 table of `len` bytes has an entry for every group that an edit touches.
pub open spec fn touched_listed(edits: Seq<(u64, Seq<u8>)>, len: int) -> bool {
    forall|g: int| 0 <= g && #[trigger] group_touched(edits, g) ==> 20 * (g + 1) <= len
}

/// Renew the H3 table's entries of the groups that the edits touch.
fn renew_h3_table<D: ReadSeek>(
    disc: &mut D,
    span: PartitionSpan,
    edits: &Vec<(u64, Vec<u8>)>,
    table: Vec<u8>,
) -> (r: Result<Vec<u8>>)
    requires
        span.data_start_sector <= span.data_end_sector,
        touched_listed(patch_views(edits@), table@.len() as int),
        edits_inside(
            patch_views(edits@),
            (span.data_end_sector - span.data_start_sector) * 0x7C00,
        ),
    ensures
        final(disc).bytes() == old(disc).bytes(),
        final(disc).dependable() == old(disc).dependable(),
        match r {
            Ok(renewed) => touched_readable(old(disc).bytes(), span, patch_views(edits@))
                && renewed@ == renewed_h3_table(
                table@,
                old(disc).bytes(),
                span,
                patch_views(edits@),
            ),
            Err(e) => e is Io && !(old(disc).dependable() && touched_readable(
                old(disc).bytes(),
                span,
                patch_views(edits@),
            )),
        },
{
    let ghost bytes = disc.bytes();
    let ghost views = patch_views(edits@);
    let ghost start = table@;
    let ghost done = renewed_h3_table(start, bytes, span, views);
    let total: u64 = (span.data_end_sector - span.data_start_sector) as u64;
    let count: u64 = (total + 63) / 64;
    let mut table: Vec<u8> = table;
    let mut g: u64 = 0;
    while g < count
        invariant
            g <= count,
            count == group_count(span.data_end_sector - span.data_start_sector),
            count <= 0x400_0000,
            span.data_start_sector <= span.data_end_sector,
            bytes == old(disc).bytes(),
            disc.bytes() == bytes,
            disc.dependable() == old(disc).dependable(),
            views == patch_views(edits@),
            patches_addressable(views),
            touched_listed(views, start.len() as int),
            table@.len() == start.len(),
            done == renewed_h3_table(start, bytes, span, views),
            forall|h: int|
                0 <= h < g && #[trigger] group_touched(views, h) ==> group_readable(
                    bytes,
                    span,
                    h,
                ),
            forall|i: int|
                0 <= i < table@.len() ==> #[trigger] table@[i] == if i / 20 < g {
                    done[i]
                } else {
                    start[i]
                },
        decreases count - g,
    {
        let ghost before = table@;
        if is_touched(edits, g) {
            let mut clusters: Vec<Cluster> = match read_raw_group(disc, span, g as u32) {
                Ok(clusters) => clusters,
                Err(e) => {
                    assert(group_touched(views, g as int));
                    return Err(e);
                },
            };
            apply_edits_to_group(&mut clusters, g as u32, edits);
            let h3: [u8; 20] = recompute_group(&mut clusters);
            assert(h3@ == edited_h3(bytes, span, views, g as int));
            assert(table.len() == start.len());
            write_at(&mut table, g as usize * 20, h3.as_slice());
            assert forall|i: int| 0 <= i < table@.len() implies #[trigger] table@[i] == if i / 20
                < g + 1 {
                done[i]
            } else {
                start[i]
            } by {
                if g * 20 <= i < g * 20 + 20 {
                    assert(i / 20 == g && i % 20 == i - g * 20);
                    assert(table@[i] == h3@[i - g * 20]);
                } else {
                    assert(table@[i] == before[i]);
                }
            }
        }
        g += 1;
    }
    proof {
        assert forall|i: int| 0 <= i < table@.len() implies table@[i] == done[i] by {
            if i / 20 >= count {
                lemma_untouched(views, total as int, i / 20);
            }
        }
        assert(table@ =~= done);
        assert forall|h: int| 0 <= h && #[trigger] group_touched(views, h) implies group_readable(
            bytes,
            span,
            h,
        ) by {
            if h >= count {
                assert forall|k: int| 0 <= k < 64 implies !#[trigger] in_region(span, h, k) by {}
            }
        }
    }
    Ok(table)
}

/// Edits inside the data touch none of the groups past it.
proof fn lemma_untouched(edits: Seq<(u64, Seq<u8>)>, clusters: int, g: int)
    requires
        0 <= clusters <= u32::MAX,
        edits_inside(edits, clusters * 0x7C00),
        g >= group_count(clusters),
    ensures
        !group_touched(edits, g),
{
    if group_touched(edits, g) {
        let i = choose|i: int|
            0 <= i < edits.len() && touches(
                ((#[trigger] edits[i]).0, edits[i].1.len() as u64),
                g,
            );
        assert(edits[i].0 + edits[i].1.len() <= clusters * 0x7C00);
    }
}

/// The edits of `main.dol` by their offset within the partition's data.
pub open spec fn placed_edits(at: int, edits: Seq<EditView>) -> Seq<(u64, Seq<u8>)> {
    Seq::new(edits.len(), |i: int| ((at + edits[i].offset) as u64, edits[i].bytes))
}

/// The edits that the patches make to the partition's data.
pub open spec fn planned_edits(part: Seq<u8>, patches: VideoPatches) -> Seq<(u64, Seq<u8>)> {
    if patches.deflicker || patches.half_vfilter || patches.dithering {
        placed_edits(dol_at(part), dol_edits(dol_data(part), patches))
    } else {
        Seq::empty()
    }
}

/// The labels of the first `n` edits, each named once.
pub open spec fn labels_of(edits: Seq<EditView>, n: int) -> Seq<Seq<char>>
    decreases n,
{
    if n <= 0 {
        Seq::empty()
    } else {
        let before = labels_of(edits, n - 1);
        if before.contains(edits[n - 1].label) {
            before
        } else {
            before.push(edits[n - 1].label)
        }
    }
}

/// The names of the patches that match.
pub open spec fn applied_labels(part: Seq<u8>, patches: VideoPatches) -> Seq<Seq<char>> {
    if patches.deflicker || patches.half_vfilter || patches.dithering {
        let edits = dol_edits(dol_data(part), patches);
        labels_of(edits, edits.len() as int)
    } else {
        Seq::empty()
    }
}

/// The views of a list of labels.
pub open spec fn label_views(labels: Seq<&'static str>) -> Seq<Seq<char>> {
    Seq::new(labels.len(), |i: int| labels[i]@)
}

/// Whether the list names `label`.
fn names_label(labels: &Vec<&'static str>, label: &str) -> (r: bool)
    ensures
        r == label_views(labels@).contains(label@),
{
    let mut i: usize = 0;
    while i < labels.len()
        invariant
            i <= labels@.len(),
            forall|j: int| 0 <= j < i ==> (#[trigger] labels@[j])@ != label@,
        decreases labels@.len() - i,
    {
        if text_equal(labels[i], label) {
            assert(label_views(labels@)[i as int] == label@);
            return true;
        }
        i += 1;
    }
    assert forall|j: int| 0 <= j < labels@.len() implies label_views(labels@)[j] != label@ by {
        assert(labels@[j]@ != label@);
    }
    false
}

/// The edits that the patches make to `main.dol`, by their offset within the partition's data,
/// and the names of the patches that match.
fn gather_edits(dol: &MainDol, patches: &VideoPatches, Ghost(data_size): Ghost<int>) -> (r: (
    Vec<(u64, Vec<u8>)>,
    Vec<&'static str>,
))
    requires
        dol.offset + dol.data@.len() <= data_size <= u64::MAX,
    ensures
        patch_views(r.0@) == placed_edits(dol.offset as int, dol_edits(dol.data@, *patches)),
        edits_inside(patch_views(r.0@), data_size),
        label_views(r.1@) == labels_of(
            dol_edits(dol.data@, *patches),
            dol_edits(dol.data@, *patches).len() as int,
        ),
{
    let found: Vec<DolEdit> = find_dol_edits(dol.data.as_slice(), patches);
    let ghost views = dol_edits(dol.data@, *patches);
    proof {
        law_edits_stay_inside(dol.data@, *patches);
    }
    let ghost placed = placed_edits(dol.offset as int, views);
    let mut edits: Vec<(u64, Vec<u8>)> = Vec::new();
    let mut applied: Vec<&'static str> = Vec::new();
    let mut i: usize = 0;
    assert(label_views(applied@) =~= labels_of(views, 0));
    while i < found.len()
        invariant
            i <= found@.len(),
            views == edit_views(found@),
            placed == placed_edits(dol.offset as int, views),
            dol.offset + dol.data@.len() <= data_size <= u64::MAX,
            forall|j: int|
                0 <= j < views.len() ==> edit_inside(#[trigger] views[j], dol.data@.len() as int),
            edits@.len() == i,
            patch_views(edits@) == placed.subrange(0, i as int),
            label_views(applied@) == labels_of(views, i as int),
        decreases found@.len() - i,
    {
        let edit: &DolEdit = &found[i];
        assert(views[i as int] == edit@);
        assert(edit_inside(views[i as int], dol.data@.len() as int));
        let ghost before = applied@;
        if !names_label(&applied, edit.label) {
            applied.push(edit.label);
            assert(label_views(applied@) =~= label_views(before).push(edit.label@));
        }
        let bytes: Vec<u8> = copy_range(edit.bytes.as_slice(), 0, edit.bytes.len());
        assert(bytes@ =~= edit.bytes@);
        edits.push((dol.offset + edit.offset as u64, bytes));
        i += 1;
        assert(patch_views(edits@) =~= placed.subrange(0, i as int));
    }
    assert(patch_views(edits@) =~= placed);
    (edits, applied)
}

/// Whether an H3 table of `len` bytes is long enough for the patches: it has an entry for every
/// group that they touch.
pub open spec fn table_suffices(
    len: int,
    part: Seq<u8>,
    data_size: u64,
    patches: VideoPatches,
) -> bool {
    dol_present(part, data_size) ==> touched_listed(planned_edits(part, patches), len)
}

/// An H3 table with an entry for every group of the partition is long enough for any patches.
pub proof fn law_whole_table_suffices(
    len: int,
    part: Seq<u8>,
    clusters: int,
    patches: VideoPatches,
)
    requires
        0 <= clusters <= u32::MAX,
        len >= 20 * group_count(clusters),
    ensures
        table_suffices(len, part, (clusters * 0x7C00) as u64, patches),
{
    let edits = planned_edits(part, patches);
    if dol_present(part, (clusters * 0x7C00) as u64) {
        law_edits_stay_inside(dol_data(part), patches);
        let views = dol_edits(dol_data(part), patches);
        assert forall|i: int| 0 <= i < edits.len() implies (#[trigger] edits[i]).0
            + edits[i].1.len() <= clusters * 0x7C00 by {
            assert(edit_inside(views[i], dol_data(part).len() as int));
        }
        assert forall|g: int| 0 <= g && #[trigger] group_touched(edits, g) implies 20 * (g + 1)
            <= len by {
            if g >= group_count(clusters) {
                lemma_untouched(edits, clusters, g);
            }
        }
    }
}

/// Where the partition's header states the offset of its H3 table, stored divided by four.
const H3_TABLE_OFF_FIELD: u64 = 0x2B4;

/// Where the partition's header states the offset of its TMD, stored divided by four.
const TMD_OFF_FIELD: u64 = 0x2A8;

/// The disc offset of a partition.
pub open spec fn partition_base(span: PartitionSpan) -> int {
    span.start_sector * 0x8000
}

/// The disc offset of the partition's H3 table.
pub open spec fn h3_base(disc: Seq<u8>, span: PartitionSpan) -> int {
    partition_base(span) + be32_at(disc, partition_base(span) + 0x2B4) * 4
}

/// The disc offset of the partition's TMD.
pub open spec fn tmd_base(disc: Seq<u8>, span: PartitionSpan) -> int {
    partition_base(span) + be32_at(disc, partition_base(span) + 0x2A8) * 4
}

/// Whether the partition's header states where its tables are.
pub open spec fn header_readable(disc: Seq<u8>, span: PartitionSpan) -> bool {
    partition_base(span) + 0x2B8 <= disc.len()
}

/// What is written over the partition's header: the signatures of the ticket and the TMD are
/// cleared, and the TMD's content hash and the H3 table are those of `table`.
pub open spec fn header_patches_of(disc: Seq<u8>, span: PartitionSpan, table: Seq<u8>) -> Seq<
    (u64, Seq<u8>),
> {
    seq![
        ((partition_base(span) + 4) as u64, zeros(0x100)),
        ((tmd_base(disc, span) + 4) as u64, zeros(0x100)),
        ((tmd_base(disc, span) + 0x1F4) as u64, sha1_of(table)),
        (h3_base(disc, span) as u64, table),
    ]
}

/// Whether `plan` is the plan of the disc.
pub open spec fn disc_planned(
    source: &SourceDisc,
    disc: Seq<u8>,
    part: Seq<u8>,
    h3_table: Seq<u8>,
    raw_fst: Seq<u8>,
    patches: VideoPatches,
    skip_gaps: bool,
    trim_zeros: bool,
    plan: DiscPlan,
) -> bool {
    let span = source.data_span();
    let edits = planned_edits(part, patches);
    let table = renewed_h3_table(h3_table, disc, span, edits);
    &&& plan.partitions@.len() == 1
    &&& plan.partitions@[0].start_sector == span.start_sector
    &&& plan.partitions@[0].data_start_sector == span.data_start_sector
    &&& plan.partitions@[0].data_end_sector == span.data_end_sector
    &&& patch_views(plan.partitions@[0].header_patches@) == header_patches_of(disc, span, table)
    &&& patch_views(plan.partitions@[0].edits@) == edits
    &&& nodes_held(raw_fst)
    &&& groups_decided(
        part,
        fst_files(raw_fst),
        source.region_clusters(),
        skip_gaps,
        trim_zeros,
        plan.partitions@[0].stored_data_groups@,
    )
    &&& patch_views(plan.disc_patches@) == table_patches_of(partition_base(span))
    &&& if edits.len() > 0 {
        plan.rvlt_content_hash matches Some(hash) && hash@ == sha1_of(table)
    } else {
        plan.rvlt_content_hash is None
    }
    &&& label_views(plan.applied@) == applied_labels(part, patches)
}

/// Whether `e` is the error of planning a disc. What is looked at, in this order: `main.dol`, if
/// it is to be patched; the partition's header; its H3 table; the groups that an edit touches; the
/// header again; and the files. The first fault is the error. A read inside the disc or the
/// partition fails only where the stream is not dependable.
pub open spec fn plan_failed(
    source: &SourceDisc,
    disc: Seq<u8>,
    disc_dependable: bool,
    part: Seq<u8>,
    part_dependable: bool,
    has_table: bool,
    raw_fst: Seq<u8>,
    patches: VideoPatches,
    trim_zeros: bool,
    e: Error,
) -> bool {
    let span = source.data_span();
    let patching = patches.deflicker || patches.half_vfilter || patches.dithering;
    let size = source.region_size();
    if patching && dol_failed(part, part_dependable, size, e) {
        true
    } else if patching && !dol_present(part, size) {
        false
    } else if !header_readable(disc, span) {
        e is Io
    } else if !disc_dependable && e is Io {
        true
    } else if !has_table {
        e == Error::UnsupportedDisc(DiscFault::NoH3Table(span.index))
    } else if !touched_readable(disc, span, planned_edits(part, patches)) {
        e is Io
    } else {
        groups_failed(part, part_dependable, raw_fst, source.region_clusters(), trim_zeros, e)
    }
}

/// Plan the rebuild of a Wii disc and the video patches of its `main.dol`.
///
/// Only the data partition is stored, and the partition table is rewritten to list it alone.
/// The H3 table is that of the disc, with the entries of the groups that an edit touches
/// renewed. The partition's ticket and TMD are fakesigned in place, which the console demands.
///
/// `disc` is the decrypted disc, `part` the data partition without hash blocks, `h3_table` the
/// partition's H3 table and `raw_fst` its file system table.
#[verifier::rlimit(40)]
pub fn plan_disc<D: ReadSeek, P: ReadSeek>(
    source: &SourceDisc,
    disc: &mut D,
    part: &mut P,
    h3_table: Option<Vec<u8>>,
    raw_fst: &[u8],
    patches: &VideoPatches,
    skip_gaps: bool,
    trim_zeros: bool,
) -> (r: Result<DiscPlan>)
    requires
        source.span_ordered(),
        h3_table matches Some(table) ==> table_suffices(
            table@.len() as int,
            old(part).bytes(),
            source.region_size(),
            *patches,
        ),
    ensures
        match r {
            Ok(plan) => {
                &&& h3_table matches Some(table) && disc_planned(
                    source,
                    old(disc).bytes(),
                    old(part).bytes(),
                    table@,
                    raw_fst@,
                    *patches,
                    skip_gaps,
                    trim_zeros,
                    plan,
                )
                &&& header_readable(old(disc).bytes(), source.data_span())
                &&& (patches.deflicker || patches.half_vfilter || patches.dithering)
                    ==> dol_present(old(part).bytes(), source.region_size())
                &&& touched_readable(
                    old(disc).bytes(),
                    source.data_span(),
                    planned_edits(old(part).bytes(), *patches),
                )
            },
            Err(e) => plan_failed(
                source,
                old(disc).bytes(),
                old(disc).dependable(),
                old(part).bytes(),
                old(part).dependable(),
                h3_table is Some,
                raw_fst@,
                *patches,
                trim_zeros,
                e,
            ),
        },
{
    let ghost bytes = disc.bytes();
    let ghost logical = part.bytes();
    let span: PartitionSpan = source.data_partition();
    let mut edits: Vec<(u64, Vec<u8>)> = Vec::new();
    let mut applied: Vec<&'static str> = Vec::new();
    if patches.any() {
        let dol: MainDol = match source.read_main_dol(part) {
            Ok(dol) => dol,
            Err(e) => return Err(e),
        };
        let found = gather_edits(&dol, patches, Ghost(source.region_size() as int));
        edits = found.0;
        applied = found.1;
    } else {
        assert(patch_views(edits@) =~= planned_edits(logical, *patches));
        assert(label_views(applied@) =~= applied_labels(logical, *patches));
    }
    assert(patch_views(edits@) == planned_edits(logical, *patches));
    assert(edits_inside(patch_views(edits@), source.region_clusters() * 0x7C00));

    let base: u64 = span.start_sector as u64 * 0x8000;
    let h3_field: Vec<u8> = match disc.read_at(base + H3_TABLE_OFF_FIELD, 4) {
        Ok(field) => field,
        Err(e) => return Err(e),
    };
    let h3_at: u64 = base + read_be32(h3_field.as_slice(), 0) as u64 * 4;
    assert(h3_at == h3_base(bytes, span));
    let table: Vec<u8> = match source.partition_h3_table(span.index, h3_table) {
        Ok(table) => table,
        Err(e) => return Err(e),
    };
    let table: Vec<u8> = match renew_h3_table(disc, span, &edits, table) {
        Ok(table) => table,
        Err(e) => return Err(e),
    };
    let content_hash: [u8; 20] = sha1(table.as_slice());
    let tmd_field: Vec<u8> = match disc.read_at(base + TMD_OFF_FIELD, 4) {
        Ok(field) => field,
        Err(e) => return Err(e),
    };
    let tmd_at: u64 = base + read_be32(tmd_field.as_slice(), 0) as u64 * 4;
    assert(tmd_at == tmd_base(bytes, span));
    let mut header_patches: Vec<(u64, Vec<u8>)> = Vec::new();
    header_patches.push((base + WII_SIG_START as u64, zero_bytes(0x100)));
    header_patches.push((tmd_at + WII_SIG_START as u64, zero_bytes(0x100)));
    header_patches.push(
        (tmd_at + TMD_CONTENT0_HASH as u64, copy_range(content_hash.as_slice(), 0, 20)),
    );
    header_patches.push((h3_at, table));
    assert(content_hash@.subrange(0, 20) =~= content_hash@);
    assert(patch_views(header_patches@) =~= header_patches_of(bytes, span, table@));
    let stored_data_groups: Vec<(u32, u32)> = match source.used_data_group_runs(
        part,
        raw_fst,
        skip_gaps,
        trim_zeros,
    ) {
        Ok(runs) => runs,
        Err(e) => return Err(e),
    };
    let rvlt_content_hash: Option<[u8; 20]> = if edits.len() > 0 {
        Some(content_hash)
    } else {
        None
    };
    let mut partitions: Vec<PartitionPlan> = Vec::new();
    partitions.push(
        PartitionPlan {
            start_sector: span.start_sector,
            data_start_sector: span.data_start_sector,
            data_end_sector: span.data_end_sector,
            header_patches,
            edits,
            stored_data_groups,
        },
    );
    Ok(
        DiscPlan {
            partitions,
            disc_patches: partition_table_patches(base),
            rvlt_content_hash,
            applied,
        },
    )
}

/// A rebuilt group byte for byte: each of the 31 hashes at the front of a cluster is that of one
/// of its 0x400-byte sub-blocks, each of the 8 at 0x280 that of the 31 hashes of a cluster of its
/// subgroup, each of the 8 at 0x340 that of the 8 hashes at 0x280 of a subgroup, and the hash of
/// the group is that of the 8 at 0x340. The data and the rest of the hash block stay.
pub proof fn law_hashes_stand_in_their_places(
    cs: Seq<Seq<u8>>,
    k: int,
    i: int,
    s: int,
    j: int,
    b: int,
)
    requires
        cs.len() == 64,
        forall|m: int| 0 <= m < 64 ==> (#[trigger] cs[m]).len() == 0x8000,
        0 <= k < 64,
        0 <= i < 31,
        0 <= s < 8,
        0 <= j < 20,
        0x26C <= b < 0x280 || 0x320 <= b < 0x340 || 0x3E0 <= b < 0x8000,
    ensures
        ({
            let after = rebuilt(cs);
            let c = after[k];
            &&& after.len() == 64
            &&& c.len() == 0x8000
            &&& c[b] == cs[k][b]
            &&& c[i * 20 + j] == sha1_of(cs[k].subrange(0x400 + i * 0x400, 0x800 + i * 0x400))[j]
            &&& c[0x280 + s * 20 + j] == sha1_of(after[k - k % 8 + s].subrange(0, 620))[j]
            &&& c[0x340 + s * 20 + j] == sha1_of(after[s * 8].subrange(0x280, 0x320))[j]
            &&& h3_of(cs) == sha1_of(c.subrange(0x340, 0x3E0))
        }),
{
    let after = rebuilt(cs);
    let c = after[k];
    let m = k - k % 8 + s;
    lemma_rebuilt_cluster(cs, k);
    lemma_rebuilt_cluster(cs, m);
    lemma_rebuilt_cluster(cs, s * 8);
    law_rebuilding_changes_the_tables_alone(cs, k);
    assert(m == k / 8 * 8 + s);
    assert((i * 20 + j) / 20 == i && (i * 20 + j) % 20 == j);
    assert((s * 20 + j) / 20 == s && (s * 20 + j) % 20 == j);
    assert(c.subrange(0, 0x26C)[i * 20 + j] == c[i * 20 + j]);
    assert(c.subrange(0x280, 0x320)[s * 20 + j] == c[0x280 + s * 20 + j]);
    assert(c.subrange(0x340, 0x3E0)[s * 20 + j] == c[0x340 + s * 20 + j]);
    assert((i + 1) * 0x400 == 0x400 + i * 0x400 && (i + 2) * 0x400 == 0x800 + i * 0x400);
    if b < 0x280 {
        assert(c.subrange(0x26C, 0x280)[b - 0x26C] == cs[k].subrange(0x26C, 0x280)[b - 0x26C]);
    } else if b < 0x340 {
        assert(c.subrange(0x320, 0x340)[b - 0x320] == cs[k].subrange(0x320, 0x340)[b - 0x320]);
    } else if b < 0x400 {
        assert(c.subrange(0x3E0, 0x400)[b - 0x3E0] == cs[k].subrange(0x3E0, 0x400)[b - 0x3E0]);
    } else {
        assert(c.subrange(0x400, 0x8000)[b - 0x400] == cs[k].subrange(0x400, 0x8000)[b - 0x400]);
    }
}

/// The new partition table lists one partition, of the kind that holds a game, at the place of the
/// data partition, which is stored in words; and no age rating is left.
pub proof fn law_table_lists_the_data_partition(start_sector: u32)
    requires
        start_sector < 0x8_0000,
    ensures
        ({
            let patches = table_patches_of(start_sector * 0x8000);
            let groups = patches[0].1;
            let info = patches[1].1;
            &&& patches.len() == 3
            &&& patches[0].0 == 0x4_0000
            &&& groups.len() == 0x20
            &&& groups[0] == 0 && groups[1] == 0 && groups[2] == 0 && groups[3] == 1
            &&& (groups[4] * 0x100_0000 + groups[5] * 0x1_0000 + groups[6] * 0x100 + groups[7]) * 4
                == patches[1].0
            &&& forall|i: int| 8 <= i < 0x20 ==> #[trigger] groups[i] == 0
            &&& patches[1].0 == 0x4_0020
            &&& info.len() == 0x20
            &&& (info[0] * 0x100_0000 + info[1] * 0x1_0000 + info[2] * 0x100 + info[3]) * 4
                == start_sector * 0x8000
            &&& forall|i: int| 4 <= i < 0x20 ==> #[trigger] info[i] == 0
            &&& patches[2].0 == 0x4_E010
            &&& patches[2].1.len() == 16
            &&& forall|i: int| 0 <= i < 16 ==> #[trigger] patches[2].1[i] == 0
        }),
{
    let base = start_sector * 0x8000;
    let at = (base / 4 % 0x1_0000_0000) as u32;
    assert(at == start_sector * 0x2000);
    lemma_be32_bytes(1);
    lemma_be32_bytes(0x10008);
    lemma_be32_bytes(at);
    let patches = table_patches_of(base);
    let groups = patches[0].1;
    let info = patches[1].1;
    assert(groups[0] == be32(1)[0] && groups[1] == be32(1)[1] && groups[2] == be32(1)[2]
        && groups[3] == be32(1)[3]);
    assert(groups[4] == be32(0x10008)[0] && groups[5] == be32(0x10008)[1] && groups[6] == be32(
        0x10008,
    )[2] && groups[7] == be32(0x10008)[3]);
    assert(info[0] == be32(at)[0] && info[1] == be32(at)[1] && info[2] == be32(at)[2] && info[3]
        == be32(at)[3]);
}

/// What is written over a partition's header: the signatures of its ticket, at its start, and of
/// its TMD are zeroed; the TMD states the hash of the H3 table; and the table stands where the
/// header says. The header states both places in words, counted from the partition.
pub proof fn law_header_is_patched(disc: Seq<u8>, span: PartitionSpan, table: Seq<u8>, i: int)
    requires
        0 <= i < 0x100,
    ensures
        ({
            let base = span.start_sector * 0x8000;
            let tmd = base + 4 * be32_at(disc, base + 0x2A8);
            let h3 = base + 4 * be32_at(disc, base + 0x2B4);
            let patches = header_patches_of(disc, span, table);
            &&& patches.len() == 4
            &&& patches[0].0 == base + 4
            &&& patches[0].1.len() == 0x100 && patches[0].1[i] == 0
            &&& patches[1].0 == tmd + 4
            &&& patches[1].1.len() == 0x100 && patches[1].1[i] == 0
            &&& patches[2] == ((tmd + 500) as u64, sha1_of(table))
            &&& patches[3] == (h3 as u64, table)
        }),
{
}

/// The edits of `main.dol` are planned one for one, each at its place behind the start of
/// `main.dol`, which the boot header states in words, and whichever patches are asked for.
pub proof fn law_dol_edits_are_planned(part: Seq<u8>, patches: VideoPatches, i: int)
    requires
        ({
            let at = 4 * be32_at(part, 0x420);
            0 <= i < dol_edits(part.subrange(at, at + dol_size(part)), patches).len()
        }),
        4 * be32_at(part, 0x420) + dol_size(part) <= part.len(),
        part.len() <= u64::MAX,
    ensures
        ({
            let at = 4 * be32_at(part, 0x420);
            let edits = dol_edits(part.subrange(at, at + dol_size(part)), patches);
            &&& planned_edits(part, patches).len() == edits.len()
            &&& planned_edits(part, patches)[i].0 == at + edits[i].offset
            &&& planned_edits(part, patches)[i].1 == edits[i].bytes
            &&& applied_labels(part, patches).contains(edits[i].label)
        }),
{
    let at = 4 * be32_at(part, 0x420);
    let dol = part.subrange(at, at + dol_size(part));
    let edits = dol_edits(dol, patches);
    assert(dol == dol_data(part));
    law_patches_are_made_independently(dol, patches);
    law_edits_stay_inside(dol, patches);
    assert(edit_inside(edits[i], dol.len() as int));
    law_labels_name_the_edits(edits, edits.len() as int, edits[i].label);
}

/// Nothing is planned beyond the edits of `main.dol`.
pub proof fn law_nothing_else_is_planned(part: Seq<u8>, patches: VideoPatches)
    ensures
        planned_edits(part, patches).len() == dol_edits(dol_data(part), patches).len(),
        !patches.deflicker && !patches.half_vfilter && !patches.dithering ==> planned_edits(
            part,
            patches,
        ).len() == 0 && applied_labels(part, patches).len() == 0,
{
    law_patches_are_made_independently(dol_data(part), patches);
}

/// The names that are reported are those of the edits, each once.
pub proof fn law_labels_name_the_edits(edits: Seq<EditView>, n: int, label: Seq<char>)
    requires
        0 <= n <= edits.len(),
    ensures
        labels_of(edits, n).contains(label) <==> exists|i: int|
            0 <= i < n && (#[trigger] edits[i]).label == label,
        forall|i: int, j: int|
            0 <= i < j < labels_of(edits, n).len() ==> #[trigger] labels_of(edits, n)[i]
                != #[trigger] labels_of(edits, n)[j],
    decreases n,
{
    if n > 0 {
        law_labels_name_the_edits(edits, n - 1, label);
        law_labels_name_the_edits(edits, n - 1, edits[n - 1].label);
        let before = labels_of(edits, n - 1);
        let all = labels_of(edits, n);
        let last = edits[n - 1].label;
        if before.contains(label) {
            let k = choose|k: int| 0 <= k < before.len() && before[k] == label;
            assert(all[k] == label);
        }
        if !before.contains(last) {
            assert(all[all.len() - 1] == last);
            assert forall|i: int, j: int| 0 <= i < j < all.len() implies #[trigger] all[i]
                != #[trigger] all[j] by {
                if j == all.len() - 1 {
                    assert(all[i] == before[i]);
                    assert(before[i] != last);
                }
            }
        }
    }
}

/// The H3 table that is written: the entry of a group that an edit overlaps is the hash of the
/// group with the edits in place, every other entry is that of the disc.
pub proof fn law_table_is_renewed_where_touched(
    table: Seq<u8>,
    disc: Seq<u8>,
    span: PartitionSpan,
    edits: Seq<(u64, Seq<u8>)>,
    g: int,
    j: int,
)
    requires
        0 <= g <= u32::MAX,
        20 * g + 20 <= table.len(),
        0 <= j < 20,
        patches_addressable(edits),
    ensures
        renewed_h3_table(table, disc, span, edits).len() == table.len(),
        (exists|e: int|
            0 <= e < edits.len() && {
                let (off, bytes) = #[trigger] edits[e];
                bytes.len() > 0 && off < (g + 1) * 0x1F_0000 && g * 0x1F_0000 < off + bytes.len()
            }) ==> renewed_h3_table(table, disc, span, edits)[20 * g + j] == h3_of(
            edited(raw_group(disc, span, g), g as u32, edits, edits.len() as int),
        )[j],
        (forall|e: int|
            0 <= e < edits.len() ==> {
                let (off, bytes) = #[trigger] edits[e];
                bytes.len() == 0 || off >= (g + 1) * 0x1F_0000 || g * 0x1F_0000 >= off + bytes.len()
            }) ==> renewed_h3_table(table, disc, span, edits)[20 * g + j] == table[20 * g + j],
{
    assert((20 * g + j) / 20 == g && (20 * g + j) % 20 == j);
    assert forall|e: int| 0 <= e < edits.len() implies (touches(
        ((#[trigger] edits[e]).0, edits[e].1.len() as u64),
        g,
    ) <==> {
        let (off, bytes) = edits[e];
        bytes.len() > 0 && off < (g + 1) * 0x1F_0000 && g * 0x1F_0000 < off + bytes.len()
    }) by {
        let off = edits[e].0 as int;
        let len = edits[e].1.len() as int;
        if len > 0 {
            let a = off / 0x1F_0000;
            let b = (off + len - 1) / 0x1F_0000;
            assert(a * 0x1F_0000 <= off < (a + 1) * 0x1F_0000);
            assert(b * 0x1F_0000 <= off + len - 1 < (b + 1) * 0x1F_0000);
        }
    }
    if group_touched(edits, g) {
        let e = choose|e: int|
            0 <= e < edits.len() && touches(
                ((#[trigger] edits[e]).0, edits[e].1.len() as u64),
                g,
            );
        assert(touches((edits[e].0, edits[e].1.len() as u64), g));
    }
}

/// A group is read from its place: cluster `k` of group `g` is sector `64 * g + k` of the
/// partition's data, and zero past its end.
pub proof fn law_groups_are_read_from_their_place(
    disc: Seq<u8>,
    span: PartitionSpan,
    g: int,
    k: int,
    b: int,
)
    requires
        0 <= g,
        0 <= k < 64,
        0 <= b < 0x8000,
        span.data_start_sector <= span.data_end_sector,
        g * 64 + k < span.data_end_sector - span.data_start_sector ==> (span.data_start_sector + g
            * 64 + k + 1) * 0x8000 <= disc.len(),
    ensures
        raw_group(disc, span, g).len() == 64,
        raw_group(disc, span, g)[k].len() == 0x8000,
        raw_group(disc, span, g)[k][b] == if g * 64 + k < span.data_end_sector
            - span.data_start_sector {
            disc[(span.data_start_sector + g * 64 + k) * 0x8000 + b]
        } else {
            0
        },
{
    assert(raw_group(disc, span, g)[k] == raw_cluster(disc, span, g, k));
}

/// The parts of a plan agree with one another and with the disc. One partition is stored, with
/// the sectors that the disc lists for its data partition, and the table is rewritten for the
/// place where it starts. What the TMD on the disc is made to state is the hash of the H3 table
/// that is written; the injected TMD states the same, but only where something is edited. What is
/// edited and what is reported come of the edits of `main.dol` alone.
pub proof fn law_parts_of_a_plan_agree(
    source: &SourceDisc,
    disc: Seq<u8>,
    part: Seq<u8>,
    h3_table: Seq<u8>,
    raw_fst: Seq<u8>,
    patches: VideoPatches,
    skip_gaps: bool,
    trim_zeros: bool,
    plan: DiscPlan,
)
    requires
        disc_planned(
            source,
            disc,
            part,
            h3_table,
            raw_fst,
            patches,
            skip_gaps,
            trim_zeros,
            plan,
        ),
    ensures
        plan.partitions@.len() == 1,
        ({
            let pp = plan.partitions@[0];
            let span = source.data_span();
            let base = pp.start_sector * 0x8000;
            let header = patch_views(pp.header_patches@);
            let edits = dol_edits(dol_data(part), patches);
            &&& pp.start_sector == span.start_sector
            &&& pp.data_start_sector == span.data_start_sector
            &&& pp.data_end_sector == span.data_end_sector
            &&& patch_views(plan.disc_patches@) == table_patches_of(base)
            &&& header.len() == 4
            &&& header[0].0 == base + 4
            &&& header[2].1 == sha1_of(header[3].1)
            &&& header[3].1.len() == h3_table.len()
            &&& forall|g: int|
                0 <= g && 20 * (g + 1) <= h3_table.len() && !#[trigger] group_touched(
                    patch_views(pp.edits@),
                    g,
                ) ==> header[3].1.subrange(20 * g, 20 * g + 20) == h3_table.subrange(
                    20 * g,
                    20 * g + 20,
                )
            &&& pp.edits@.len() == edits.len()
            &&& plan.rvlt_content_hash is Some <==> edits.len() > 0
            &&& plan.rvlt_content_hash matches Some(hash) ==> hash@ == header[2].1
            &&& forall|label: Seq<char>| #[trigger]
                label_views(plan.applied@).contains(label) <==> exists|i: int|
                    0 <= i < edits.len() && (#[trigger] edits[i]).label == label
        }),
{
    let pp = plan.partitions@[0];
    let edits = dol_edits(dol_data(part), patches);
    let views = patch_views(pp.edits@);
    law_nothing_else_is_planned(part, patches);
    law_patches_are_made_independently(dol_data(part), patches);
    assert(pp.edits@.len() == views.len());
    let header = patch_views(pp.header_patches@);
    let table = header[3].1;
    assert(table == renewed_h3_table(h3_table, disc, source.data_span(), views));
    assert forall|g: int|
        0 <= g && 20 * (g + 1) <= h3_table.len() && !#[trigger] group_touched(
            views,
            g,
        ) implies table.subrange(20 * g, 20 * g + 20) == h3_table.subrange(
        20 * g,
        20 * g + 20,
    ) by {
        assert forall|j: int| 20 * g <= j < 20 * g + 20 implies table[j] == h3_table[j] by {
            assert(j / 20 == g);
        }
        assert(table.subrange(20 * g, 20 * g + 20) =~= h3_table.subrange(20 * g, 20 * g + 20));
    }
    assert forall|label: Seq<char>| #[trigger]
        label_views(plan.applied@).contains(label) <==> exists|i: int|
            0 <= i < edits.len() && (#[trigger] edits[i]).label == label by {
        law_labels_name_the_edits(edits, edits.len() as int, label);
        if !(patches.deflicker || patches.half_vfilter || patches.dithering) {
            assert(applied_labels(part, patches) =~= Seq::empty());
        }
    }
}

/// What has to be readable of a disc: of the partition's header the two words that say where its
/// tables are, and of the groups that are edited every sector inside the partition's data.
pub proof fn law_what_has_to_be_readable(
    disc: Seq<u8>,
    span: PartitionSpan,
    edits: Seq<(u64, Seq<u8>)>,
)
    ensures
        header_readable(disc, span) <==> {
            let base = span.start_sector * 0x8000;
            base + 0x2A8 + 4 <= disc.len() && base + 0x2B4 + 4 <= disc.len()
        },
        touched_readable(disc, span, edits) <==> forall|g: int, k: int|
            #![trigger group_touched(edits, g), in_region(span, g, k)]
            0 <= g && 0 <= k < 64 && group_touched(edits, g) && in_region(span, g, k) ==> {
                let sector = span.data_start_sector + 64 * g + k;
                sector * 0x8000 + 0x8000 <= disc.len()
            },
        forall|g: int, k: int| #[trigger]
            in_region(span, g, k) <==> span.data_start_sector + 64 * g + k < span.data_end_sector,
{
    if touched_readable(disc, span, edits) {
        assert forall|g: int, k: int|
            #![trigger group_touched(edits, g), in_region(span, g, k)]
            0 <= g && 0 <= k < 64 && group_touched(edits, g) && in_region(span, g, k) implies {
            let sector = span.data_start_sector + 64 * g + k;
            sector * 0x8000 + 0x8000 <= disc.len()
        } by {
            assert(group_readable(disc, span, g));
        }
    }
}

} // verus!

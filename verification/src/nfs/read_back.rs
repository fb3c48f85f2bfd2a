//! What a reader finds in an NFS stream.
//!
//! The laws here relate a finished stream to the disc and the plan it was built from: every
//! stored sector stands where the header's ranges say and decrypts to what it held, that is the
//! disc's bytes with the plan's patches laid over, and no patch is lost on the way.

use vstd::prelude::*;

use crate::aes_cbc::cbc_decrypted;
use crate::disc_patch::{
    byte_put, bytes_put, disc_planned, edited, law_hashes_stand_in_their_places,
    law_rebuilt_group_verifies, patch_views, rebuilt, DiscPlan, PartitionPlan,
};
use crate::digest::sha1_of;
use crate::input::{
    boot_extents, extent_fits, fst_files, law_data_is_stored_or_zero, SourceDisc,
};
use crate::nfs::crypto::{lemma_iv_is_spelt, sector_iv_of};
use crate::nfs::eggs::{eggs_bytes, law_header_size, sector_sum, LbaRange};
use crate::nfs::{
    all_unsealable, covered, data_sectors, disc_patch_contained, edit_unstored, group_cluster,
    group_clusters, group_len, group_runs_of, group_sectors, groups_sectors,
    law_planned_disc_is_sane, law_ranges_list_the_sectors, law_stored_sectors_read_back,
    lemma_disc_patches_ok,
    lemma_edits_ok, lemma_header_patches_ok, lemma_partition_faults_none, lemma_runs_sane,
    lemma_stored_upto, nfs_stream, numbers_of, padded_sector, partition_sectors, partitions_sectors,
    patched, patched_run, patched_sector, plan_fault, plan_ranges, plan_runs, plan_sane,
    plan_sectors, range_numbers, run_stores, runs_sane, runs_sectors, runs_store, saturated, stored_group,
    GroupRun, StoredSector,
};
use crate::video::VideoPatches;

verus! {

/// What the first `n` patches leave at address `a`: the byte of the last one there, else `base`.
pub open spec fn laid(patches: Seq<(u64, Seq<u8>)>, n: int, a: int, base: u8) -> u8
    decreases n,
{
    if n <= 0 {
        base
    } else if patches[n - 1].0 <= a < patches[n - 1].0 + patches[n - 1].1.len() {
        patches[n - 1].1[a - patches[n - 1].0]
    } else {
        laid(patches, n - 1, a, base)
    }
}

/// Whether patch `i` decides what stands at address `a`: it covers it, and no later one does.
pub open spec fn decides(patches: Seq<(u64, Seq<u8>)>, i: int, a: int) -> bool {
    &&& 0 <= i < patches.len()
    &&& patches[i].0 <= a < patches[i].0 + patches[i].1.len()
    &&& forall|j: int|
        i < j < patches.len() ==> !((#[trigger] patches[j]).0 <= a < patches[j].0
            + patches[j].1.len())
}

proof fn lemma_decides(patches: Seq<(u64, Seq<u8>)>, i: int, n: int, a: int, base: u8)
    requires
        decides(patches, i, a),
        i < n <= patches.len(),
    ensures
        laid(patches, n, a, base) == patches[i].1[a - patches[i].0],
    decreases n,
{
    if i < n - 1 {
        lemma_decides(patches, i, n - 1, a, base);
    }
}

proof fn lemma_patched(sector: Seq<u8>, sec_start: int, patches: Seq<(u64, Seq<u8>)>, n: int)
    ensures
        patched(sector, sec_start, patches, n).len() == sector.len(),
        forall|b: int|
            0 <= b < sector.len() ==> #[trigger] patched(sector, sec_start, patches, n)[b] == laid(
                patches,
                n,
                sec_start + b,
                sector[b],
            ),
    decreases n,
{
    if n > 0 {
        lemma_patched(sector, sec_start, patches, n - 1);
    }
}

/// Whether every cluster of a group is whole.
pub open spec fn whole_group(cs: Seq<Seq<u8>>) -> bool {
    &&& cs.len() == 64
    &&& forall|k: int| 0 <= k < 64 ==> (#[trigger] cs[k]).len() == 0x8000
}

/// The data offset of byte `b` of cluster `k` of group `g`.
pub open spec fn data_offset(g: int, k: int, b: int) -> int {
    (g * 64 + k) * 0x7C00 + b - 0x400
}

proof fn lemma_byte_put(cs: Seq<Seq<u8>>, g: u32, l: int, byte: u8, k: int, b: int)
    requires
        whole_group(cs),
        0 <= l < 0x1_0000_0000 * 64 * 0x7C00,
        0 <= k < 64,
        0x400 <= b < 0x8000,
    ensures
        whole_group(byte_put(cs, g, l, byte)),
        byte_put(cs, g, l, byte)[k][b] == if l == data_offset(g as int, k, b) {
            byte
        } else {
            cs[k][b]
        },
{
    let c = l / 0x7C00;
    let r = l % 0x7C00;
    assert(l == c * 0x7C00 + r && 0 <= r < 0x7C00);
    let h = c / 64;
    let m = c % 64;
    assert(c == h * 64 + m && 0 <= m < 64);
    assert(0 <= h < 0x1_0000_0000);
    assert(h % 0x1_0000_0000 == h);
    let after = byte_put(cs, g, l, byte);
    if h == g {
        assert(after == cs.update(m, cs[m].update(0x400 + r, byte)));
        assert(whole_group(after));
        if m == k && 0x400 + r == b {
            assert(l == data_offset(g as int, k, b));
        } else if l == data_offset(g as int, k, b) {
            assert(m == k && 0x400 + r == b);
        }
    } else if l == data_offset(g as int, k, b) {
        let d = g * 64 + k;
        assert(l == d * 0x7C00 + (b - 0x400));
        assert(c == d);
        assert(h == g);
    }
}

proof fn lemma_bytes_put(
    cs: Seq<Seq<u8>>,
    g: u32,
    off: int,
    bytes: Seq<u8>,
    m: int,
    k: int,
    b: int,
)
    requires
        whole_group(cs),
        0 <= off,
        0 <= m <= bytes.len(),
        off + bytes.len() <= 0x1_0000_0000 * 64 * 0x7C00,
        0 <= k < 64,
        0x400 <= b < 0x8000,
    ensures
        whole_group(bytes_put(cs, g, off, bytes, m)),
        bytes_put(cs, g, off, bytes, m)[k][b] == if off <= data_offset(g as int, k, b) < off + m {
            bytes[data_offset(g as int, k, b) - off]
        } else {
            cs[k][b]
        },
    decreases m,
{
    if m > 0 {
        lemma_bytes_put(cs, g, off, bytes, m - 1, k, b);
        lemma_byte_put(
            bytes_put(cs, g, off, bytes, m - 1),
            g,
            off + m - 1,
            bytes[m - 1],
            k,
            b,
        );
    }
}

/// Whether no edit reaches past the last group that a number can name.
pub open spec fn edits_in_groups(edits: Seq<(u64, Seq<u8>)>) -> bool {
    forall|i: int|
        0 <= i < edits.len() ==> (#[trigger] edits[i]).1.len() == 0 || edits[i].0 + edits[i].1.len()
            <= 0x1_0000_0000 * 64 * 0x7C00
}

proof fn lemma_edited(cs: Seq<Seq<u8>>, g: u32, edits: Seq<(u64, Seq<u8>)>, n: int, k: int, b: int)
    requires
        whole_group(cs),
        edits_in_groups(edits),
        0 <= n <= edits.len(),
        0 <= k < 64,
        0x400 <= b < 0x8000,
    ensures
        whole_group(edited(cs, g, edits, n)),
        edited(cs, g, edits, n)[k][b] == laid(edits, n, data_offset(g as int, k, b), cs[k][b]),
    decreases n,
{
    if n > 0 {
        lemma_edited(cs, g, edits, n - 1, k, b);
        let e = edits[n - 1];
        if e.1.len() > 0 {
            lemma_bytes_put(
                edited(cs, g, edits, n - 1),
                g,
                e.0 as int,
                e.1,
                e.1.len() as int,
                k,
                b,
            );
        }
    }
}

/// A stored cluster holds, behind its hash block, the disc's data with the edits laid over.
proof fn lemma_stored_cluster(
    disc: Seq<u8>,
    disc_size: u64,
    pp: PartitionPlan,
    g: int,
    k: int,
    b: int,
)
    requires
        edits_in_groups(patch_views(pp.edits@)),
        0 <= g <= u32::MAX,
        0 <= k < 64,
        0x400 <= b < 0x8000,
    ensures
        stored_group(disc, disc_size, pp, g)[k].len() == 0x8000,
        stored_group(disc, disc_size, pp, g)[k][b] == laid(
            patch_views(pp.edits@),
            pp.edits@.len() as int,
            data_offset(g, k, b),
            group_cluster(disc, disc_size, pp, g, k)[b],
        ),
{
    let cs = group_clusters(disc, disc_size, pp, g);
    let edits = patch_views(pp.edits@);
    assert(whole_group(cs));
    lemma_edited(cs, g as u32, edits, edits.len() as int, k, b);
    let inner = edited(cs, g as u32, edits, edits.len() as int);
    law_rebuilt_group_verifies(inner, k);
    let c = rebuilt(inner)[k];
    assert(c.subrange(0x400, 0x8000)[b - 0x400] == inner[k].subrange(0x400, 0x8000)[b - 0x400]);
    assert(stored_group(disc, disc_size, pp, g)[k] == c);
}

/// Whether a list of sectors holds sector `number` with `data`.
pub open spec fn holds(list: Seq<StoredSector>, number: int, data: Seq<u8>) -> bool {
    exists|i: int|
        0 <= i < list.len() && (#[trigger] list[i]).number == number && list[i].data == data
}

proof fn lemma_holds_left(a: Seq<StoredSector>, b: Seq<StoredSector>, number: int, data: Seq<u8>)
    requires
        holds(a, number, data),
    ensures
        holds(a + b, number, data),
{
    let i = choose|i: int|
        0 <= i < a.len() && (#[trigger] a[i]).number == number && a[i].data == data;
    assert((a + b)[i] == a[i]);
}

proof fn lemma_holds_right(a: Seq<StoredSector>, b: Seq<StoredSector>, number: int, data: Seq<u8>)
    requires
        holds(b, number, data),
    ensures
        holds(a + b, number, data),
{
    let i = choose|i: int|
        0 <= i < b.len() && (#[trigger] b[i]).number == number && b[i].data == data;
    assert((a + b)[a.len() + i] == b[i]);
}

proof fn lemma_run_holds(
    disc: Seq<u8>,
    disc_size: u64,
    patches: Seq<(u64, Seq<u8>)>,
    from: int,
    n: int,
    s: int,
)
    requires
        0 <= from <= s < from + n,
        s <= u32::MAX,
    ensures
        holds(
            patched_run(disc, disc_size, patches, from, n),
            s,
            patched_sector(disc, disc_size, patches, s),
        ),
{
    let list = patched_run(disc, disc_size, patches, from, n);
    assert(list[s - from].number == s);
}

proof fn lemma_groups_hold(
    disc: Seq<u8>,
    disc_size: u64,
    pp: PartitionPlan,
    first: int,
    n: int,
    g: int,
    k: int,
)
    requires
        0 <= first <= g < first + n,
        0 <= k < 64,
        g * 64 + k < data_sectors(pp),
    ensures
        holds(
            groups_sectors(disc, disc_size, pp, first, n),
            pp.data_start_sector + g * 64 + k,
            stored_group(disc, disc_size, pp, g)[k],
        ),
    decreases n,
{
    let front = groups_sectors(disc, disc_size, pp, first, n - 1);
    let back = group_sectors(disc, disc_size, pp, first + n - 1);
    let number = pp.data_start_sector + g * 64 + k;
    let data = stored_group(disc, disc_size, pp, g)[k];
    if g < first + n - 1 {
        lemma_groups_hold(disc, disc_size, pp, first, n - 1, g, k);
        lemma_holds_left(front, back, number, data);
    } else {
        assert(k < group_len(pp, g));
        assert(back[k].number == number && back[k].data == data);
        lemma_holds_right(front, back, number, data);
    }
}

proof fn lemma_runs_hold(
    disc: Seq<u8>,
    disc_size: u64,
    pp: PartitionPlan,
    runs: Seq<GroupRun>,
    n: int,
    i: int,
    g: int,
    k: int,
)
    requires
        0 <= i < n <= runs.len(),
        run_stores(runs[i], g),
        0 <= k < 64,
        g * 64 + k < data_sectors(pp),
    ensures
        holds(
            runs_sectors(disc, disc_size, pp, runs, n),
            pp.data_start_sector + g * 64 + k,
            stored_group(disc, disc_size, pp, g)[k],
        ),
    decreases n,
{
    let run = runs[n - 1];
    let front = runs_sectors(disc, disc_size, pp, runs, n - 1);
    let back = groups_sectors(
        disc,
        disc_size,
        pp,
        run.first_group as int,
        run.num_groups as int,
    );
    let number = pp.data_start_sector + g * 64 + k;
    let data = stored_group(disc, disc_size, pp, g)[k];
    if i < n - 1 {
        lemma_runs_hold(disc, disc_size, pp, runs, n - 1, i, g, k);
        lemma_holds_left(front, back, number, data);
    } else {
        lemma_groups_hold(
            disc,
            disc_size,
            pp,
            run.first_group as int,
            run.num_groups as int,
            g,
            k,
        );
        lemma_holds_right(front, back, number, data);
    }
}

proof fn lemma_partitions_hold(
    disc: Seq<u8>,
    disc_size: u64,
    partitions: Seq<PartitionPlan>,
    n: int,
    p: int,
    number: int,
    data: Seq<u8>,
)
    requires
        0 <= p < n <= partitions.len(),
        holds(partition_sectors(disc, disc_size, partitions[p]), number, data),
    ensures
        holds(partitions_sectors(disc, disc_size, partitions, n), number, data),
    decreases n,
{
    let front = partitions_sectors(disc, disc_size, partitions, n - 1);
    let back = partition_sectors(disc, disc_size, partitions[n - 1]);
    if p < n - 1 {
        lemma_partitions_hold(disc, disc_size, partitions, n - 1, p, number, data);
        lemma_holds_left(front, back, number, data);
    } else {
        lemma_holds_right(front, back, number, data);
    }
}

proof fn lemma_plan_holds_disc(disc: Seq<u8>, disc_size: u64, plan: DiscPlan, s: int)
    requires
        s == 0 || s == 8 || s == 9,
    ensures
        holds(
            plan_sectors(disc, disc_size, plan),
            s,
            patched_sector(disc, disc_size, patch_views(plan.disc_patches@), s),
        ),
{
    let patches = patch_views(plan.disc_patches@);
    let a = patched_run(disc, disc_size, patches, 0, 1);
    let b = patched_run(disc, disc_size, patches, 8, 2);
    let c = partitions_sectors(disc, disc_size, plan.partitions@, plan.partitions@.len() as int);
    let data = patched_sector(disc, disc_size, patches, s);
    if s == 0 {
        lemma_run_holds(disc, disc_size, patches, 0, 1, s);
        lemma_holds_left(a, b, s, data);
    } else {
        lemma_run_holds(disc, disc_size, patches, 8, 2, s);
        lemma_holds_right(a, b, s, data);
    }
    lemma_holds_left(a + b, c, s, data);
}

proof fn lemma_plan_holds_partition(
    disc: Seq<u8>,
    disc_size: u64,
    plan: DiscPlan,
    p: int,
    number: int,
    data: Seq<u8>,
)
    requires
        0 <= p < plan.partitions@.len(),
        holds(partition_sectors(disc, disc_size, plan.partitions@[p]), number, data),
    ensures
        holds(plan_sectors(disc, disc_size, plan), number, data),
{
    let patches = patch_views(plan.disc_patches@);
    let n = plan.partitions@.len() as int;
    lemma_partitions_hold(disc, disc_size, plan.partitions@, n, p, number, data);
    lemma_holds_right(
        patched_run(disc, disc_size, patches, 0, 1) + patched_run(disc, disc_size, patches, 8, 2),
        partitions_sectors(disc, disc_size, plan.partitions@, n),
        number,
        data,
    );
}

proof fn lemma_plan_holds_header(disc: Seq<u8>, disc_size: u64, plan: DiscPlan, p: int, s: int)
    requires
        0 <= p < plan.partitions@.len(),
        plan.partitions@[p].start_sector <= s < plan.partitions@[p].data_start_sector,
    ensures
        holds(
            plan_sectors(disc, disc_size, plan),
            s,
            patched_sector(disc, disc_size, patch_views(plan.partitions@[p].header_patches@), s),
        ),
{
    let pp = plan.partitions@[p];
    let patches = patch_views(pp.header_patches@);
    let n = pp.data_start_sector - pp.start_sector;
    let data = patched_sector(disc, disc_size, patches, s);
    lemma_run_holds(disc, disc_size, patches, pp.start_sector as int, n, s);
    lemma_holds_left(
        patched_run(disc, disc_size, patches, pp.start_sector as int, n),
        runs_sectors(disc, disc_size, pp, group_runs_of(pp), group_runs_of(pp).len() as int),
        s,
        data,
    );
    lemma_plan_holds_partition(disc, disc_size, plan, p, s, data);
}

proof fn lemma_plan_holds_cluster(
    disc: Seq<u8>,
    disc_size: u64,
    plan: DiscPlan,
    p: int,
    g: int,
    k: int,
)
    requires
        0 <= p < plan.partitions@.len(),
        runs_store(group_runs_of(plan.partitions@[p]), g),
        0 <= k < 64,
        g * 64 + k < data_sectors(plan.partitions@[p]),
    ensures
        holds(
            plan_sectors(disc, disc_size, plan),
            plan.partitions@[p].data_start_sector + g * 64 + k,
            stored_group(disc, disc_size, plan.partitions@[p], g)[k],
        ),
{
    let pp = plan.partitions@[p];
    let runs = group_runs_of(pp);
    let i = choose|i: int| 0 <= i < runs.len() && run_stores(#[trigger] runs[i], g);
    let n = pp.data_start_sector - pp.start_sector;
    let number = pp.data_start_sector + g * 64 + k;
    let data = stored_group(disc, disc_size, pp, g)[k];
    lemma_runs_hold(disc, disc_size, pp, runs, runs.len() as int, i, g, k);
    lemma_holds_right(
        patched_run(
            disc,
            disc_size,
            patch_views(pp.header_patches@),
            pp.start_sector as int,
            n,
        ),
        runs_sectors(disc, disc_size, pp, runs, runs.len() as int),
        number,
        data,
    );
    lemma_plan_holds_partition(disc, disc_size, plan, p, number, data);
}

/// A finished stream read back: it starts with the header, and the sector that the header's
/// ranges name at each place stands there and decrypts to what was stored.
pub proof fn law_nfs_reads_back(
    htk: Seq<u8>,
    disc: Seq<u8>,
    disc_size: u64,
    plan: DiscPlan,
    i: int,
)
    requires
        plan_sane(plan),
        all_unsealable(htk, plan_sectors(disc, disc_size, plan)),
        0 <= i < plan_sectors(disc, disc_size, plan).len(),
    ensures
        ({
            let stream = nfs_stream(htk, disc, disc_size, plan);
            let sectors = plan_sectors(disc, disc_size, plan);
            let ranges = plan_ranges(plan);
            let front = eggs_bytes(ranges).len();
            &&& stream.subrange(0, front as int) == eggs_bytes(ranges)
            &&& stream.len() == front + sectors.len() * 0x8000
            &&& covered(ranges, ranges.len() as int)[i] == sectors[i].number
            &&& cbc_decrypted(
                htk,
                sector_iv_of(covered(ranges, ranges.len() as int)[i]),
                stream.subrange(front + i * 0x8000, front + i * 0x8000 + 0x8000),
            ) == sectors[i].data
        }),
{
    let sectors = plan_sectors(disc, disc_size, plan);
    let front = eggs_bytes(plan_ranges(plan));
    law_ranges_list_the_sectors(disc, disc_size, plan);
    law_stored_sectors_read_back(htk, front, sectors, sectors.len() as int, i);
    assert(numbers_of(sectors)[i] == sectors[i].number);
    assert(nfs_stream(htk, disc, disc_size, plan).subrange(0, front.len() as int) =~= front);
}

/// Whether a plan leaves the disc's bytes as they are.
pub open spec fn untouched(plan: DiscPlan) -> bool {
    &&& plan.disc_patches@.len() == 0
    &&& forall|p: int|
        0 <= p < plan.partitions@.len() ==> (#[trigger] plan.partitions@[p]).header_patches@.len()
            == 0 && plan.partitions@[p].edits@.len() == 0
}

/// A plan without patches stores the disc as it is: the disc header's and every partition
/// header's sectors whole, and of every stored cluster the data, whose hash block is rebuilt.
pub proof fn law_untouched_disc_is_stored_as_it_is(
    disc: Seq<u8>,
    disc_size: u64,
    plan: DiscPlan,
    p: int,
    s: int,
    g: int,
    k: int,
)
    requires
        plan_sane(plan),
        untouched(plan),
        0 <= p < plan.partitions@.len(),
    ensures
        ({
            let pp = plan.partitions@[p];
            let sectors = plan_sectors(disc, disc_size, plan);
            &&& (s == 0 || s == 8 || s == 9 || pp.start_sector <= s < pp.data_start_sector)
                ==> holds(sectors, s, padded_sector(disc, disc_size, s * 0x8000, 0x8000))
            &&& runs_store(group_runs_of(pp), g) && 0 <= g <= u32::MAX && 0 <= k < 64 && g * 64 + k
                < data_sectors(pp) ==> {
                let number = pp.data_start_sector + g * 64 + k;
                let cluster = stored_group(disc, disc_size, pp, g)[k];
                &&& holds(sectors, number, cluster)
                &&& cluster.len() == 0x8000
                &&& cluster.subrange(0x400, 0x8000) == padded_sector(
                    disc,
                    disc_size,
                    number * 0x8000,
                    0x8000,
                ).subrange(0x400, 0x8000)
            }
        }),
{
    let pp = plan.partitions@[p];
    let patches = patch_views(plan.disc_patches@);
    let headers = patch_views(pp.header_patches@);
    let edits = patch_views(pp.edits@);
    let plain = padded_sector(disc, disc_size, s * 0x8000, 0x8000);
    assert(patched_sector(disc, disc_size, patches, s) == plain);
    assert(patched_sector(disc, disc_size, headers, s) == plain);
    if s == 0 || s == 8 || s == 9 {
        lemma_plan_holds_disc(disc, disc_size, plan, s);
    }
    if pp.start_sector <= s < pp.data_start_sector {
        lemma_plan_holds_header(disc, disc_size, plan, p, s);
    }
    if runs_store(group_runs_of(pp), g) && 0 <= g <= u32::MAX && 0 <= k < 64 && g * 64 + k
        < data_sectors(pp) {
        lemma_plan_holds_cluster(disc, disc_size, plan, p, g, k);
        let number = pp.data_start_sector + g * 64 + k;
        let cluster = stored_group(disc, disc_size, pp, g)[k];
        lemma_stored_cluster(disc, disc_size, pp, g, k, 0x400);
        let whole = padded_sector(disc, disc_size, number * 0x8000, 0x8000);
        assert forall|b: int| 0x400 <= b < 0x8000 implies cluster[b] == whole[b] by {
            lemma_stored_cluster(disc, disc_size, pp, g, k, b);
            assert(group_cluster(disc, disc_size, pp, g, k) == whole);
        }
        assert(cluster.subrange(0x400, 0x8000) =~= whole.subrange(0x400, 0x8000));
    }
}

/// Whether the byte at disc offset `a` reads as `byte` in a list of sectors.
pub open spec fn reads(list: Seq<StoredSector>, a: int, byte: u8) -> bool {
    exists|i: int|
        0 <= i < list.len() && (#[trigger] list[i]).number == a / 0x8000 && list[i].data[a % 0x8000]
            == byte
}

proof fn lemma_reads(list: Seq<StoredSector>, data: Seq<u8>, a: int)
    requires
        holds(list, a / 0x8000, data),
    ensures
        reads(list, a, data[a % 0x8000]),
{
    let i = choose|i: int|
        0 <= i < list.len() && (#[trigger] list[i]).number == a / 0x8000 && list[i].data == data;
    assert(list[i].number == a / 0x8000 && list[i].data[a % 0x8000] == data[a % 0x8000]);
}

proof fn lemma_patched_byte(
    disc: Seq<u8>,
    disc_size: u64,
    patches: Seq<(u64, Seq<u8>)>,
    i: int,
    a: int,
)
    requires
        decides(patches, i, a),
    ensures
        patched_sector(disc, disc_size, patches, a / 0x8000)[a % 0x8000] == patches[i].1[a
            - patches[i].0],
{
    let s = a / 0x8000;
    let sector = padded_sector(disc, disc_size, s * 0x8000, 0x8000);
    lemma_patched(sector, s * 0x8000, patches, patches.len() as int);
    assert(s * 0x8000 + a % 0x8000 == a);
    lemma_decides(patches, i, patches.len() as int, a, sector[a % 0x8000]);
}

/// No disc patch of an accepted plan is lost: each of its bytes that no later one covers is what
/// the stored sectors hold there.
pub proof fn law_disc_patches_are_stored(
    disc: Seq<u8>,
    disc_size: u64,
    plan: DiscPlan,
    i: int,
    a: int,
)
    requires
        plan_fault(plan, plan_runs(plan)) is None,
        decides(patch_views(plan.disc_patches@), i, a),
    ensures
        reads(
            plan_sectors(disc, disc_size, plan),
            a,
            plan.disc_patches@[i].1@[a - plan.disc_patches@[i].0],
        ),
{
    let patches = patch_views(plan.disc_patches@);
    lemma_disc_patches_ok(patches, 0, i);
    assert(disc_patch_contained(patches[i].0 as int, patches[i].1.len() as int));
    let s = a / 0x8000;
    assert(s == 0 || s == 8 || s == 9);
    lemma_plan_holds_disc(disc, disc_size, plan, s);
    lemma_patched_byte(disc, disc_size, patches, i, a);
    lemma_reads(
        plan_sectors(disc, disc_size, plan),
        patched_sector(disc, disc_size, patches, s),
        a,
    );
}

/// No header patch of an accepted plan is lost: each of its bytes that no later one covers is
/// what the stored sectors hold there.
pub proof fn law_header_patches_are_stored(
    disc: Seq<u8>,
    disc_size: u64,
    plan: DiscPlan,
    p: int,
    i: int,
    a: int,
)
    requires
        plan_fault(plan, plan_runs(plan)) is None,
        0 <= p < plan.partitions@.len(),
        decides(patch_views(plan.partitions@[p].header_patches@), i, a),
    ensures
        reads(
            plan_sectors(disc, disc_size, plan),
            a,
            plan.partitions@[p].header_patches@[i].1@[a
                - plan.partitions@[p].header_patches@[i].0],
        ),
{
    let pp = plan.partitions@[p];
    let patches = patch_views(pp.header_patches@);
    lemma_partition_faults_none(plan.partitions@, plan_runs(plan), 0, p);
    lemma_header_patches_ok(
        patches,
        p,
        pp.start_sector * 0x8000,
        pp.data_start_sector * 0x8000,
        0,
        i,
    );
    let s = a / 0x8000;
    assert(pp.start_sector <= s < pp.data_start_sector);
    lemma_plan_holds_header(disc, disc_size, plan, p, s);
    lemma_patched_byte(disc, disc_size, patches, i, a);
    lemma_reads(
        plan_sectors(disc, disc_size, plan),
        patched_sector(disc, disc_size, patches, s),
        a,
    );
}

/// The disc offset of data offset `l` of a partition.
pub open spec fn disc_offset(pp: PartitionPlan, l: int) -> int {
    (pp.data_start_sector + l / 0x7C00) * 0x8000 + 0x400 + l % 0x7C00
}

/// The edits of an accepted plan stay inside the groups that are stored.
proof fn lemma_edits_in_groups(plan: DiscPlan, p: int)
    requires
        plan_sane(plan),
        plan_fault(plan, plan_runs(plan)) is None,
        0 <= p < plan.partitions@.len(),
    ensures
        edits_in_groups(patch_views(plan.partitions@[p].edits@)),
        forall|i: int, l: int|
            0 <= i < plan.partitions@[p].edits@.len() && #[trigger] covers(
                patch_views(plan.partitions@[p].edits@)[i],
                l,
            ) ==> runs_store(group_runs_of(plan.partitions@[p]), l / 0x7C00 / 64) && l / 0x7C00 / 64
                <= u32::MAX,
{
    let pp = plan.partitions@[p];
    let edits = patch_views(pp.edits@);
    let runs = group_runs_of(pp);
    lemma_partition_faults_none(plan.partitions@, plan_runs(plan), 0, p);
    assert(plan_runs(plan)[p] == runs);
    lemma_runs_sane(pp);
    assert forall|i: int| 0 <= i < edits.len() implies (#[trigger] edits[i]).1.len() == 0
        || edits[i].0 + edits[i].1.len() <= 0x1_0000_0000 * 64 * 0x7C00 by {
        lemma_edits_ok(edits, runs, p, 0, i);
        if edits[i].1.len() > 0 {
            lemma_edit_last(pp, runs, edits[i].0 as int, edits[i].1.len() as int);
        }
    }
    assert forall|i: int, l: int|
        0 <= i < edits.len() && #[trigger] covers(edits[i], l) implies runs_store(
        runs,
        l / 0x7C00 / 64,
    ) && l / 0x7C00 / 64 <= u32::MAX by {
        lemma_edits_ok(edits, runs, p, 0, i);
        let off = edits[i].0 as int;
        let len = edits[i].1.len() as int;
        lemma_edit_last(pp, runs, off, len);
        assert(saturated(off, len - 1) == off + len - 1);
        let g = l / 0x7C00 / 64;
        assert(off / 0x7C00 <= l / 0x7C00 <= (off + len - 1) / 0x7C00);
        lemma_stored_upto(runs, off / 0x7C00 / 64, (off + len - 1) / 0x7C00 / 64, g);
        let r = choose|r: int| 0 <= r < runs.len() && run_stores(#[trigger] runs[r], g);
        assert(run_stores(runs[r], g));
    }
}

/// Whether an edit covers data offset `l`.
pub open spec fn covers(edit: (u64, Seq<u8>), l: int) -> bool {
    edit.0 <= l < edit.0 + edit.1.len()
}

proof fn lemma_edit_last(pp: PartitionPlan, runs: Seq<GroupRun>, off: int, len: int)
    requires
        runs_sane(pp, runs),
        edit_unstored(runs, off, len) is None,
        0 <= off <= u64::MAX,
        len > 0,
    ensures
        off + len <= 0x1_0000_0000 * 64 * 0x7C00,
{
    let end = saturated(off, len - 1) as int;
    let last = end / 0x7C00 / 64;
    assert(off / 0x7C00 <= end / 0x7C00);
    lemma_stored_upto(runs, off / 0x7C00 / 64, last, last);
    let r = choose|r: int| 0 <= r < runs.len() && run_stores(#[trigger] runs[r], last);
    assert(run_stores(runs[r], last));
}

/// No edit of an accepted plan is lost: each of its bytes that no later one covers and that lies
/// in the partition's data is what the stored sectors hold there.
pub proof fn law_edits_are_stored(
    disc: Seq<u8>,
    disc_size: u64,
    plan: DiscPlan,
    p: int,
    i: int,
    l: int,
)
    requires
        plan_sane(plan),
        plan_fault(plan, plan_runs(plan)) is None,
        0 <= p < plan.partitions@.len(),
        decides(patch_views(plan.partitions@[p].edits@), i, l),
        l / 0x7C00 < data_sectors(plan.partitions@[p]),
    ensures
        reads(
            plan_sectors(disc, disc_size, plan),
            disc_offset(plan.partitions@[p], l),
            plan.partitions@[p].edits@[i].1@[l - plan.partitions@[p].edits@[i].0],
        ),
{
    let pp = plan.partitions@[p];
    let edits = patch_views(pp.edits@);
    lemma_edits_in_groups(plan, p);
    assert(covers(edits[i], l));
    let c = l / 0x7C00;
    let g = c / 64;
    let k = c % 64;
    let b = 0x400 + l % 0x7C00;
    assert(c == g * 64 + k);
    assert(data_offset(g, k, b) == l);
    let a = disc_offset(pp, l);
    assert(a / 0x8000 == pp.data_start_sector + c && a % 0x8000 == b);
    lemma_plan_holds_cluster(disc, disc_size, plan, p, g, k);
    lemma_stored_cluster(disc, disc_size, pp, g, k, b);
    lemma_decides(
        edits,
        i,
        edits.len() as int,
        l,
        group_cluster(disc, disc_size, pp, g, k)[b],
    );
    lemma_reads(
        plan_sectors(disc, disc_size, plan),
        stored_group(disc, disc_size, pp, g)[k],
        a,
    );
}

proof fn lemma_laid_bare(patches: Seq<(u64, Seq<u8>)>, n: int, a: int, base: u8)
    requires
        0 <= n <= patches.len(),
        forall|j: int| 0 <= j < patches.len() ==> !covers(#[trigger] patches[j], a),
    ensures
        laid(patches, n, a, base) == base,
    decreases n,
{
    if n > 0 {
        assert(!covers(patches[n - 1], a));
        lemma_laid_bare(patches, n - 1, a, base);
    }
}

/// What an accepted plan does not edit is stored as it stands on the disc: each byte of a stored
/// group that no edit covers is what the stored sectors hold there.
pub proof fn law_unedited_data_is_stored(
    disc: Seq<u8>,
    disc_size: u64,
    plan: DiscPlan,
    p: int,
    l: int,
)
    requires
        plan_sane(plan),
        plan_fault(plan, plan_runs(plan)) is None,
        0 <= p < plan.partitions@.len(),
        0 <= l,
        l / 0x7C00 < data_sectors(plan.partitions@[p]),
        runs_store(group_runs_of(plan.partitions@[p]), l / 0x7C00 / 64),
        forall|j: int|
            0 <= j < plan.partitions@[p].edits@.len() ==> !covers(
                #[trigger] patch_views(plan.partitions@[p].edits@)[j],
                l,
            ),
        disc_offset(plan.partitions@[p], l) < disc_size,
    ensures
        reads(
            plan_sectors(disc, disc_size, plan),
            disc_offset(plan.partitions@[p], l),
            disc[disc_offset(plan.partitions@[p], l)],
        ),
{
    let pp = plan.partitions@[p];
    let edits = patch_views(pp.edits@);
    lemma_edits_in_groups(plan, p);
    let c = l / 0x7C00;
    let g = c / 64;
    let k = c % 64;
    let b = 0x400 + l % 0x7C00;
    assert(c == g * 64 + k);
    assert(data_offset(g, k, b) == l);
    let a = disc_offset(pp, l);
    assert(a / 0x8000 == pp.data_start_sector + c && a % 0x8000 == b);
    lemma_plan_holds_cluster(disc, disc_size, plan, p, g, k);
    lemma_stored_cluster(disc, disc_size, pp, g, k, b);
    lemma_laid_bare(
        edits,
        edits.len() as int,
        l,
        group_cluster(disc, disc_size, pp, g, k)[b],
    );
    lemma_reads(
        plan_sectors(disc, disc_size, plan),
        stored_group(disc, disc_size, pp, g)[k],
        a,
    );
}

/// Whether `part` is the data of a partition as the disc holds it, the hash blocks left out.
pub open spec fn data_of(disc: Seq<u8>, disc_size: u64, pp: PartitionPlan, part: Seq<u8>) -> bool {
    forall|l: int|
        0 <= l < data_sectors(pp) * 0x7C00 ==> disc_offset(pp, l) < disc_size && #[trigger] part[l]
            == disc[disc_offset(pp, l)]
}

/// The files of a disc read back: in the sectors that a planned disc stores, each byte of the boot
/// structures and of every file stands at its old place, unless a video patch covers it. The one
/// exception is made by trimming, and what it leaves out is zero.
pub proof fn law_files_read_back(
    source: &SourceDisc,
    disc: Seq<u8>,
    disc_size: u64,
    part: Seq<u8>,
    h3_table: Seq<u8>,
    raw_fst: Seq<u8>,
    patches: VideoPatches,
    skip_gaps: bool,
    trim_zeros: bool,
    plan: DiscPlan,
    extent: int,
    at: int,
)
    requires
        disc_planned(
            source,
            disc,
            part,
            h3_table,
            raw_fst,
            patches,
            skip_gaps,
            trim_zeros,
            plan,
        ),
        plan_fault(plan, plan_runs(plan)) is None,
        source.data_span().start_sector <= source.data_span().data_start_sector,
        source.span_ordered(),
        source.region_clusters() + 63 <= u32::MAX,
        data_of(disc, disc_size, plan.partitions@[0], part),
        0 <= extent < (boot_extents(part) + fst_files(raw_fst)).len(),
        ({
            let (off, len) = (boot_extents(part) + fst_files(raw_fst))[extent];
            off <= at < off + len
        }),
        forall|j: int|
            0 <= j < plan.partitions@[0].edits@.len() ==> !covers(
                #[trigger] patch_views(plan.partitions@[0].edits@)[j],
                at,
            ),
    ensures
        reads(
            plan_sectors(disc, disc_size, plan),
            disc_offset(plan.partitions@[0], at),
            part[at],
        ) || (trim_zeros && part[at] == 0),
{
    let pp = plan.partitions@[0];
    let files = fst_files(raw_fst);
    let clusters = source.region_clusters();
    law_planned_disc_is_sane(
        source,
        disc,
        part,
        h3_table,
        raw_fst,
        patches,
        skip_gaps,
        trim_zeros,
        plan,
    );
    law_data_is_stored_or_zero(
        part,
        files,
        clusters,
        skip_gaps,
        trim_zeros,
        pp.stored_data_groups@,
        extent,
        at,
    );
    if !(trim_zeros && part[at] == 0) {
        let g = at / 0x1F_0000;
        let runs = group_runs_of(pp);
        let i = choose|i: int|
            0 <= i < pp.stored_data_groups@.len() && (#[trigger] pp.stored_data_groups@[i]).0 <= g
                < pp.stored_data_groups@[i].0 + pp.stored_data_groups@[i].1;
        assert(run_stores(runs[i], g));
        assert(g == at / 0x7C00 / 64);
        assert(data_sectors(pp) == clusters);
        let (off, len) = (boot_extents(part) + files)[extent];
        assert(extent_fits(off, len, (clusters * 0x7C00) as u64));
        assert(at < clusters * 0x7C00);
        assert(part[at] == disc[disc_offset(pp, at)]);
        law_unedited_data_is_stored(disc, disc_size, plan, 0, at);
    }
}

/// An edit lands where it says: byte `b` of cluster `k` of group `g` is data byte
/// `(64 * g + k) * 0x7C00 + b - 0x400`, and the last edit that covers it decides what it becomes.
/// What no edit covers, and every hash block, stays.
pub proof fn law_edits_land_at_their_offsets(
    cs: Seq<Seq<u8>>,
    g: u32,
    edits: Seq<(u64, Seq<u8>)>,
    k: int,
    b: int,
    i: int,
)
    requires
        cs.len() == 64,
        forall|m: int| 0 <= m < 64 ==> (#[trigger] cs[m]).len() == 0x8000,
        forall|e: int|
            0 <= e < edits.len() ==> (#[trigger] edits[e]).0 + edits[e].1.len() <= 0x1_0000_0000
                * 64 * 0x7C00,
        0 <= k < 64,
        0x400 <= b < 0x8000,
    ensures
        ({
            let at = (g * 64 + k) * 0x7C00 + b - 0x400;
            let after = edited(cs, g, edits, edits.len() as int)[k];
            &&& after.len() == 0x8000
            &&& 0 <= i < edits.len() && edits[i].0 <= at < edits[i].0 + edits[i].1.len() && (forall|
                e: int,
            |
                i < e < edits.len() ==> !((#[trigger] edits[e]).0 <= at < edits[e].0
                    + edits[e].1.len())) ==> after[b] == edits[i].1[at - edits[i].0]
            &&& (forall|e: int|
                0 <= e < edits.len() ==> !((#[trigger] edits[e]).0 <= at < edits[e].0
                    + edits[e].1.len())) ==> after[b] == cs[k][b]
        }),
{
    let n = edits.len() as int;
    let at = data_offset(g as int, k, b);
    lemma_edited(cs, g, edits, n, k, b);
    if decides(edits, i, at) {
        lemma_decides(edits, i, n, at, cs[k][b]);
    }
    if forall|e: int|
        0 <= e < edits.len() ==> !((#[trigger] edits[e]).0 <= at < edits[e].0 + edits[e].1.len()) {
        lemma_undecided(edits, n, at, cs[k][b]);
    }
}

proof fn lemma_undecided(patches: Seq<(u64, Seq<u8>)>, n: int, a: int, base: u8)
    requires
        0 <= n <= patches.len(),
        forall|e: int|
            0 <= e < patches.len() ==> !((#[trigger] patches[e]).0 <= a < patches[e].0
                + patches[e].1.len()),
    ensures
        laid(patches, n, a, base) == base,
    decreases n,
{
    if n > 0 {
        lemma_undecided(patches, n - 1, a, base);
        assert(!(patches[n - 1].0 <= a < patches[n - 1].0 + patches[n - 1].1.len()));
    }
}

/// A stored sector of a finished stream is sealed with its number: it decrypts to what it held
/// under the one IV whose last four bytes spell the number that the header's ranges list for it,
/// all 32 bits of it, behind twelve zeros.
pub proof fn law_stream_is_sealed_with_sector_numbers(
    htk: Seq<u8>,
    disc: Seq<u8>,
    disc_size: u64,
    plan: DiscPlan,
    i: int,
    iv: Seq<u8>,
)
    requires
        plan_sane(plan),
        all_unsealable(htk, plan_sectors(disc, disc_size, plan)),
        plan_ranges(plan).len() <= 61,
        0 <= i < plan_sectors(disc, disc_size, plan).len(),
        iv.len() == 16,
        forall|k: int| 0 <= k < 12 ==> #[trigger] iv[k] == 0,
        iv[12] * 0x100_0000 + iv[13] * 0x1_0000 + iv[14] * 0x100 + iv[15] == covered(
            plan_ranges(plan),
            plan_ranges(plan).len() as int,
        )[i],
    ensures
        nfs_stream(htk, disc, disc_size, plan).len() == 0x200 + plan_sectors(
            disc,
            disc_size,
            plan,
        ).len() * 0x8000,
        cbc_decrypted(
            htk,
            iv,
            nfs_stream(htk, disc, disc_size, plan).subrange(
                0x200 + i * 0x8000,
                0x200 + i * 0x8000 + 0x8000,
            ),
        ) == plan_sectors(disc, disc_size, plan)[i].data,
        plan_sectors(disc, disc_size, plan)[i].number == iv[12] * 0x100_0000 + iv[13] * 0x1_0000
            + iv[14] * 0x100 + iv[15],
{
    let number = covered(plan_ranges(plan), plan_ranges(plan).len() as int)[i];
    lemma_iv_is_spelt(number, iv);
    law_header_size(plan_ranges(plan));
    law_nfs_reads_back(htk, disc, disc_size, plan, i);
}

/// The sectors that a list of ranges covers are those of each range in turn, one after another
/// from its start.
pub proof fn law_ranges_cover_their_sectors(ranges: Seq<LbaRange>, n: int, r: int, i: int)
    requires
        0 <= r < n <= ranges.len(),
        0 <= i < ranges[r].num_sectors,
        ranges[r].start_sector + ranges[r].num_sectors <= 0x1_0000_0000,
    ensures
        covered(ranges, n).len() == sector_sum(ranges, n),
        0 <= sector_sum(ranges, r) + i < covered(ranges, n).len(),
        covered(ranges, n)[sector_sum(ranges, r) + i] == ranges[r].start_sector + i,
    decreases n,
{
    lemma_covered_len(ranges, n);
    lemma_covered_len(ranges, n - 1);
    lemma_covered_len(ranges, r);
    if r < n - 1 {
        law_ranges_cover_their_sectors(ranges, n - 1, r, i);
    } else {
        assert(covered(ranges, n)[sector_sum(ranges, r) + i] == range_numbers(ranges[r])[i]);
    }
}

proof fn lemma_covered_len(ranges: Seq<LbaRange>, n: int)
    requires
        0 <= n,
    ensures
        covered(ranges, n).len() == sector_sum(ranges, n),
        sector_sum(ranges, n) >= 0,
    decreases n,
{
    if n > 0 {
        lemma_covered_len(ranges, n - 1);
    }
}

proof fn lemma_unpatched_byte(
    disc: Seq<u8>,
    disc_size: u64,
    patches: Seq<(u64, Seq<u8>)>,
    a: int,
)
    requires
        0 <= a,
        forall|j: int| 0 <= j < patches.len() ==> !covers(#[trigger] patches[j], a),
    ensures
        patched_sector(disc, disc_size, patches, a / 0x8000)[a % 0x8000] == (if a < disc_size {
            disc[a]
        } else {
            0u8
        }),
{
    let s = a / 0x8000;
    let sector = padded_sector(disc, disc_size, s * 0x8000, 0x8000);
    lemma_patched(sector, s * 0x8000, patches, patches.len() as int);
    assert(s * 0x8000 + a % 0x8000 == a);
    lemma_laid_bare(patches, patches.len() as int, a, sector[a % 0x8000]);
}

/// What a plan does not patch of the disc's first sector, of its partition table and of the
/// headers of its partitions is stored as it stands on the disc; past the disc's size it is zero.
pub proof fn law_unpatched_headers_are_stored(
    disc: Seq<u8>,
    disc_size: u64,
    plan: DiscPlan,
    p: int,
    a: int,
)
    requires
        0 <= a,
    ensures
        (a < 0x8000 || 0x4_0000 <= a < 0x5_0000) && (forall|j: int|
            0 <= j < plan.disc_patches@.len() ==> !covers(
                #[trigger] patch_views(plan.disc_patches@)[j],
                a,
            )) ==> reads(
            plan_sectors(disc, disc_size, plan),
            a,
            if a < disc_size {
                disc[a]
            } else {
                0u8
            },
        ),
        0 <= p < plan.partitions@.len() && plan.partitions@[p].start_sector * 0x8000 <= a
            < plan.partitions@[p].data_start_sector * 0x8000 && (forall|j: int|
            0 <= j < plan.partitions@[p].header_patches@.len() ==> !covers(
                #[trigger] patch_views(plan.partitions@[p].header_patches@)[j],
                a,
            )) ==> reads(
            plan_sectors(disc, disc_size, plan),
            a,
            if a < disc_size {
                disc[a]
            } else {
                0u8
            },
        ),
{
    let s = a / 0x8000;
    let list = plan_sectors(disc, disc_size, plan);
    let patches = patch_views(plan.disc_patches@);
    if (a < 0x8000 || 0x4_0000 <= a < 0x5_0000) && (forall|j: int|
        0 <= j < plan.disc_patches@.len() ==> !covers(#[trigger] patches[j], a)) {
        assert(s == 0 || s == 8 || s == 9);
        lemma_plan_holds_disc(disc, disc_size, plan, s);
        lemma_unpatched_byte(disc, disc_size, patches, a);
        lemma_reads(list, patched_sector(disc, disc_size, patches, s), a);
    }
    let headers = patch_views(plan.partitions@[p].header_patches@);
    if 0 <= p < plan.partitions@.len() && plan.partitions@[p].start_sector * 0x8000 <= a
        < plan.partitions@[p].data_start_sector * 0x8000 && (forall|j: int|
        0 <= j < plan.partitions@[p].header_patches@.len() ==> !covers(
            #[trigger] headers[j],
            a,
        )) {
        assert(plan.partitions@[p].start_sector <= s < plan.partitions@[p].data_start_sector);
        lemma_plan_holds_header(disc, disc_size, plan, p, s);
        lemma_unpatched_byte(disc, disc_size, headers, a);
        lemma_reads(list, patched_sector(disc, disc_size, headers, s), a);
    }
}

/// A stored group carries the hashes of what it holds: each of the 31 at the front of a cluster
/// is that of one of its 0x400-byte sub-blocks, each of the 8 at 0x280 that of the hashes at the
/// front of a cluster of its subgroup, and each of the 8 at 0x340 that of the hashes at 0x280 of
/// a subgroup. Clusters past the partition's data count as zeros.
pub proof fn law_stored_groups_carry_their_hashes(
    disc: Seq<u8>,
    disc_size: u64,
    pp: PartitionPlan,
    g: int,
    k: int,
    i: int,
    s: int,
    j: int,
)
    requires
        edits_in_groups(patch_views(pp.edits@)),
        0 <= g <= u32::MAX,
        0 <= k < 64,
        0 <= i < 31,
        0 <= s < 8,
        0 <= j < 20,
    ensures
        ({
            let group = stored_group(disc, disc_size, pp, g);
            let c = group[k];
            &&& group.len() == 64
            &&& c.len() == 0x8000
            &&& c[i * 20 + j] == sha1_of(c.subrange(0x400 + i * 0x400, 0x800 + i * 0x400))[j]
            &&& c[0x280 + s * 20 + j] == sha1_of(group[k - k % 8 + s].subrange(0, 620))[j]
            &&& c[0x340 + s * 20 + j] == sha1_of(group[s * 8].subrange(0x280, 0x320))[j]
            &&& data_sectors(pp) <= g * 64 + k && pp.edits@.len() == 0 ==> forall|b: int|
                0x400 <= b < 0x8000 ==> #[trigger] c[b] == 0
        }),
{
    let cs = group_clusters(disc, disc_size, pp, g);
    let edits = patch_views(pp.edits@);
    let inner = edited(cs, g as u32, edits, edits.len() as int);
    let group = stored_group(disc, disc_size, pp, g);
    assert(whole_group(cs));
    lemma_edited(cs, g as u32, edits, edits.len() as int, k, 0x400);
    assert(group == rebuilt(inner));
    law_hashes_stand_in_their_places(inner, k, i, s, j, 0x400);
    law_rebuilt_group_verifies(inner, k);
    let c = group[k];
    assert(c.subrange(0x400 + i * 0x400, 0x800 + i * 0x400) =~= inner[k].subrange(
        0x400 + i * 0x400,
        0x800 + i * 0x400,
    )) by {
        assert forall|b: int| 0x400 <= b < 0x8000 implies #[trigger] c[b] == inner[k][b] by {
            assert(c.subrange(0x400, 0x8000)[b - 0x400] == inner[k].subrange(0x400, 0x8000)[b
                - 0x400]);
        }
    }
    if data_sectors(pp) <= g * 64 + k && pp.edits@.len() == 0 {
        assert forall|b: int| 0x400 <= b < 0x8000 implies #[trigger] c[b] == 0 by {
            lemma_stored_cluster(disc, disc_size, pp, g, k, b);
            lemma_laid_bare(edits, 0, data_offset(g, k, b), group_cluster(
                disc,
                disc_size,
                pp,
                g,
                k,
            )[b]);
        }
    }
}

} // verus!

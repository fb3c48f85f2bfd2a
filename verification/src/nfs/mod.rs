//! The NFS encoder.
//!
//! It turns a decrypted Wii disc into the stream that is split into the `hif_%06d.nfs` files: a
//! header that lists runs of logical sectors, then those sectors, each encrypted on its own with
//! the base title's key. Sectors outside the runs read as zeros, so the gaps between the files
//! of a disc take no room.

pub mod crypto;
pub mod eggs;
pub mod read_back;
pub mod split;

use vstd::prelude::*;

use crate::aes_cbc::{cbc_decrypted, cbc_encrypted};
use crate::disc_patch::{
    apply_edits_to_group, cluster_of, cluster_views, disc_planned, edited, patch_views,
    patches_addressable, rebuilt, recompute_group, Cluster, DiscPlan, PartitionPlan,
};
use crate::error::{Error, LimitFault, Result};
use crate::input::{group_count, DecryptedDisc, ReadSeek, SourceDisc};
use crate::io::ByteWriter;
use crate::nfs::crypto::{encrypt_sector, sector_iv_of, whole_blocks};
use crate::nfs::eggs::{eggs_bytes, law_header_size, sector_sum, EggsHeader, LbaRange, MAX_RANGES};
use crate::nfs::split::{files_for, NFS_FILE_SIZE};
use crate::util::{copy_range, zero_bytes, zeros};
use crate::video::VideoPatches;

verus! {

/// What building an NFS stream produced.
#[derive(Debug)]
pub struct NfsStats {
    /// Number of `hif_*.nfs` files.
    pub file_count: u32,
    /// Bytes of the stream, the header counted.
    pub total_bytes: u64,
    /// The ranges of the header.
    pub ranges: Vec<LbaRange>,
}

/// A run of hash groups of a partition.
#[derive(Clone, Copy, Debug, PartialEq, Eq, Structural)]
pub struct GroupRun {
    /// First group.
    pub first_group: u32,
    /// Number of groups.
    pub num_groups: u32,
}

/// Number of sectors in a partition's data.
pub open spec fn data_sectors(pp: PartitionPlan) -> int {
    pp.data_end_sector - pp.data_start_sector
}

/// The runs of hash groups to store of a partition.
pub open spec fn group_runs_of(pp: PartitionPlan) -> Seq<GroupRun> {
    if pp.stored_data_groups@.len() == 0 {
        seq![GroupRun { first_group: 0, num_groups: ((data_sectors(pp) + 63) / 64) as u32 }]
    } else {
        Seq::new(
            pp.stored_data_groups@.len(),
            |i: int|
                GroupRun {
                    first_group: pp.stored_data_groups@[i].0,
                    num_groups: pp.stored_data_groups@[i].1,
                },
        )
    }
}

/// The runs of hash groups to store of a partition: those of the plan, or every group where the
/// plan lists none.
pub fn group_runs(pp: &PartitionPlan) -> (runs: Vec<GroupRun>)
    requires
        pp.data_start_sector <= pp.data_end_sector,
    ensures
        runs@ == group_runs_of(*pp),
{
    let mut runs: Vec<GroupRun> = Vec::new();
    if pp.stored_data_groups.len() == 0 {
        let total: u64 = (pp.data_end_sector - pp.data_start_sector) as u64;
        runs.push(GroupRun { first_group: 0, num_groups: ((total + 63) / 64) as u32 });
        assert(runs@ =~= group_runs_of(*pp));
        return runs;
    }
    let mut i: usize = 0;
    while i < pp.stored_data_groups.len()
        invariant
            i <= pp.stored_data_groups@.len(),
            pp.stored_data_groups@.len() > 0,
            runs@ == group_runs_of(*pp).subrange(0, i as int),
        decreases pp.stored_data_groups@.len() - i,
    {
        let run: (u32, u32) = pp.stored_data_groups[i];
        runs.push(GroupRun { first_group: run.0, num_groups: run.1 });
        i += 1;
        assert(runs@ =~= group_runs_of(*pp).subrange(0, i as int));
    }
    assert(runs@ =~= group_runs_of(*pp));
    runs
}

/// The disc-level ranges: the disc header, and the partition table with the region information.
pub open spec fn disc_ranges() -> Seq<LbaRange> {
    seq![
        LbaRange { start_sector: 0, num_sectors: 1 },
        LbaRange { start_sector: 8, num_sectors: 2 },
    ]
}

/// The disc-level ranges that every stream holds.
pub fn disc_header_ranges() -> (r: Vec<LbaRange>)
    ensures
        r@ == disc_ranges(),
{
    let mut r: Vec<LbaRange> = Vec::new();
    r.push(LbaRange { start_sector: 0, num_sectors: 1 });
    r.push(LbaRange { start_sector: 8, num_sectors: 2 });
    assert(r@ =~= disc_ranges());
    r
}

/// A sector that starts at disc offset `sec_start`, with `bytes` at disc offset `off` laid over.
pub open spec fn overlaid(sector: Seq<u8>, sec_start: int, off: int, bytes: Seq<u8>) -> Seq<u8> {
    Seq::new(
        sector.len(),
        |i: int|
            if off <= sec_start + i < off + bytes.len() {
                bytes[sec_start + i - off]
            } else {
                sector[i]
            },
    )
}

/// Lay `bytes`, which stand at disc offset `patch_off`, over a sector that starts at disc offset
/// `sec_start`. What does not overlap is ignored.
pub fn splice(sector: &mut Vec<u8>, sec_start: u64, patch_off: u64, bytes: &[u8])
    requires
        sec_start + old(sector)@.len() <= u64::MAX,
        patch_off + bytes@.len() <= u64::MAX,
    ensures
        final(sector)@ == overlaid(old(sector)@, sec_start as int, patch_off as int, bytes@),
{
    let ghost before = sector@;
    let sec_end: u64 = sec_start + sector.len() as u64;
    let patch_end: u64 = patch_off + bytes.len() as u64;
    let from: u64 = if sec_start > patch_off {
        sec_start
    } else {
        patch_off
    };
    let to: u64 = if sec_end < patch_end {
        sec_end
    } else {
        patch_end
    };
    let mut at: u64 = from;
    while at < to
        invariant
            from == (if sec_start > patch_off {
                sec_start
            } else {
                patch_off
            }),
            to == (if sec_start + before.len() < patch_off + bytes@.len() {
                sec_start + before.len()
            } else {
                patch_off + bytes@.len()
            }),
            from <= at,
            from > to ==> at == from,
            from <= to ==> at <= to,
            sector@.len() == before.len(),
            sec_start + before.len() <= u64::MAX,
            before.len() <= usize::MAX,
            bytes@.len() <= usize::MAX,
            forall|i: int|
                0 <= i < before.len() ==> #[trigger] sector@[i] == if from <= sec_start + i < at {
                    bytes@[sec_start + i - patch_off]
                } else {
                    before[i]
                },
        decreases to - at,
    {
        sector.set((at - sec_start) as usize, bytes[(at - patch_off) as usize]);
        at += 1;
    }
    assert(sector@ =~= overlaid(before, sec_start as int, patch_off as int, bytes@));
}

/// The sector at disc offset `offset`; past the disc's size it is zero.
pub open spec fn padded_sector(disc: Seq<u8>, disc_size: u64, offset: int, len: int) -> Seq<u8> {
    Seq::new(
        len as nat,
        |i: int|
            if offset + i < disc_size {
                disc[offset + i]
            } else {
                0
            },
    )
}

/// Whether what a sector holds of the disc can be read.
pub open spec fn sector_readable(disc: Seq<u8>, disc_size: u64, offset: int, len: int) -> bool {
    offset >= disc_size || (if offset + len <= disc_size {
        offset + len
    } else {
        disc_size as int
    }) <= disc.len()
}

/// Read the sector at `offset`; what lies past the disc's size is zero.
pub fn read_sector<D: ReadSeek>(disc: &mut D, offset: u64, disc_size: u64, out: &mut Vec<u8>) -> (r:
    Result<()>)
    ensures
        final(disc).bytes() == old(disc).bytes(),
        final(disc).dependable() == old(disc).dependable(),
        final(out)@.len() == old(out)@.len(),
        match r {
            Ok(_) => {
                &&& sector_readable(
                    old(disc).bytes(),
                    disc_size,
                    offset as int,
                    old(out)@.len() as int,
                )
                &&& final(out)@ == padded_sector(
                    old(disc).bytes(),
                    disc_size,
                    offset as int,
                    old(out)@.len() as int,
                )
            },
            Err(e) => e is Io && !(old(disc).dependable() && sector_readable(
                old(disc).bytes(),
                disc_size,
                offset as int,
                old(out)@.len() as int,
            )),
        },
{
    let len: usize = out.len();
    *out = zero_bytes(len);
    if offset >= disc_size {
        assert(out@ =~= padded_sector(disc.bytes(), disc_size, offset as int, len as int));
        return Ok(());
    }
    let left: u64 = disc_size - offset;
    let take: usize = if left < len as u64 {
        left as usize
    } else {
        len
    };
    let data: Vec<u8> = match disc.read_at(offset, take) {
        Ok(data) => data,
        Err(e) => return Err(e),
    };
    crate::util::write_at(out, 0, data.as_slice());
    assert(out@ =~= padded_sector(old(disc).bytes(), disc_size, offset as int, len as int));
    Ok(())
}

/// `a + b`, no more than the largest offset.
pub open spec fn saturated(a: int, b: int) -> u64 {
    if a + b <= u64::MAX {
        (a + b) as u64
    } else {
        u64::MAX
    }
}

/// Whether a disc patch lies inside one of the disc-level ranges; an empty one always does.
pub open spec fn disc_patch_contained(off: int, len: int) -> bool {
    len == 0 || off + len <= 0x8000 || (0x4_0000 <= off && off + len <= 0x5_0000)
}

/// The first disc patch from `i` on that would be lost.
pub open spec fn disc_patch_fault(patches: Seq<(u64, Seq<u8>)>, i: int) -> Option<LimitFault>
    decreases patches.len() - i,
{
    if i < 0 || i >= patches.len() {
        None
    } else if !disc_patch_contained(patches[i].0 as int, patches[i].1.len() as int) {
        Some(
            LimitFault::DiscPatch {
                start: patches[i].0,
                end: saturated(patches[i].0 as int, patches[i].1.len() as int),
            },
        )
    } else {
        disc_patch_fault(patches, i + 1)
    }
}

/// The first header patch from `i` on that would be lost.
pub open spec fn header_patch_fault(
    patches: Seq<(u64, Seq<u8>)>,
    part: int,
    start: int,
    end: int,
    i: int,
) -> Option<LimitFault>
    decreases patches.len() - i,
{
    if i < 0 || i >= patches.len() {
        None
    } else if patches[i].1.len() > 0 && (patches[i].0 < start || patches[i].0 + patches[i].1.len()
        > end) {
        Some(
            LimitFault::HeaderPatch {
                partition: part as usize,
                start: patches[i].0,
                end: saturated(patches[i].0 as int, patches[i].1.len() as int),
                region_start: start as u64,
                region_end: end as u64,
            },
        )
    } else {
        header_patch_fault(patches, part, start, end, i + 1)
    }
}

/// Whether a run stores hash group `g`.
pub open spec fn run_stores(run: GroupRun, g: int) -> bool {
    run.first_group <= g < run.first_group + run.num_groups
}

/// Whether one of the runs stores hash group `g`.
pub open spec fn runs_store(runs: Seq<GroupRun>, g: int) -> bool {
    exists|i: int| 0 <= i < runs.len() && run_stores(#[trigger] runs[i], g)
}

/// The first hash group from `g` up to `last` that is not stored.
pub open spec fn unstored(runs: Seq<GroupRun>, g: int, last: int) -> Option<int>
    decreases last + 1 - g,
{
    if g > last {
        None
    } else if !runs_store(runs, g) {
        Some(g)
    } else {
        unstored(runs, g + 1, last)
    }
}

/// The first hash group of an edit that is not stored.
pub open spec fn edit_unstored(runs: Seq<GroupRun>, off: int, len: int) -> Option<int> {
    if len == 0 {
        None
    } else {
        unstored(
            runs,
            off / 0x7C00 / 64,
            saturated(off, len - 1) as int / 0x7C00 / 64,
        )
    }
}

/// The first edit from `i` on that would be lost.
pub open spec fn edit_fault(
    edits: Seq<(u64, Seq<u8>)>,
    runs: Seq<GroupRun>,
    part: int,
    i: int,
) -> Option<LimitFault>
    decreases edits.len() - i,
{
    if i < 0 || i >= edits.len() {
        None
    } else {
        match edit_unstored(runs, edits[i].0 as int, edits[i].1.len() as int) {
            Some(g) => Some(
                LimitFault::Edit {
                    partition: part as usize,
                    offset: edits[i].0,
                    len: edits[i].1.len() as usize,
                    group: g as u64,
                },
            ),
            None => edit_fault(edits, runs, part, i + 1),
        }
    }
}

/// The first patch of a partition that would be lost.
pub open spec fn partition_fault(pp: PartitionPlan, runs: Seq<GroupRun>, part: int) -> Option<
    LimitFault,
> {
    match header_patch_fault(
        patch_views(pp.header_patches@),
        part,
        pp.start_sector * 0x8000,
        pp.data_start_sector * 0x8000,
        0,
    ) {
        Some(fault) => Some(fault),
        None => edit_fault(patch_views(pp.edits@), runs, part, 0),
    }
}

/// The first patch of the partitions from `i` on that would be lost.
pub open spec fn partitions_fault(
    partitions: Seq<PartitionPlan>,
    runs: Seq<Seq<GroupRun>>,
    i: int,
) -> Option<LimitFault>
    decreases partitions.len() - i,
{
    if i < 0 || i >= partitions.len() || i >= runs.len() {
        None
    } else {
        match partition_fault(partitions[i], runs[i], i) {
            Some(fault) => Some(fault),
            None => partitions_fault(partitions, runs, i + 1),
        }
    }
}

/// The runs of several partitions.
pub open spec fn run_views(runs: Seq<Vec<GroupRun>>) -> Seq<Seq<GroupRun>> {
    Seq::new(runs.len(), |i: int| runs[i]@)
}

/// The runs of every partition of a plan.
pub open spec fn plan_runs(plan: DiscPlan) -> Seq<Seq<GroupRun>> {
    Seq::new(plan.partitions@.len(), |i: int| group_runs_of(plan.partitions@[i]))
}

/// The first patch of a plan that would be lost.
pub open spec fn plan_fault(plan: DiscPlan, runs: Seq<Seq<GroupRun>>) -> Option<LimitFault> {
    match disc_patch_fault(patch_views(plan.disc_patches@), 0) {
        Some(fault) => Some(fault),
        None => partitions_fault(plan.partitions@, runs, 0),
    }
}

/// Whether one of the runs stores hash group `g`.
fn any_stores(runs: &Vec<GroupRun>, g: u64) -> (r: bool)
    ensures
        r == runs_store(runs@, g as int),
{
    let mut i: usize = 0;
    while i < runs.len()
        invariant
            i <= runs@.len(),
            forall|j: int| 0 <= j < i ==> !run_stores(#[trigger] runs@[j], g as int),
        decreases runs@.len() - i,
    {
        let run: GroupRun = runs[i];
        if g >= run.first_group as u64 && g < run.first_group as u64 + run.num_groups as u64 {
            assert(run_stores(runs@[i as int], g as int));
            return true;
        }
        i += 1;
    }
    false
}

/// The first hash group of an edit that is not stored.
fn find_unstored(runs: &Vec<GroupRun>, off: u64, len: usize) -> (r: Option<u64>)
    ensures
        match r {
            Some(g) => edit_unstored(runs@, off as int, len as int) == Some(g as int),
            None => edit_unstored(runs@, off as int, len as int) is None,
        },
{
    if len == 0 {
        return None;
    }
    let last_byte: u64 = off.saturating_add(len as u64 - 1);
    let first: u64 = off / 0x7C00 / 64;
    let last: u64 = last_byte / 0x7C00 / 64;
    let mut g: u64 = first;
    while g <= last
        invariant
            len > 0,
            first == off / 0x7C00 / 64,
            last == saturated(off as int, len - 1) as int / 0x7C00 / 64,
            first <= g <= last + 1,
            unstored(runs@, first as int, last as int) == unstored(runs@, g as int, last as int),
        decreases last + 1 - g,
    {
        if !any_stores(runs, g) {
            return Some(g);
        }
        g += 1;
    }
    None
}

/// Check that every patch of a plan lands in what the stream holds. One that does not would be
/// dropped without a trace, and the image would be wrong.
pub fn verify_patches_contained(plan: &DiscPlan, partition_runs: &Vec<Vec<GroupRun>>) -> (r: Result<
    (),
>)
    ensures
        match r {
            Ok(_) => plan_fault(*plan, run_views(partition_runs@)) is None,
            Err(e) => plan_fault(*plan, run_views(partition_runs@)) matches Some(fault) && e
                == Error::FormatLimit(fault),
        },
{
    let ghost disc_views = patch_views(plan.disc_patches@);
    let mut i: usize = 0;
    while i < plan.disc_patches.len()
        invariant
            i <= plan.disc_patches@.len(),
            disc_views == patch_views(plan.disc_patches@),
            disc_patch_fault(disc_views, 0) == disc_patch_fault(disc_views, i as int),
        decreases plan.disc_patches@.len() - i,
    {
        let off: u64 = plan.disc_patches[i].0;
        let len: usize = plan.disc_patches[i].1.len();
        assert(disc_views[i as int].0 == off && disc_views[i as int].1.len() == len);
        let end: u64 = off.saturating_add(len as u64);
        if len > 0 && !(end <= 0x8000) && !(off >= 0x4_0000 && end <= 0x5_0000) {
            return Err(Error::FormatLimit(LimitFault::DiscPatch { start: off, end }));
        }
        i += 1;
    }
    let ghost views = run_views(partition_runs@);
    let mut p: usize = 0;
    while p < plan.partitions.len() && p < partition_runs.len()
        invariant
            p <= plan.partitions@.len(),
            p <= partition_runs@.len(),
            disc_patch_fault(patch_views(plan.disc_patches@), 0) is None,
            views == run_views(partition_runs@),
            partitions_fault(plan.partitions@, views, 0) == partitions_fault(
                plan.partitions@,
                views,
                p as int,
            ),
        decreases plan.partitions@.len() - p,
    {
        assert(views[p as int] == partition_runs@[p as int]@);
        match verify_partition(&plan.partitions[p], &partition_runs[p], p) {
            Ok(_) => {},
            Err(e) => return Err(e),
        }
        p += 1;
    }
    Ok(())
}

/// Check that every patch of a partition lands in what the stream holds of it.
fn verify_partition(pp: &PartitionPlan, runs: &Vec<GroupRun>, part: usize) -> (r: Result<()>)
    ensures
        match r {
            Ok(_) => partition_fault(*pp, runs@, part as int) is None,
            Err(e) => partition_fault(*pp, runs@, part as int) matches Some(fault) && e
                == Error::FormatLimit(fault),
        },
{
    let start: u64 = pp.start_sector as u64 * 0x8000;
    let end: u64 = pp.data_start_sector as u64 * 0x8000;
    let ghost headers = patch_views(pp.header_patches@);
    let mut i: usize = 0;
    while i < pp.header_patches.len()
        invariant
            i <= pp.header_patches@.len(),
            headers == patch_views(pp.header_patches@),
            start == pp.start_sector * 0x8000,
            end == pp.data_start_sector * 0x8000,
            header_patch_fault(headers, part as int, start as int, end as int, 0)
                == header_patch_fault(headers, part as int, start as int, end as int, i as int),
        decreases pp.header_patches@.len() - i,
    {
        let off: u64 = pp.header_patches[i].0;
        let len: usize = pp.header_patches[i].1.len();
        assert(headers[i as int].0 == off && headers[i as int].1.len() == len);
        let to: u64 = off.saturating_add(len as u64);
        if len > 0 && (off < start || to > end) {
            return Err(
                Error::FormatLimit(
                    LimitFault::HeaderPatch {
                        partition: part,
                        start: off,
                        end: to,
                        region_start: start,
                        region_end: end,
                    },
                ),
            );
        }
        i += 1;
    }
    let ghost edits = patch_views(pp.edits@);
    let mut k: usize = 0;
    while k < pp.edits.len()
        invariant
            k <= pp.edits@.len(),
            edits == patch_views(pp.edits@),
            start == pp.start_sector * 0x8000,
            end == pp.data_start_sector * 0x8000,
            header_patch_fault(
                patch_views(pp.header_patches@),
                part as int,
                start as int,
                end as int,
                0,
            ) is None,
            edit_fault(edits, runs@, part as int, 0) == edit_fault(
                edits,
                runs@,
                part as int,
                k as int,
            ),
        decreases pp.edits@.len() - k,
    {
        let offset: u64 = pp.edits[k].0;
        let len: usize = pp.edits[k].1.len();
        assert(edits[k as int].0 == offset && edits[k as int].1.len() == len);
        if let Some(group) = find_unstored(runs, offset, len) {
            return Err(
                Error::FormatLimit(LimitFault::Edit { partition: part, offset, len, group }),
            );
        }
        k += 1;
    }
    Ok(())
}

/// A stored sector: its logical number and what it holds before encryption.
pub struct StoredSector {
    pub number: u32,
    pub data: Seq<u8>,
}

/// A sector with the first `n` patches laid over.
pub open spec fn patched(
    sector: Seq<u8>,
    sec_start: int,
    patches: Seq<(u64, Seq<u8>)>,
    n: int,
) -> Seq<u8>
    decreases n,
{
    if n <= 0 {
        sector
    } else {
        overlaid(
            patched(sector, sec_start, patches, n - 1),
            sec_start,
            patches[n - 1].0 as int,
            patches[n - 1].1,
        )
    }
}

/// Disc sector `s` with the patches laid over.
pub open spec fn patched_sector(
    disc: Seq<u8>,
    disc_size: u64,
    patches: Seq<(u64, Seq<u8>)>,
    s: int,
) -> Seq<u8> {
    patched(
        padded_sector(disc, disc_size, s * 0x8000, 0x8000),
        s * 0x8000,
        patches,
        patches.len() as int,
    )
}

/// `n` disc sectors from `from` on, with the patches laid over.
pub open spec fn patched_run(
    disc: Seq<u8>,
    disc_size: u64,
    patches: Seq<(u64, Seq<u8>)>,
    from: int,
    n: int,
) -> Seq<StoredSector> {
    Seq::new(
        n as nat,
        |i: int|
            StoredSector {
                number: (from + i) as u32,
                data: patched_sector(disc, disc_size, patches, from + i),
            },
    )
}

/// Cluster `k` of hash group `g` as it is read; past the partition's data it is zero.
pub open spec fn group_cluster(
    disc: Seq<u8>,
    disc_size: u64,
    pp: PartitionPlan,
    g: int,
    k: int,
) -> Seq<u8> {
    if g * 64 + k < data_sectors(pp) {
        padded_sector(disc, disc_size, (pp.data_start_sector + g * 64 + k) * 0x8000, 0x8000)
    } else {
        zeros(0x8000)
    }
}

/// Hash group `g` as it is read.
pub open spec fn group_clusters(disc: Seq<u8>, disc_size: u64, pp: PartitionPlan, g: int) -> Seq<
    Seq<u8>,
> {
    Seq::new(64, |k: int| group_cluster(disc, disc_size, pp, g, k))
}

/// Hash group `g` as it is stored: the edits in place, the hash tree rebuilt.
pub open spec fn stored_group(disc: Seq<u8>, disc_size: u64, pp: PartitionPlan, g: int) -> Seq<
    Seq<u8>,
> {
    rebuilt(
        edited(
            group_clusters(disc, disc_size, pp, g),
            g as u32,
            patch_views(pp.edits@),
            pp.edits@.len() as int,
        ),
    )
}

/// How many clusters of hash group `g` lie inside the partition's data.
pub open spec fn group_len(pp: PartitionPlan, g: int) -> int {
    let left = data_sectors(pp) - g * 64;
    if left < 0 {
        0
    } else if left < 64 {
        left
    } else {
        64
    }
}

/// The stored sectors of hash group `g`.
pub open spec fn group_sectors(disc: Seq<u8>, disc_size: u64, pp: PartitionPlan, g: int) -> Seq<
    StoredSector,
> {
    Seq::new(
        group_len(pp, g) as nat,
        |k: int|
            StoredSector {
                number: (pp.data_start_sector + g * 64 + k) as u32,
                data: stored_group(disc, disc_size, pp, g)[k],
            },
    )
}

/// The stored sectors of `n` hash groups from `first` on.
pub open spec fn groups_sectors(
    disc: Seq<u8>,
    disc_size: u64,
    pp: PartitionPlan,
    first: int,
    n: int,
) -> Seq<StoredSector>
    decreases n,
{
    if n <= 0 {
        Seq::empty()
    } else {
        groups_sectors(disc, disc_size, pp, first, n - 1) + group_sectors(
            disc,
            disc_size,
            pp,
            first + n - 1,
        )
    }
}

/// The stored sectors of the first `n` runs of a partition.
pub open spec fn runs_sectors(
    disc: Seq<u8>,
    disc_size: u64,
    pp: PartitionPlan,
    runs: Seq<GroupRun>,
    n: int,
) -> Seq<StoredSector>
    decreases n,
{
    if n <= 0 {
        Seq::empty()
    } else {
        runs_sectors(disc, disc_size, pp, runs, n - 1) + groups_sectors(
            disc,
            disc_size,
            pp,
            runs[n - 1].first_group as int,
            runs[n - 1].num_groups as int,
        )
    }
}

/// The stored sectors of a partition: its header, then its runs.
pub open spec fn partition_sectors(disc: Seq<u8>, disc_size: u64, pp: PartitionPlan) -> Seq<
    StoredSector,
> {
    patched_run(
        disc,
        disc_size,
        patch_views(pp.header_patches@),
        pp.start_sector as int,
        pp.data_start_sector - pp.start_sector,
    ) + runs_sectors(
        disc,
        disc_size,
        pp,
        group_runs_of(pp),
        group_runs_of(pp).len() as int,
    )
}

/// The stored sectors of the first `n` partitions.
pub open spec fn partitions_sectors(
    disc: Seq<u8>,
    disc_size: u64,
    partitions: Seq<PartitionPlan>,
    n: int,
) -> Seq<StoredSector>
    decreases n,
{
    if n <= 0 {
        Seq::empty()
    } else {
        partitions_sectors(disc, disc_size, partitions, n - 1) + partition_sectors(
            disc,
            disc_size,
            partitions[n - 1],
        )
    }
}

/// All stored sectors of a disc, in the order of the stream.
pub open spec fn plan_sectors(disc: Seq<u8>, disc_size: u64, plan: DiscPlan) -> Seq<StoredSector> {
    patched_run(disc, disc_size, patch_views(plan.disc_patches@), 0, 1) + patched_run(
        disc,
        disc_size,
        patch_views(plan.disc_patches@),
        8,
        2,
    ) + partitions_sectors(disc, disc_size, plan.partitions@, plan.partitions@.len() as int)
}

/// A stored sector, encrypted.
pub open spec fn sealed_sector(htk: Seq<u8>, sector: StoredSector) -> Seq<u8> {
    cbc_encrypted(htk, sector_iv_of(sector.number), sector.data)
}

/// The first `n` stored sectors, encrypted.
pub open spec fn sealed(htk: Seq<u8>, sectors: Seq<StoredSector>, n: int) -> Seq<u8>
    decreases n,
{
    if n <= 0 {
        Seq::empty()
    } else {
        sealed(htk, sectors, n - 1) + sealed_sector(htk, sectors[n - 1])
    }
}

/// Whether a stored sector can be read back: it keeps its size, and decrypting it gives what it
/// held.
pub open spec fn unsealable(htk: Seq<u8>, sector: StoredSector) -> bool {
    &&& sealed_sector(htk, sector).len() == 0x8000
    &&& cbc_decrypted(htk, sector_iv_of(sector.number), sealed_sector(htk, sector)) == sector.data
}

/// The range of a run, cut at the end of the partition's data.
pub open spec fn run_range(pp: PartitionPlan, run: GroupRun) -> LbaRange {
    let first = run.first_group * 64;
    let last = (run.first_group + run.num_groups) * 64;
    let end = if last < data_sectors(pp) {
        last
    } else {
        data_sectors(pp)
    };
    LbaRange {
        start_sector: (pp.data_start_sector + first) as u32,
        num_sectors: (end - first) as u32,
    }
}

/// The ranges of a partition: its header, then its runs.
pub open spec fn partition_ranges(pp: PartitionPlan) -> Seq<LbaRange> {
    seq![
        LbaRange {
            start_sector: pp.start_sector,
            num_sectors: (pp.data_start_sector - pp.start_sector) as u32,
        },
    ] + Seq::new(group_runs_of(pp).len(), |i: int| run_range(pp, group_runs_of(pp)[i]))
}

/// The ranges of the first `n` partitions.
pub open spec fn partitions_ranges(partitions: Seq<PartitionPlan>, n: int) -> Seq<LbaRange>
    decreases n,
{
    if n <= 0 {
        Seq::empty()
    } else {
        partitions_ranges(partitions, n - 1) + partition_ranges(partitions[n - 1])
    }
}

/// All ranges of a disc.
pub open spec fn plan_ranges(plan: DiscPlan) -> Seq<LbaRange> {
    disc_ranges() + partitions_ranges(plan.partitions@, plan.partitions@.len() as int)
}

/// Whether a partition's sectors are in order and its runs begin inside its data.
pub open spec fn partition_sane(pp: PartitionPlan) -> bool {
    &&& pp.start_sector <= pp.data_start_sector <= pp.data_end_sector
    &&& data_sectors(pp) + 63 <= u32::MAX
    &&& forall|i: int|
        0 <= i < pp.stored_data_groups@.len() ==> {
            &&& (#[trigger] pp.stored_data_groups@[i]).0 * 64 <= data_sectors(pp)
            &&& (pp.stored_data_groups@[i].0 + pp.stored_data_groups@[i].1) * 64 <= u32::MAX
        }
}

/// Whether every partition of a plan is sane.
pub open spec fn plan_sane(plan: DiscPlan) -> bool {
    forall|i: int| 0 <= i < plan.partitions@.len() ==> partition_sane(#[trigger] plan.partitions@[i])
}

/// A planned disc can be built: its plan is sane wherever the partition's sectors are in order.
pub proof fn law_planned_disc_is_sane(
    source: &SourceDisc,
    disc: Seq<u8>,
    part: Seq<u8>,
    h3_table: Seq<u8>,
    raw_fst: Seq<u8>,
    patches: VideoPatches,
    skip_gaps: bool,
    trim_zeros: bool,
    plan: DiscPlan,
)
    requires
        disc_planned(
            source,
            disc,
            part,
            h3_table,
            raw_fst,
            patches,
            skip_gaps,
            trim_zeros,
            plan,
        ),
        source.data_span().start_sector <= source.data_span().data_start_sector,
        source.span_ordered(),
        source.region_clusters() + 63 <= u32::MAX,
    ensures
        plan_sane(plan),
{
    let pp = plan.partitions@[0];
    assert(data_sectors(pp) == source.region_clusters());
    assert forall|i: int| 0 <= i < pp.stored_data_groups@.len() implies {
        &&& (#[trigger] pp.stored_data_groups@[i]).0 * 64 <= data_sectors(pp)
        &&& (pp.stored_data_groups@[i].0 + pp.stored_data_groups@[i].1) * 64 <= u32::MAX
    } by {
        let run = pp.stored_data_groups@[i];
        assert(run.1 > 0 && run.0 + run.1 <= group_count(source.region_clusters()));
    }
}

/// Whether the runs of a partition begin inside its data.
pub open spec fn runs_sane(pp: PartitionPlan, runs: Seq<GroupRun>) -> bool {
    forall|i: int|
        0 <= i < runs.len() ==> {
            &&& (#[trigger] runs[i]).first_group * 64 <= data_sectors(pp)
            &&& (runs[i].first_group + runs[i].num_groups) * 64 <= u32::MAX
        }
}

pub proof fn lemma_runs_sane(pp: PartitionPlan)
    requires
        partition_sane(pp),
    ensures
        runs_sane(pp, group_runs_of(pp)),
{
    let runs = group_runs_of(pp);
    assert forall|i: int| 0 <= i < runs.len() implies {
        &&& (#[trigger] runs[i]).first_group * 64 <= data_sectors(pp)
        &&& (runs[i].first_group + runs[i].num_groups) * 64 <= u32::MAX
    } by {
        if pp.stored_data_groups@.len() > 0 {
            assert(runs[i].first_group == pp.stored_data_groups@[i].0);
        }
    }
}

proof fn lemma_sealed_prefix(htk: Seq<u8>, a: Seq<StoredSector>, b: Seq<StoredSector>, n: int)
    requires
        n <= a.len(),
        n <= b.len(),
        forall|i: int| 0 <= i < n ==> a[i] == b[i],
    ensures
        sealed(htk, a, n) == sealed(htk, b, n),
    decreases n,
{
    if n > 0 {
        lemma_sealed_prefix(htk, a, b, n - 1);
    }
}

/// One more sector seals behind the others.
proof fn lemma_sealed_push(htk: Seq<u8>, list: Seq<StoredSector>, sector: StoredSector)
    ensures
        sealed(htk, list.push(sector), (list.len() + 1) as int) == sealed(htk, list, list.len() as int)
            + sealed_sector(htk, sector),
{
    lemma_sealed_prefix(htk, list, list.push(sector), list.len() as int);
}

/// Whether all sectors of a list can be read back.
pub open spec fn all_unsealable(htk: Seq<u8>, list: Seq<StoredSector>) -> bool {
    forall|i: int| 0 <= i < list.len() ==> unsealable(htk, #[trigger] list[i])
}

/// Where the stream stands: `list` has been written behind `front`.
pub open spec fn written_so_far<W: ByteWriter>(
    w: &W,
    front: Seq<u8>,
    htk: Seq<u8>,
    list: Seq<StoredSector>,
) -> bool {
    &&& w.written() == front + sealed(htk, list, list.len() as int)
    &&& all_unsealable(htk, list)
}

/// Encrypt a sector and write it.
fn write_sector<W: ByteWriter>(
    writer: &mut W,
    htk: &[u8; 16],
    number: u32,
    sector: &mut Vec<u8>,
    Ghost(front): Ghost<Seq<u8>>,
    Ghost(list): Ghost<Seq<StoredSector>>,
) -> (r: Result<()>)
    requires
        old(sector)@.len() == 0x8000,
        written_so_far(old(writer), front, htk@, list),
    ensures
        final(sector)@.len() == 0x8000,
        final(writer).dependable() == old(writer).dependable(),
        match r {
            Ok(_) => written_so_far(
                final(writer),
                front,
                htk@,
                list.push(StoredSector { number, data: old(sector)@ }),
            ),
            Err(_) => !old(writer).dependable(),
        },
{
    let ghost data = sector@;
    let ghost stored = StoredSector { number, data };
    encrypt_sector(htk, number, sector.as_mut_slice());
    assert(whole_blocks(data) =~= data);
    assert(whole_blocks(sector@) =~= sector@);
    match writer.write_all(sector.as_slice()) {
        Ok(_) => {
            proof {
                lemma_sealed_push(htk@, list, stored);
                let all = list.push(stored);
                assert(writer.written() =~= front + sealed(htk@, all, all.len() as int));
                assert forall|i: int| 0 <= i < all.len() implies unsealable(
                    htk@,
                    #[trigger] all[i],
                ) by {
                    if i < list.len() {
                        assert(all[i] == list[i]);
                    }
                }
            }
            Ok(())
        },
        Err(e) => Err(e),
    }
}

/// Whether `n` sectors from `from` on can be read.
pub open spec fn run_readable(disc: Seq<u8>, disc_size: u64, from: int, n: int) -> bool {
    forall|s: int|
        from <= s < from + n ==> #[trigger] sector_readable(disc, disc_size, s * 0x8000, 0x8000)
}

/// Read, patch, encrypt and write `n` disc sectors from `from` on.
fn write_run<D: ReadSeek, W: ByteWriter>(
    writer: &mut W,
    disc: &mut D,
    htk: &[u8; 16],
    patches: &Vec<(u64, Vec<u8>)>,
    disc_size: u64,
    from: u32,
    n: u32,
    Ghost(front): Ghost<Seq<u8>>,
    Ghost(list): Ghost<Seq<StoredSector>>,
) -> (r: Result<()>)
    requires
        from + n <= u32::MAX,
        patches_addressable(patch_views(patches@)),
        written_so_far(old(writer), front, htk@, list),
    ensures
        final(disc).bytes() == old(disc).bytes(),
        final(disc).dependable() == old(disc).dependable(),
        final(writer).dependable() == old(writer).dependable(),
        match r {
            Ok(_) => written_so_far(
                final(writer),
                front,
                htk@,
                list + patched_run(
                    old(disc).bytes(),
                    disc_size,
                    patch_views(patches@),
                    from as int,
                    n as int,
                ),
            ),
            Err(e) => !(old(writer).dependable() && old(disc).dependable() && run_readable(
                old(disc).bytes(),
                disc_size,
                from as int,
                n as int,
            )),
        },
{
    let ghost bytes = disc.bytes();
    let ghost views = patch_views(patches@);
    let mut sector: Vec<u8> = zero_bytes(0x8000);
    let mut i: u32 = 0;
    assert(list + patched_run(bytes, disc_size, views, from as int, 0) =~= list);
    while i < n
        invariant
            i <= n,
            from + n <= u32::MAX,
            sector@.len() == 0x8000,
            bytes == old(disc).bytes(),
            disc.bytes() == bytes,
            disc.dependable() == old(disc).dependable(),
            writer.dependable() == old(writer).dependable(),
            views == patch_views(patches@),
            patches_addressable(views),
            written_so_far(
                writer,
                front,
                htk@,
                list + patched_run(bytes, disc_size, views, from as int, i as int),
            ),
        decreases n - i,
    {
        let s: u32 = from + i;
        let start: u64 = s as u64 * 0x8000;
        let ghost sofar = list + patched_run(bytes, disc_size, views, from as int, i as int);
        match read_sector(disc, start, disc_size, &mut sector) {
            Ok(_) => {},
            Err(e) => {
                assert(!(old(disc).dependable() && sector_readable(
                    bytes,
                    disc_size,
                    s * 0x8000,
                    0x8000,
                )));
                return Err(e);
            },
        }
        let ghost raw = sector@;
        let mut k: usize = 0;
        while k < patches.len()
            invariant
                k <= patches@.len(),
                sector@.len() == 0x8000,
                start == s * 0x8000,
                views == patch_views(patches@),
                patches_addressable(views),
                sector@ == patched(raw, start as int, views, k as int),
            decreases patches@.len() - k,
        {
            assert(views[k as int] == (patches@[k as int].0, patches@[k as int].1@));
            splice(&mut sector, start, patches[k].0, patches[k].1.as_slice());
            k += 1;
        }
        let ghost stored = StoredSector { number: s, data: sector@ };
        assert(sector@ == patched_sector(bytes, disc_size, views, s as int));
        match write_sector(writer, htk, s, &mut sector, Ghost(front), Ghost(sofar)) {
            Ok(_) => {},
            Err(e) => return Err(e),
        }
        i += 1;
        assert(sofar.push(stored) =~= list + patched_run(
            bytes,
            disc_size,
            views,
            from as int,
            i as int,
        ));
    }
    Ok(())
}

/// Whether the clusters of hash group `g` can be read.
pub open spec fn group_readable(disc: Seq<u8>, disc_size: u64, pp: PartitionPlan, g: int) -> bool {
    forall|k: int|
        0 <= k < group_len(pp, g) ==> #[trigger] sector_readable(
            disc,
            disc_size,
            (pp.data_start_sector + g * 64 + k) * 0x8000,
            0x8000,
        )
}

/// Read hash group `g`.
fn read_group<D: ReadSeek>(disc: &mut D, pp: &PartitionPlan, disc_size: u64, g: u32) -> (r: Result<
    Vec<Cluster>,
>)
    requires
        pp.data_start_sector <= pp.data_end_sector,
    ensures
        final(disc).bytes() == old(disc).bytes(),
        final(disc).dependable() == old(disc).dependable(),
        match r {
            Ok(clusters) => clusters@.len() == 64 && cluster_views(clusters@) == group_clusters(
                old(disc).bytes(),
                disc_size,
                *pp,
                g as int,
            ),
            Err(e) => !(old(disc).dependable() && group_readable(
                old(disc).bytes(),
                disc_size,
                *pp,
                g as int,
            )),
        },
{
    let ghost bytes = disc.bytes();
    let total: u64 = (pp.data_end_sector - pp.data_start_sector) as u64;
    let mut sector: Vec<u8> = zero_bytes(0x8000);
    let mut clusters: Vec<Cluster> = Vec::with_capacity(64);
    let mut k: usize = 0;
    while k < 64
        invariant
            k <= 64,
            total == data_sectors(*pp),
            sector@.len() == 0x8000,
            bytes == old(disc).bytes(),
            disc.bytes() == bytes,
            disc.dependable() == old(disc).dependable(),
            clusters@.len() == k,
            forall|j: int|
                0 <= j < k ==> (#[trigger] clusters@[j])@ == group_cluster(
                    bytes,
                    disc_size,
                    *pp,
                    g as int,
                    j,
                ),
        decreases 64 - k,
    {
        let ps: u64 = g as u64 * 64 + k as u64;
        if ps < total {
            let at: u64 = (pp.data_start_sector as u64 + ps) * 0x8000;
            match read_sector(disc, at, disc_size, &mut sector) {
                Ok(_) => {},
                Err(e) => {
                    assert(!(old(disc).dependable() && sector_readable(
                        bytes,
                        disc_size,
                        (pp.data_start_sector + g * 64 + k) * 0x8000,
                        0x8000,
                    )));
                    return Err(e);
                },
            }
            clusters.push(cluster_of(sector.as_slice()));
        } else {
            let zero: Cluster = [0u8; 0x8000];
            assert(zero@ =~= zeros(0x8000));
            clusters.push(zero);
        }
        k += 1;
    }
    assert(cluster_views(clusters@) =~= group_clusters(bytes, disc_size, *pp, g as int));
    Ok(clusters)
}

/// Read, edit, rebuild, encrypt and write hash group `g`.
fn write_group<D: ReadSeek, W: ByteWriter>(
    writer: &mut W,
    disc: &mut D,
    htk: &[u8; 16],
    pp: &PartitionPlan,
    disc_size: u64,
    g: u32,
    Ghost(front): Ghost<Seq<u8>>,
    Ghost(list): Ghost<Seq<StoredSector>>,
) -> (r: Result<()>)
    requires
        pp.data_start_sector <= pp.data_end_sector,
        patches_addressable(patch_views(pp.edits@)),
        written_so_far(old(writer), front, htk@, list),
    ensures
        final(disc).bytes() == old(disc).bytes(),
        final(disc).dependable() == old(disc).dependable(),
        final(writer).dependable() == old(writer).dependable(),
        match r {
            Ok(_) => written_so_far(
                final(writer),
                front,
                htk@,
                list + group_sectors(old(disc).bytes(), disc_size, *pp, g as int),
            ),
            Err(e) => !(old(writer).dependable() && old(disc).dependable() && group_readable(
                old(disc).bytes(),
                disc_size,
                *pp,
                g as int,
            )),
        },
{
    let ghost bytes = disc.bytes();
    let mut clusters: Vec<Cluster> = match read_group(disc, pp, disc_size, g) {
        Ok(clusters) => clusters,
        Err(e) => return Err(e),
    };
    apply_edits_to_group(&mut clusters, g, &pp.edits);
    recompute_group(&mut clusters);
    let ghost stored = stored_group(bytes, disc_size, *pp, g as int);
    let ghost all = group_sectors(bytes, disc_size, *pp, g as int);
    assert(cluster_views(clusters@) == stored);
    assert(clusters@.len() == cluster_views(clusters@).len());
    let total: u64 = (pp.data_end_sector - pp.data_start_sector) as u64;
    let mut k: usize = 0;
    assert(list + all.subrange(0, 0) =~= list);
    while k < 64 && g as u64 * 64 + (k as u64) < total
        invariant
            k <= 64,
            k <= group_len(*pp, g as int),
            total == data_sectors(*pp),
            clusters@.len() == 64,
            cluster_views(clusters@) == stored,
            stored == stored_group(bytes, disc_size, *pp, g as int),
            all == group_sectors(bytes, disc_size, *pp, g as int),
            disc.bytes() == old(disc).bytes(),
            disc.dependable() == old(disc).dependable(),
            writer.dependable() == old(writer).dependable(),
            written_so_far(writer, front, htk@, list + all.subrange(0, k as int)),
        decreases 64 - k,
    {
        let number: u32 = pp.data_start_sector + (g as u64 * 64 + k as u64) as u32;
        let mut sector: Vec<u8> = copy_range(clusters[k].as_slice(), 0, 0x8000);
        assert(sector@ =~= clusters@[k as int]@);
        assert(stored[k as int] == clusters@[k as int]@);
        let ghost sofar = list + all.subrange(0, k as int);
        let ghost new = StoredSector { number, data: sector@ };
        match write_sector(writer, htk, number, &mut sector, Ghost(front), Ghost(sofar)) {
            Ok(_) => {},
            Err(e) => return Err(e),
        }
        k += 1;
        assert(all[k - 1] == new);
        assert(sofar.push(new) =~= list + all.subrange(0, k as int));
    }
    assert(all.subrange(0, k as int) =~= all);
    Ok(())
}

/// Whether all groups of the first `n` runs can be read.
pub open spec fn runs_readable(
    disc: Seq<u8>,
    disc_size: u64,
    pp: PartitionPlan,
    runs: Seq<GroupRun>,
) -> bool {
    forall|i: int, g: int|
        0 <= i < runs.len() && #[trigger] run_stores(runs[i], g) ==> group_readable(
            disc,
            disc_size,
            pp,
            g,
        )
}

/// Whether a partition can be read as far as it is stored.
pub open spec fn partition_readable(disc: Seq<u8>, disc_size: u64, pp: PartitionPlan) -> bool {
    &&& run_readable(
        disc,
        disc_size,
        pp.start_sector as int,
        pp.data_start_sector - pp.start_sector,
    )
    &&& runs_readable(disc, disc_size, pp, group_runs_of(pp))
}

/// Write one run of hash groups.
fn write_groups<D: ReadSeek, W: ByteWriter>(
    writer: &mut W,
    disc: &mut D,
    htk: &[u8; 16],
    pp: &PartitionPlan,
    disc_size: u64,
    run: GroupRun,
    Ghost(front): Ghost<Seq<u8>>,
    Ghost(list): Ghost<Seq<StoredSector>>,
) -> (r: Result<()>)
    requires
        pp.data_start_sector <= pp.data_end_sector,
        run.first_group + run.num_groups <= u32::MAX,
        patches_addressable(patch_views(pp.edits@)),
        written_so_far(old(writer), front, htk@, list),
    ensures
        final(disc).bytes() == old(disc).bytes(),
        final(disc).dependable() == old(disc).dependable(),
        final(writer).dependable() == old(writer).dependable(),
        match r {
            Ok(_) => written_so_far(
                final(writer),
                front,
                htk@,
                list + groups_sectors(
                    old(disc).bytes(),
                    disc_size,
                    *pp,
                    run.first_group as int,
                    run.num_groups as int,
                ),
            ),
            Err(e) => !(old(writer).dependable() && old(disc).dependable() && forall|g: int| #[trigger]
                run_stores(run, g) ==> group_readable(old(disc).bytes(), disc_size, *pp, g)),
        },
{
    let ghost bytes = disc.bytes();
    let ghost first = run.first_group as int;
    let mut n: u32 = 0;
    assert(list + groups_sectors(bytes, disc_size, *pp, first, 0) =~= list);
    while n < run.num_groups
        invariant
            n <= run.num_groups,
            first == run.first_group,
            run.first_group + run.num_groups <= u32::MAX,
            pp.data_start_sector <= pp.data_end_sector,
            patches_addressable(patch_views(pp.edits@)),
            bytes == old(disc).bytes(),
            disc.bytes() == bytes,
            disc.dependable() == old(disc).dependable(),
            writer.dependable() == old(writer).dependable(),
            written_so_far(
                writer,
                front,
                htk@,
                list + groups_sectors(bytes, disc_size, *pp, first, n as int),
            ),
        decreases run.num_groups - n,
    {
        let g: u32 = run.first_group + n;
        let ghost sofar = list + groups_sectors(bytes, disc_size, *pp, first, n as int);
        match write_group(writer, disc, htk, pp, disc_size, g, Ghost(front), Ghost(sofar)) {
            Ok(_) => {},
            Err(e) => {
                assert(run_stores(run, g as int));
                return Err(e);
            },
        }
        n += 1;
        assert(sofar + group_sectors(bytes, disc_size, *pp, g as int) =~= list + groups_sectors(
            bytes,
            disc_size,
            *pp,
            first,
            n as int,
        ));
    }
    Ok(())
}

/// Write one partition: its header with the patches laid over, then the hash groups of its runs
/// with the edits in place and the hash tree rebuilt.
fn write_partition<D: ReadSeek, W: ByteWriter>(
    writer: &mut W,
    disc: &mut D,
    htk: &[u8; 16],
    pp: &PartitionPlan,
    disc_size: u64,
    runs: &Vec<GroupRun>,
    Ghost(front): Ghost<Seq<u8>>,
    Ghost(list): Ghost<Seq<StoredSector>>,
) -> (r: Result<()>)
    requires
        partition_sane(*pp),
        runs@ == group_runs_of(*pp),
        patches_addressable(patch_views(pp.header_patches@)),
        patches_addressable(patch_views(pp.edits@)),
        written_so_far(old(writer), front, htk@, list),
    ensures
        final(disc).bytes() == old(disc).bytes(),
        final(disc).dependable() == old(disc).dependable(),
        final(writer).dependable() == old(writer).dependable(),
        match r {
            Ok(_) => written_so_far(
                final(writer),
                front,
                htk@,
                list + partition_sectors(old(disc).bytes(), disc_size, *pp),
            ),
            Err(e) => !(old(writer).dependable() && old(disc).dependable() && partition_readable(
                old(disc).bytes(),
                disc_size,
                *pp,
            )),
        },
{
    let ghost bytes = disc.bytes();
    proof {
        lemma_runs_sane(*pp);
    }
    match write_run(
        writer,
        disc,
        htk,
        &pp.header_patches,
        disc_size,
        pp.start_sector,
        pp.data_start_sector - pp.start_sector,
        Ghost(front),
        Ghost(list),
    ) {
        Ok(_) => {},
        Err(e) => return Err(e),
    }
    let ghost head = list + patched_run(
        bytes,
        disc_size,
        patch_views(pp.header_patches@),
        pp.start_sector as int,
        pp.data_start_sector - pp.start_sector,
    );
    let mut i: usize = 0;
    assert(head + runs_sectors(bytes, disc_size, *pp, runs@, 0) =~= head);
    while i < runs.len()
        invariant
            i <= runs@.len(),
            runs@ == group_runs_of(*pp),
            runs_sane(*pp, runs@),
            pp.data_start_sector <= pp.data_end_sector,
            patches_addressable(patch_views(pp.edits@)),
            bytes == old(disc).bytes(),
            disc.bytes() == bytes,
            disc.dependable() == old(disc).dependable(),
            writer.dependable() == old(writer).dependable(),
            written_so_far(
                writer,
                front,
                htk@,
                head + runs_sectors(bytes, disc_size, *pp, runs@, i as int),
            ),
        decreases runs@.len() - i,
    {
        let ghost sofar = head + runs_sectors(bytes, disc_size, *pp, runs@, i as int);
        let run: GroupRun = runs[i];
        assert(runs@[i as int].first_group * 64 <= data_sectors(*pp));
        match write_groups(writer, disc, htk, pp, disc_size, run, Ghost(front), Ghost(sofar)) {
            Ok(_) => {},
            Err(e) => {
                proof {
                    if partition_readable(bytes, disc_size, *pp) {
                        assert forall|g: int| #[trigger] run_stores(run, g) implies group_readable(
                            bytes,
                            disc_size,
                            *pp,
                            g,
                        ) by {
                            assert(run_stores(runs@[i as int], g));
                        }
                    }
                }
                return Err(e);
            },
        }
        i += 1;
        assert(sofar + groups_sectors(
            bytes,
            disc_size,
            *pp,
            run.first_group as int,
            run.num_groups as int,
        ) =~= head + runs_sectors(bytes, disc_size, *pp, runs@, i as int));
    }
    assert(head + runs_sectors(bytes, disc_size, *pp, runs@, runs@.len() as int) =~= list
        + partition_sectors(bytes, disc_size, *pp));
    Ok(())
}

pub proof fn lemma_disc_patches_ok(patches: Seq<(u64, Seq<u8>)>, i: int, j: int)
    requires
        0 <= i <= j < patches.len(),
        disc_patch_fault(patches, i) is None,
    ensures
        disc_patch_contained(patches[j].0 as int, patches[j].1.len() as int),
    decreases j - i,
{
    if i < j {
        lemma_disc_patches_ok(patches, i + 1, j);
    }
}

pub proof fn lemma_header_patches_ok(
    patches: Seq<(u64, Seq<u8>)>,
    part: int,
    start: int,
    end: int,
    i: int,
    j: int,
)
    requires
        0 <= i <= j < patches.len(),
        header_patch_fault(patches, part, start, end, i) is None,
    ensures
        patches[j].1.len() == 0 || (start <= patches[j].0 && patches[j].0 + patches[j].1.len()
            <= end),
    decreases j - i,
{
    if i < j {
        lemma_header_patches_ok(patches, part, start, end, i + 1, j);
    }
}

pub proof fn lemma_edits_ok(edits: Seq<(u64, Seq<u8>)>, runs: Seq<GroupRun>, part: int, i: int, j: int)
    requires
        0 <= i <= j < edits.len(),
        edit_fault(edits, runs, part, i) is None,
    ensures
        edit_unstored(runs, edits[j].0 as int, edits[j].1.len() as int) is None,
    decreases j - i,
{
    if i < j {
        lemma_edits_ok(edits, runs, part, i + 1, j);
    }
}

pub proof fn lemma_stored_upto(runs: Seq<GroupRun>, g: int, last: int, h: int)
    requires
        unstored(runs, g, last) is None,
        g <= h <= last,
    ensures
        runs_store(runs, h),
    decreases last + 1 - g,
{
    if g < h {
        lemma_stored_upto(runs, g + 1, last, h);
    }
}

pub proof fn lemma_partition_faults_none(
    partitions: Seq<PartitionPlan>,
    runs: Seq<Seq<GroupRun>>,
    i: int,
    j: int,
)
    requires
        0 <= i <= j < partitions.len(),
        partitions.len() == runs.len(),
        partitions_fault(partitions, runs, i) is None,
    ensures
        partition_fault(partitions[j], runs[j], j) is None,
    decreases j - i,
{
    if i < j {
        lemma_partition_faults_none(partitions, runs, i + 1, j);
    }
}

/// Patches that land inside what is stored do not reach past the address space.
proof fn lemma_partition_addressable(pp: PartitionPlan, runs: Seq<GroupRun>, part: int)
    requires
        partition_fault(pp, runs, part) is None,
    ensures
        patches_addressable(patch_views(pp.header_patches@)),
        patches_addressable(patch_views(pp.edits@)),
{
    let headers = patch_views(pp.header_patches@);
    let edits = patch_views(pp.edits@);
    assert forall|j: int| 0 <= j < headers.len() implies (#[trigger] headers[j]).0
        + headers[j].1.len() <= u64::MAX by {
        lemma_header_patches_ok(
            headers,
            part,
            pp.start_sector * 0x8000,
            pp.data_start_sector * 0x8000,
            0,
            j,
        );
    }
    assert forall|j: int| 0 <= j < edits.len() implies (#[trigger] edits[j]).0 + edits[j].1.len()
        <= u64::MAX by {
        lemma_edits_ok(edits, runs, part, 0, j);
        let off = edits[j].0 as int;
        let len = edits[j].1.len() as int;
        if len > 0 && off + len > u64::MAX {
            let last = saturated(off, len - 1) as int / 0x7C00 / 64;
            lemma_stored_upto(runs, off / 0x7C00 / 64, last, last);
            let i = choose|i: int| 0 <= i < runs.len() && run_stores(#[trigger] runs[i], last);
            assert(run_stores(runs[i], last));
        }
    }
}

/// The logical numbers of a list of sectors.
pub open spec fn numbers_of(list: Seq<StoredSector>) -> Seq<u32> {
    Seq::new(list.len(), |i: int| list[i].number)
}

/// The logical numbers that a range covers.
pub open spec fn range_numbers(range: LbaRange) -> Seq<u32> {
    Seq::new(range.num_sectors as nat, |i: int| (range.start_sector + i) as u32)
}

/// The logical numbers that the first `n` ranges cover, in order.
pub open spec fn covered(ranges: Seq<LbaRange>, n: int) -> Seq<u32>
    decreases n,
{
    if n <= 0 {
        Seq::empty()
    } else {
        covered(ranges, n - 1) + range_numbers(ranges[n - 1])
    }
}

proof fn lemma_covered_concat(a: Seq<LbaRange>, b: Seq<LbaRange>, n: int)
    requires
        0 <= n <= b.len(),
    ensures
        covered(a + b, a.len() + n) == covered(a, a.len() as int) + covered(b, n),
        sector_sum(a + b, a.len() + n) == sector_sum(a, a.len() as int) + sector_sum(b, n),
    decreases n,
{
    if n == 0 {
        lemma_covered_prefix(a, a + b, a.len() as int);
        assert(covered(a, a.len() as int) + covered(b, 0) =~= covered(a, a.len() as int));
    } else {
        lemma_covered_concat(a, b, n - 1);
        assert((a + b)[a.len() + n - 1] == b[n - 1]);
        assert(covered(a + b, a.len() + n) =~= covered(a, a.len() as int) + covered(b, n));
    }
}

proof fn lemma_covered_prefix(a: Seq<LbaRange>, b: Seq<LbaRange>, n: int)
    requires
        n <= a.len(),
        n <= b.len(),
        forall|i: int| 0 <= i < n ==> a[i] == b[i],
    ensures
        covered(a, n) == covered(b, n),
        sector_sum(a, n) == sector_sum(b, n),
    decreases n,
{
    if n > 0 {
        lemma_covered_prefix(a, b, n - 1);
    }
}

proof fn lemma_covered_len(ranges: Seq<LbaRange>, n: int)
    requires
        0 <= n <= ranges.len(),
    ensures
        covered(ranges, n).len() == sector_sum(ranges, n),
        0 <= sector_sum(ranges, n) <= n * 0xFFFF_FFFF,
    decreases n,
{
    if n > 0 {
        lemma_covered_len(ranges, n - 1);
    }
}

/// The sectors of a run of groups are numbered on from its first.
proof fn lemma_groups_numbers(
    disc: Seq<u8>,
    disc_size: u64,
    pp: PartitionPlan,
    first: int,
    n: int,
)
    requires
        0 <= first,
        0 <= n,
        first * 64 <= data_sectors(pp),
    ensures
        ({
            let end = if (first + n) * 64 < data_sectors(pp) {
                (first + n) * 64
            } else {
                data_sectors(pp)
            };
            numbers_of(groups_sectors(disc, disc_size, pp, first, n)) == Seq::new(
                (end - first * 64) as nat,
                |i: int| (pp.data_start_sector + first * 64 + i) as u32,
            )
        }),
    decreases n,
{
    let end = if (first + n) * 64 < data_sectors(pp) {
        (first + n) * 64
    } else {
        data_sectors(pp)
    };
    let want = Seq::new(
        (end - first * 64) as nat,
        |i: int| (pp.data_start_sector + first * 64 + i) as u32,
    );
    let got = numbers_of(groups_sectors(disc, disc_size, pp, first, n));
    if n > 0 {
        lemma_groups_numbers(disc, disc_size, pp, first, n - 1);
        let front = groups_sectors(disc, disc_size, pp, first, n - 1);
        let last = group_sectors(disc, disc_size, pp, first + n - 1);
        assert(got.len() == numbers_of(front).len() + last.len());
        assert forall|i: int| 0 <= i < got.len() implies got[i] == want[i] by {
            if i < front.len() {
                assert(got[i] == numbers_of(front)[i]);
            } else {
                assert(got[i] == last[i - front.len()].number);
            }
        }
        assert(got =~= want);
    } else {
        assert(got =~= want);
    }
}

proof fn lemma_runs_numbers(
    disc: Seq<u8>,
    disc_size: u64,
    pp: PartitionPlan,
    runs: Seq<GroupRun>,
    n: int,
)
    requires
        runs_sane(pp, runs),
        pp.data_start_sector <= pp.data_end_sector,
        0 <= n <= runs.len(),
    ensures
        numbers_of(runs_sectors(disc, disc_size, pp, runs, n)) == covered(
            Seq::new(runs.len(), |i: int| run_range(pp, runs[i])),
            n,
        ),
    decreases n,
{
    let ranges = Seq::new(runs.len(), |i: int| run_range(pp, runs[i]));
    if n > 0 {
        lemma_runs_numbers(disc, disc_size, pp, runs, n - 1);
        let run = runs[n - 1];
        assert(run.first_group * 64 <= data_sectors(pp));
        lemma_groups_numbers(
            disc,
            disc_size,
            pp,
            run.first_group as int,
            run.num_groups as int,
        );
        let front = runs_sectors(disc, disc_size, pp, runs, n - 1);
        let last = groups_sectors(
            disc,
            disc_size,
            pp,
            run.first_group as int,
            run.num_groups as int,
        );
        assert(numbers_of(last) =~= range_numbers(ranges[n - 1]));
        assert(numbers_of(front + last) =~= numbers_of(front) + numbers_of(last));
    } else {
        assert(numbers_of(runs_sectors(disc, disc_size, pp, runs, n)) =~= covered(ranges, n));
    }
}

proof fn lemma_run_numbers(
    disc: Seq<u8>,
    disc_size: u64,
    patches: Seq<(u64, Seq<u8>)>,
    range: LbaRange,
)
    ensures
        numbers_of(
            patched_run(
                disc,
                disc_size,
                patches,
                range.start_sector as int,
                range.num_sectors as int,
            ),
        ) == range_numbers(range),
{
    assert(numbers_of(
        patched_run(
            disc,
            disc_size,
            patches,
            range.start_sector as int,
            range.num_sectors as int,
        ),
    ) =~= range_numbers(range));
}

proof fn lemma_partition_numbers(disc: Seq<u8>, disc_size: u64, pp: PartitionPlan)
    requires
        partition_sane(pp),
    ensures
        numbers_of(partition_sectors(disc, disc_size, pp)) == covered(
            partition_ranges(pp),
            partition_ranges(pp).len() as int,
        ),
{
    lemma_runs_sane(pp);
    let runs = group_runs_of(pp);
    let head = LbaRange {
        start_sector: pp.start_sector,
        num_sectors: (pp.data_start_sector - pp.start_sector) as u32,
    };
    let rest = Seq::new(runs.len(), |i: int| run_range(pp, runs[i]));
    let a = patched_run(
        disc,
        disc_size,
        patch_views(pp.header_patches@),
        pp.start_sector as int,
        pp.data_start_sector - pp.start_sector,
    );
    let b = runs_sectors(disc, disc_size, pp, runs, runs.len() as int);
    lemma_run_numbers(disc, disc_size, patch_views(pp.header_patches@), head);
    lemma_runs_numbers(disc, disc_size, pp, runs, runs.len() as int);
    assert(partition_ranges(pp) =~= seq![head] + rest);
    lemma_covered_concat(seq![head], rest, rest.len() as int);
    assert(covered(seq![head], 1) =~= range_numbers(head)) by {
        assert(covered(seq![head], 0) =~= Seq::<u32>::empty());
        assert(covered(seq![head], 0) + range_numbers(head) =~= range_numbers(head));
    }
    assert(numbers_of(a + b) =~= numbers_of(a) + numbers_of(b));
}

proof fn lemma_partitions_numbers(
    disc: Seq<u8>,
    disc_size: u64,
    partitions: Seq<PartitionPlan>,
    n: int,
)
    requires
        0 <= n <= partitions.len(),
        forall|i: int| 0 <= i < partitions.len() ==> partition_sane(#[trigger] partitions[i]),
    ensures
        numbers_of(partitions_sectors(disc, disc_size, partitions, n)) == covered(
            partitions_ranges(partitions, n),
            partitions_ranges(partitions, n).len() as int,
        ),
    decreases n,
{
    if n > 0 {
        lemma_partitions_numbers(disc, disc_size, partitions, n - 1);
        lemma_partition_numbers(disc, disc_size, partitions[n - 1]);
        let front = partitions_sectors(disc, disc_size, partitions, n - 1);
        let last = partition_sectors(disc, disc_size, partitions[n - 1]);
        let a = partitions_ranges(partitions, n - 1);
        let b = partition_ranges(partitions[n - 1]);
        lemma_covered_concat(a, b, b.len() as int);
        assert(numbers_of(front + last) =~= numbers_of(front) + numbers_of(last));
    } else {
        assert(numbers_of(partitions_sectors(disc, disc_size, partitions, n)) =~= covered(
            partitions_ranges(partitions, n),
            0,
        ));
    }
}

/// The header's ranges say which logical sectors the stream holds: the sectors stand in the
/// order in which the ranges list them.
pub proof fn law_ranges_list_the_sectors(disc: Seq<u8>, disc_size: u64, plan: DiscPlan)
    requires
        plan_sane(plan),
    ensures
        numbers_of(plan_sectors(disc, disc_size, plan)) == covered(
            plan_ranges(plan),
            plan_ranges(plan).len() as int,
        ),
        plan_sectors(disc, disc_size, plan).len() == sector_sum(
            plan_ranges(plan),
            plan_ranges(plan).len() as int,
        ),
{
    let patches = patch_views(plan.disc_patches@);
    let n = plan.partitions@.len() as int;
    let a = patched_run(disc, disc_size, patches, 0, 1);
    let b = patched_run(disc, disc_size, patches, 8, 2);
    let c = partitions_sectors(disc, disc_size, plan.partitions@, n);
    let rest = partitions_ranges(plan.partitions@, n);
    lemma_run_numbers(disc, disc_size, patches, LbaRange { start_sector: 0, num_sectors: 1 });
    lemma_run_numbers(disc, disc_size, patches, LbaRange { start_sector: 8, num_sectors: 2 });
    lemma_partitions_numbers(disc, disc_size, plan.partitions@, n);
    lemma_covered_concat(disc_ranges(), rest, rest.len() as int);
    assert(covered(disc_ranges(), 2) =~= range_numbers(disc_ranges()[0]) + range_numbers(
        disc_ranges()[1],
    )) by {
        reveal_with_fuel(covered, 3);
        assert(covered(disc_ranges(), 1) =~= range_numbers(disc_ranges()[0]));
    }
    assert(numbers_of(a + b + c) =~= numbers_of(a) + numbers_of(b) + numbers_of(c));
    let all = plan_ranges(plan);
    lemma_covered_len(all, all.len() as int);
    assert(numbers_of(plan_sectors(disc, disc_size, plan)).len() == plan_sectors(
        disc,
        disc_size,
        plan,
    ).len());
}

/// Reading a stored sector back: it stands at its place in the stream, and decrypting it gives
/// what it held.
pub proof fn law_stored_sectors_read_back(
    htk: Seq<u8>,
    front: Seq<u8>,
    list: Seq<StoredSector>,
    n: int,
    i: int,
)
    requires
        all_unsealable(htk, list),
        0 <= i < n <= list.len(),
    ensures
        (front + sealed(htk, list, n)).len() == front.len() + n * 0x8000,
        cbc_decrypted(
            htk,
            sector_iv_of(list[i].number),
            (front + sealed(htk, list, n)).subrange(
                front.len() + i * 0x8000,
                front.len() + i * 0x8000 + 0x8000,
            ),
        ) == list[i].data,
    decreases n,
{
    lemma_sealed_at(htk, list, n, i);
    assert((front + sealed(htk, list, n)).subrange(
        front.len() + i * 0x8000,
        front.len() + i * 0x8000 + 0x8000,
    ) =~= sealed_sector(htk, list[i])) by {
        assert((front + sealed(htk, list, n)).subrange(
            front.len() + i * 0x8000,
            front.len() + i * 0x8000 + 0x8000,
        ) =~= sealed(htk, list, n).subrange(i * 0x8000, i * 0x8000 + 0x8000));
    }
    assert(unsealable(htk, list[i]));
}

proof fn lemma_sealed_at(htk: Seq<u8>, list: Seq<StoredSector>, n: int, i: int)
    requires
        all_unsealable(htk, list),
        0 <= n <= list.len(),
    ensures
        sealed(htk, list, n).len() == n * 0x8000,
        0 <= i < n ==> sealed(htk, list, n).subrange(i * 0x8000, i * 0x8000 + 0x8000)
            == sealed_sector(htk, list[i]),
    decreases n,
{
    if n > 0 {
        lemma_sealed_at(htk, list, n - 1, i);
        assert(unsealable(htk, list[n - 1]));
        let all = sealed(htk, list, n);
        let front = sealed(htk, list, n - 1);
        if 0 <= i < n - 1 {
            assert(all.subrange(i * 0x8000, i * 0x8000 + 0x8000) =~= front.subrange(
                i * 0x8000,
                i * 0x8000 + 0x8000,
            ));
        } else if i == n - 1 {
            assert(all.subrange(i * 0x8000, i * 0x8000 + 0x8000) =~= sealed_sector(htk, list[i]));
        }
    }
}

/// Work out the range table of a plan and the runs of its partitions.
fn plan_tables(plan: &DiscPlan) -> (r: (Vec<LbaRange>, Vec<Vec<GroupRun>>))
    requires
        plan_sane(*plan),
    ensures
        r.0@ == plan_ranges(*plan),
        run_views(r.1@) == plan_runs(*plan),
{
    let mut ranges: Vec<LbaRange> = disc_header_ranges();
    let mut partition_runs: Vec<Vec<GroupRun>> = Vec::new();
    let mut p: usize = 0;
    assert(disc_ranges() + partitions_ranges(plan.partitions@, 0) =~= disc_ranges());
    while p < plan.partitions.len()
        invariant
            p <= plan.partitions@.len(),
            plan_sane(*plan),
            partition_runs@.len() == p,
            forall|i: int|
                0 <= i < p ==> (#[trigger] partition_runs@[i])@ == group_runs_of(
                    plan.partitions@[i],
                ),
            ranges@ == disc_ranges() + partitions_ranges(plan.partitions@, p as int),
        decreases plan.partitions@.len() - p,
    {
        let pp: &PartitionPlan = &plan.partitions[p];
        assert(partition_sane(plan.partitions@[p as int]));
        proof {
            lemma_runs_sane(*pp);
        }
        let ghost front = ranges@;
        ranges.push(
            LbaRange {
                start_sector: pp.start_sector,
                num_sectors: pp.data_start_sector - pp.start_sector,
            },
        );
        let total: u32 = pp.data_end_sector - pp.data_start_sector;
        let runs: Vec<GroupRun> = group_runs(pp);
        let mut i: usize = 0;
        assert(ranges@ =~= front + partition_ranges(*pp).subrange(0, 1));
        while i < runs.len()
            invariant
                i <= runs@.len(),
                runs@ == group_runs_of(*pp),
                runs_sane(*pp, runs@),
                pp.data_start_sector <= pp.data_end_sector,
                total == data_sectors(*pp),
                ranges@ == front + partition_ranges(*pp).subrange(0, i + 1),
            decreases runs@.len() - i,
        {
            let run: GroupRun = runs[i];
            assert(runs@[i as int].first_group * 64 <= data_sectors(*pp));
            let first: u32 = run.first_group * 64;
            let last: u32 = (run.first_group + run.num_groups) * 64;
            let end: u32 = if last < total {
                last
            } else {
                total
            };
            ranges.push(
                LbaRange { start_sector: pp.data_start_sector + first, num_sectors: end - first },
            );
            i += 1;
            assert(ranges@ =~= front + partition_ranges(*pp).subrange(0, i + 1));
        }
        assert(partition_ranges(*pp).subrange(0, (runs@.len() + 1) as int) =~= partition_ranges(*pp));
        partition_runs.push(runs);
        p += 1;
        assert(ranges@ =~= disc_ranges() + partitions_ranges(plan.partitions@, p as int));
    }
    assert(run_views(partition_runs@) =~= plan_runs(*plan));
    (ranges, partition_runs)
}

/// Whether everything that a plan stores can be read.
pub open spec fn plan_readable(disc: Seq<u8>, disc_size: u64, plan: DiscPlan) -> bool {
    &&& run_readable(disc, disc_size, 0, 1)
    &&& run_readable(disc, disc_size, 8, 2)
    &&& forall|i: int|
        0 <= i < plan.partitions@.len() ==> partition_readable(
            disc,
            disc_size,
            #[trigger] plan.partitions@[i],
        )
}

/// Write the sectors of a plan: the disc-level ones, then partition after partition.
fn write_sectors<D: ReadSeek, W: ByteWriter>(
    writer: &mut W,
    disc: &mut D,
    htk: &[u8; 16],
    plan: &DiscPlan,
    disc_size: u64,
    partition_runs: &Vec<Vec<GroupRun>>,
    Ghost(front): Ghost<Seq<u8>>,
) -> (r: Result<()>)
    requires
        plan_sane(*plan),
        run_views(partition_runs@) == plan_runs(*plan),
        plan_fault(*plan, plan_runs(*plan)) is None,
        old(writer).written() == front,
    ensures
        final(disc).bytes() == old(disc).bytes(),
        final(disc).dependable() == old(disc).dependable(),
        final(writer).dependable() == old(writer).dependable(),
        match r {
            Ok(_) => written_so_far(
                final(writer),
                front,
                htk@,
                plan_sectors(old(disc).bytes(), disc_size, *plan),
            ),
            Err(_) => !(old(writer).dependable() && old(disc).dependable() && plan_readable(
                old(disc).bytes(),
                disc_size,
                *plan,
            )),
        },
{
    let ghost bytes = disc.bytes();
    let ghost patches = patch_views(plan.disc_patches@);
    proof {
        assert forall|j: int| 0 <= j < patches.len() implies (#[trigger] patches[j]).0
            + patches[j].1.len() <= u64::MAX by {
            lemma_disc_patches_ok(patches, 0, j);
        }
        assert(front + sealed(htk@, Seq::empty(), 0) =~= front);
    }
    match write_run(
        writer,
        disc,
        htk,
        &plan.disc_patches,
        disc_size,
        0,
        1,
        Ghost(front),
        Ghost(Seq::empty()),
    ) {
        Ok(_) => {},
        Err(e) => return Err(e),
    }
    let ghost a = patched_run(bytes, disc_size, patches, 0, 1);
    assert(Seq::<StoredSector>::empty() + a =~= a);
    match write_run(
        writer,
        disc,
        htk,
        &plan.disc_patches,
        disc_size,
        8,
        2,
        Ghost(front),
        Ghost(a),
    ) {
        Ok(_) => {},
        Err(e) => return Err(e),
    }
    let ghost head = a + patched_run(bytes, disc_size, patches, 8, 2);
    let mut p: usize = 0;
    assert(partition_runs@.len() == run_views(partition_runs@).len());
    assert(head + partitions_sectors(bytes, disc_size, plan.partitions@, 0) =~= head);
    while p < plan.partitions.len()
        invariant
            p <= plan.partitions@.len(),
            plan_sane(*plan),
            run_views(partition_runs@) == plan_runs(*plan),
            partition_runs@.len() == plan.partitions@.len(),
            plan_fault(*plan, plan_runs(*plan)) is None,
            bytes == old(disc).bytes(),
            disc.bytes() == bytes,
            disc.dependable() == old(disc).dependable(),
            writer.dependable() == old(writer).dependable(),
            written_so_far(
                writer,
                front,
                htk@,
                head + partitions_sectors(bytes, disc_size, plan.partitions@, p as int),
            ),
        decreases plan.partitions@.len() - p,
    {
        let ghost sofar = head + partitions_sectors(bytes, disc_size, plan.partitions@, p as int);
        let pp: &PartitionPlan = &plan.partitions[p];
        assert(partition_sane(plan.partitions@[p as int]));
        proof {
            assert(run_views(partition_runs@)[p as int] == plan_runs(*plan)[p as int]);
            lemma_partition_faults_none(plan.partitions@, plan_runs(*plan), 0, p as int);
            lemma_partition_addressable(*pp, group_runs_of(*pp), p as int);
        }
        match write_partition(
            writer,
            disc,
            htk,
            pp,
            disc_size,
            &partition_runs[p],
            Ghost(front),
            Ghost(sofar),
        ) {
            Ok(_) => {},
            Err(e) => {
                assert(plan.partitions@[p as int] == *pp);
                return Err(e);
            },
        }
        p += 1;
        assert(sofar + partition_sectors(bytes, disc_size, *pp) =~= head + partitions_sectors(
            bytes,
            disc_size,
            plan.partitions@,
            p as int,
        ));
    }
    Ok(())
}

/// The stream of a plan: the header, then every stored sector, encrypted.
pub open spec fn nfs_stream(htk: Seq<u8>, disc: Seq<u8>, disc_size: u64, plan: DiscPlan) -> Seq<
    u8,
> {
    let sectors = plan_sectors(disc, disc_size, plan);
    eggs_bytes(plan_ranges(plan)) + sealed(htk, sectors, sectors.len() as int)
}

/// Build the NFS stream of a disc.
///
/// The range table is worked out and every patch of the plan is checked against it before the
/// first byte is written: a patch that fell outside of what is stored would be dropped without a
/// trace. Then the header is written, and every range in order.
pub fn build_nfs<D: DecryptedDisc, W: ByteWriter>(
    source: &mut D,
    htk: &[u8; 16],
    writer: &mut W,
    plan: &DiscPlan,
) -> (r: Result<NfsStats>)
    requires
        plan_sane(*plan),
    ensures
        final(source).bytes() == old(source).bytes(),
        (plan_fault(*plan, plan_runs(*plan)) is Some || plan_ranges(*plan).len() > MAX_RANGES) ==> {
            &&& r is Err
            &&& *final(source) == *old(source)
            &&& *final(writer) == *old(writer)
        },
        match r {
            Ok(stats) => {
                let sectors = plan_sectors(old(source).bytes(), old(source).size(), *plan);
                &&& plan_fault(*plan, plan_runs(*plan)) is None
                &&& stats.ranges@ == plan_ranges(*plan)
                &&& stats.ranges@.len() <= MAX_RANGES
                &&& final(writer).written() == old(writer).written() + nfs_stream(
                    htk@,
                    old(source).bytes(),
                    old(source).size(),
                    *plan,
                )
                &&& all_unsealable(htk@, sectors)
                &&& stats.total_bytes == 0x200 + sectors.len() * 0x8000
                &&& stats.file_count == files_for(stats.total_bytes as int)
            },
            Err(e) => match plan_fault(*plan, plan_runs(*plan)) {
                Some(fault) => e == Error::FormatLimit(fault),
                None => if plan_ranges(*plan).len() > MAX_RANGES {
                    e == Error::FormatLimit(
                        LimitFault::TooManyRanges(plan_ranges(*plan).len() as usize),
                    )
                } else {
                    !(old(writer).dependable() && old(source).dependable() && plan_readable(
                        old(source).bytes(),
                        old(source).size(),
                        *plan,
                    ))
                },
            },
        },
{
    let disc_size: u64 = source.disc_size();
    let ghost bytes = source.bytes();
    let (ranges, partition_runs) = plan_tables(plan);
    match verify_patches_contained(plan, &partition_runs) {
        Ok(_) => {},
        Err(e) => return Err(e),
    }
    let header: EggsHeader = match EggsHeader::new(ranges) {
        Ok(header) => header,
        Err(e) => return Err(e),
    };
    let front: [u8; 0x200] = header.to_bytes();
    match writer.write_all(front.as_slice()) {
        Ok(_) => {},
        Err(e) => return Err(e),
    }
    let ghost front = writer.written();
    match write_sectors(writer, source, htk, plan, disc_size, &partition_runs, Ghost(front)) {
        Ok(_) => {},
        Err(e) => return Err(e),
    }
    proof {
        let sectors = plan_sectors(bytes, disc_size, *plan);
        law_ranges_list_the_sectors(bytes, disc_size, *plan);
        law_header_size(plan_ranges(*plan));
        lemma_covered_len(plan_ranges(*plan), plan_ranges(*plan).len() as int);
        assert(writer.written() =~= old(writer).written() + nfs_stream(
            htk@,
            bytes,
            disc_size,
            *plan,
        ));
    }
    let total_bytes: u64 = 0x200 + header.total_sectors() * 0x8000;
    let file_count: u32 = ((total_bytes - 1) / NFS_FILE_SIZE + 1) as u32;
    let held: &[LbaRange] = header.ranges();
    let mut ranges: Vec<LbaRange> = Vec::new();
    let mut i: usize = 0;
    while i < held.len()
        invariant
            i <= held@.len(),
            ranges@ == held@.subrange(0, i as int),
        decreases held@.len() - i,
    {
        ranges.push(held[i]);
        i += 1;
        assert(ranges@ =~= held@.subrange(0, i as int));
    }
    assert(ranges@ =~= held@);
    Ok(NfsStats { file_count, total_bytes, ranges })
}

/// The groups that are stored of a partition are those of the plan's runs, and every group that
/// holds some of its data where the plan lists none.
pub proof fn law_listed_groups_are_stored(pp: PartitionPlan, g: int)
    requires
        pp.data_start_sector <= pp.data_end_sector,
    ensures
        runs_store(group_runs_of(pp), g) <==> if pp.stored_data_groups@.len() == 0 {
            0 <= g && g * 64 < pp.data_end_sector - pp.data_start_sector
        } else {
            exists|r: int|
                0 <= r < pp.stored_data_groups@.len() && (#[trigger] pp.stored_data_groups@[r]).0
                    <= g < pp.stored_data_groups@[r].0 + pp.stored_data_groups@[r].1
        },
{
    let runs = group_runs_of(pp);
    if pp.stored_data_groups@.len() == 0 {
        let whole = runs[0];
        assert(whole.first_group == 0);
        assert(whole.num_groups == (data_sectors(pp) + 63) / 64);
        if 0 <= g && g * 64 < pp.data_end_sector - pp.data_start_sector {
            assert(run_stores(runs[0], g));
        }
    } else {
        if runs_store(runs, g) {
            let i = choose|i: int| 0 <= i < runs.len() && run_stores(#[trigger] runs[i], g);
            assert(pp.stored_data_groups@[i].0 <= g < pp.stored_data_groups@[i].0
                + pp.stored_data_groups@[i].1);
        }
        if exists|r: int|
            0 <= r < pp.stored_data_groups@.len() && (#[trigger] pp.stored_data_groups@[r]).0 <= g
                < pp.stored_data_groups@[r].0 + pp.stored_data_groups@[r].1 {
            let r = choose|r: int|
                0 <= r < pp.stored_data_groups@.len() && (#[trigger] pp.stored_data_groups@[r]).0
                    <= g < pp.stored_data_groups@[r].0 + pp.stored_data_groups@[r].1;
            assert(run_stores(runs[r], g));
        }
    }
}

proof fn lemma_disc_patches_pass(patches: Seq<(u64, Seq<u8>)>, i: int)
    requires
        0 <= i,
        forall|j: int|
            0 <= j < patches.len() ==> disc_patch_contained(
                (#[trigger] patches[j]).0 as int,
                patches[j].1.len() as int,
            ),
    ensures
        disc_patch_fault(patches, i) is None,
    decreases patches.len() - i,
{
    if i < patches.len() {
        assert(disc_patch_contained(patches[i].0 as int, patches[i].1.len() as int));
        lemma_disc_patches_pass(patches, i + 1);
    }
}

/// A disc patch is accepted exactly when it is empty or lies in one of the disc-level ranges: the
/// first sector, or the sectors 8 and 9. One refused is enough to refuse them all.
pub proof fn law_disc_patches_have_to_be_stored(patches: Seq<(u64, Seq<u8>)>)
    ensures
        disc_patch_fault(patches, 0) is None <==> forall|j: int|
            0 <= j < patches.len() ==> {
                let (off, bytes) = #[trigger] patches[j];
                ||| bytes.len() == 0
                ||| off + bytes.len() <= 0x8000
                ||| 8 * 0x8000 <= off && off + bytes.len() <= 10 * 0x8000
            },
{
    if disc_patch_fault(patches, 0) is None {
        assert forall|j: int| 0 <= j < patches.len() implies {
            let (off, bytes) = #[trigger] patches[j];
            ||| bytes.len() == 0
            ||| off + bytes.len() <= 0x8000
            ||| 8 * 0x8000 <= off && off + bytes.len() <= 10 * 0x8000
        } by {
            lemma_disc_patches_ok(patches, 0, j);
        }
    }
    if forall|j: int|
        0 <= j < patches.len() ==> {
            let (off, bytes) = #[trigger] patches[j];
            ||| bytes.len() == 0
            ||| off + bytes.len() <= 0x8000
            ||| 8 * 0x8000 <= off && off + bytes.len() <= 10 * 0x8000
        } {
        lemma_disc_patches_pass(patches, 0);
    }
}

proof fn lemma_header_patches_pass(
    patches: Seq<(u64, Seq<u8>)>,
    part: int,
    start: int,
    end: int,
    i: int,
)
    requires
        0 <= i,
        forall|j: int|
            0 <= j < patches.len() ==> (#[trigger] patches[j]).1.len() == 0 || (start
                <= patches[j].0 && patches[j].0 + patches[j].1.len() <= end),
    ensures
        header_patch_fault(patches, part, start, end, i) is None,
    decreases patches.len() - i,
{
    if i < patches.len() {
        assert(patches[i].1.len() == 0 || (start <= patches[i].0 && patches[i].0
            + patches[i].1.len() <= end));
        lemma_header_patches_pass(patches, part, start, end, i + 1);
    }
}

proof fn lemma_all_stored(runs: Seq<GroupRun>, g: int, last: int)
    requires
        forall|h: int| g <= h <= last ==> #[trigger] runs_store(runs, h),
    ensures
        unstored(runs, g, last) is None,
    decreases last + 1 - g,
{
    if g <= last {
        assert(runs_store(runs, g));
        lemma_all_stored(runs, g + 1, last);
    }
}

proof fn lemma_edits_pass(edits: Seq<(u64, Seq<u8>)>, runs: Seq<GroupRun>, part: int, i: int)
    requires
        0 <= i,
        forall|j: int|
            0 <= j < edits.len() ==> edit_unstored(
                runs,
                (#[trigger] edits[j]).0 as int,
                edits[j].1.len() as int,
            ) is None,
    ensures
        edit_fault(edits, runs, part, i) is None,
    decreases edits.len() - i,
{
    if i < edits.len() {
        assert(edit_unstored(runs, edits[i].0 as int, edits[i].1.len() as int) is None);
        lemma_edits_pass(edits, runs, part, i + 1);
    }
}

/// The patches of a partition are accepted exactly when none would be lost: every header patch is
/// empty or lies between the start of the partition and its data, and every byte of an edit lies
/// in a group that is stored.
pub proof fn law_partition_patches_have_to_be_stored(pp: PartitionPlan, part: int)
    requires
        pp.data_start_sector <= pp.data_end_sector,
        patches_addressable(patch_views(pp.edits@)),
    ensures
        partition_fault(pp, group_runs_of(pp), part) is None <==> {
            &&& forall|j: int|
                0 <= j < pp.header_patches@.len() ==> {
                    let (off, bytes) = #[trigger] pp.header_patches@[j];
                    bytes@.len() == 0 || (pp.start_sector * 0x8000 <= off && off + bytes@.len()
                        <= pp.data_start_sector * 0x8000)
                }
            &&& forall|j: int, l: int|
                0 <= j < pp.edits@.len() && pp.edits@[j].0 <= l < pp.edits@[j].0
                    + pp.edits@[j].1@.len() ==> #[trigger] byte_stored(pp, j, l)
        },
{
    let headers = patch_views(pp.header_patches@);
    let edits = patch_views(pp.edits@);
    let runs = group_runs_of(pp);
    let start = pp.start_sector * 0x8000;
    let end = pp.data_start_sector * 0x8000;
    if partition_fault(pp, runs, part) is None {
        assert forall|j: int| 0 <= j < pp.header_patches@.len() implies {
            let (off, bytes) = #[trigger] pp.header_patches@[j];
            bytes@.len() == 0 || (start <= off && off + bytes@.len() <= end)
        } by {
            assert(headers[j] == (pp.header_patches@[j].0, pp.header_patches@[j].1@));
            lemma_header_patches_ok(headers, part, start, end, 0, j);
        }
        assert forall|j: int, l: int|
            0 <= j < pp.edits@.len() && pp.edits@[j].0 <= l < pp.edits@[j].0
                + pp.edits@[j].1@.len() implies #[trigger] byte_stored(pp, j, l) by {
            assert(edits[j] == (pp.edits@[j].0, pp.edits@[j].1@));
            lemma_edits_ok(edits, runs, part, 0, j);
            let off = edits[j].0 as int;
            let len = edits[j].1.len() as int;
            assert(l / 0x7C00 / 64 == l / 0x1F_0000);
            lemma_stored_upto(
                runs,
                off / 0x7C00 / 64,
                saturated(off, len - 1) as int / 0x7C00 / 64,
                l / 0x7C00 / 64,
            );
            law_listed_groups_are_stored(pp, l / 0x1F_0000);
        }
    }
    if (forall|j: int|
        0 <= j < pp.header_patches@.len() ==> {
            let (off, bytes) = #[trigger] pp.header_patches@[j];
            bytes@.len() == 0 || (start <= off && off + bytes@.len() <= end)
        }) && (forall|j: int, l: int|
        0 <= j < pp.edits@.len() && pp.edits@[j].0 <= l < pp.edits@[j].0 + pp.edits@[j].1@.len()
            ==> #[trigger] byte_stored(pp, j, l)) {
        assert forall|j: int| 0 <= j < headers.len() implies (#[trigger] headers[j]).1.len() == 0
            || (start <= headers[j].0 && headers[j].0 + headers[j].1.len() <= end) by {
            assert(headers[j] == (pp.header_patches@[j].0, pp.header_patches@[j].1@));
        }
        lemma_header_patches_pass(headers, part, start, end, 0);
        assert forall|j: int| 0 <= j < edits.len() implies edit_unstored(
            runs,
            (#[trigger] edits[j]).0 as int,
            edits[j].1.len() as int,
        ) is None by {
            assert(edits[j] == (pp.edits@[j].0, pp.edits@[j].1@));
            let off = edits[j].0 as int;
            let len = edits[j].1.len() as int;
            if len > 0 {
                let first = off / 0x7C00 / 64;
                let last = (off + len - 1) / 0x7C00 / 64;
                assert forall|h: int| first <= h <= last implies #[trigger] runs_store(
                    runs,
                    h,
                ) by {
                    let l = if h == first {
                        off
                    } else {
                        h * 0x1F_0000
                    };
                    assert(l / 0x1F_0000 == h);
                    assert(off <= l < off + len);
                    assert(byte_stored(pp, j, l));
                    law_listed_groups_are_stored(pp, h);
                }
                lemma_all_stored(runs, first, last);
            }
        }
        lemma_edits_pass(edits, runs, part, 0);
    }
}

/// Whether data byte `l`, which edit `j` covers, lies in a hash group that is stored.
pub open spec fn byte_stored(pp: PartitionPlan, j: int, l: int) -> bool {
    let g = l / 0x1F_0000;
    if pp.stored_data_groups@.len() == 0 {
        0 <= g && g * 64 < pp.data_end_sector - pp.data_start_sector
    } else {
        exists|r: int|
            0 <= r < pp.stored_data_groups@.len() && (#[trigger] pp.stored_data_groups@[r]).0 <= g
                < pp.stored_data_groups@[r].0 + pp.stored_data_groups@[r].1
    }
}

/// The ranges of a plan of one partition: the first sector, the sectors 8 and 9, those from the
/// start of the partition to its data, and for every run of groups 64 sectors each, cut at the
/// end of the data.
pub proof fn law_ranges_of_a_plan(plan: DiscPlan, i: int)
    requires
        plan.partitions@.len() == 1,
        partition_sane(plan.partitions@[0]),
        0 <= i < plan.partitions@[0].stored_data_groups@.len(),
    ensures
        ({
            let pp = plan.partitions@[0];
            let run = pp.stored_data_groups@[i];
            let ranges = plan_ranges(plan);
            let behind = run.0 * 64 + run.1 * 64;
            let data = pp.data_end_sector - pp.data_start_sector;
            &&& ranges.len() == 3 + pp.stored_data_groups@.len()
            &&& ranges[0].start_sector == 0 && ranges[0].num_sectors == 1
            &&& ranges[1].start_sector == 8 && ranges[1].num_sectors == 2
            &&& ranges[2].start_sector == pp.start_sector
            &&& ranges[2].start_sector + ranges[2].num_sectors == pp.data_start_sector
            &&& ranges[3 + i].start_sector == pp.data_start_sector + run.0 * 64
            &&& behind <= data ==> ranges[3 + i].num_sectors == run.1 * 64
            &&& behind > data ==> ranges[3 + i].start_sector + ranges[3 + i].num_sectors
                == pp.data_end_sector
        }),
{
    let pp = plan.partitions@[0];
    let run = pp.stored_data_groups@[i];
    let list = partition_ranges(pp);
    assert(partitions_ranges(plan.partitions@, 0) =~= Seq::<LbaRange>::empty());
    assert(partitions_ranges(plan.partitions@, 1) =~= list);
    assert(plan_ranges(plan) =~= disc_ranges() + list);
    assert(list[1 + i] == run_range(pp, group_runs_of(pp)[i]));
    assert(plan_ranges(plan)[3 + i] == list[1 + i]);
    assert(plan_ranges(plan)[2] == list[0]);
    assert((run.0 + run.1) * 64 == run.0 * 64 + run.1 * 64);
    assert(run.0 * 64 <= data_sectors(pp));
}

/// Where a plan lists no runs, all of the partition's data is one range.
pub proof fn law_whole_partition_is_one_range(plan: DiscPlan)
    requires
        plan.partitions@.len() == 1,
        partition_sane(plan.partitions@[0]),
        plan.partitions@[0].stored_data_groups@.len() == 0,
    ensures
        ({
            let pp = plan.partitions@[0];
            let ranges = plan_ranges(plan);
            &&& ranges.len() == 4
            &&& ranges[3].start_sector == pp.data_start_sector
            &&& ranges[3].start_sector + ranges[3].num_sectors == pp.data_end_sector
        }),
{
    let pp = plan.partitions@[0];
    let list = partition_ranges(pp);
    assert(partitions_ranges(plan.partitions@, 0) =~= Seq::<LbaRange>::empty());
    assert(partitions_ranges(plan.partitions@, 1) =~= list);
    assert(plan_ranges(plan) =~= disc_ranges() + list);
    assert(list[1] == run_range(pp, group_runs_of(pp)[0]));
    assert(plan_ranges(plan)[3] == list[1]);
}

/// A patch laid over a sector changes exactly the bytes that both have in common.
pub proof fn law_overlays_change_what_they_cover(
    sector: Seq<u8>,
    sec_start: int,
    off: int,
    bytes: Seq<u8>,
    a: int,
)
    requires
        sec_start <= a < sec_start + sector.len(),
    ensures
        overlaid(sector, sec_start, off, bytes).len() == sector.len(),
        off <= a < off + bytes.len() ==> overlaid(sector, sec_start, off, bytes)[a - sec_start]
            == bytes[a - off],
        a < off || off + bytes.len() <= a ==> overlaid(sector, sec_start, off, bytes)[a - sec_start]
            == sector[a - sec_start],
{
}

/// What is read of a disc is what it holds up to its size, and zeros behind.
pub proof fn law_sectors_are_padded_with_zeros(
    disc: Seq<u8>,
    disc_size: u64,
    offset: int,
    len: int,
    a: int,
)
    requires
        0 <= offset <= a < offset + len,
    ensures
        padded_sector(disc, disc_size, offset, len).len() == len,
        a < disc_size ==> padded_sector(disc, disc_size, offset, len)[a - offset] == disc[a],
        disc_size <= a ==> padded_sector(disc, disc_size, offset, len)[a - offset] == 0,
{
}

/// Everything that a plan stores has to be readable, up to the size of the disc: of the sectors
/// that are listed, every byte below it.
pub proof fn law_stored_sectors_have_to_be_readable(
    disc: Seq<u8>,
    disc_size: u64,
    from: int,
    n: int,
)
    requires
        0 <= from,
    ensures
        run_readable(disc, disc_size, from, n) <==> forall|at: int|
            from * 0x8000 <= at < (from + n) * 0x8000 && at < disc_size ==> #[trigger] byte_held(
                disc,
                at,
            ),
{
    if run_readable(disc, disc_size, from, n) {
        assert forall|at: int|
            from * 0x8000 <= at < (from + n) * 0x8000 && at < disc_size implies #[trigger] byte_held(
            disc,
            at,
        ) by {
            let s = at / 0x8000;
            assert(from <= s < from + n);
            assert(sector_readable(disc, disc_size, s * 0x8000, 0x8000));
        }
    }
    if forall|at: int|
        from * 0x8000 <= at < (from + n) * 0x8000 && at < disc_size ==> #[trigger] byte_held(
            disc,
            at,
        ) {
        assert forall|s: int| from <= s < from + n implies #[trigger] sector_readable(
            disc,
            disc_size,
            s * 0x8000,
            0x8000,
        ) by {
            let offset = s * 0x8000;
            let end = if offset + 0x8000 <= disc_size {
                offset + 0x8000
            } else {
                disc_size as int
            };
            if offset < disc_size {
                assert(byte_held(disc, end - 1));
            }
        }
    }
}

/// Whether a disc holds a byte at a position.
pub open spec fn byte_held(disc: Seq<u8>, at: int) -> bool {
    at < disc.len()
}

proof fn lemma_partitions_fault(partitions: Seq<PartitionPlan>, runs: Seq<Seq<GroupRun>>, i: int)
    requires
        0 <= i <= partitions.len(),
        runs.len() == partitions.len(),
    ensures
        partitions_fault(partitions, runs, i) is None <==> forall|p: int|
            i <= p < partitions.len() ==> #[trigger] partition_fault(partitions[p], runs[p], p)
                is None,
        partitions_fault(partitions, runs, i) is Some ==> exists|p: int|
            i <= p < partitions.len() && #[trigger] partition_fault(partitions[p], runs[p], p)
                == partitions_fault(partitions, runs, i),
    decreases partitions.len() - i,
{
    if i < partitions.len() {
        lemma_partitions_fault(partitions, runs, i + 1);
        if partition_fault(partitions[i], runs[i], i) is None && partitions_fault(
            partitions,
            runs,
            i,
        ) is Some {
            let p = choose|p: int|
                i + 1 <= p < partitions.len() && #[trigger] partition_fault(
                    partitions[p],
                    runs[p],
                    p,
                ) == partitions_fault(partitions, runs, i + 1);
            assert(partition_fault(partitions[p], runs[p], p) == partitions_fault(
                partitions,
                runs,
                i,
            ));
        }
    }
}

/// A plan is accepted exactly when its disc patches are and the patches of every one of its
/// partitions are.
pub proof fn law_every_partition_of_a_plan_counts(plan: DiscPlan)
    ensures
        plan_fault(plan, plan_runs(plan)) is None <==> {
            &&& disc_patch_fault(patch_views(plan.disc_patches@), 0) is None
            &&& forall|p: int|
                0 <= p < plan.partitions@.len() ==> #[trigger] partition_fault(
                    plan.partitions@[p],
                    group_runs_of(plan.partitions@[p]),
                    p,
                ) is None
        },
{
    let parts = plan.partitions@;
    let runs = plan_runs(plan);
    lemma_partitions_fault(parts, runs, 0);
    assert forall|p: int| 0 <= p < parts.len() implies runs[p] == group_runs_of(parts[p]) by {}
    if plan_fault(plan, runs) is None {
        assert forall|p: int| 0 <= p < parts.len() implies #[trigger] partition_fault(
            parts[p],
            group_runs_of(parts[p]),
            p,
        ) is None by {
            assert(partition_fault(parts[p], runs[p], p) is None);
        }
    }
    if forall|p: int|
        0 <= p < parts.len() ==> #[trigger] partition_fault(parts[p], group_runs_of(parts[p]), p)
            is None {
        assert forall|p: int| 0 <= p < parts.len() implies #[trigger] partition_fault(
            parts[p],
            runs[p],
            p,
        ) is None by {
            assert(partition_fault(parts[p], group_runs_of(parts[p]), p) is None);
        }
    }
}

proof fn lemma_lost_disc_patch(patches: Seq<(u64, Seq<u8>)>, i: int)
    requires
        0 <= i <= patches.len(),
        disc_patch_fault(patches, i) is Some,
    ensures
        disc_patch_fault(patches, i) matches Some(LimitFault::DiscPatch { start, end }) && exists|
            j: int,
        |
            i <= j < patches.len() && (#[trigger] patches[j]).0 == start && end == saturated(
                start as int,
                patches[j].1.len() as int,
            ) && patches[j].1.len() > 0,
    decreases patches.len() - i,
{
    if disc_patch_contained(patches[i].0 as int, patches[i].1.len() as int) {
        lemma_lost_disc_patch(patches, i + 1);
    } else {
        assert(patches[i].0 == patches[i].0);
    }
}

/// The fault of a disc patch states where the patch starts and where it ends.
pub proof fn law_lost_disc_patch_is_named(patches: Seq<(u64, Seq<u8>)>)
    requires
        disc_patch_fault(patches, 0) is Some,
    ensures
        disc_patch_fault(patches, 0) matches Some(LimitFault::DiscPatch { start, end }) && exists|
            j: int,
        |
            0 <= j < patches.len() && (#[trigger] patches[j]).0 == start && patches[j].1.len() > 0
                && (start + patches[j].1.len() <= u64::MAX ==> end == start + patches[j].1.len()),
{
    lemma_lost_disc_patch(patches, 0);
    let start = disc_patch_fault(patches, 0)->0->DiscPatch_start;
    let end = disc_patch_fault(patches, 0)->0->DiscPatch_end;
    let j = choose|j: int|
        0 <= j < patches.len() && (#[trigger] patches[j]).0 == start && end == saturated(
            start as int,
            patches[j].1.len() as int,
        ) && patches[j].1.len() > 0;
    assert(patches[j].0 == start);
}

proof fn lemma_lost_header_patch(
    patches: Seq<(u64, Seq<u8>)>,
    part: int,
    from: int,
    to: int,
    i: int,
)
    requires
        0 <= i <= patches.len(),
        header_patch_fault(patches, part, from, to, i) is Some,
        0 <= part <= usize::MAX,
        0 <= from <= u64::MAX,
        0 <= to <= u64::MAX,
    ensures
        header_patch_fault(patches, part, from, to, i) matches Some(
            LimitFault::HeaderPatch { partition, start, end, region_start, region_end },
        ) && partition == part && region_start == from && region_end == to && exists|j: int|
            i <= j < patches.len() && (#[trigger] patches[j]).0 == start && end == saturated(
                start as int,
                patches[j].1.len() as int,
            ) && (start < from || start + patches[j].1.len() > to),
    decreases patches.len() - i,
{
    if patches[i].1.len() > 0 && (patches[i].0 < from || patches[i].0 + patches[i].1.len() > to) {
        assert(patches[i].0 == patches[i].0);
    } else {
        lemma_lost_header_patch(patches, part, from, to, i + 1);
    }
}

proof fn lemma_unstored(runs: Seq<GroupRun>, g: int, last: int)
    ensures
        unstored(runs, g, last) matches Some(h) ==> g <= h <= last && !runs_store(runs, h),
    decreases last + 1 - g,
{
    if g <= last && runs_store(runs, g) {
        lemma_unstored(runs, g + 1, last);
    }
}

proof fn lemma_lost_edit(edits: Seq<(u64, Seq<u8>)>, runs: Seq<GroupRun>, part: int, i: int)
    requires
        0 <= i <= edits.len(),
        edit_fault(edits, runs, part, i) is Some,
        0 <= part <= usize::MAX,
        forall|j: int| 0 <= j < edits.len() ==> (#[trigger] edits[j]).1.len() <= usize::MAX,
    ensures
        edit_fault(edits, runs, part, i) matches Some(
            LimitFault::Edit { partition, offset, len, group },
        ) && partition == part && !runs_store(runs, group as int) && offset as int / 0x1F_0000
            <= group && exists|j: int|
            i <= j < edits.len() && (#[trigger] edits[j]).0 == offset && edits[j].1.len() == len,
    decreases edits.len() - i,
{
    let off = edits[i].0 as int;
    let len = edits[i].1.len() as int;
    match edit_unstored(runs, off, len) {
        Some(g) => {
            lemma_unstored(runs, off / 0x7C00 / 64, saturated(off, len - 1) as int / 0x7C00 / 64);
            assert(off / 0x7C00 / 64 == off / 0x1F_0000);
            assert(0 <= g <= u64::MAX);
            assert(edits[i].0 == off);
        },
        None => lemma_lost_edit(edits, runs, part, i + 1),
    }
}

/// The fault of a partition names the partition, and either the header patch with the region
/// that it leaves, or the edit with the first group of it that is not stored.
pub proof fn law_lost_partition_patch_is_named(pp: PartitionPlan, part: int)
    requires
        partition_fault(pp, group_runs_of(pp), part) is Some,
        0 <= part <= usize::MAX,
    ensures
        match partition_fault(pp, group_runs_of(pp), part)->0 {
            LimitFault::HeaderPatch { partition, start, end, region_start, region_end } => {
                &&& partition == part
                &&& region_start == pp.start_sector * 0x8000
                &&& region_end == pp.data_start_sector * 0x8000
                &&& exists|j: int|
                    0 <= j < pp.header_patches@.len() && (#[trigger] pp.header_patches@[j]).0
                        == start && end == saturated(
                        start as int,
                        pp.header_patches@[j].1@.len() as int,
                    )
            },
            LimitFault::Edit { partition, offset, len, group } => {
                &&& partition == part
                &&& !runs_store(group_runs_of(pp), group as int)
                &&& offset as int / 0x1F_0000 <= group
                &&& exists|j: int|
                    0 <= j < pp.edits@.len() && (#[trigger] pp.edits@[j]).0 == offset
                        && pp.edits@[j].1@.len() == len
            },
            _ => false,
        },
{
    let headers = patch_views(pp.header_patches@);
    let edits = patch_views(pp.edits@);
    let runs = group_runs_of(pp);
    let from = pp.start_sector * 0x8000;
    let to = pp.data_start_sector * 0x8000;
    if let Some(fault) = header_patch_fault(headers, part, from, to, 0) {
        lemma_lost_header_patch(headers, part, from, to, 0);
        let start = fault->HeaderPatch_start;
        let end = fault->HeaderPatch_end;
        let j = choose|j: int|
            0 <= j < headers.len() && (#[trigger] headers[j]).0 == start && end == saturated(
                start as int,
                headers[j].1.len() as int,
            ) && (start < from || start + headers[j].1.len() > to);
        assert(pp.header_patches@[j].0 == start);
    } else {
        assert forall|j: int| 0 <= j < edits.len() implies (#[trigger] edits[j]).1.len()
            <= usize::MAX by {
            lemma_patch_len(&pp.edits@[j].1);
        }
        lemma_lost_edit(edits, runs, part, 0);
        let fault = edit_fault(edits, runs, part, 0)->0;
        let offset = fault->Edit_offset;
        let len = fault->Edit_len;
        let j = choose|j: int|
            0 <= j < edits.len() && (#[trigger] edits[j]).0 == offset && edits[j].1.len() == len;
        assert(pp.edits@[j].0 == offset);
    }
}

proof fn lemma_patch_len(bytes: &Vec<u8>)
    ensures
        bytes@.len() <= usize::MAX,
{
    assert(bytes@.len() == bytes.len());
}

} // verus!

//! What is read of a source disc: its streams, its boot structures and its partitions.

use vstd::prelude::*;

use crate::error::{DiscFault, Error, Result};
use crate::text::{lossy_text, text_from_bytes};
use crate::util::{be32_at, copy_range, read_be32};

verus! {

/// Bytes of data per cluster, the hash block left out.
pub const LOG_CLUSTER: u64 = 0x7C00;

/// Clusters per hash group.
pub const GROUP_CLUSTERS: u64 = 64;

/// Bytes of data per hash group.
pub const GROUP_BYTES: u64 = 0x1F_0000;

/// Largest `main.dol` that is read. A real one loads into 88 MiB of console memory, so a header
/// that asks for more is corrupt.
pub const MAX_DOL_SIZE: u64 = 0x800_0000;

/// A stream of bytes that can be read anywhere.
pub trait ReadSeek {
    /// The bytes of the stream.
    open spec fn bytes(&self) -> Seq<u8> {
        arbitrary()
    }

    /// Whether every read inside the stream succeeds.
    open spec fn dependable(&self) -> bool {
        arbitrary()
    }

    /// Read the `len` bytes at `offset`; a read past the end fails.
    fn read_at(&mut self, offset: u64, len: usize) -> (r: Result<Vec<u8>>)
        ensures
            final(self).bytes() == old(self).bytes(),
            final(self).dependable() == old(self).dependable(),
            match r {
                Ok(data) => offset + len <= old(self).bytes().len() && data@
                    == old(self).bytes().subrange(offset as int, offset + len),
                Err(e) => e is Io && !(old(self).dependable() && offset + len
                    <= old(self).bytes().len()),
            },
    ;
}

/// A decrypted logical disc: partition data decrypted, hash blocks present.
pub trait DecryptedDisc: ReadSeek {
    /// The logical disc size in bytes.
    open spec fn size(&self) -> u64 {
        arbitrary()
    }

    /// The logical disc size in bytes.
    fn disc_size(&self) -> (r: u64)
        ensures
            r == self.size(),
    ;
}

/// A disc held in memory.
pub struct MemoryDisc {
    /// Its bytes.
    pub data: Vec<u8>,
}

impl ReadSeek for MemoryDisc {
    open spec fn bytes(&self) -> Seq<u8> {
        self.data@
    }

    open spec fn dependable(&self) -> bool {
        true
    }

    fn read_at(&mut self, offset: u64, len: usize) -> (r: Result<Vec<u8>>) {
        let total: usize = self.data.len();
        if offset > total as u64 || len > total - offset as usize {
            return Err(Error::Io(String::from_str("read past the end")));
        }
        let start: usize = offset as usize;
        Ok(copy_range(self.data.as_slice(), start, start + len))
    }
}

impl DecryptedDisc for MemoryDisc {
    open spec fn size(&self) -> u64 {
        self.data@.len() as u64
    }

    fn disc_size(&self) -> (r: u64) {
        self.data.len() as u64
    }
}

/// Whether the bytes from `off` up to `end` are all zero.
pub open spec fn all_zero(bytes: Seq<u8>, off: int, end: int) -> bool {
    forall|i: int| off <= i < end ==> bytes[i] == 0
}

/// Whether a byte slice is all zero.
fn slice_is_zero(data: &[u8]) -> (r: bool)
    ensures
        r == all_zero(data@, 0, data@.len() as int),
{
    let mut i: usize = 0;
    while i < data.len()
        invariant
            i <= data@.len(),
            all_zero(data@, 0, i as int),
        decreases data@.len() - i,
    {
        if data[i] != 0 {
            return false;
        }
        i += 1;
    }
    true
}

/// Whether the `len` bytes at `off` are all zero. It reads in chunks and stops at the first one
/// that is not, so of a region that reaches past the end the answer can still be no.
pub fn region_is_zero<R: ReadSeek>(r: &mut R, off: u64, len: u64) -> (zero: Result<bool>)
    requires
        off + len <= u64::MAX,
    ensures
        final(r).bytes() == old(r).bytes(),
        final(r).dependable() == old(r).dependable(),
        match zero {
            Ok(true) => (len == 0 || off + len <= old(r).bytes().len()) && all_zero(
                old(r).bytes(),
                off as int,
                off + len,
            ),
            Ok(false) => exists|i: int|
                off <= i < off + len && i < old(r).bytes().len() && #[trigger] old(r).bytes()[i]
                    != 0,
            Err(e) => e is Io && !(old(r).dependable() && off + len <= old(r).bytes().len()),
        },
{
    let ghost bytes = r.bytes();
    let mut done: u64 = 0;
    while done < len
        invariant
            done <= len,
            off + len <= u64::MAX,
            bytes == old(r).bytes(),
            r.bytes() == bytes,
            r.dependable() == old(r).dependable(),
            done > 0 ==> off + done <= bytes.len(),
            all_zero(bytes, off as int, off + done),
        decreases len - done,
    {
        let left: u64 = len - done;
        let n: u64 = if left < 0x10_0000 {
            left
        } else {
            0x10_0000
        };
        let chunk: Vec<u8> = match r.read_at(off + done, n as usize) {
            Ok(chunk) => chunk,
            Err(e) => return Err(e),
        };
        if !slice_is_zero(chunk.as_slice()) {
            proof {
                let i = choose|i: int| 0 <= i < chunk@.len() && chunk@[i] != 0;
                assert(bytes[off + done + i] == chunk@[i]);
            }
            return Ok(false);
        }
        proof {
            assert forall|i: int| off <= i < off + done + n implies bytes[i] == 0 by {
                if i >= off + done {
                    assert(chunk@[i - (off + done)] == bytes[i]);
                }
            }
        }
        done = done + n;
    }
    Ok(true)
}

/// The hash groups that lie fully inside the `len` bytes at `off`, as a range of group numbers;
/// its end may lie before its start where there is none. The groups at the edges also cover
/// neighbouring data.
pub fn fully_contained_groups(off: u64, len: u64, group_bytes: u64) -> (r: core::ops::Range<u64>)
    requires
        0 < group_bytes,
        off + len <= u64::MAX,
        off + group_bytes <= u64::MAX,
    ensures
        r.start == (off + group_bytes - 1) / group_bytes as int,
        r.end == (off + len) / group_bytes as int,
{
    let start: u64 = (off + (group_bytes - 1)) / group_bytes;
    let end: u64 = (off + len) / group_bytes;
    start..end
}

/// Where section `i` of a DOL ends.
pub open spec fn section_end(header: Seq<u8>, i: int) -> int {
    be32_at(header, i * 4) + be32_at(header, 0x90 + i * 4)
}

/// The largest end of the first `n` sections, no less than the header itself.
pub open spec fn dol_end(header: Seq<u8>, n: int) -> int
    decreases n,
{
    if n <= 0 {
        0x100
    } else if section_end(header, n - 1) > dol_end(header, n - 1) {
        section_end(header, n - 1)
    } else {
        dol_end(header, n - 1)
    }
}

/// Whether none of the first `n` sections ends past `max`.
pub open spec fn sections_fit(header: Seq<u8>, max: int, n: int) -> bool {
    forall|i: int| 0 <= i < n ==> #[trigger] section_end(header, i) <= max
}

/// The fault of a section that ends past the limit.
pub open spec fn section_fault(header: Seq<u8>, max: u64, i: int) -> DiscFault {
    DiscFault::DolSection {
        section: i as usize,
        end: section_end(header, i) as u64,
        offset: be32_at(header, i * 4) as u64,
        size: be32_at(header, 0x90 + i * 4) as u64,
        limit: max,
    }
}

/// Size of a DOL by its header: the largest end of its 18 sections. The first section that ends
/// past `max` is an error.
pub fn dol_size_from_header(header: &[u8], max: u64) -> (r: Result<u64>)
    requires
        header@.len() == 0x100,
    ensures
        match r {
            Ok(size) => sections_fit(header@, max as int, 18) && size == dol_end(header@, 18),
            Err(e) => exists|i: int|
                0 <= i < 18 && sections_fit(header@, max as int, i) && #[trigger] section_end(
                    header@,
                    i,
                ) > max && e == Error::UnsupportedDisc(section_fault(header@, max, i)),
        },
        r is Ok <==> sections_fit(header@, max as int, 18),
{
    let mut size: u64 = 0x100;
    let mut i: usize = 0;
    while i < 18
        invariant
            i <= 18,
            header@.len() == 0x100,
            sections_fit(header@, max as int, i as int),
            size == dol_end(header@, i as int),
        decreases 18 - i,
    {
        let offset: u64 = read_be32(header, i * 4) as u64;
        let sz: u64 = read_be32(header, 0x90 + i * 4) as u64;
        let end: u64 = offset + sz;
        assert(end == section_end(header@, i as int));
        if end > max {
            return Err(
                Error::UnsupportedDisc(
                    DiscFault::DolSection { section: i, end, offset, size: sz, limit: max },
                ),
            );
        }
        if end > size {
            size = end;
        }
        i += 1;
    }
    Ok(size)
}

/// Whether an extent lies inside the partition's data; an empty one always does.
pub open spec fn extent_fits(off: u64, len: u64, data_size: u64) -> bool {
    len == 0 || off + len <= data_size
}

/// Whether an extent touches hash group `g`.
pub open spec fn touches(extent: (u64, u64), g: int) -> bool {
    extent.1 > 0 && extent.0 as int / 0x1F_0000 <= g <= (extent.0 + extent.1 - 1) / 0x1F_0000
}

/// The first and the last hash group that an extent touches, or `None` for an empty extent.
/// One that reaches past the partition's data is an error.
pub fn extent_groups(off: u64, len: u64, data_size: u64) -> (r: Result<Option<(u64, u64)>>)
    ensures
        match r {
            Ok(None) => len == 0,
            Ok(Some(groups)) => {
                &&& len > 0
                &&& off + len <= data_size
                &&& groups.0 == off as int / 0x1F_0000
                &&& groups.1 == (off + len - 1) / 0x1F_0000
            },
            Err(e) => !extent_fits(off, len, data_size) && e == Error::UnsupportedDisc(
                DiscFault::ExtentPastEnd { offset: off, len, data_size },
            ),
        },
        r is Ok <==> extent_fits(off, len, data_size),
{
    if len == 0 {
        return Ok(None);
    }
    if len > data_size || off > data_size - len {
        return Err(
            Error::UnsupportedDisc(DiscFault::ExtentPastEnd { offset: off, len, data_size }),
        );
    }
    let first: u64 = off / LOG_CLUSTER / GROUP_CLUSTERS;
    let last: u64 = (off + len - 1) / LOG_CLUSTER / GROUP_CLUSTERS;
    Ok(Some((first, last)))
}

/// Whether trimming a file that is all zero drops hash group `g`: the file is no smaller than
/// two groups, and the group lies fully inside it.
pub open spec fn trims(extent: (u64, u64), g: int) -> bool {
    &&& extent.1 >= 2 * GROUP_BYTES
    &&& extent.0 <= g * 0x1F_0000
    &&& (g + 1) * 0x1F_0000 <= extent.0 + extent.1
}

/// The whole hash groups that trimming drops of a file, or `None` where it is too small or
/// covers no whole group.
pub fn zero_trim_groups(off: u64, len: u64) -> (r: Option<core::ops::Range<u64>>)
    requires
        len >= 2 * GROUP_BYTES ==> off + len <= u64::MAX,
    ensures
        match r {
            Some(groups) => {
                &&& len >= 2 * GROUP_BYTES
                &&& groups.start < groups.end
                &&& forall|g: int| groups.start <= g < groups.end <==> trims((off, len), g)
            },
            None => forall|g: int| !trims((off, len), g),
        },
{
    if len < 2 * GROUP_BYTES {
        return None;
    }
    let groups = fully_contained_groups(off, len, GROUP_BYTES);
    if groups.end > groups.start {
        Some(groups)
    } else {
        None
    }
}

/// Number of hash groups that `clusters` clusters fall into; the last may be partial.
pub open spec fn group_count(clusters: int) -> int {
    (clusters + 63) / 64
}

/// Whether one of the first `n` extents touches hash group `g`.
pub open spec fn marked(extents: Seq<(u64, u64)>, n: int, g: int) -> bool {
    exists|i: int| 0 <= i < n && touches(#[trigger] extents[i], g)
}

/// Whether one of the first `n` files that are all zero lets hash group `g` be dropped.
pub open spec fn trimmed(zero_extents: Seq<(u64, u64)>, n: int, g: int) -> bool {
    exists|i: int| 0 <= i < n && trims(#[trigger] zero_extents[i], g)
}

/// Which hash groups are stored: those that an extent touches, or all of them where gaps are
/// not skipped, without those that trimming drops.
pub open spec fn stored_groups(
    extents: Seq<(u64, u64)>,
    clusters: int,
    skip_gaps: bool,
    zero_extents: Seq<(u64, u64)>,
) -> Seq<bool> {
    Seq::new(
        group_count(clusters) as nat,
        |g: int|
            (!skip_gaps || marked(extents, extents.len() as int, g)) && !trimmed(
                zero_extents,
                zero_extents.len() as int,
                g,
            ),
    )
}

/// Whether `runs` are the maximal runs of `true` in `used`, in order, as first and length.
pub open spec fn runs_of(used: Seq<bool>, runs: Seq<(u32, u32)>) -> bool {
    &&& forall|i: int|
        0 <= i < runs.len() ==> {
            &&& (#[trigger] runs[i]).1 > 0
            &&& runs[i].0 + runs[i].1 <= used.len()
            &&& i > 0 ==> runs[i - 1].0 + runs[i - 1].1 < runs[i].0
        }
    &&& forall|g: int|
        0 <= g < used.len() ==> (#[trigger] used[g] <==> exists|i: int|
            0 <= i < runs.len() && (#[trigger] runs[i]).0 <= g < runs[i].0 + runs[i].1)
}

/// Whether all extents lie inside the partition's data.
pub open spec fn extents_fit(extents: Seq<(u64, u64)>, data_size: u64, n: int) -> bool {
    forall|i: int|
        0 <= i < n ==> extent_fits((#[trigger] extents[i]).0, extents[i].1, data_size)
}

/// The first extent that reaches past the data is the error.
pub open spec fn extent_error(extents: Seq<(u64, u64)>, data_size: u64, e: Error) -> bool {
    exists|i: int|
        0 <= i < extents.len() && extents_fit(extents, data_size, i) && !extent_fits(
            (#[trigger] extents[i]).0,
            extents[i].1,
            data_size,
        ) && e == Error::UnsupportedDisc(
            DiscFault::ExtentPastEnd { offset: extents[i].0, len: extents[i].1, data_size },
        )
}

/// The runs of `true` in `used`.
fn coalesce(used: &Vec<bool>) -> (runs: Vec<(u32, u32)>)
    requires
        used@.len() <= u32::MAX,
    ensures
        runs_of(used@, runs@),
{
    let mut runs: Vec<(u32, u32)> = Vec::new();
    let mut open: Option<(u32, u32)> = None;
    let mut g: usize = 0;
    while g < used.len()
        invariant
            g <= used@.len() <= u32::MAX,
            runs_of(used@.subrange(0, match open {
                Some(run) => run.0 as int,
                None => g as int,
            }), runs@),
            open matches Some(run) ==> {
                &&& run.1 > 0
                &&& run.0 + run.1 == g
                &&& forall|j: int| run.0 <= j < g ==> used@[j]
                &&& run.0 > 0 ==> !used@[run.0 - 1]
            },
            open is None && g > 0 ==> !used@[g - 1],
        decreases used@.len() - g,
    {
        let ghost before = runs@;
        match open {
            Some(run) => {
                if used[g] {
                    open = Some((run.0, run.1 + 1));
                } else {
                    runs.push(run);
                    open = None;
                    proof {
                        lemma_push_run(used@, before, run, g as int);
                        assert(runs@ =~= before.push(run));
                        lemma_extend_gap(used@, runs@, g as int);
                    }
                }
            },
            None => {
                if used[g] {
                    open = Some((g as u32, 1));
                } else {
                    proof {
                        lemma_extend_gap(used@, runs@, g as int);
                    }
                }
            },
        }
        g += 1;
    }
    let ghost before = runs@;
    if let Some(run) = open {
        runs.push(run);
        proof {
            lemma_push_run(used@, before, run, g as int);
            assert(runs@ =~= before.push(run));
        }
    }
    assert(used@.subrange(0, g as int) =~= used@);
    runs
}

/// A run that is closed at `end` joins the runs before it.
proof fn lemma_push_run(used: Seq<bool>, runs: Seq<(u32, u32)>, run: (u32, u32), end: int)
    requires
        0 <= run.0 < end <= used.len(),
        run.0 + run.1 == end,
        runs_of(used.subrange(0, run.0 as int), runs),
        forall|j: int| run.0 <= j < end ==> used[j],
        run.0 > 0 ==> !used[run.0 - 1],
    ensures
        runs_of(used.subrange(0, end), runs.push(run)),
{
    let all = runs.push(run);
    let cut = used.subrange(0, end);
    let front = used.subrange(0, run.0 as int);
    assert forall|i: int| 0 <= i < all.len() implies {
        &&& (#[trigger] all[i]).1 > 0
        &&& all[i].0 + all[i].1 <= cut.len()
        &&& i > 0 ==> all[i - 1].0 + all[i - 1].1 < all[i].0
    } by {
        if i == all.len() - 1 && i > 0 {
            let last = runs[i - 1];
            assert(all[i - 1] == last);
            if last.0 + last.1 == run.0 {
                let g = run.0 - 1;
                assert(runs[i - 1].0 <= g < runs[i - 1].0 + runs[i - 1].1);
                assert(front[g] == used[g]);
                assert(front[g]);
            }
        }
    }
    assert forall|g: int| 0 <= g < cut.len() implies (#[trigger] cut[g] <==> exists|i: int|
        0 <= i < all.len() && (#[trigger] all[i]).0 <= g < all[i].0 + all[i].1) by {
        if g < run.0 {
            assert(front[g] == cut[g]);
            if front[g] {
                let i = choose|i: int|
                    0 <= i < runs.len() && (#[trigger] runs[i]).0 <= g < runs[i].0 + runs[i].1;
                assert(all[i] == runs[i]);
            }
            if exists|i: int|
                0 <= i < all.len() && (#[trigger] all[i]).0 <= g < all[i].0 + all[i].1 {
                let i = choose|i: int|
                    0 <= i < all.len() && (#[trigger] all[i]).0 <= g < all[i].0 + all[i].1;
                assert(runs[i] == all[i]);
            }
        } else {
            assert(all[all.len() - 1] == run);
        }
    }
}

/// A group that is not used leaves the runs as they are.
proof fn lemma_extend_gap(used: Seq<bool>, runs: Seq<(u32, u32)>, g: int)
    requires
        0 <= g < used.len(),
        !used[g],
        runs_of(used.subrange(0, g), runs),
    ensures
        runs_of(used.subrange(0, g + 1), runs),
{
    let cut = used.subrange(0, g + 1);
    let front = used.subrange(0, g);
    assert forall|h: int| 0 <= h < cut.len() implies (#[trigger] cut[h] <==> exists|i: int|
        0 <= i < runs.len() && (#[trigger] runs[i]).0 <= h < runs[i].0 + runs[i].1) by {
        if h < g {
            assert(front[h] == cut[h]);
        }
    }
}

/// Whether the extents that are large enough to be trimmed end at an offset that can be held.
pub open spec fn trimmable_held(extents: Seq<(u64, u64)>) -> bool {
    forall|i: int|
        0 <= i < extents.len() && (#[trigger] extents[i]).1 >= 2 * GROUP_BYTES ==> extents[i].0
            + extents[i].1 <= u64::MAX
}

/// Decide which hash groups are stored, as runs of first group and number of groups.
///
/// `extents` must be stored: the boot structures, then every file. Without `skip_gaps` every
/// group is stored. Of `zero_extents`, files that are all zero, the groups fully inside are
/// dropped again.
pub fn plan_group_runs(
    extents: &[(u64, u64)],
    clusters: u64,
    skip_gaps: bool,
    zero_extents: &[(u64, u64)],
) -> (r: Result<Vec<(u32, u32)>>)
    requires
        group_count(clusters as int) <= u32::MAX,
        extents_fit(extents@, (clusters * 0x7C00) as u64, extents@.len() as int)
            ==> trimmable_held(zero_extents@),
    ensures
        match r {
            Ok(runs) => {
                &&& extents_fit(extents@, (clusters * 0x7C00) as u64, extents@.len() as int)
                &&& runs_of(
                    stored_groups(extents@, clusters as int, skip_gaps, zero_extents@),
                    runs@,
                )
            },
            Err(e) => extent_error(extents@, (clusters * 0x7C00) as u64, e),
        },
{
    let ngroups: usize = ((clusters + (GROUP_CLUSTERS - 1)) / GROUP_CLUSTERS) as usize;
    let data_size: u64 = clusters * LOG_CLUSTER;
    let mut used: Vec<bool> = vec![false; ngroups];
    let mut i: usize = 0;
    while i < extents.len()
        invariant
            i <= extents@.len(),
            ngroups == group_count(clusters as int),
            ngroups <= u32::MAX,
            data_size == clusters * 0x7C00,
            used@.len() == ngroups,
            extents_fit(extents@, data_size, i as int),
            forall|g: int| 0 <= g < ngroups ==> #[trigger] used@[g] == marked(extents@, i as int, g),
        decreases extents@.len() - i,
    {
        let ghost before = used@;
        match extent_groups(extents[i].0, extents[i].1, data_size) {
            Err(e) => return Err(e),
            Ok(None) => {
                proof {
                    assert forall|g: int| 0 <= g < ngroups implies #[trigger] used@[g] == marked(
                        extents@,
                        i + 1,
                        g,
                    ) by {
                        lemma_marked_step(extents@, i as int, g);
                    }
                }
            },
            Ok(Some(groups)) => {
                let mut g: u64 = groups.0;
                while g <= groups.1
                    invariant
                        groups.0 <= g <= groups.1 + 1,
                        groups.1 < ngroups,
                        ngroups <= u32::MAX,
                        used@.len() == ngroups,
                        before.len() == ngroups,
                        forall|h: int|
                            0 <= h < ngroups ==> #[trigger] used@[h] == (before[h] || groups.0 <= h
                                < g),
                    decreases groups.1 + 1 - g,
                {
                    used.set(g as usize, true);
                    g += 1;
                }
                proof {
                    assert forall|h: int| 0 <= h < ngroups implies #[trigger] used@[h] == marked(
                        extents@,
                        i + 1,
                        h,
                    ) by {
                        lemma_marked_step(extents@, i as int, h);
                    }
                }
            },
        }
        i += 1;
    }
    if !skip_gaps {
        used = vec![true; ngroups];
    }
    let ghost base = used@;
    let mut z: usize = 0;
    while z < zero_extents.len()
        invariant
            z <= zero_extents@.len(),
            ngroups <= u32::MAX,
            used@.len() == ngroups,
            base.len() == ngroups,
            trimmable_held(zero_extents@),
            forall|g: int|
                0 <= g < ngroups ==> #[trigger] used@[g] == (base[g] && !trimmed(
                    zero_extents@,
                    z as int,
                    g,
                )),
        decreases zero_extents@.len() - z,
    {
        let ghost before = used@;
        let extent: (u64, u64) = zero_extents[z];
        if let Some(groups) = zero_trim_groups(extent.0, extent.1) {
            let mut g: u64 = groups.start;
            while g < groups.end && g < ngroups as u64
                invariant
                    groups.start <= g <= groups.end,
                    ngroups <= u32::MAX,
                    used@.len() == ngroups,
                    before.len() == ngroups,
                    forall|h: int|
                        0 <= h < ngroups ==> #[trigger] used@[h] == (before[h] && !(groups.start
                            <= h < g)),
                decreases groups.end - g,
            {
                used.set(g as usize, false);
                g += 1;
            }
            proof {
                assert forall|h: int| 0 <= h < ngroups implies #[trigger] used@[h] == (base[h]
                    && !trimmed(zero_extents@, z + 1, h)) by {
                    lemma_trimmed_step(zero_extents@, z as int, h);
                    assert(groups.start <= h < groups.end <==> trims(extent, h));
                }
            }
        } else {
            proof {
                assert forall|h: int| 0 <= h < ngroups implies #[trigger] used@[h] == (base[h]
                    && !trimmed(zero_extents@, z + 1, h)) by {
                    lemma_trimmed_step(zero_extents@, z as int, h);
                }
            }
        }
        z += 1;
    }
    assert(used@ =~= stored_groups(extents@, clusters as int, skip_gaps, zero_extents@));
    Ok(coalesce(&used))
}

proof fn lemma_marked_step(extents: Seq<(u64, u64)>, n: int, g: int)
    requires
        0 <= n < extents.len(),
    ensures
        marked(extents, n + 1, g) == (marked(extents, n, g) || touches(extents[n], g)),
{
    if touches(extents[n], g) {
        assert(0 <= n < n + 1 && touches(extents[n], g));
    }
    if marked(extents, n, g) {
        let i = choose|i: int| 0 <= i < n && touches(#[trigger] extents[i], g);
        assert(0 <= i < n + 1 && touches(extents[i], g));
    }
}

proof fn lemma_trimmed_step(zero_extents: Seq<(u64, u64)>, n: int, g: int)
    requires
        0 <= n < zero_extents.len(),
    ensures
        trimmed(zero_extents, n + 1, g) == (trimmed(zero_extents, n, g) || trims(
            zero_extents[n],
            g,
        )),
{
    if trims(zero_extents[n], g) {
        assert(0 <= n < n + 1 && trims(zero_extents[n], g));
    }
    if trimmed(zero_extents, n, g) {
        let i = choose|i: int| 0 <= i < n && trims(#[trigger] zero_extents[i], g);
        assert(0 <= i < n + 1 && trims(zero_extents[i], g));
    }
}

/// The data partition's `main.dol` and where it stands.
#[derive(Debug)]
pub struct MainDol {
    /// Offset within the partition's data.
    pub offset: u64,
    /// Its bytes.
    pub data: Vec<u8>,
}

/// Where `main.dol` stands, by the boot header of the partition.
pub open spec fn dol_at(bytes: Seq<u8>) -> int {
    be32_at(bytes, 0x420) * 4
}

/// Whether the boot header and the header of `main.dol` can be read.
pub open spec fn dol_header_readable(bytes: Seq<u8>) -> bool {
    bytes.len() >= 0x440 && dol_at(bytes) + 0x100 <= bytes.len()
}

/// The header of `main.dol`.
pub open spec fn dol_header(bytes: Seq<u8>) -> Seq<u8> {
    bytes.subrange(dol_at(bytes), dol_at(bytes) + 0x100)
}

/// The size of `main.dol`.
pub open spec fn dol_size(bytes: Seq<u8>) -> int {
    dol_end(dol_header(bytes), 18)
}

/// Whether the first section of `main.dol` that ends past the limit is the error.
pub open spec fn section_error(header: Seq<u8>, e: Error) -> bool {
    exists|i: int|
        0 <= i < 18 && sections_fit(header, MAX_DOL_SIZE as int, i) && #[trigger] section_end(
            header,
            i,
        ) > MAX_DOL_SIZE && e == Error::UnsupportedDisc(section_fault(header, MAX_DOL_SIZE, i))
}

/// Where the header of `main.dol` stands; the header itself follows.
fn read_dol_header<P: ReadSeek>(part: &mut P, dol_off: u64) -> (r: Result<Vec<u8>>)
    ensures
        final(part).bytes() == old(part).bytes(),
        final(part).dependable() == old(part).dependable(),
        match r {
            Ok(header) => {
                &&& dol_off + 0x100 <= old(part).bytes().len()
                &&& header@ == old(part).bytes().subrange(dol_off as int, dol_off + 0x100)
            },
            Err(e) => e is Io && !(old(part).dependable() && dol_off + 0x100
                <= old(part).bytes().len()),
        },
{
    part.read_at(dol_off, 0x100)
}

proof fn lemma_dol_end(header: Seq<u8>, max: int, n: int)
    requires
        0 <= n,
        0x100 <= max,
        sections_fit(header, max, n),
    ensures
        0x100 <= dol_end(header, n) <= max,
    decreases n,
{
    if n > 0 {
        lemma_dol_end(header, max, n - 1);
        assert(section_end(header, n - 1) <= max);
    }
}

/// The extents of the boot structures: boot header, disc information and apploader; `main.dol`;
/// the file system table.
pub open spec fn boot_extents(bytes: Seq<u8>) -> Seq<(u64, u64)> {
    seq![
        (0u64, (0x2460 + be32_at(bytes, 0x2454) + be32_at(bytes, 0x2458)) as u64),
        (dol_at(bytes) as u64, dol_size(bytes) as u64),
        ((be32_at(bytes, 0x424) * 4) as u64, (be32_at(bytes, 0x428) * 4) as u64),
    ]
}

/// Whether the boot structures are there: their headers can be read, and the sections of
/// `main.dol` keep to the limit.
pub open spec fn boot_present(bytes: Seq<u8>) -> bool {
    &&& dol_header_readable(bytes)
    &&& bytes.len() >= 0x2460
    &&& sections_fit(dol_header(bytes), MAX_DOL_SIZE as int, 18)
}

/// Where the boot structures lie.
fn find_boot_extents<P: ReadSeek>(part: &mut P) -> (r: Result<Vec<(u64, u64)>>)
    ensures
        final(part).bytes() == old(part).bytes(),
        final(part).dependable() == old(part).dependable(),
        match r {
            Ok(extents) => boot_present(old(part).bytes()) && extents@ == boot_extents(
                old(part).bytes(),
            ),
            Err(Error::Io(_)) => !(old(part).dependable() && dol_header_readable(
                old(part).bytes(),
            ) && old(part).bytes().len() >= 0x2460),
            Err(e) => {
                &&& dol_header_readable(old(part).bytes())
                &&& old(part).bytes().len() >= 0x2460
                &&& section_error(dol_header(old(part).bytes()), e)
            },
        },
{
    let ghost bytes = part.bytes();
    let boot: Vec<u8> = match part.read_at(0, 0x440) {
        Ok(boot) => boot,
        Err(e) => return Err(e),
    };
    let dol_off: u64 = read_be32(boot.as_slice(), 0x420) as u64 * 4;
    let fst_off: u64 = read_be32(boot.as_slice(), 0x424) as u64 * 4;
    let fst_size: u64 = read_be32(boot.as_slice(), 0x428) as u64 * 4;
    assert(dol_off == dol_at(bytes));
    assert(fst_off == be32_at(bytes, 0x424) * 4 && fst_size == be32_at(bytes, 0x428) * 4);
    let ap: Vec<u8> = match part.read_at(0x2440, 0x20) {
        Ok(ap) => ap,
        Err(e) => return Err(e),
    };
    let ap_end: u64 = 0x2460 + read_be32(ap.as_slice(), 0x14) as u64 + read_be32(
        ap.as_slice(),
        0x18,
    ) as u64;
    assert(ap_end == 0x2460 + be32_at(bytes, 0x2454) + be32_at(bytes, 0x2458));
    let header: Vec<u8> = match read_dol_header(part, dol_off) {
        Ok(header) => header,
        Err(e) => return Err(e),
    };
    let dol_len: u64 = match dol_size_from_header(header.as_slice(), MAX_DOL_SIZE) {
        Ok(size) => size,
        Err(e) => return Err(e),
    };
    let mut extents: Vec<(u64, u64)> = Vec::new();
    extents.push((0, ap_end));
    extents.push((dol_off, dol_len));
    extents.push((fst_off, fst_size));
    assert(extents@ =~= boot_extents(bytes));
    Ok(extents)
}

/// Whether a file is large enough to be trimmed.
pub open spec fn trim_candidate(file: (u64, u64)) -> bool {
    file.1 >= 2 * GROUP_BYTES
}

/// Those of the first `n` files that are large enough to be trimmed and all zero.
pub open spec fn zero_files(bytes: Seq<u8>, files: Seq<(u64, u64)>, n: int) -> Seq<(u64, u64)>
    decreases n,
{
    if n <= 0 {
        Seq::empty()
    } else {
        let file = files[n - 1];
        if trim_candidate(file) && all_zero(bytes, file.0 as int, file.0 + file.1) {
            zero_files(bytes, files, n - 1).push(file)
        } else {
            zero_files(bytes, files, n - 1)
        }
    }
}

/// Whether the files that are large enough to be trimmed can be read.
pub open spec fn candidates_readable(bytes: Seq<u8>, files: Seq<(u64, u64)>) -> bool {
    forall|i: int|
        0 <= i < files.len() && trim_candidate(#[trigger] files[i]) ==> files[i].0 + files[i].1
            <= bytes.len()
}

/// A file of at least two groups covers a whole one.
proof fn lemma_candidate(off: u64, len: u64)
    requires
        len >= 2 * GROUP_BYTES,
    ensures
        exists|g: int| trims((off, len), g),
{
    let g = (off + 0x1E_FFFF) / 0x1F_0000;
    assert(trims((off, len), g));
}

/// Check that every extent lies inside the partition's data.
fn check_extents(extents: &Vec<(u64, u64)>, data_size: u64) -> (r: Result<()>)
    ensures
        match r {
            Ok(_) => extents_fit(extents@, data_size, extents@.len() as int),
            Err(e) => extent_error(extents@, data_size, e),
        },
{
    let mut i: usize = 0;
    while i < extents.len()
        invariant
            i <= extents@.len(),
            extents_fit(extents@, data_size, i as int),
        decreases extents@.len() - i,
    {
        match extent_groups(extents[i].0, extents[i].1, data_size) {
            Ok(_) => {},
            Err(e) => {
                assert(!extent_fits(extents@[i as int].0, extents@[i as int].1, data_size));
                return Err(e);
            },
        }
        i += 1;
    }
    Ok(())
}

/// The files that are large enough to be trimmed and all zero.
fn find_zero_files<P: ReadSeek>(
    part: &mut P,
    files: &[(u64, u64)],
) -> (r: Result<Vec<(u64, u64)>>)
    requires
        forall|i: int|
            0 <= i < files@.len() ==> (#[trigger] files@[i]).0 + files@[i].1 <= u64::MAX,
    ensures
        final(part).bytes() == old(part).bytes(),
        final(part).dependable() == old(part).dependable(),
        match r {
            Ok(found) => {
                &&& found@ == zero_files(old(part).bytes(), files@, files@.len() as int)
                &&& forall|i: int|
                    0 <= i < found@.len() ==> (#[trigger] found@[i]).0 + found@[i].1 <= u64::MAX
            },
            Err(e) => e is Io && !(old(part).dependable() && candidates_readable(
                old(part).bytes(),
                files@,
            )),
        },
{
    let ghost bytes = part.bytes();
    let mut found: Vec<(u64, u64)> = Vec::new();
    let mut i: usize = 0;
    while i < files.len()
        invariant
            i <= files@.len(),
            bytes == old(part).bytes(),
            part.bytes() == bytes,
            part.dependable() == old(part).dependable(),
            forall|j: int|
                0 <= j < files@.len() ==> (#[trigger] files@[j]).0 + files@[j].1 <= u64::MAX,
            found@ == zero_files(bytes, files@, i as int),
            forall|j: int|
                0 <= j < found@.len() ==> (#[trigger] found@[j]).0 + found@[j].1 <= u64::MAX,
        decreases files@.len() - i,
    {
        let file: (u64, u64) = files[i];
        proof {
            if trim_candidate(file) {
                lemma_candidate(file.0, file.1);
            }
        }
        if zero_trim_groups(file.0, file.1).is_some() {
            match region_is_zero(part, file.0, file.1) {
                Ok(zero) => {
                    if zero {
                        found.push(file);
                    }
                },
                Err(e) => return Err(e),
            }
        }
        i += 1;
    }
    Ok(found)
}

/// Whether `main.dol` is there: its header can be read, its sections keep to the limit, and it
/// lies inside the partition's data.
pub open spec fn dol_present(bytes: Seq<u8>, data_size: u64) -> bool {
    &&& dol_header_readable(bytes)
    &&& sections_fit(dol_header(bytes), MAX_DOL_SIZE as int, 18)
    &&& dol_at(bytes) + dol_size(bytes) <= data_size
    &&& dol_at(bytes) + dol_size(bytes) <= bytes.len()
}

/// The bytes of `main.dol`.
pub open spec fn dol_data(bytes: Seq<u8>) -> Seq<u8> {
    bytes.subrange(dol_at(bytes), dol_at(bytes) + dol_size(bytes))
}

/// Whether `e` is the error of reading `main.dol`.
pub open spec fn dol_failed(bytes: Seq<u8>, dependable: bool, data_size: u64, e: Error) -> bool {
    let fits = sections_fit(dol_header(bytes), MAX_DOL_SIZE as int, 18);
    let end = dol_at(bytes) + dol_size(bytes);
    match e {
        Error::UnsupportedDisc(DiscFault::DolPastEnd { offset, size, data_size: d }) => {
            &&& dol_header_readable(bytes)
            &&& fits
            &&& end > data_size
            &&& offset == dol_at(bytes)
            &&& size == dol_size(bytes)
            &&& d == data_size
        },
        Error::UnsupportedDisc(_) => dol_header_readable(bytes) && section_error(
            dol_header(bytes),
            e,
        ),
        _ => e is Io && !(dependable && dol_header_readable(bytes) && (!fits || end > data_size
            || end <= bytes.len())),
    }
}

/// An entry of a partition's file system table.
#[derive(Clone, Copy, Debug, PartialEq, Eq, Structural)]
pub struct DiscNode {
    /// Whether it is a directory.
    pub is_dir: bool,
    /// Where a file's data starts, within the partition's data.
    pub offset: u64,
    /// A file's size.
    pub len: u64,
}

/// How many entries a file system table states, its root counted.
pub open spec fn stated_nodes(raw: Seq<u8>) -> int {
    be32_at(raw, 8) as int
}

/// Whether a file system table holds its entries, and names behind them.
pub open spec fn nodes_held(raw: Seq<u8>) -> bool {
    raw.len() >= 12 && stated_nodes(raw) * 12 < raw.len()
}

/// Entry `i` of a file system table. A file's offset is stored in words.
pub open spec fn node_at(raw: Seq<u8>, i: int) -> DiscNode {
    let stored = be32_at(raw, i * 12 + 4);
    DiscNode {
        is_dir: raw[i * 12] == 1,
        offset: if raw[i * 12] == 0 {
            (stored * 4) as u64
        } else {
            stored as u64
        },
        len: be32_at(raw, i * 12 + 8) as u64,
    }
}

/// The entries of a file system table behind its root.
pub open spec fn nodes_of(raw: Seq<u8>) -> Seq<DiscNode> {
    let n = stated_nodes(raw);
    Seq::new(
        if n > 0 {
            (n - 1) as nat
        } else {
            0
        },
        |i: int| node_at(raw, i + 1),
    )
}

/// Whether a file system table can be refused for this reason.
pub open spec fn fst_refused(raw: Seq<u8>, why: Seq<char>) -> bool {
    why == "FST root node not found"@ || (why == "FST string table out of bounds"@ && raw.len()
        >= 12 && !nodes_held(raw))
}

/// `nod::Fst::new` and `nod::Fst::iter`: the entries of a Wii partition's file system table
/// behind its root, in order, each read with `nod::Node::is_dir`, `offset` and `length`. A table
/// that does not hold its entries is refused. The entries are viewed in place, and a table that
/// does not lie at a multiple of four in memory is refused as one without a root: which tables
/// are accepted is therefore not stated.
#[verifier::external_body]
fn disc_nodes(raw_fst: &[u8]) -> (r: core::result::Result<Vec<DiscNode>, &'static str>)
    ensures
        match r {
            Ok(nodes) => nodes_held(raw_fst@) && nodes@ == nodes_of(raw_fst@),
            Err(why) => fst_refused(raw_fst@, why@),
        },
{
    let fst = nod::Fst::new(raw_fst)?;
    let plain = |node: nod::Node| DiscNode {
        is_dir: node.is_dir(),
        offset: node.offset(true),
        len: node.length(),
    };
    Ok(fst.iter().map(|(_, node, _)| plain(node)).collect())
}

/// The files among the first `n` entries: where each starts and how long it is.
pub open spec fn files_among(nodes: Seq<DiscNode>, n: int) -> Seq<(u64, u64)>
    decreases n,
{
    if n <= 0 {
        Seq::empty()
    } else if nodes[n - 1].is_dir {
        files_among(nodes, n - 1)
    } else {
        files_among(nodes, n - 1).push((nodes[n - 1].offset, nodes[n - 1].len))
    }
}

/// The files of a file system table, in disc order.
pub open spec fn fst_files(raw: Seq<u8>) -> Seq<(u64, u64)> {
    files_among(nodes_of(raw), nodes_of(raw).len() as int)
}

/// The files among entries that have been read, in order.
pub fn files_of_nodes(nodes: &Vec<DiscNode>) -> (files: Vec<(u64, u64)>)
    ensures
        files@ == files_among(nodes@, nodes@.len() as int),
{
    let mut files: Vec<(u64, u64)> = Vec::new();
    let mut i: usize = 0;
    while i < nodes.len()
        invariant
            i <= nodes@.len(),
            files@ == files_among(nodes@, i as int),
        decreases nodes@.len() - i,
    {
        if !nodes[i].is_dir {
            files.push((nodes[i].offset, nodes[i].len));
        }
        i += 1;
    }
    files
}

/// The files of a partition by its file system table, in disc order. A table that lies askew in
/// memory is refused as one without a root.
pub fn disc_files(raw_fst: &[u8]) -> (r: Result<Vec<(u64, u64)>>)
    ensures
        match r {
            Ok(files) => nodes_held(raw_fst@) && files@ == fst_files(raw_fst@),
            Err(e) => e matches Error::UnsupportedDisc(DiscFault::NoFst(why)) && fst_refused(
                raw_fst@,
                why@,
            ),
        },
{
    match disc_nodes(raw_fst) {
        Ok(nodes) => Ok(files_of_nodes(&nodes)),
        Err(why) => Err(Error::UnsupportedDisc(DiscFault::NoFst(why))),
    }
}

/// Whether `runs` are the hash groups to store for extents that have been found.
pub open spec fn runs_decided(
    bytes: Seq<u8>,
    boot: Seq<(u64, u64)>,
    files: Seq<(u64, u64)>,
    clusters: int,
    skip_gaps: bool,
    trim_zeros: bool,
    runs: Seq<(u32, u32)>,
) -> bool {
    let extents = boot + files;
    &&& extents_fit(extents, (clusters * 0x7C00) as u64, extents.len() as int)
    &&& runs_of(
        stored_groups(
            extents,
            clusters,
            skip_gaps,
            if trim_zeros {
                zero_files(bytes, files, files.len() as int)
            } else {
                Seq::empty()
            },
        ),
        runs,
    )
}

/// Whether `runs` are the hash groups to store.
pub open spec fn groups_decided(
    bytes: Seq<u8>,
    files: Seq<(u64, u64)>,
    clusters: int,
    skip_gaps: bool,
    trim_zeros: bool,
    runs: Seq<(u32, u32)>,
) -> bool {
    boot_present(bytes) && runs_decided(
        bytes,
        boot_extents(bytes),
        files,
        clusters,
        skip_gaps,
        trim_zeros,
        runs,
    )
}

/// The files that are trimmed are all zero.
proof fn lemma_zero_files(bytes: Seq<u8>, files: Seq<(u64, u64)>, n: int, i: int)
    requires
        0 <= n <= files.len(),
        0 <= i < zero_files(bytes, files, n).len(),
    ensures
        ({
            let file = zero_files(bytes, files, n)[i];
            all_zero(bytes, file.0 as int, file.0 + file.1)
        }),
    decreases n,
{
    if n > 0 && i < zero_files(bytes, files, n - 1).len() {
        lemma_zero_files(bytes, files, n - 1, i);
    }
}

/// Every byte of the boot structures and of the files is stored. The one exception is made by
/// trimming, and what it leaves out is zero.
pub proof fn law_data_is_stored_or_zero(
    bytes: Seq<u8>,
    files: Seq<(u64, u64)>,
    clusters: int,
    skip_gaps: bool,
    trim_zeros: bool,
    runs: Seq<(u32, u32)>,
    extent: int,
    at: int,
)
    requires
        0 <= clusters <= u32::MAX,
        groups_decided(bytes, files, clusters, skip_gaps, trim_zeros, runs),
        0 <= extent < (boot_extents(bytes) + files).len(),
        ({
            let (off, len) = (boot_extents(bytes) + files)[extent];
            off <= at < off + len
        }),
    ensures
        (exists|i: int|
            0 <= i < runs.len() && (#[trigger] runs[i]).0 <= at / 0x1F_0000 < runs[i].0
                + runs[i].1) || (trim_zeros && bytes[at] == 0),
{
    let extents = boot_extents(bytes) + files;
    let zero_extents = if trim_zeros {
        zero_files(bytes, files, files.len() as int)
    } else {
        Seq::empty()
    };
    let used = stored_groups(extents, clusters, skip_gaps, zero_extents);
    let g = at / 0x1F_0000;
    assert(extent_fits(extents[extent].0, extents[extent].1, (clusters * 0x7C00) as u64));
    assert(0 <= g < group_count(clusters));
    assert(touches(extents[extent], g));
    assert(marked(extents, extents.len() as int, g));
    if !used[g] {
        assert(trimmed(zero_extents, zero_extents.len() as int, g));
        let i = choose|i: int|
            0 <= i < zero_extents.len() && trims(#[trigger] zero_extents[i], g);
        lemma_zero_files(bytes, files, files.len() as int, i);
    }
}

/// Where neither gaps are skipped nor zeros trimmed, every hash group is stored.
pub proof fn law_whole_partition_is_stored(
    bytes: Seq<u8>,
    files: Seq<(u64, u64)>,
    clusters: int,
    runs: Seq<(u32, u32)>,
    g: int,
)
    requires
        groups_decided(bytes, files, clusters, false, false, runs),
        0 <= g < group_count(clusters),
    ensures
        exists|i: int|
            0 <= i < runs.len() && (#[trigger] runs[i]).0 <= g < runs[i].0 + runs[i].1,
{
    let used = stored_groups(boot_extents(bytes) + files, clusters, false, Seq::empty());
    assert(used[g]);
}

/// Whether `e` is the error of deciding the hash groups to store: the boot structures are read
/// first, then the file system table, then every extent is checked, and only then are files read.
pub open spec fn groups_failed(
    bytes: Seq<u8>,
    dependable: bool,
    raw_fst: Seq<u8>,
    clusters: int,
    trim_zeros: bool,
    e: Error,
) -> bool {
    match e {
        Error::UnsupportedDisc(DiscFault::ExtentPastEnd { .. }) => {
            &&& boot_present(bytes)
            &&& nodes_held(raw_fst)
            &&& extent_error(
                boot_extents(bytes) + fst_files(raw_fst),
                (clusters * 0x7C00) as u64,
                e,
            )
        },
        Error::UnsupportedDisc(DiscFault::NoFst(why)) => boot_present(bytes) && fst_refused(
            raw_fst,
            why@,
        ),
        Error::UnsupportedDisc(_) => {
            &&& dol_header_readable(bytes)
            &&& bytes.len() >= 0x2460
            &&& section_error(dol_header(bytes), e)
        },
        _ => e is Io && {
            ||| !dependable
            ||| !(dol_header_readable(bytes) && bytes.len() >= 0x2460)
            ||| {
                &&& trim_zeros
                &&& boot_present(bytes)
                &&& nodes_held(raw_fst)
                &&& extents_fit(
                    boot_extents(bytes) + fst_files(raw_fst),
                    (clusters * 0x7C00) as u64,
                    (boot_extents(bytes) + fst_files(raw_fst)).len() as int,
                )
                &&& !candidates_readable(bytes, fst_files(raw_fst))
            }
        },
    }
}

/// The sectors that a partition occupies on the logical disc.
#[derive(Clone, Copy, Debug, PartialEq, Eq, Structural)]
pub struct PartitionSpan {
    /// Number of the partition.
    pub index: usize,
    /// First sector of the partition, its header.
    pub start_sector: u32,
    /// First sector of its data.
    pub data_start_sector: u32,
    /// One past the last sector of its data.
    pub data_end_sector: u32,
}

/// A partition as the disc lists it.
#[derive(Clone, Copy, Debug, PartialEq, Eq, Structural)]
pub struct ListedPartition {
    /// Where it lies.
    pub span: PartitionSpan,
    /// Whether it is the data (game) partition.
    pub is_data: bool,
}

/// What an opened disc image tells of itself.
#[derive(Debug)]
pub struct DiscFacts {
    /// Where the image is.
    pub path: String,
    /// Whether its header is that of a Wii disc.
    pub is_wii: bool,
    /// Whether its header is that of a GameCube disc.
    pub is_gamecube: bool,
    /// The game id of its header.
    pub game_id: [u8; 6],
    /// Its logical size in bytes.
    pub disc_size: u64,
    /// Its partitions, as listed.
    pub partitions: Vec<ListedPartition>,
    /// The data partition's ticket, if it has one.
    pub raw_ticket: Option<Vec<u8>>,
    /// The data partition's TMD, if it has one.
    pub raw_tmd: Option<Vec<u8>>,
}

/// A source Wii disc.
#[derive(Debug)]
pub struct SourceDisc {
    path: String,
    game_id: [u8; 6],
    disc_size: u64,
    data_partition: PartitionSpan,
    partitions: Vec<PartitionSpan>,
    raw_ticket: Vec<u8>,
    raw_tmd: Vec<u8>,
}

/// The first listed data partition, searched from `i` on.
pub open spec fn data_partition_from(listed: Seq<ListedPartition>, i: int) -> Option<PartitionSpan>
    decreases listed.len() - i,
{
    if i < 0 || i >= listed.len() {
        None
    } else if listed[i].is_data {
        Some(listed[i].span)
    } else {
        data_partition_from(listed, i + 1)
    }
}

/// Where a span goes among the first `n` of `sorted`: behind the last one that starts no later.
pub open spec fn span_place(sorted: Seq<PartitionSpan>, start: u32, n: int) -> int
    decreases n,
{
    if n <= 0 {
        0
    } else if sorted[n - 1].start_sector <= start {
        n
    } else {
        span_place(sorted, start, n - 1)
    }
}

/// The spans of the first `n` listed partitions by start sector; equals keep their places.
pub open spec fn sorted_spans(listed: Seq<ListedPartition>, n: int) -> Seq<PartitionSpan>
    decreases n,
{
    if n <= 0 {
        Seq::empty()
    } else {
        let before = sorted_spans(listed, n - 1);
        let span = listed[n - 1].span;
        before.insert(span_place(before, span.start_sector, before.len() as int), span)
    }
}

proof fn lemma_span_place(sorted: Seq<PartitionSpan>, start: u32, n: int)
    requires
        0 <= n <= sorted.len(),
    ensures
        0 <= span_place(sorted, start, n) <= n,
        forall|i: int|
            span_place(sorted, start, n) <= i < n ==> (#[trigger] sorted[i]).start_sector > start,
        span_place(sorted, start, n) > 0 ==> sorted[span_place(sorted, start, n) - 1].start_sector
            <= start,
    decreases n,
{
    if n > 0 {
        lemma_span_place(sorted, start, n - 1);
    }
}

/// The partitions of a disc are kept in order of their start sectors.
pub proof fn law_partitions_ascend(listed: Seq<ListedPartition>, n: int)
    requires
        0 <= n <= listed.len(),
    ensures
        sorted_spans(listed, n).len() == n,
        forall|i: int, j: int|
            0 <= i <= j < n ==> (#[trigger] sorted_spans(listed, n)[i]).start_sector <= (
            #[trigger] sorted_spans(listed, n)[j]).start_sector,
    decreases n,
{
    if n > 0 {
        law_partitions_ascend(listed, n - 1);
        let before = sorted_spans(listed, n - 1);
        let span = listed[n - 1].span;
        let at = span_place(before, span.start_sector, before.len() as int);
        lemma_span_place(before, span.start_sector, before.len() as int);
        let all = sorted_spans(listed, n);
        assert forall|i: int, j: int| 0 <= i <= j < n implies (#[trigger] all[i]).start_sector <= (
        #[trigger] all[j]).start_sector by {
            let p = if i < at {
                i
            } else {
                i - 1
            };
            let q = if j < at {
                j
            } else {
                j - 1
            };
            if i != at {
                assert(all[i] == before[p]);
            }
            if j != at {
                assert(all[j] == before[q]);
            }
            if i < at && j == at && at > 0 {
                assert(before[i].start_sector <= before[at - 1].start_sector);
            }
        }
    }
}

impl SourceDisc {
    /// The 6-character game id.
    pub closed spec fn id_view(&self) -> Seq<u8> {
        self.game_id@
    }

    /// Where the image is.
    pub closed spec fn path_view(&self) -> Seq<char> {
        self.path@
    }

    /// The logical disc size.
    pub closed spec fn size_view(&self) -> u64 {
        self.disc_size
    }

    /// The data partition.
    pub closed spec fn data_span(&self) -> PartitionSpan {
        self.data_partition
    }

    /// All partitions.
    pub closed spec fn spans(&self) -> Seq<PartitionSpan> {
        self.partitions@
    }

    /// The ticket.
    pub closed spec fn ticket_view(&self) -> Seq<u8> {
        self.raw_ticket@
    }

    /// The TMD.
    pub closed spec fn tmd_view(&self) -> Seq<u8> {
        self.raw_tmd@
    }

    /// Whether the data partition ends no earlier than it starts.
    pub open spec fn span_ordered(&self) -> bool {
        self.data_span().data_start_sector <= self.data_span().data_end_sector
    }

    /// Clusters in the partition's data.
    pub open spec fn region_clusters(&self) -> int {
        self.data_span().data_end_sector - self.data_span().data_start_sector
    }

    /// Bytes in the partition's data, the hash blocks left out.
    pub open spec fn region_size(&self) -> u64 {
        (self.region_clusters() * 0x7C00) as u64
    }

    /// Take a Wii disc for a source. What is missing is reported in this order: that it is no
    /// Wii disc, the data partition, the ticket, the TMD.
    pub fn open(facts: DiscFacts) -> (r: Result<Self>)
        ensures
            match r {
                Ok(disc) => {
                    &&& facts.is_wii
                    &&& data_partition_from(facts.partitions@, 0) == Some(disc.data_span())
                    &&& facts.raw_ticket matches Some(ticket) && disc.ticket_view() == ticket@
                    &&& facts.raw_tmd matches Some(tmd) && disc.tmd_view() == tmd@
                    &&& disc.path_view() == facts.path@
                    &&& disc.id_view() == facts.game_id@
                    &&& disc.size_view() == facts.disc_size
                    &&& disc.spans() == sorted_spans(
                        facts.partitions@,
                        facts.partitions@.len() as int,
                    )
                },
                Err(Error::UnsupportedDisc(DiscFault::NotWii(path))) => !facts.is_wii && path@
                    == facts.path@,
                Err(Error::UnsupportedDisc(DiscFault::NoDataPartition)) => facts.is_wii
                    && data_partition_from(facts.partitions@, 0) is None,
                Err(Error::UnsupportedDisc(DiscFault::NoTicket)) => facts.is_wii
                    && data_partition_from(facts.partitions@, 0) is Some && facts.raw_ticket
                    is None,
                Err(Error::UnsupportedDisc(DiscFault::NoTmd)) => facts.is_wii
                    && data_partition_from(facts.partitions@, 0) is Some && facts.raw_ticket
                    is Some && facts.raw_tmd is None,
                Err(_) => false,
            },
    {
        if !facts.is_wii {
            return Err(Error::UnsupportedDisc(DiscFault::NotWii(facts.path)));
        }
        let data_partition: PartitionSpan = match find_data_partition(&facts.partitions) {
            Some(span) => span,
            None => return Err(Error::UnsupportedDisc(DiscFault::NoDataPartition)),
        };
        let partitions: Vec<PartitionSpan> = sort_spans(&facts.partitions);
        let raw_ticket: Vec<u8> = match facts.raw_ticket {
            Some(ticket) => ticket,
            None => return Err(Error::UnsupportedDisc(DiscFault::NoTicket)),
        };
        let raw_tmd: Vec<u8> = match facts.raw_tmd {
            Some(tmd) => tmd,
            None => return Err(Error::UnsupportedDisc(DiscFault::NoTmd)),
        };
        Ok(
            SourceDisc {
                path: facts.path,
                game_id: facts.game_id,
                disc_size: facts.disc_size,
                data_partition,
                partitions,
                raw_ticket,
                raw_tmd,
            },
        )
    }

    /// The 6-character game id.
    pub fn game_id(&self) -> (r: [u8; 6])
        ensures
            r@ == self.id_view(),
    {
        self.game_id
    }

    /// The game id as text.
    pub fn game_id_str(&self) -> (r: String)
        ensures
            r@ == lossy_text(self.id_view()),
    {
        text_from_bytes(self.game_id.as_slice())
    }

    /// The disc id: the first four characters of the game id.
    pub fn disc_id4(&self) -> (r: [u8; 4])
        ensures
            r@ == self.id_view().subrange(0, 4),
    {
        let r: [u8; 4] = [self.game_id[0], self.game_id[1], self.game_id[2], self.game_id[3]];
        assert(r@ =~= self.game_id@.subrange(0, 4));
        r
    }

    /// The logical disc size in bytes.
    pub fn disc_size(&self) -> (r: u64)
        ensures
            r == self.size_view(),
    {
        self.disc_size
    }

    /// The data partition.
    pub fn data_partition(&self) -> (r: PartitionSpan)
        ensures
            r == self.data_span(),
    {
        self.data_partition
    }

    /// All partitions, by start sector.
    pub fn partitions(&self) -> (r: &[PartitionSpan])
        ensures
            r@ == self.spans(),
    {
        self.partitions.as_slice()
    }

    /// The data partition's ticket.
    pub fn raw_ticket(&self) -> (r: &[u8])
        ensures
            r@ == self.ticket_view(),
    {
        self.raw_ticket.as_slice()
    }

    /// The data partition's TMD.
    pub fn raw_tmd(&self) -> (r: &[u8])
        ensures
            r@ == self.tmd_view(),
    {
        self.raw_tmd.as_slice()
    }

    /// Where the image is.
    pub fn path(&self) -> (r: &str)
        ensures
            r@ == self.path_view(),
    {
        self.path.as_str()
    }

    /// Clusters in the partition's data.
    pub fn data_region_clusters(&self) -> (r: u64)
        requires
            self.span_ordered(),
        ensures
            r == self.region_clusters(),
    {
        (self.data_partition.data_end_sector - self.data_partition.data_start_sector) as u64
    }

    /// Bytes in the partition's data, the hash blocks left out.
    pub fn data_region_size(&self) -> (r: u64)
        requires
            self.span_ordered(),
        ensures
            r == self.region_size(),
    {
        self.data_region_clusters() * LOG_CLUSTER
    }

    /// The H3 table of a partition, where it has one.
    pub fn partition_h3_table(&self, index: usize, raw: Option<Vec<u8>>) -> (r: Result<Vec<u8>>)
        ensures
            match r {
                Ok(table) => raw == Some(table),
                Err(e) => raw is None && e == Error::UnsupportedDisc(DiscFault::NoH3Table(index)),
            },
    {
        match raw {
            Some(table) => Ok(table),
            None => Err(Error::UnsupportedDisc(DiscFault::NoH3Table(index))),
        }
    }

    /// Read the data partition's `main.dol`. Its offset stands in the boot header, its size follows
    /// from its own header; both are checked before it is read.
    pub fn read_main_dol<P: ReadSeek>(&self, part: &mut P) -> (r: Result<MainDol>)
        requires
            self.span_ordered(),
        ensures
            final(part).bytes() == old(part).bytes(),
            final(part).dependable() == old(part).dependable(),
            match r {
                Ok(dol) => {
                    &&& dol_present(old(part).bytes(), self.region_size())
                    &&& dol.offset == dol_at(old(part).bytes())
                    &&& dol.data@ == dol_data(old(part).bytes())
                },
                Err(e) => dol_failed(
                    old(part).bytes(),
                    old(part).dependable(),
                    self.region_size(),
                    e,
                ),
            },
    {
        let data_size: u64 = self.data_region_size();
        let boot: Vec<u8> = match part.read_at(0, 0x440) {
            Ok(boot) => boot,
            Err(e) => return Err(e),
        };
        let offset: u64 = read_be32(boot.as_slice(), 0x420) as u64 * 4;
        assert(offset == dol_at(part.bytes()));
        let header: Vec<u8> = match read_dol_header(part, offset) {
            Ok(header) => header,
            Err(e) => return Err(e),
        };
        let size: u64 = match dol_size_from_header(header.as_slice(), MAX_DOL_SIZE) {
            Ok(size) => size,
            Err(e) => return Err(e),
        };
        proof {
            lemma_dol_end(header@, MAX_DOL_SIZE as int, 18);
        }
        if offset + size > data_size {
            return Err(Error::UnsupportedDisc(DiscFault::DolPastEnd { offset, size, data_size }));
        }
        match part.read_at(offset, size as usize) {
            Ok(data) => Ok(MainDol { offset, data }),
            Err(e) => Err(e),
        }
    }

    /// The runs of hash groups to store for extents that have been found: the boot structures and
    /// the files, or all groups without `skip_gaps`; with `trim_zeros` without the groups that lie
    /// fully inside a file that is all zero.
    pub fn runs_for_extents<P: ReadSeek>(
        &self,
        part: &mut P,
        boot: &[(u64, u64)],
        files: &[(u64, u64)],
        skip_gaps: bool,
        trim_zeros: bool,
    ) -> (r: Result<Vec<(u32, u32)>>)
        requires
            self.span_ordered(),
        ensures
            final(part).bytes() == old(part).bytes(),
            final(part).dependable() == old(part).dependable(),
            match r {
                Ok(runs) => runs_decided(
                    old(part).bytes(),
                    boot@,
                    files@,
                    self.region_clusters(),
                    skip_gaps,
                    trim_zeros,
                    runs@,
                ),
                Err(Error::Io(_)) => trim_zeros && extents_fit(
                    boot@ + files@,
                    self.region_size(),
                    (boot@ + files@).len() as int,
                ) && !(old(part).dependable() && candidates_readable(old(part).bytes(), files@)),
                Err(e) => extent_error(boot@ + files@, self.region_size(), e),
            },
    {
        let clusters: u64 = self.data_region_clusters();
        let data_size: u64 = self.data_region_size();
        let mut extents: Vec<(u64, u64)> = Vec::new();
        let mut k: usize = 0;
        while k < boot.len()
            invariant
                k <= boot@.len(),
                extents@ == boot@.subrange(0, k as int),
            decreases boot@.len() - k,
        {
            extents.push(boot[k]);
            k += 1;
            assert(extents@ =~= boot@.subrange(0, k as int));
        }
        assert(extents@ =~= boot@);
        k = 0;
        while k < files.len()
            invariant
                k <= files@.len(),
                extents@ == boot@ + files@.subrange(0, k as int),
            decreases files@.len() - k,
        {
            extents.push(files[k]);
            k += 1;
            assert(extents@ =~= boot@ + files@.subrange(0, k as int));
        }
        assert(extents@ =~= boot@ + files@);
        match check_extents(&extents, data_size) {
            Ok(_) => {},
            Err(e) => return Err(e),
        }
        assert forall|i: int| 0 <= i < files@.len() implies (#[trigger] files@[i]).0 + files@[i].1
            <= u64::MAX by {
            assert(extents@[boot@.len() + i] == files@[i]);
        }
        let mut zero_extents: Vec<(u64, u64)> = Vec::new();
        if trim_zeros {
            zero_extents = match find_zero_files(part, files) {
                Ok(found) => found,
                Err(e) => return Err(e),
            };
        }
        plan_group_runs(extents.as_slice(), clusters, skip_gaps, zero_extents.as_slice())
    }

    /// The runs of hash groups of the data partition to store: those of the boot structures and of
    /// every file, or all of them without `skip_gaps`; with `trim_zeros` without the groups that lie
    /// fully inside a file that is all zero. `raw_fst` is the partition's file system table.
    pub fn used_data_group_runs<P: ReadSeek>(
        &self,
        part: &mut P,
        raw_fst: &[u8],
        skip_gaps: bool,
        trim_zeros: bool,
    ) -> (r: Result<Vec<(u32, u32)>>)
        requires
            self.span_ordered(),
        ensures
            final(part).bytes() == old(part).bytes(),
            final(part).dependable() == old(part).dependable(),
            match r {
                Ok(runs) => nodes_held(raw_fst@) && groups_decided(
                    old(part).bytes(),
                    fst_files(raw_fst@),
                    self.region_clusters(),
                    skip_gaps,
                    trim_zeros,
                    runs@,
                ),
                Err(e) => groups_failed(
                    old(part).bytes(),
                    old(part).dependable(),
                    raw_fst@,
                    self.region_clusters(),
                    trim_zeros,
                    e,
                ),
            },
    {
        let boot: Vec<(u64, u64)> = match find_boot_extents(part) {
            Ok(boot) => boot,
            Err(e) => return Err(e),
        };
        let files: Vec<(u64, u64)> = match disc_files(raw_fst) {
            Ok(files) => files,
            Err(e) => return Err(e),
        };
        self.runs_for_extents(part, boot.as_slice(), files.as_slice(), skip_gaps, trim_zeros)
    }
}

/// The first listed data partition.
fn find_data_partition(listed: &Vec<ListedPartition>) -> (r: Option<PartitionSpan>)
    ensures
        r == data_partition_from(listed@, 0),
{
    let mut i: usize = 0;
    while i < listed.len()
        invariant
            i <= listed@.len(),
            data_partition_from(listed@, 0) == data_partition_from(listed@, i as int),
        decreases listed@.len() - i,
    {
        if listed[i].is_data {
            return Some(listed[i].span);
        }
        i += 1;
    }
    None
}

/// The spans of the listed partitions by start sector.
fn sort_spans(listed: &Vec<ListedPartition>) -> (r: Vec<PartitionSpan>)
    ensures
        r@ == sorted_spans(listed@, listed@.len() as int),
{
    let mut sorted: Vec<PartitionSpan> = Vec::with_capacity(listed.len());
    let mut k: usize = 0;
    while k < listed.len()
        invariant
            k <= listed@.len(),
            sorted@ == sorted_spans(listed@, k as int),
        decreases listed@.len() - k,
    {
        let span: PartitionSpan = listed[k].span;
        let mut at: usize = sorted.len();
        while at > 0 && sorted[at - 1].start_sector > span.start_sector
            invariant
                at <= sorted@.len(),
                span_place(sorted@, span.start_sector, at as int) == span_place(
                    sorted@,
                    span.start_sector,
                    sorted@.len() as int,
                ),
            decreases at,
        {
            at -= 1;
        }
        sorted.insert(at, span);
        k += 1;
    }
    sorted
}

/// Which console a disc is for.
#[derive(Clone, Copy, Debug, PartialEq, Eq, Structural)]
pub enum DiscKind {
    /// A Wii disc.
    Wii,
    /// A GameCube disc.
    GameCube,
}

/// Which console a disc is for, by its header. One for neither is an error.
pub fn probe(facts: &DiscFacts) -> (r: Result<DiscKind>)
    ensures
        match r {
            Ok(DiscKind::Wii) => facts.is_wii,
            Ok(DiscKind::GameCube) => !facts.is_wii && facts.is_gamecube,
            Err(Error::UnsupportedDisc(DiscFault::UnknownDisc(path))) => !facts.is_wii
                && !facts.is_gamecube && path@ == facts.path@,
            Err(_) => false,
        },
{
    if facts.is_wii {
        Ok(DiscKind::Wii)
    } else if facts.is_gamecube {
        Ok(DiscKind::GameCube)
    } else {
        Err(Error::UnsupportedDisc(DiscFault::UnknownDisc(facts.path.clone())))
    }
}

/// A source GameCube disc: a plain image without partitions.
#[derive(Debug)]
pub struct GcImage {
    path: String,
    game_id: [u8; 6],
    iso_size: u64,
}

impl GcImage {
    /// The 6-character game id.
    pub closed spec fn id_view(&self) -> Seq<u8> {
        self.game_id@
    }

    /// Where the image is.
    pub closed spec fn path_view(&self) -> Seq<char> {
        self.path@
    }

    /// The size of the image.
    pub closed spec fn size_view(&self) -> u64 {
        self.iso_size
    }

    /// Take a GameCube disc for a source.
    pub fn open(facts: DiscFacts) -> (r: Result<Self>)
        ensures
            match r {
                Ok(image) => {
                    &&& facts.is_gamecube
                    &&& image.path_view() == facts.path@
                    &&& image.id_view() == facts.game_id@
                    &&& image.size_view() == facts.disc_size
                },
                Err(Error::UnsupportedDisc(DiscFault::NotGameCube(path))) => !facts.is_gamecube
                    && path@ == facts.path@,
                Err(_) => false,
            },
    {
        if !facts.is_gamecube {
            return Err(Error::UnsupportedDisc(DiscFault::NotGameCube(facts.path)));
        }
        Ok(GcImage { path: facts.path, game_id: facts.game_id, iso_size: facts.disc_size })
    }

    /// The 6-character game id.
    pub fn game_id(&self) -> (r: [u8; 6])
        ensures
            r@ == self.id_view(),
    {
        self.game_id
    }

    /// The game id as text.
    pub fn game_id_str(&self) -> (r: String)
        ensures
            r@ == lossy_text(self.id_view()),
    {
        text_from_bytes(self.game_id.as_slice())
    }

    /// The disc id: the first four characters of the game id.
    pub fn disc_id4(&self) -> (r: [u8; 4])
        ensures
            r@ == self.id_view().subrange(0, 4),
    {
        let r: [u8; 4] = [self.game_id[0], self.game_id[1], self.game_id[2], self.game_id[3]];
        assert(r@ =~= self.game_id@.subrange(0, 4));
        r
    }

    /// The region character: the fourth of the game id.
    pub fn region_char(&self) -> (r: u8)
        ensures
            r == self.id_view()[3],
    {
        self.game_id[3]
    }

    /// The size of the image in bytes.
    pub fn iso_size(&self) -> (r: u64)
        ensures
            r == self.size_view(),
    {
        self.iso_size
    }

    /// Where the image is.
    pub fn path(&self) -> (r: &str)
        ensures
            r@ == self.path_view(),
    {
        self.path.as_str()
    }
}

proof fn lemma_largest_end(header: Seq<u8>, n: int, i: int)
    requires
        0 <= n,
    ensures
        0x100 <= dol_end(header, n),
        0 <= i < n ==> section_end(header, i) <= dol_end(header, n),
        dol_end(header, n) == 0x100 || exists|k: int|
            0 <= k < n && dol_end(header, n) == #[trigger] section_end(header, k),
    decreases n,
{
    if n > 0 {
        lemma_largest_end(header, n - 1, i);
        assert(section_end(header, n - 1) <= dol_end(header, n));
    }
}

/// A DOL is as large as its header and each of its 18 sections ask for, and no larger: an offset
/// stands in each of the first 18 words of the header, a length in each of the 18 at 0x90.
pub proof fn law_dol_reaches_to_its_last_section(header: Seq<u8>, i: int)
    requires
        0 <= i < 18,
    ensures
        dol_end(header, 18) >= 0x100,
        dol_end(header, 18) >= be32_at(header, i * 4) + be32_at(header, 0x90 + i * 4),
        dol_end(header, 18) == 0x100 || exists|k: int|
            0 <= k < 18 && dol_end(header, 18) == #[trigger] be32_at(header, k * 4) + be32_at(
                header,
                0x90 + k * 4,
            ),
{
    lemma_largest_end(header, 18, i);
    if dol_end(header, 18) != 0x100 {
        let k = choose|k: int|
            0 <= k < 18 && dol_end(header, 18) == #[trigger] section_end(header, k);
        assert(dol_end(header, 18) == be32_at(header, k * 4) + be32_at(header, 0x90 + k * 4));
    }
}

/// The boot structures: everything up to the end of the apploader, `main.dol` and the file system
/// table, wherever the boot header says that they lie; it counts in words.
pub proof fn law_boot_structures_lie_where_the_header_says(bytes: Seq<u8>)
    ensures
        boot_extents(bytes).len() == 3,
        boot_extents(bytes)[0].0 == 0,
        boot_extents(bytes)[0].1 == 0x2440 + 0x20 + be32_at(bytes, 0x2454) + be32_at(bytes, 0x2458),
        boot_extents(bytes)[1].0 == 4 * be32_at(bytes, 0x420),
        boot_extents(bytes)[2].0 == 4 * be32_at(bytes, 0x424),
        boot_extents(bytes)[2].1 == 4 * be32_at(bytes, 0x428),
        ({
            let at = 4 * be32_at(bytes, 0x420);
            let header = bytes.subrange(at, at + 0x100);
            forall|i: int|
                0 <= i < 18 && sections_fit(header, u64::MAX as int, 18) ==> boot_extents(bytes)[1].1
                    >= #[trigger] be32_at(header, i * 4) + be32_at(header, 0x90 + i * 4)
        }),
{
    let at = 4 * be32_at(bytes, 0x420);
    let header = bytes.subrange(at, at + 0x100);
    assert(header =~= dol_header(bytes));
    assert forall|i: int| 0 <= i < 18 && sections_fit(header, u64::MAX as int, 18) implies
        boot_extents(bytes)[1].1 >= #[trigger] be32_at(header, i * 4) + be32_at(
        header,
        0x90 + i * 4,
    ) by {
        lemma_dol_end(header, u64::MAX as int, 18);
        law_dol_reaches_to_its_last_section(header, i);
    }
}

proof fn lemma_zero_file_listed(bytes: Seq<u8>, files: Seq<(u64, u64)>, n: int, f: int)
    requires
        0 <= f < n <= files.len(),
        trim_candidate(files[f]),
        all_zero(bytes, files[f].0 as int, files[f].0 + files[f].1),
    ensures
        zero_files(bytes, files, n).contains(files[f]),
    decreases n,
{
    if f < n - 1 {
        lemma_zero_file_listed(bytes, files, n - 1, f);
        let less = zero_files(bytes, files, n - 1);
        let k = choose|k: int| 0 <= k < less.len() && less[k] == files[f];
        assert(zero_files(bytes, files, n)[k] == files[f]);
    } else {
        let all = zero_files(bytes, files, n);
        assert(all[all.len() - 1] == files[f]);
    }
}

proof fn lemma_zero_file_is_file(bytes: Seq<u8>, files: Seq<(u64, u64)>, n: int, k: int) -> (f: int)
    requires
        0 <= n <= files.len(),
        0 <= k < zero_files(bytes, files, n).len(),
    ensures
        0 <= f < n,
        files[f] == zero_files(bytes, files, n)[k],
        trim_candidate(files[f]),
        all_zero(bytes, files[f].0 as int, files[f].0 + files[f].1),
    decreases n,
{
    let less = zero_files(bytes, files, n - 1);
    if k < less.len() {
        lemma_zero_file_is_file(bytes, files, n - 1, k)
    } else {
        n - 1
    }
}

/// Exactly those hash groups are stored that are asked for. A group is 0x1F_0000 bytes of data.
/// Where gaps are skipped, one is stored if a byte of a boot structure or of a file lies in it,
/// otherwise any is. Where zeros are trimmed, one is left out if it lies fully inside a file of
/// two groups or more that is all zero.
pub proof fn law_groups_are_stored_as_asked(
    bytes: Seq<u8>,
    files: Seq<(u64, u64)>,
    clusters: int,
    skip_gaps: bool,
    trim_zeros: bool,
    runs: Seq<(u32, u32)>,
    g: int,
)
    requires
        groups_decided(bytes, files, clusters, skip_gaps, trim_zeros, runs),
        0 <= g,
        g * 64 < clusters,
    ensures
        (exists|i: int|
            0 <= i < runs.len() && (#[trigger] runs[i]).0 <= g < runs[i].0 + runs[i].1) <==> {
            &&& !skip_gaps || exists|e: int|
                0 <= e < (boot_extents(bytes) + files).len() && {
                    let (off, len) = #[trigger] (boot_extents(bytes) + files)[e];
                    len > 0 && off < (g + 1) * 0x1F_0000 && g * 0x1F_0000 < off + len
                }
            &&& !(trim_zeros && exists|f: int|
                0 <= f < files.len() && {
                    let (off, len) = #[trigger] files[f];
                    &&& len >= 0x3E_0000
                    &&& off <= g * 0x1F_0000
                    &&& (g + 1) * 0x1F_0000 <= off + len
                    &&& forall|k: int| off <= k < off + len ==> bytes[k] == 0
                })
        },
{
    let extents = boot_extents(bytes) + files;
    let zero_extents = if trim_zeros {
        zero_files(bytes, files, files.len() as int)
    } else {
        Seq::empty()
    };
    let used = stored_groups(extents, clusters, skip_gaps, zero_extents);
    assert(g < group_count(clusters));
    assert forall|e: int| 0 <= e < extents.len() implies (touches(#[trigger] extents[e], g) <==> {
        let (off, len) = extents[e];
        len > 0 && off < (g + 1) * 0x1F_0000 && g * 0x1F_0000 < off + len
    }) by {
        lemma_overlap(extents[e].0 as int, extents[e].1 as int, g);
    }
    let wanted = exists|e: int|
        0 <= e < extents.len() && {
            let (off, len) = #[trigger] extents[e];
            len > 0 && off < (g + 1) * 0x1F_0000 && g * 0x1F_0000 < off + len
        };
    assert(marked(extents, extents.len() as int, g) == wanted) by {
        if marked(extents, extents.len() as int, g) {
            let e = choose|e: int| 0 <= e < extents.len() && touches(#[trigger] extents[e], g);
            assert(touches(extents[e], g));
        }
        if wanted {
            let e = choose|e: int|
                0 <= e < extents.len() && {
                    let (off, len) = #[trigger] extents[e];
                    len > 0 && off < (g + 1) * 0x1F_0000 && g * 0x1F_0000 < off + len
                };
            assert(touches(extents[e], g));
        }
    }
    let dropped = trim_zeros && exists|f: int|
        0 <= f < files.len() && {
            let (off, len) = #[trigger] files[f];
            &&& len >= 0x3E_0000
            &&& off <= g * 0x1F_0000
            &&& (g + 1) * 0x1F_0000 <= off + len
            &&& forall|k: int| off <= k < off + len ==> bytes[k] == 0
        };
    assert(trimmed(zero_extents, zero_extents.len() as int, g) == dropped) by {
        if trimmed(zero_extents, zero_extents.len() as int, g) {
            let k = choose|k: int|
                0 <= k < zero_extents.len() && trims(#[trigger] zero_extents[k], g);
            let f = lemma_zero_file_is_file(bytes, files, files.len() as int, k);
            assert(trims(files[f], g));
        }
        if dropped {
            let f = choose|f: int|
                0 <= f < files.len() && {
                    let (off, len) = #[trigger] files[f];
                    &&& len >= 0x3E_0000
                    &&& off <= g * 0x1F_0000
                    &&& (g + 1) * 0x1F_0000 <= off + len
                    &&& forall|k: int| off <= k < off + len ==> bytes[k] == 0
                };
            lemma_zero_file_listed(bytes, files, files.len() as int, f);
            let k = choose|k: int| 0 <= k < zero_extents.len() && zero_extents[k] == files[f];
            assert(trims(zero_extents[k], g));
        }
    }
    assert(used[g] == ((!skip_gaps || wanted) && !dropped));
}

/// An extent touches a group exactly when they overlap.
proof fn lemma_overlap(off: int, len: int, g: int)
    requires
        0 <= off,
        0 <= len,
    ensures
        (len > 0 && off / 0x1F_0000 <= g <= (off + len - 1) / 0x1F_0000) <==> (len > 0 && off < (g
            + 1) * 0x1F_0000 && g * 0x1F_0000 < off + len),
{
    if len > 0 {
        let a = off / 0x1F_0000;
        let b = (off + len - 1) / 0x1F_0000;
        assert(a * 0x1F_0000 <= off < (a + 1) * 0x1F_0000);
        assert(b * 0x1F_0000 <= off + len - 1 < (b + 1) * 0x1F_0000);
    }
}

/// The runs of a decided partition are in order and apart, none is empty, and none names a group
/// that the partition does not have; every structure and file lies inside the partition.
pub proof fn law_runs_are_in_order(
    bytes: Seq<u8>,
    files: Seq<(u64, u64)>,
    clusters: int,
    skip_gaps: bool,
    trim_zeros: bool,
    runs: Seq<(u32, u32)>,
    i: int,
    f: int,
)
    requires
        0 <= clusters <= u32::MAX,
        groups_decided(bytes, files, clusters, skip_gaps, trim_zeros, runs),
    ensures
        0 <= i < runs.len() ==> runs[i].1 > 0 && (runs[i].0 + runs[i].1 - 1) * 64 < clusters,
        0 < i < runs.len() ==> runs[i - 1].0 + runs[i - 1].1 < runs[i].0,
        0 <= f < files.len() ==> files[f].1 == 0 || files[f].0 + files[f].1 <= clusters * 0x7C00,
{
    if 0 <= i < runs.len() {
        assert(runs[i].0 + runs[i].1 <= group_count(clusters));
    }
    let extents = boot_extents(bytes) + files;
    if 0 <= f < files.len() {
        assert(extents[3 + f] == files[f]);
        assert(extent_fits(extents[3 + f].0, extents[3 + f].1, (clusters * 0x7C00) as u64));
    }
}

proof fn lemma_file_listed(nodes: Seq<DiscNode>, n: int, i: int)
    requires
        0 <= i < n <= nodes.len(),
        !nodes[i].is_dir,
    ensures
        files_among(nodes, n).contains((nodes[i].offset, nodes[i].len)),
    decreases n,
{
    let all = files_among(nodes, n);
    if i < n - 1 {
        lemma_file_listed(nodes, n - 1, i);
        let less = files_among(nodes, n - 1);
        let k = choose|k: int|
            0 <= k < less.len() && less[k] == (nodes[i].offset, nodes[i].len);
        assert(all[k] == less[k]);
    } else {
        assert(all[all.len() - 1] == (nodes[i].offset, nodes[i].len));
    }
}

proof fn lemma_file_is_node(nodes: Seq<DiscNode>, n: int, k: int) -> (i: int)
    requires
        0 <= n <= nodes.len(),
        0 <= k < files_among(nodes, n).len(),
    ensures
        0 <= i < n,
        !nodes[i].is_dir,
        files_among(nodes, n)[k] == (nodes[i].offset, nodes[i].len),
    decreases n,
{
    if k < files_among(nodes, n - 1).len() {
        lemma_file_is_node(nodes, n - 1, k)
    } else {
        n - 1
    }
}

/// Every file of a file system table is listed with its place, which is stored in words, and its
/// length. An entry of twelve bytes that begins with 1 is a directory, one with 0 a file.
pub proof fn law_every_file_is_listed(raw: Seq<u8>, i: int)
    requires
        1 <= i < be32_at(raw, 8),
        be32_at(raw, 8) * 12 < raw.len(),
        raw[i * 12] == 0,
    ensures
        fst_files(raw).contains(
            (
                (4 * be32_at(raw, i * 12 + 4)) as u64,
                be32_at(raw, i * 12 + 8) as u64,
            ),
        ),
{
    let nodes = nodes_of(raw);
    assert(nodes[i - 1] == node_at(raw, i));
    lemma_file_listed(nodes, nodes.len() as int, i - 1);
}

/// Nothing but the files of a file system table is listed: no directory, and no more than it has.
pub proof fn law_listed_files_are_in_the_table(raw: Seq<u8>, k: int)
    requires
        0 <= k < fst_files(raw).len(),
    ensures
        exists|i: int|
            1 <= i < be32_at(raw, 8) && raw[i * 12] != 1 && fst_files(raw)[k].1
                == #[trigger] be32_at(raw, i * 12 + 8) && (raw[i * 12] == 0 ==> fst_files(raw)[k].0
                == 4 * be32_at(raw, i * 12 + 4)),
{
    let nodes = nodes_of(raw);
    let j = lemma_file_is_node(nodes, nodes.len() as int, k);
    assert(nodes[j] == node_at(raw, j + 1));
    assert(fst_files(raw)[k].1 == be32_at(raw, (j + 1) * 12 + 8));
}

/// The data partition is the first one that is listed as such, and there is none only where none
/// is.
pub proof fn law_first_data_partition_is_taken(listed: Seq<ListedPartition>, i: int)
    ensures
        0 <= i < listed.len() && listed[i].is_data && (forall|k: int|
            0 <= k < i ==> !(#[trigger] listed[k]).is_data) ==> data_partition_from(listed, 0)
            == Some(listed[i].span),
        (forall|k: int| 0 <= k < listed.len() ==> !(#[trigger] listed[k]).is_data)
            ==> data_partition_from(listed, 0) is None,
{
    lemma_data_partition(listed, 0, i);
}

proof fn lemma_data_partition(listed: Seq<ListedPartition>, from: int, i: int)
    requires
        0 <= from,
    ensures
        from <= i < listed.len() && listed[i].is_data && (forall|k: int|
            from <= k < i ==> !(#[trigger] listed[k]).is_data) ==> data_partition_from(listed, from)
            == Some(listed[i].span),
        (forall|k: int| from <= k < listed.len() ==> !(#[trigger] listed[k]).is_data)
            ==> data_partition_from(listed, from) is None,
    decreases listed.len() - from,
{
    if from < listed.len() && !listed[from].is_data {
        lemma_data_partition(listed, from + 1, i);
    }
}

/// Ordering the partitions loses none and makes none up.
pub proof fn law_ordering_keeps_the_partitions(listed: Seq<ListedPartition>, n: int, span: PartitionSpan)
    requires
        0 <= n <= listed.len(),
    ensures
        sorted_spans(listed, n).len() == n,
        sorted_spans(listed, n).contains(span) <==> exists|i: int|
            0 <= i < n && (#[trigger] listed[i]).span == span,
    decreases n,
{
    law_partitions_ascend(listed, n);
    if n > 0 {
        law_ordering_keeps_the_partitions(listed, n - 1, span);
        let before = sorted_spans(listed, n - 1);
        let last = listed[n - 1].span;
        let at = span_place(before, last.start_sector, before.len() as int);
        lemma_span_place(before, last.start_sector, before.len() as int);
        law_partitions_ascend(listed, n - 1);
        let all = sorted_spans(listed, n);
        assert(all[at] == last);
        if before.contains(span) {
            let k = choose|k: int| 0 <= k < before.len() && before[k] == span;
            if k < at {
                assert(all[k] == span);
            } else {
                assert(all[k + 1] == span);
            }
        }
        if all.contains(span) {
            let k = choose|k: int| 0 <= k < all.len() && all[k] == span;
            if k < at {
                assert(before[k] == span);
            } else if k > at {
                assert(before[k - 1] == span);
            } else {
                assert(listed[n - 1].span == span);
            }
        }
    }
}

/// Extents lie inside the partition's data where no byte of theirs is past its end. The error
/// names the first that does not.
pub proof fn law_extents_stay_inside(extents: Seq<(u64, u64)>, data_size: u64, e: Error)
    ensures
        extents_fit(extents, data_size, extents.len() as int) <==> forall|i: int, at: int|
            #![trigger extents[i], in_extent(extents[i], at)]
            0 <= i < extents.len() && in_extent(extents[i], at) ==> at < data_size,
        extent_error(extents, data_size, e) ==> {
            &&& e matches Error::UnsupportedDisc(
                DiscFault::ExtentPastEnd { offset, len, data_size: d },
            )
            &&& len > 0
            &&& offset + len > data_size
            &&& d == data_size
            &&& extents.contains((offset, len))
        },
        extent_error(extents, data_size, e) ==> !extents_fit(
            extents,
            data_size,
            extents.len() as int,
        ),
{
    let n = extents.len() as int;
    if extents_fit(extents, data_size, n) {
        assert forall|i: int, at: int|
            #![trigger extents[i], in_extent(extents[i], at)]
            0 <= i < extents.len() && in_extent(extents[i], at) implies at < data_size by {
            assert(extent_fits(extents[i].0, extents[i].1, data_size));
        }
    }
    if forall|i: int, at: int|
        #![trigger extents[i], in_extent(extents[i], at)]
        0 <= i < extents.len() && in_extent(extents[i], at) ==> at < data_size {
        assert forall|i: int| 0 <= i < n implies extent_fits(
            (#[trigger] extents[i]).0,
            extents[i].1,
            data_size,
        ) by {
            let last = extents[i].0 + extents[i].1 - 1;
            if extents[i].1 > 0 {
                assert(in_extent(extents[i], last));
            }
        }
    }
    if extent_error(extents, data_size, e) {
        let i = choose|i: int|
            0 <= i < extents.len() && extents_fit(extents, data_size, i) && !extent_fits(
                (#[trigger] extents[i]).0,
                extents[i].1,
                data_size,
            ) && e == Error::UnsupportedDisc(
                DiscFault::ExtentPastEnd { offset: extents[i].0, len: extents[i].1, data_size },
            );
        assert(extents[i] == (extents[i].0, extents[i].1));
    }
}

/// Whether a position lies in an extent.
pub open spec fn in_extent(extent: (u64, u64), at: int) -> bool {
    extent.0 <= at < extent.0 + extent.1
}

/// `main.dol` is the bytes from where the boot header says that it lies, counted in words, to the
/// end of its last section. It is refused where a section ends past 128 MiB, or where it reaches
/// past the partition's data.
pub proof fn law_program_is_where_the_header_says(bytes: Seq<u8>, data_size: u64, i: int, k: int)
    requires
        dol_present(bytes, data_size),
        0 <= i < 18,
        0 <= k < dol_data(bytes).len(),
    ensures
        ({
            let at = 4 * be32_at(bytes, 0x420);
            let header = bytes.subrange(at, at + 0x100);
            let len = dol_data(bytes).len();
            &&& dol_data(bytes)[k] == bytes[at + k]
            &&& at + len <= data_size
            &&& 0x100 <= len <= 0x800_0000
            &&& be32_at(header, i * 4) + be32_at(header, 0x90 + i * 4) <= len
        }),
{
    let at = 4 * be32_at(bytes, 0x420);
    let header = bytes.subrange(at, at + 0x100);
    assert(header =~= dol_header(bytes));
    lemma_dol_end(header, MAX_DOL_SIZE as int, 18);
    law_dol_reaches_to_its_last_section(header, i);
}

/// A program that can be read is refused for its sections alone where one ends past 128 MiB.
pub proof fn law_large_programs_are_refused(bytes: Seq<u8>, data_size: u64, i: int)
    requires
        0 <= i < 18,
        ({
            let at = 4 * be32_at(bytes, 0x420);
            let header = bytes.subrange(at, at + 0x100);
            be32_at(header, i * 4) + be32_at(header, 0x90 + i * 4) > 0x800_0000
        }),
    ensures
        !dol_present(bytes, data_size),
        !boot_present(bytes),
{
    let at = 4 * be32_at(bytes, 0x420);
    assert(bytes.subrange(at, at + 0x100) =~= dol_header(bytes));
    assert(section_end(dol_header(bytes), i) > 0x800_0000);
}

/// A program of which no section ends past 128 MiB is there where the header and the whole of it
/// can be read and lie inside the partition's data.
pub proof fn law_other_programs_are_there(bytes: Seq<u8>, data_size: u64)
    requires
        bytes.len() >= 0x440,
        4 * be32_at(bytes, 0x420) + 0x100 <= bytes.len(),
        ({
            let at = 4 * be32_at(bytes, 0x420);
            let header = bytes.subrange(at, at + 0x100);
            &&& at + 0x100 <= data_size
            &&& forall|i: int|
                #![trigger be32_at(header, i * 4)]
                0 <= i < 18 ==> {
                    let end = be32_at(header, i * 4) + be32_at(header, 0x90 + i * 4);
                    end <= 0x800_0000 && at + end <= data_size && at + end <= bytes.len()
                }
        }),
    ensures
        dol_present(bytes, data_size),
{
    let at = 4 * be32_at(bytes, 0x420);
    let header = bytes.subrange(at, at + 0x100);
    assert(header =~= dol_header(bytes));
    assert forall|i: int| 0 <= i < 18 implies #[trigger] section_end(header, i) <= 0x800_0000 by {
        assert(be32_at(header, i * 4) <= u32::MAX);
    }
    law_dol_reaches_to_its_last_section(header, 0);
    if dol_end(header, 18) != 0x100 {
        let k = choose|k: int|
            0 <= k < 18 && dol_end(header, 18) == #[trigger] be32_at(header, k * 4) + be32_at(
                header,
                0x90 + k * 4,
            );
        assert(be32_at(header, k * 4) <= u32::MAX);
    }
}

/// The error of a program's sections names the first that ends past 128 MiB, with its offset and
/// its length as the program's header states them.
pub proof fn law_section_error_names_the_first_large_one(header: Seq<u8>, e: Error)
    requires
        section_error(header, e),
    ensures
        e matches Error::UnsupportedDisc(
            DiscFault::DolSection { section, end, offset, size, limit },
        ) && {
            &&& section < 18
            &&& offset == be32_at(header, section * 4)
            &&& size == be32_at(header, 0x90 + section * 4)
            &&& end == offset + size
            &&& limit == 0x800_0000
            &&& end > limit
            &&& forall|j: int|
                #![trigger be32_at(header, j * 4)]
                0 <= j < section ==> be32_at(header, j * 4) + be32_at(header, 0x90 + j * 4)
                    <= 0x800_0000
        },
{
    let i = choose|i: int|
        0 <= i < 18 && sections_fit(header, MAX_DOL_SIZE as int, i) && #[trigger] section_end(
            header,
            i,
        ) > MAX_DOL_SIZE && e == Error::UnsupportedDisc(section_fault(header, MAX_DOL_SIZE, i));
    assert forall|j: int|
        #![trigger be32_at(header, j * 4)]
        0 <= j < i implies be32_at(header, j * 4) + be32_at(header, 0x90 + j * 4) <= 0x800_0000 by {
        assert(section_end(header, j) <= MAX_DOL_SIZE);
    }
}

/// A partition's data is 0x7C00 bytes for each cluster between its first sector and its end.
pub proof fn law_region_is_counted_in_clusters(source: &SourceDisc)
    requires
        source.data_span().data_start_sector <= source.data_span().data_end_sector,
    ensures
        source.span_ordered(),
        source.region_clusters() == source.data_span().data_end_sector
            - source.data_span().data_start_sector,
        source.region_size() == 31744 * source.region_clusters(),
{
    assert(31744 * source.region_clusters() <= 31744 * u32::MAX);
}

} // verus!

//! The EGGS header in front of the NFS stream.
//!
//! It is 0x200 bytes long, big-endian:
//!
//! ```text
//! 0x000  "EGGS"
//! 0x004  version 0x00011011
//! 0x008  two zero words
//! 0x010  number of LBA ranges
//! 0x014  61 LBA ranges { start sector, number of sectors }
//! 0x1FC  "SGGE"
//! ```
//!
//! Sectors outside every range read as zeros. Unused range slots are filled with 0xFF, which the
//! console takes as the end of the table; it hangs on slots filled with zeros.

use vstd::prelude::*;

use crate::error::{Error, LimitFault, Result};
use crate::util::{append_bytes, be32, lemma_be32_bytes, push_be32};

verus! {

/// Size of the header in bytes.
pub const HEADER_SIZE: usize = 0x200;

/// Version of the header.
pub const VERSION: u32 = 0x0001_1011;

/// Most LBA ranges the header can hold.
pub const MAX_RANGES: usize = 61;

/// A run of logical disc sectors present in the stream.
#[derive(Clone, Copy, Debug, PartialEq, Eq, Structural)]
pub struct LbaRange {
    /// First logical sector of the run.
    pub start_sector: u32,
    /// Number of sectors in the run.
    pub num_sectors: u32,
}

/// The first `n` ranges as they stand in the header.
pub open spec fn ranges_bytes(ranges: Seq<LbaRange>, n: int) -> Seq<u8>
    decreases n,
{
    if n <= 0 {
        Seq::empty()
    } else {
        ranges_bytes(ranges, n - 1) + be32(ranges[n - 1].start_sector) + be32(
            ranges[n - 1].num_sectors,
        )
    }
}

/// `n` bytes of fill.
pub open spec fn fill(n: int) -> Seq<u8> {
    Seq::new(n as nat, |i: int| 0xFFu8)
}

/// The header of a list of ranges.
pub open spec fn eggs_bytes(ranges: Seq<LbaRange>) -> Seq<u8> {
    seq![0x45u8, 0x47u8, 0x47u8, 0x53u8] + be32(VERSION) + be32(0) + be32(0) + be32(
        ranges.len() as u32,
    ) + ranges_bytes(ranges, ranges.len() as int) + fill(0x1E8 - ranges.len() * 8) + seq![
        0x53u8,
        0x47u8,
        0x47u8,
        0x45u8,
    ]
}

/// The sectors of the first `n` ranges.
pub open spec fn sector_sum(ranges: Seq<LbaRange>, n: int) -> int
    decreases n,
{
    if n <= 0 {
        0
    } else {
        sector_sum(ranges, n - 1) + ranges[n - 1].num_sectors
    }
}

/// The header. Its ranges are private, so that none can be added beyond the limit.
#[derive(Debug)]
pub struct EggsHeader {
    ranges: Vec<LbaRange>,
}

impl View for EggsHeader {
    type V = Seq<LbaRange>;

    closed spec fn view(&self) -> Seq<LbaRange> {
        self.ranges@
    }
}

impl EggsHeader {
    /// The ranges fit the table.
    #[verifier::type_invariant]
    spec fn fits(self) -> bool {
        self.ranges@.len() <= MAX_RANGES
    }

    /// A header of the given ranges; more than [`MAX_RANGES`] are refused.
    pub fn new(ranges: Vec<LbaRange>) -> (r: Result<Self>)
        ensures
            match r {
                Ok(header) => ranges@.len() <= MAX_RANGES && header@ == ranges@,
                Err(e) => ranges@.len() > MAX_RANGES && e == Error::FormatLimit(
                    LimitFault::TooManyRanges(ranges@.len() as usize),
                ),
            },
    {
        if ranges.len() > MAX_RANGES {
            return Err(Error::FormatLimit(LimitFault::TooManyRanges(ranges.len())));
        }
        Ok(EggsHeader { ranges })
    }

    /// The ranges, in the order they are written.
    pub fn ranges(&self) -> (r: &[LbaRange])
        ensures
            r@ == self@,
            r@.len() <= MAX_RANGES,
    {
        proof {
            use_type_invariant(self);
        }
        self.ranges.as_slice()
    }

    /// Number of sectors in all ranges.
    pub fn total_sectors(&self) -> (r: u64)
        ensures
            r == sector_sum(self@, self@.len() as int),
    {
        proof {
            use_type_invariant(self);
        }
        let mut sum: u64 = 0;
        let mut i: usize = 0;
        while i < self.ranges.len()
            invariant
                i <= self.ranges@.len() <= MAX_RANGES,
                sum == sector_sum(self.ranges@, i as int),
                sum <= i * 0xFFFF_FFFF,
            decreases self.ranges@.len() - i,
        {
            sum = sum + self.ranges[i].num_sectors as u64;
            i += 1;
        }
        sum
    }

    /// The header's bytes.
    pub fn to_bytes(&self) -> (r: [u8; HEADER_SIZE])
        ensures
            r@ == eggs_bytes(self@),
    {
        proof {
            use_type_invariant(self);
        }
        let mut out: Vec<u8> = Vec::with_capacity(HEADER_SIZE);
        append_bytes(&mut out, [0x45, 0x47, 0x47, 0x53].as_slice());
        push_be32(&mut out, VERSION);
        push_be32(&mut out, 0);
        push_be32(&mut out, 0);
        push_be32(&mut out, self.ranges.len() as u32);
        let ghost head = out@;
        let mut i: usize = 0;
        assert(head + ranges_bytes(self@, 0) =~= head);
        while i < self.ranges.len()
            invariant
                i <= self.ranges@.len() <= MAX_RANGES,
                head.len() == 20,
                ranges_bytes(self@, i as int).len() == i * 8,
                out@ == head + ranges_bytes(self@, i as int),
            decreases self.ranges@.len() - i,
        {
            push_be32(&mut out, self.ranges[i].start_sector);
            push_be32(&mut out, self.ranges[i].num_sectors);
            i += 1;
            assert(out@ =~= head + ranges_bytes(self@, i as int));
        }
        let ghost front = out@;
        let gap: usize = 0x1FC - out.len();
        let filler: Vec<u8> = vec![0xFFu8; gap];
        assert(filler@ =~= fill(gap as int));
        append_bytes(&mut out, filler.as_slice());
        append_bytes(&mut out, [0x53, 0x47, 0x47, 0x45].as_slice());
        assert(out@ =~= eggs_bytes(self@));
        let mut bytes: [u8; HEADER_SIZE] = [0u8; 0x200];
        let mut k: usize = 0;
        while k < HEADER_SIZE
            invariant
                k <= HEADER_SIZE,
                out@.len() == HEADER_SIZE,
                forall|j: int| 0 <= j < k ==> bytes@[j] == out@[j],
            decreases HEADER_SIZE - k,
        {
            bytes[k] = out[k];
            k += 1;
        }
        assert(bytes@ =~= out@);
        bytes
    }
}

impl Clone for EggsHeader {
    fn clone(&self) -> (r: Self)
        ensures
            r@ == self@,
    {
        proof {
            use_type_invariant(self);
        }
        let ranges: Vec<LbaRange> = self.ranges.clone();
        assert(ranges@ =~= self.ranges@);
        EggsHeader { ranges }
    }
}

/// A header of at most 61 ranges is 0x200 bytes long.
pub proof fn law_header_size(ranges: Seq<LbaRange>)
    requires
        ranges.len() <= MAX_RANGES,
    ensures
        eggs_bytes(ranges).len() == HEADER_SIZE,
{
    lemma_ranges_len(ranges, ranges.len() as int);
}

proof fn lemma_ranges_len(ranges: Seq<LbaRange>, n: int)
    requires
        0 <= n,
    ensures
        ranges_bytes(ranges, n).len() == n * 8,
    decreases n,
{
    if n > 0 {
        lemma_ranges_len(ranges, n - 1);
    }
}

proof fn lemma_range_at(ranges: Seq<LbaRange>, n: int, i: int)
    requires
        0 <= i < n <= ranges.len(),
    ensures
        ranges_bytes(ranges, n).len() == n * 8,
        ranges_bytes(ranges, n).subrange(i * 8, i * 8 + 4) == be32(ranges[i].start_sector),
        ranges_bytes(ranges, n).subrange(i * 8 + 4, i * 8 + 8) == be32(ranges[i].num_sectors),
    decreases n,
{
    lemma_ranges_len(ranges, n);
    lemma_ranges_len(ranges, n - 1);
    let all = ranges_bytes(ranges, n);
    let front = ranges_bytes(ranges, n - 1);
    if i < n - 1 {
        lemma_range_at(ranges, n - 1, i);
        assert(all.subrange(i * 8, i * 8 + 4) =~= front.subrange(i * 8, i * 8 + 4));
        assert(all.subrange(i * 8 + 4, i * 8 + 8) =~= front.subrange(i * 8 + 4, i * 8 + 8));
    } else {
        assert(all.subrange(i * 8, i * 8 + 4) =~= be32(ranges[i].start_sector));
        assert(all.subrange(i * 8 + 4, i * 8 + 8) =~= be32(ranges[i].num_sectors));
    }
}

/// A header reads back: between `EGGS` and `SGGE` it states the version, two zero words, the
/// number of its ranges and each of them, start and length, with the high byte first; the unused
/// slots are filled with 0xFF.
pub proof fn law_header_reads_back(ranges: Seq<LbaRange>, i: int, k: int)
    requires
        ranges.len() <= 61,
    ensures
        MAX_RANGES == 61,
        ({
            let h = eggs_bytes(ranges);
            let at = 0x14 + i * 8;
            &&& h.len() == 0x200
            &&& h[0] == 'E' as u8 && h[1] == 'G' as u8 && h[2] == 'G' as u8 && h[3] == 'S' as u8
            &&& h[4] == 0x00 && h[5] == 0x01 && h[6] == 0x10 && h[7] == 0x11
            &&& forall|z: int| 8 <= z < 16 ==> #[trigger] h[z] == 0
            &&& h[16] == 0 && h[17] == 0 && h[18] == 0 && h[19] == ranges.len()
            &&& 0 <= i < ranges.len() ==> {
                &&& h[at] * 0x100_0000 + h[at + 1] * 0x1_0000 + h[at + 2] * 0x100 + h[at + 3]
                    == ranges[i].start_sector
                &&& h[at + 4] * 0x100_0000 + h[at + 5] * 0x1_0000 + h[at + 6] * 0x100 + h[at + 7]
                    == ranges[i].num_sectors
            }
            &&& ranges.len() * 8 <= k < 488 ==> h[0x14 + k] == 0xFF
            &&& h[0x1FC] == 'S' as u8 && h[0x1FD] == 'G' as u8 && h[0x1FE] == 'G' as u8 && h[0x1FF]
                == 'E' as u8
        }),
{
    let h = eggs_bytes(ranges);
    let n = ranges.len() as int;
    let body = ranges_bytes(ranges, n);
    let at = 0x14 + i * 8;
    law_header_size(ranges);
    lemma_be32_bytes(VERSION);
    lemma_be32_bytes(0);
    lemma_be32_bytes(n as u32);
    let head = seq![0x45u8, 0x47u8, 0x47u8, 0x53u8] + be32(VERSION) + be32(0) + be32(0) + be32(
        n as u32,
    );
    let tail = fill(0x1E8 - n * 8) + seq![0x53u8, 0x47u8, 0x47u8, 0x45u8];
    assert(head.len() == 20);
    assert(h =~= head + body + tail);
    assert(forall|z: int| 0 <= z < 20 ==> h[z] == head[z]);
    assert(h[4] == be32(VERSION)[0] && h[5] == be32(VERSION)[1] && h[6] == be32(VERSION)[2] && h[7]
        == be32(VERSION)[3]);
    assert(forall|z: int| 8 <= z < 16 ==> h[z] == 0);
    assert(h[16] == be32(n as u32)[0] && h[17] == be32(n as u32)[1] && h[18] == be32(n as u32)[2]
        && h[19] == be32(n as u32)[3]);
    if 0 <= i < n {
        lemma_range_at(ranges, n, i);
        lemma_be32_bytes(ranges[i].start_sector);
        lemma_be32_bytes(ranges[i].num_sectors);
        let start = be32(ranges[i].start_sector);
        let len = be32(ranges[i].num_sectors);
        assert(h.subrange(at, at + 4) =~= body.subrange(i * 8, i * 8 + 4));
        assert(h.subrange(at + 4, at + 8) =~= body.subrange(i * 8 + 4, i * 8 + 8));
        assert(h.subrange(at, at + 4)[0] == h[at] && h.subrange(at, at + 4)[1] == h[at + 1]
            && h.subrange(at, at + 4)[2] == h[at + 2] && h.subrange(at, at + 4)[3] == h[at + 3]);
        assert(h.subrange(at + 4, at + 8)[0] == h[at + 4] && h.subrange(at + 4, at + 8)[1] == h[at + 5]
            && h.subrange(at + 4, at + 8)[2] == h[at + 6] && h.subrange(at + 4, at + 8)[3] == h[at
            + 7]);
    }
    if n * 8 <= k < 488 {
        assert(h[0x14 + k] == tail[k - n * 8]);
    }
}

/// The number of sectors of joined lists of ranges is the sum of theirs, and that of a single
/// range its own.
pub proof fn law_sectors_add_up(a: Seq<LbaRange>, b: Seq<LbaRange>, one: LbaRange)
    ensures
        sector_sum(a + b, (a + b).len() as int) == sector_sum(a, a.len() as int) + sector_sum(
            b,
            b.len() as int,
        ),
        sector_sum(seq![one], 1) == one.num_sectors,
        sector_sum(Seq::empty(), 0) == 0,
    decreases b.len(),
{
    reveal_with_fuel(sector_sum, 3);
    if b.len() == 0 {
        assert(a + b =~= a);
    } else {
        let less = b.drop_last();
        law_sectors_add_up(a, less, one);
        lemma_sum_prefix(a + b, a + less, (a + less).len() as int);
        lemma_sum_prefix(b, less, less.len() as int);
        assert((a + b)[(a + b).len() - 1] == b.last());
    }
}

proof fn lemma_sum_prefix(a: Seq<LbaRange>, b: Seq<LbaRange>, n: int)
    requires
        n <= a.len(),
        n <= b.len(),
        forall|i: int| 0 <= i < n ==> a[i] == b[i],
    ensures
        sector_sum(a, n) == sector_sum(b, n),
    decreases n,
{
    if n > 0 {
        lemma_sum_prefix(a, b, n - 1);
    }
}

} // verus!

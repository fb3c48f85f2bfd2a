//! The staged files of a title, and the order in which they are listed.

use vstd::prelude::*;
use vstd::utf8::encode_utf8;

use crate::package::content::WEIGHT_LIMIT;
use crate::text::{lowercase, text_ends_with, text_starts_with, to_lowercase};

verus! {

/// One entry of a staged directory.
#[derive(Debug)]
pub enum StagedEntry {
    /// Anything that is not a directory.
    File {
        /// Its name within the directory.
        name: String,
        /// Its size in bytes.
        size: u64,
        /// Whether it is a regular file.
        regular: bool,
    },
    /// A directory.
    Dir {
        /// Its name within the parent directory.
        name: String,
        /// What it holds, in no particular order.
        entries: Vec<StagedEntry>,
    },
}

/// A staged build: its `code`, `content` and `meta` directories, where they exist.
#[derive(Debug)]
pub struct StagedBuild {
    /// The `code` directory.
    pub code: Option<Vec<StagedEntry>>,
    /// The `content` directory.
    pub content: Option<Vec<StagedEntry>>,
    /// The `meta` directory.
    pub meta: Option<Vec<StagedEntry>>,
}

impl StagedEntry {
    /// The entry's name.
    pub open spec fn name_view(self) -> Seq<char> {
        match self {
            StagedEntry::File { name, .. } => name@,
            StagedEntry::Dir { name, .. } => name@,
        }
    }

    /// Whether the entry is a regular file.
    pub open spec fn is_regular(self) -> bool {
        self matches StagedEntry::File { regular, .. } && regular
    }

    /// The entry's name.
    pub fn name(&self) -> (r: &String)
        ensures
            r@ == self.name_view(),
    {
        match self {
            StagedEntry::File { name, .. } => name,
            StagedEntry::Dir { name, .. } => name,
        }
    }

    /// Whether the entry is a regular file.
    pub fn regular(&self) -> (r: bool)
        ensures
            r == self.is_regular(),
    {
        match self {
            StagedEntry::File { regular, .. } => *regular,
            StagedEntry::Dir { .. } => false,
        }
    }
}

/// Which names are listed ahead of the others.
#[derive(Clone, Copy, Debug, PartialEq, Eq, Structural)]
pub enum Lead {
    /// None: by name alone.
    Nothing,
    /// The disc image files `hif_*.nfs`.
    DiscImages,
    /// The programs `*.rpx` and `*.rpl`.
    Programs,
}

/// Whether `name` is that of a disc image file.
pub open spec fn hif_name(name: Seq<char>) -> bool {
    "hif_"@.is_prefix_of(name) && ".nfs"@.is_suffix_of(name)
}

/// Whether `name` is that of a program.
pub open spec fn program_name(name: Seq<char>) -> bool {
    ".rpx"@.is_suffix_of(name) || ".rpl"@.is_suffix_of(name)
}

/// Whether the lower-case `name` is listed ahead.
pub open spec fn leads(lead: Lead, name: Seq<char>) -> bool {
    match lead {
        Lead::Nothing => false,
        Lead::DiscImages => hif_name(name),
        Lead::Programs => program_name(name),
    }
}

/// What an entry is ordered by: whether it comes after the leading ones, then its name in
/// lower case, byte by byte.
pub open spec fn rank(lead: Lead, name: Seq<char>) -> (bool, Seq<u8>) {
    (!leads(lead, lowercase(name)), encode_utf8(lowercase(name)))
}

/// Whether `a` comes no later than `b` in byte order.
pub open spec fn bytes_le(a: Seq<u8>, b: Seq<u8>) -> bool
    decreases a.len(),
{
    if a.len() == 0 {
        true
    } else if b.len() == 0 {
        false
    } else if a[0] != b[0] {
        a[0] < b[0]
    } else {
        bytes_le(a.drop_first(), b.drop_first())
    }
}

/// Whether `a` is ordered no later than `b`.
pub open spec fn rank_le(a: (bool, Seq<u8>), b: (bool, Seq<u8>)) -> bool {
    if a.0 != b.0 {
        b.0
    } else {
        bytes_le(a.1, b.1)
    }
}

/// The rank of entry `x`.
pub open spec fn entry_rank(entries: Seq<StagedEntry>, lead: Lead, x: int) -> (bool, Seq<u8>) {
    rank(lead, entries[x].name_view())
}

/// Where entry `x` goes among the first `n` of `order`: right behind the last one that is
/// ordered no later.
pub open spec fn insert_at(
    entries: Seq<StagedEntry>,
    lead: Lead,
    order: Seq<usize>,
    x: int,
    n: int,
) -> int
    decreases n,
{
    if n <= 0 {
        0
    } else if rank_le(
        entry_rank(entries, lead, order[n - 1] as int),
        entry_rank(entries, lead, x),
    ) {
        n
    } else {
        insert_at(entries, lead, order, x, n - 1)
    }
}

/// The indices of the first `n` entries in listing order; equals keep their places.
pub open spec fn order_upto(entries: Seq<StagedEntry>, lead: Lead, n: int) -> Seq<usize>
    decreases n,
{
    if n <= 0 {
        Seq::empty()
    } else {
        let before = order_upto(entries, lead, n - 1);
        before.insert(
            insert_at(entries, lead, before, n - 1, before.len() as int),
            (n - 1) as usize,
        )
    }
}

/// The listing order of a directory, as indices into it.
pub open spec fn listing(entries: Seq<StagedEntry>, lead: Lead) -> Seq<usize> {
    order_upto(entries, lead, entries.len() as int)
}

proof fn lemma_insert_at(entries: Seq<StagedEntry>, lead: Lead, order: Seq<usize>, x: int, n: int)
    requires
        0 <= n <= order.len(),
    ensures
        0 <= insert_at(entries, lead, order, x, n) <= n,
    decreases n,
{
    if n > 0 {
        lemma_insert_at(entries, lead, order, x, n - 1);
    }
}

/// The order of the first `n` entries has `n` indices, all below `n`.
pub proof fn lemma_order_bounds(entries: Seq<StagedEntry>, lead: Lead, n: int)
    requires
        0 <= n <= entries.len(),
        entries.len() <= usize::MAX,
    ensures
        order_upto(entries, lead, n).len() == n,
        forall|i: int| 0 <= i < n ==> (#[trigger] order_upto(entries, lead, n)[i]) < n,
    decreases n,
{
    if n > 0 {
        lemma_order_bounds(entries, lead, n - 1);
        let before = order_upto(entries, lead, n - 1);
        let at = insert_at(entries, lead, before, n - 1, before.len() as int);
        lemma_insert_at(entries, lead, before, n - 1, before.len() as int);
        let all = order_upto(entries, lead, n);
        assert forall|i: int| 0 <= i < n implies (#[trigger] all[i]) < n by {
            if i < at {
                assert(all[i] == before[i]);
            } else if i > at {
                assert(all[i] == before[i - 1]);
            }
        }
    }
}

/// Whether `name` is that of a disc image file.
pub fn is_hif(name: &str) -> (r: bool)
    ensures
        r == hif_name(name@),
{
    text_starts_with(name, "hif_") && text_ends_with(name, ".nfs")
}

/// Whether `a` comes no later than `b` in byte order.
fn in_byte_order(a: &[u8], b: &[u8]) -> (r: bool)
    ensures
        r == bytes_le(a@, b@),
{
    let mut i: usize = 0;
    assert(a@.subrange(0, a@.len() as int) =~= a@);
    assert(b@.subrange(0, b@.len() as int) =~= b@);
    while i < a.len()
        invariant
            i <= a@.len(),
            i <= b@.len(),
            bytes_le(a@, b@) == bytes_le(
                a@.subrange(i as int, a@.len() as int),
                b@.subrange(i as int, b@.len() as int),
            ),
        decreases a@.len() - i,
    {
        let ghost resta = a@.subrange(i as int, a@.len() as int);
        let ghost restb = b@.subrange(i as int, b@.len() as int);
        if i >= b.len() {
            return false;
        }
        if a[i] != b[i] {
            assert(resta[0] == a@[i as int] && restb[0] == b@[i as int]);
            return a[i] < b[i];
        }
        assert(resta.drop_first() =~= a@.subrange(i + 1, a@.len() as int));
        assert(restb.drop_first() =~= b@.subrange(i + 1, b@.len() as int));
        i += 1;
    }
    true
}

/// Whether a name is ordered no later than another.
fn in_order(lead: Lead, a: &str, b: &str) -> (r: bool)
    ensures
        r == rank_le(rank(lead, a@), rank(lead, b@)),
{
    let x: String = to_lowercase(a);
    let y: String = to_lowercase(b);
    let later_a: bool = !is_leading(lead, x.as_str());
    let later_b: bool = !is_leading(lead, y.as_str());
    if later_a != later_b {
        later_b
    } else {
        in_byte_order(x.as_str().as_bytes(), y.as_str().as_bytes())
    }
}

/// Whether the lower-case `name` is listed ahead.
fn is_leading(lead: Lead, name: &str) -> (r: bool)
    ensures
        r == leads(lead, name@),
{
    match lead {
        Lead::Nothing => false,
        Lead::DiscImages => is_hif(name),
        Lead::Programs => text_ends_with(name, ".rpx") || text_ends_with(name, ".rpl"),
    }
}

/// The listing order of a directory: case-insensitively by name, the leading names first.
pub fn list_order(entries: &Vec<StagedEntry>, lead: Lead) -> (order: Vec<usize>)
    ensures
        order@ == listing(entries@, lead),
        order@.len() == entries@.len(),
        forall|i: int| 0 <= i < order@.len() ==> (#[trigger] order@[i]) < entries@.len(),
{
    let mut order: Vec<usize> = Vec::with_capacity(entries.len());
    let mut k: usize = 0;
    while k < entries.len()
        invariant
            k <= entries@.len(),
            order@ == order_upto(entries@, lead, k as int),
        decreases entries@.len() - k,
    {
        proof {
            lemma_order_bounds(entries@, lead, k as int);
        }
        let mut at: usize = order.len();
        while at > 0 && !in_order(
            lead,
            entries[order[at - 1]].name().as_str(),
            entries[k].name().as_str(),
        )
            invariant
                k < entries@.len(),
                at <= order@.len(),
                forall|i: int| 0 <= i < order@.len() ==> (#[trigger] order@[i]) < entries@.len(),
                insert_at(entries@, lead, order@, k as int, at as int) == insert_at(
                    entries@,
                    lead,
                    order@,
                    k as int,
                    order@.len() as int,
                ),
            decreases at,
        {
            at -= 1;
        }
        order.insert(at, k);
        k += 1;
    }
    proof {
        lemma_order_bounds(entries@, lead, entries@.len() as int);
    }
    order
}

/// What an entry adds to the size of a package at most: its bytes, their alignment, and a
/// sector of bookkeeping; for a directory also what it holds.
pub open spec fn weight_of(entry: StagedEntry) -> int
    decreases entry,
{
    match entry {
        StagedEntry::File { size, .. } => size + 0x8020,
        StagedEntry::Dir { entries, .. } => 0x8020 + weight_upto(
            entries@,
            entries@.len() as int,
        ),
    }
}

/// The weight of the first `n` entries.
pub open spec fn weight_upto(entries: Seq<StagedEntry>, n: int) -> int
    decreases entries, n,
{
    if n <= 0 || n > entries.len() {
        0
    } else {
        weight_upto(entries, n - 1) + weight_of(entries[n - 1])
    }
}

/// The weight of a directory's entries.
pub open spec fn weight(entries: Seq<StagedEntry>) -> int {
    weight_upto(entries, entries.len() as int)
}

/// The weight of the entries that `order` lists.
pub open spec fn listed_weight(entries: Seq<StagedEntry>, order: Seq<usize>) -> int
    decreases order.len(),
{
    if order.len() == 0 {
        0
    } else {
        listed_weight(entries, order.drop_last()) + weight_of(entries[order.last() as int])
    }
}

proof fn lemma_listed_insert(entries: Seq<StagedEntry>, order: Seq<usize>, at: int, x: usize)
    requires
        0 <= at <= order.len(),
    ensures
        listed_weight(entries, order.insert(at, x)) == listed_weight(entries, order) + weight_of(
            entries[x as int],
        ),
    decreases order.len(),
{
    let all = order.insert(at, x);
    if at == order.len() {
        assert(all.drop_last() =~= order);
    } else {
        lemma_listed_insert(entries, order.drop_last(), at, x);
        assert(all.drop_last() =~= order.drop_last().insert(at, x));
        assert(all.last() == order.last());
    }
}

/// Listing the entries in another order leaves their weight as it is.
pub proof fn lemma_listing_weight(entries: Seq<StagedEntry>, lead: Lead, n: int)
    requires
        0 <= n <= entries.len(),
        entries.len() <= usize::MAX,
    ensures
        listed_weight(entries, order_upto(entries, lead, n)) == weight_upto(entries, n),
    decreases n,
{
    if n > 0 {
        lemma_listing_weight(entries, lead, n - 1);
        let before = order_upto(entries, lead, n - 1);
        lemma_insert_at(entries, lead, before, n - 1, before.len() as int);
        lemma_listed_insert(
            entries,
            before,
            insert_at(entries, lead, before, n - 1, before.len() as int),
            (n - 1) as usize,
        );
    }
}

/// Weights are not negative, and every entry counts for a sector.
pub proof fn lemma_weight_bounds(entries: Seq<StagedEntry>, n: int)
    requires
        0 <= n <= entries.len(),
    ensures
        weight_upto(entries, n) >= n * 0x8020,
    decreases entries, n,
{
    if n > 0 {
        lemma_weight_bounds(entries, n - 1);
        lemma_weight_of(entries[n - 1]);
    }
}

/// Every entry counts for a sector.
pub proof fn lemma_weight_of(entry: StagedEntry)
    ensures
        weight_of(entry) >= 0x8020,
        entry matches StagedEntry::Dir { entries, .. } ==> weight(entries@) >= 0,
    decreases entry,
{
    match entry {
        StagedEntry::File { .. } => {},
        StagedEntry::Dir { entries, .. } => {
            lemma_weight_bounds(entries@, entries@.len() as int);
        },
    }
}

/// One more listed entry adds its weight.
pub proof fn lemma_listed_step(entries: Seq<StagedEntry>, order: Seq<usize>, i: int)
    requires
        0 <= i < order.len(),
    ensures
        listed_weight(entries, order.subrange(0, i + 1)) == listed_weight(
            entries,
            order.subrange(0, i),
        ) + weight_of(entries[order[i] as int]),
{
    let all = order.subrange(0, i + 1);
    assert(all.drop_last() =~= order.subrange(0, i));
}

/// What stands ahead in a listing weighs no more than the whole.
pub proof fn lemma_listed_prefix(entries: Seq<StagedEntry>, order: Seq<usize>, i: int)
    requires
        0 <= i <= order.len(),
    ensures
        0 <= listed_weight(entries, order.subrange(0, i)) <= listed_weight(entries, order),
    decreases order.len(),
{
    if i == order.len() {
        assert(order.subrange(0, i) =~= order);
        if order.len() > 0 {
            lemma_weight_of(entries[order.last() as int]);
            lemma_listed_prefix(entries, order.drop_last(), i - 1);
        }
    } else {
        lemma_listed_prefix(entries, order.drop_last(), i);
        assert(order.drop_last().subrange(0, i) =~= order.subrange(0, i));
        lemma_weight_of(entries[order.last() as int]);
    }
}

/// The weight of a directory that may be missing.
pub open spec fn dir_weight(dir: Option<Vec<StagedEntry>>) -> int {
    match dir {
        Some(entries) => weight(entries@),
        None => 0,
    }
}

/// The weight of a directory is not negative.
pub proof fn lemma_dir_weight(dir: Option<Vec<StagedEntry>>)
    ensures
        dir_weight(dir) >= 0,
{
    match dir {
        Some(entries) => lemma_weight_bounds(entries@, entries@.len() as int),
        None => {},
    }
}

impl StagedBuild {
    /// The weight of the whole build.
    pub open spec fn total_weight(self) -> int {
        dir_weight(self.code) + dir_weight(self.content) + dir_weight(self.meta)
    }

    /// Whether the build is small enough for a package.
    pub fn fits(&self) -> (r: bool)
        ensures
            r == (self.total_weight() <= WEIGHT_LIMIT),
    {
        proof {
            lemma_dir_weight(self.code);
            lemma_dir_weight(self.content);
            lemma_dir_weight(self.meta);
        }
        let code: u64 = match weigh_dir(&self.code) {
            Some(w) => w,
            None => return false,
        };
        let content: u64 = match weigh_dir(&self.content) {
            Some(w) => w,
            None => return false,
        };
        let meta: u64 = match weigh_dir(&self.meta) {
            Some(w) => w,
            None => return false,
        };
        code + content + meta <= WEIGHT_LIMIT
    }
}

/// What a list of entries weighs, unless it is too much for a package.
fn weigh(entries: &Vec<StagedEntry>) -> (r: Option<u64>)
    ensures
        match r {
            Some(w) => w == weight(entries@) && w <= WEIGHT_LIMIT,
            None => weight(entries@) > WEIGHT_LIMIT,
        },
    decreases entries,
{
    let mut total: u64 = 0;
    let mut i: usize = 0;
    while i < entries.len()
        invariant
            i <= entries@.len(),
            total == weight_upto(entries@, i as int),
            total <= WEIGHT_LIMIT,
        decreases entries@.len() - i,
    {
        proof {
            lemma_weight_rest(entries@, i as int + 1);
            lemma_weight_of(entries@[i as int]);
        }
        let own: u64 = match &entries[i] {
            StagedEntry::File { size, .. } => *size,
            StagedEntry::Dir { entries: below, .. } => {
                assert(decreases_to!(entries => entries@[i as int]));
                match weigh(below) {
                    Some(w) => w,
                    None => {
                        return None;
                    },
                }
            },
        };
        if own > WEIGHT_LIMIT {
            return None;
        }
        total = total + own + 0x8020;
        if total > WEIGHT_LIMIT {
            return None;
        }
        i += 1;
    }
    Some(total)
}

/// What stands ahead weighs no more than the whole.
proof fn lemma_weight_rest(entries: Seq<StagedEntry>, n: int)
    requires
        0 <= n <= entries.len(),
    ensures
        0 <= weight_upto(entries, n) <= weight(entries),
    decreases entries.len() - n,
{
    lemma_weight_bounds(entries, n);
    if n < entries.len() {
        lemma_weight_rest(entries, n + 1);
        lemma_weight_of(entries[n]);
    }
}

/// What a directory that may be missing weighs, unless it is too much for a package.
fn weigh_dir(dir: &Option<Vec<StagedEntry>>) -> (r: Option<u64>)
    ensures
        match r {
            Some(w) => w == dir_weight(*dir) && w <= WEIGHT_LIMIT,
            None => dir_weight(*dir) > WEIGHT_LIMIT,
        },
{
    match dir {
        Some(entries) => weigh(entries),
        None => Some(0),
    }
}

/// Whether `a` comes no later than `b` in byte order, or the other way round.
proof fn lemma_bytes_le_total(a: Seq<u8>, b: Seq<u8>)
    ensures
        bytes_le(a, b) || bytes_le(b, a),
    decreases a.len(),
{
    if a.len() > 0 && b.len() > 0 && a[0] == b[0] {
        lemma_bytes_le_total(a.drop_first(), b.drop_first());
    }
}

proof fn lemma_bytes_le_transitive(a: Seq<u8>, b: Seq<u8>, c: Seq<u8>)
    requires
        bytes_le(a, b),
        bytes_le(b, c),
    ensures
        bytes_le(a, c),
    decreases a.len(),
{
    if a.len() > 0 && b.len() > 0 && c.len() > 0 && a[0] == b[0] && b[0] == c[0] {
        lemma_bytes_le_transitive(a.drop_first(), b.drop_first(), c.drop_first());
    }
}

/// Where an entry is put: all before it are ordered no later, all behind it later.
proof fn lemma_insert_place(
    entries: Seq<StagedEntry>,
    lead: Lead,
    order: Seq<usize>,
    x: int,
    n: int,
)
    requires
        0 <= n <= order.len(),
        forall|i: int, j: int|
            #![trigger order[i], order[j]]
            0 <= i < j < n ==> rank_le(
                entry_rank(entries, lead, order[i] as int),
                entry_rank(entries, lead, order[j] as int),
            ),
    ensures
        forall|i: int|
            0 <= i < insert_at(entries, lead, order, x, n) ==> rank_le(
                entry_rank(entries, lead, (#[trigger] order[i]) as int),
                entry_rank(entries, lead, x),
            ),
        forall|i: int|
            insert_at(entries, lead, order, x, n) <= i < n ==> rank_le(
                entry_rank(entries, lead, x),
                entry_rank(entries, lead, (#[trigger] order[i]) as int),
            ) && !rank_le(
                entry_rank(entries, lead, order[i] as int),
                entry_rank(entries, lead, x),
            ),
    decreases n,
{
    if n > 0 {
        let last = entry_rank(entries, lead, order[n - 1] as int);
        let new = entry_rank(entries, lead, x);
        if rank_le(last, new) {
            assert forall|i: int| 0 <= i < n implies rank_le(
                entry_rank(entries, lead, (#[trigger] order[i]) as int),
                new,
            ) by {
                if i < n - 1 {
                    let here = entry_rank(entries, lead, order[i] as int);
                    assert(rank_le(here, last));
                    if here.0 == last.0 && last.0 == new.0 {
                        lemma_bytes_le_transitive(here.1, last.1, new.1);
                    }
                }
            }
        } else {
            lemma_bytes_le_total(last.1, new.1);
            lemma_insert_place(entries, lead, order, x, n - 1);
        }
    }
}

/// A directory is listed in order of rank, every entry once, and entries of equal rank keep the
/// order in which they were given.
pub proof fn law_listing_is_stable_sort(entries: Seq<StagedEntry>, lead: Lead, n: int)
    requires
        0 <= n <= entries.len(),
        entries.len() <= usize::MAX,
    ensures
        order_upto(entries, lead, n).len() == n,
        forall|x: int|
            0 <= x < n ==> #[trigger] order_upto(entries, lead, n).contains(x as usize),
        forall|i: int, j: int|
            #![trigger order_upto(entries, lead, n)[i], order_upto(entries, lead, n)[j]]
            0 <= i < j < n ==> {
                let a = order_upto(entries, lead, n)[i] as int;
                let b = order_upto(entries, lead, n)[j] as int;
                &&& a != b
                &&& rank_le(entry_rank(entries, lead, a), entry_rank(entries, lead, b))
                &&& rank_le(entry_rank(entries, lead, b), entry_rank(entries, lead, a)) ==> a < b
            },
    decreases n,
{
    lemma_order_bounds(entries, lead, n);
    if n > 0 {
        law_listing_is_stable_sort(entries, lead, n - 1);
        lemma_order_bounds(entries, lead, n - 1);
        let before = order_upto(entries, lead, n - 1);
        let at = insert_at(entries, lead, before, n - 1, before.len() as int);
        lemma_insert_at(entries, lead, before, n - 1, before.len() as int);
        lemma_insert_place(entries, lead, before, n - 1, before.len() as int);
        let all = order_upto(entries, lead, n);
        assert(all == before.insert(at, (n - 1) as usize));
        assert forall|x: int| 0 <= x < n implies #[trigger] all.contains(x as usize) by {
            if x == n - 1 {
                assert(all[at] == x as usize);
            } else {
                assert(before.contains(x as usize));
                let p = choose|p: int| 0 <= p < before.len() && before[p] == x as usize;
                if p < at {
                    assert(all[p] == x as usize);
                } else {
                    assert(all[p + 1] == x as usize);
                }
            }
        }
        assert forall|i: int, j: int|
            #![trigger all[i], all[j]]
            0 <= i < j < n implies {
            let a = all[i] as int;
            let b = all[j] as int;
            &&& a != b
            &&& rank_le(entry_rank(entries, lead, a), entry_rank(entries, lead, b))
            &&& rank_le(entry_rank(entries, lead, b), entry_rank(entries, lead, a)) ==> a < b
        } by {
            let p = if i < at {
                i
            } else {
                i - 1
            };
            let q = if j < at {
                j
            } else {
                j - 1
            };
            if i != at {
                assert(all[i] == before[p]);
            }
            if j != at {
                assert(all[j] == before[q]);
            }
        }
    }
}

/// A disc image file is told by its name: it starts with `hif_` and ends with `.nfs`. A program
/// ends with `.rpx` or `.rpl`.
pub proof fn law_names_tell_disc_images_and_programs(name: Seq<char>)
    ensures
        ({
            let n = name.len() as int;
            &&& hif_name(name) <==> n >= 4 && name[0] == 'h' && name[1] == 'i' && name[2] == 'f'
                && name[3] == '_' && name[n - 4] == '.' && name[n - 3] == 'n' && name[n - 2] == 'f'
                && name[n - 1] == 's'
            &&& program_name(name) <==> n >= 4 && name[n - 4] == '.' && name[n - 3] == 'r' && name[n
                - 2] == 'p' && (name[n - 1] == 'x' || name[n - 1] == 'l')
        }),
{
    let n = name.len() as int;
    reveal_strlit("hif_");
    reveal_strlit(".nfs");
    reveal_strlit(".rpx");
    reveal_strlit(".rpl");
    if n >= 4 {
        let head = name.subrange(0, 4);
        let tail = name.subrange(n - 4, n);
        assert(head[0] == name[0] && head[1] == name[1] && head[2] == name[2] && head[3]
            == name[3]);
        assert(tail[0] == name[n - 4] && tail[1] == name[n - 3] && tail[2] == name[n - 2] && tail[3]
            == name[n - 1]);
        assert("hif_"@.is_prefix_of(name) <==> head =~= "hif_"@);
        assert(".nfs"@.is_suffix_of(name) <==> tail =~= ".nfs"@);
        assert(".rpx"@.is_suffix_of(name) <==> tail =~= ".rpx"@);
        assert(".rpl"@.is_suffix_of(name) <==> tail =~= ".rpl"@);
    }
}

/// In a directory of programs those are listed ahead, in one of disc images these, each told by
/// the lower-case name; elsewhere no name is.
pub proof fn law_leading_names(lead: Lead, name: Seq<char>)
    ensures
        rank(lead, name).0 == match lead {
            Lead::Nothing => true,
            Lead::DiscImages => !hif_name(lowercase(name)),
            Lead::Programs => !program_name(lowercase(name)),
        },
        rank(lead, name).1 == encode_utf8(lowercase(name)),
{
}

/// Texts are ordered as in a dictionary: one that continues the other comes later, and otherwise
/// the first byte in which they differ decides.
pub proof fn law_byte_order_is_that_of_a_dictionary(a: Seq<u8>, b: Seq<u8>, n: int)
    requires
        0 <= n <= a.len(),
        n <= b.len(),
        a.subrange(0, n) == b.subrange(0, n),
    ensures
        n == a.len() ==> bytes_le(a, b),
        n == b.len() && n < a.len() ==> !bytes_le(a, b),
        n < a.len() && n < b.len() && a[n] != b[n] ==> (bytes_le(a, b) <==> a[n] < b[n]),
    decreases n,
{
    if n > 0 {
        let x = a.drop_first();
        let y = b.drop_first();
        assert(a.subrange(0, n)[0] == a[0] && b.subrange(0, n)[0] == b[0]);
        assert(x.subrange(0, n - 1) =~= a.subrange(0, n).drop_first());
        assert(y.subrange(0, n - 1) =~= b.subrange(0, n).drop_first());
        law_byte_order_is_that_of_a_dictionary(x, y, n - 1);
    }
}

} // verus!

//! The plaintext of a content: its files at their offsets, zeros between them.

use vstd::prelude::*;

use crate::error::{Error, Result};
use crate::io::ByteReader;
use crate::package::content::{PlacedFile, PlacedView, PlannedContent};
use crate::package::content_crypto::joined;
use crate::text::text_equal;
use crate::util::{copy_range, spliced, write_at, zero_bytes, zeros};

verus! {

/// Where the staged files are read from.
pub trait FileSource {
    /// The files that can be read, by path.
    open spec fn files(&self) -> Map<Seq<char>, Seq<u8>> {
        arbitrary()
    }

    /// Read a whole file.
    fn read_file(&self, path: &String) -> (r: Result<Vec<u8>>)
        ensures
            match r {
                Ok(data) => self.files().contains_key(path@) && data@ == self.files()[path@],
                Err(e) => e is Io && !self.files().contains_key(path@),
            },
    ;

    /// Read the `len` bytes at `offset` of a file; a read past its end fails.
    fn read_part(&self, path: &String, offset: u64, len: usize) -> (r: Result<Vec<u8>>)
        ensures
            match r {
                Ok(data) => {
                    &&& self.files().contains_key(path@)
                    &&& offset + len <= self.files()[path@].len()
                    &&& data@ == self.files()[path@].subrange(offset as int, offset + len)
                },
                Err(e) => e is Io && !(self.files().contains_key(path@) && offset + len
                    <= self.files()[path@].len()),
            },
    ;
}

/// The files that the first `n` entries of a list hold; later ones win.
pub open spec fn listed_files(list: Seq<(String, Vec<u8>)>, n: int) -> Map<Seq<char>, Seq<u8>>
    decreases n,
{
    if n <= 0 {
        Map::empty()
    } else {
        listed_files(list, n - 1).insert(list[n - 1].0@, list[n - 1].1@)
    }
}

/// Files held in memory.
pub struct MemoryFiles {
    /// Paths and what stands under them.
    pub list: Vec<(String, Vec<u8>)>,
}

impl MemoryFiles {
    /// Where a path is listed last.
    fn find(&self, path: &String) -> (r: Option<usize>)
        ensures
            match r {
                Some(i) => i < self.list@.len() && self.files().contains_key(path@)
                    && self.list@[i as int].1@ == self.files()[path@],
                None => !self.files().contains_key(path@),
            },
    {
        let mut i: usize = self.list.len();
        while i > 0
            invariant
                i <= self.list@.len(),
                self.files().contains_key(path@) == listed_files(
                    self.list@,
                    i as int,
                ).contains_key(path@),
                self.files()[path@] == listed_files(self.list@, i as int)[path@],
            decreases i,
        {
            if text_equal(self.list[i - 1].0.as_str(), path.as_str()) {
                return Some(i - 1);
            }
            i -= 1;
        }
        None
    }
}

impl FileSource for MemoryFiles {
    open spec fn files(&self) -> Map<Seq<char>, Seq<u8>> {
        listed_files(self.list@, self.list@.len() as int)
    }

    fn read_file(&self, path: &String) -> (r: Result<Vec<u8>>) {
        match self.find(path) {
            Some(i) => {
                let data: &Vec<u8> = &self.list[i].1;
                let all: Vec<u8> = copy_range(data.as_slice(), 0, data.len());
                assert(all@ =~= data@);
                Ok(all)
            },
            None => Err(Error::Io(String::from_str("no such file"))),
        }
    }

    fn read_part(&self, path: &String, offset: u64, len: usize) -> (r: Result<Vec<u8>>) {
        match self.find(path) {
            Some(i) => {
                let data: &Vec<u8> = &self.list[i].1;
                if offset > data.len() as u64 || len > data.len() - offset as usize {
                    return Err(Error::Io(String::from_str("read past the end")));
                }
                let start: usize = offset as usize;
                Ok(copy_range(data.as_slice(), start, start + len))
            },
            None => Err(Error::Io(String::from_str("no such file"))),
        }
    }
}

/// The views of placed files.
pub open spec fn placed_views(files: Seq<PlacedFile>) -> Seq<PlacedView> {
    Seq::new(files.len(), |i: int| files[i]@)
}

/// One past the last byte of a placed file.
pub open spec fn end_of(f: PlacedView) -> int {
    f.offset + f.size
}

/// The buffer of a content once its first `n` files have been copied in.
pub open spec fn assembled(
    files: Seq<PlacedView>,
    source: Map<Seq<char>, Seq<u8>>,
    data_len: int,
    n: int,
) -> Seq<u8>
    decreases n,
{
    if n <= 0 {
        zeros(data_len)
    } else {
        spliced(
            assembled(files, source, data_len, n - 1),
            files[n - 1].offset as int,
            source[files[n - 1].path],
        )
    }
}

/// Whether every file that can be read fits into the content's buffer at its offset.
pub open spec fn files_fit(
    files: Seq<PlacedView>,
    source: Map<Seq<char>, Seq<u8>>,
    data_len: int,
) -> bool {
    forall|i: int|
        0 <= i < files.len() && source.contains_key(files[i].path) ==> (#[trigger] files[i]).offset
            + source[files[i].path].len() <= data_len
}

/// Whether every file can be read.
pub open spec fn all_found(files: Seq<PlacedView>, source: Map<Seq<char>, Seq<u8>>) -> bool {
    forall|i: int| 0 <= i < files.len() ==> source.contains_key((#[trigger] files[i]).path)
}

/// Assemble a content's plaintext in memory, for the small non-hashed contents: the table for
/// content 0, and otherwise the files at their offsets.
pub fn assemble_content<F: FileSource>(c: &PlannedContent, fst: &[u8], source: &F) -> (r: Result<
    Vec<u8>,
>)
    requires
        c.index != 0 ==> c.data_len <= usize::MAX && files_fit(
            c@.files,
            source.files(),
            c.data_len as int,
        ),
    ensures
        match r {
            Ok(plain) => if c.index == 0 {
                plain@ == fst@
            } else {
                &&& all_found(c@.files, source.files())
                &&& plain@ == assembled(
                    c@.files,
                    source.files(),
                    c.data_len as int,
                    c@.files.len() as int,
                )
                &&& plain@.len() == c.data_len
            },
            Err(e) => c.index != 0 && e is Io && !all_found(c@.files, source.files()),
        },
{
    if c.index == 0 {
        let all: Vec<u8> = copy_range(fst, 0, fst.len());
        assert(all@ =~= fst@);
        return Ok(all);
    }
    let mut buf: Vec<u8> = zero_bytes(c.data_len as usize);
    let mut i: usize = 0;
    while i < c.files.len()
        invariant
            i <= c.files@.len(),
            c.index != 0,
            c.data_len <= usize::MAX,
            files_fit(c@.files, source.files(), c.data_len as int),
            forall|j: int|
                0 <= j < i ==> source.files().contains_key((#[trigger] c@.files[j]).path),
            buf@ == assembled(c@.files, source.files(), c.data_len as int, i as int),
            buf@.len() == c.data_len,
        decreases c.files@.len() - i,
    {
        assert(c@.files[i as int] == c.files@[i as int]@);
        let bytes: Vec<u8> = match source.read_file(&c.files[i].path) {
            Ok(bytes) => bytes,
            Err(e) => return Err(e),
        };
        write_at(&mut buf, c.files[i].offset as usize, bytes.as_slice());
        i += 1;
    }
    Ok(buf)
}

/// Where a file of the given offset goes among the first `k` of a list in order of offset:
/// behind those that do not lie after it.
pub open spec fn insertion_point(list: Seq<PlacedView>, offset: u64, k: int) -> int
    decreases k,
{
    if k > 0 && list[k - 1].offset > offset {
        insertion_point(list, offset, k - 1)
    } else {
        k
    }
}

/// The first `n` files in order of offset; files of one offset keep their order.
pub open spec fn by_offset(files: Seq<PlacedView>, n: int) -> Seq<PlacedView>
    decreases n,
{
    if n <= 0 {
        Seq::empty()
    } else {
        let sorted = by_offset(files, n - 1);
        sorted.insert(
            insertion_point(sorted, files[n - 1].offset, sorted.len() as int),
            files[n - 1],
        )
    }
}

proof fn lemma_insertion_point(list: Seq<PlacedView>, offset: u64, k: int)
    requires
        0 <= k,
    ensures
        0 <= insertion_point(list, offset, k) <= k,
        insertion_point(list, offset, k) > 0 ==> list[insertion_point(list, offset, k)
            - 1].offset <= offset,
        forall|j: int|
            insertion_point(list, offset, k) <= j < k ==> (#[trigger] list[j]).offset > offset,
    decreases k,
{
    if k > 0 && list[k - 1].offset > offset {
        lemma_insertion_point(list, offset, k - 1);
    }
}

/// What holds of all files holds of them in order of offset, and the other way round.
proof fn lemma_by_offset(files: Seq<PlacedView>, n: int, holds: spec_fn(PlacedView) -> bool)
    requires
        0 <= n <= files.len(),
    ensures
        by_offset(files, n).len() == n,
        (forall|i: int| 0 <= i < n ==> holds(#[trigger] by_offset(files, n)[i])) == (forall|i: int|
            0 <= i < n ==> holds(#[trigger] files[i])),
    decreases n,
{
    if n > 0 {
        lemma_by_offset(files, n - 1, holds);
        let sorted = by_offset(files, n - 1);
        let at = insertion_point(sorted, files[n - 1].offset, sorted.len() as int);
        lemma_insertion_point(sorted, files[n - 1].offset, sorted.len() as int);
        let all = by_offset(files, n);
        assert(all[at] == files[n - 1]);
        if forall|i: int| 0 <= i < n ==> holds(#[trigger] files[i]) {
            assert forall|i: int| 0 <= i < n implies holds(#[trigger] all[i]) by {
                if i < at {
                    assert(all[i] == sorted[i]);
                } else if i > at {
                    assert(all[i] == sorted[i - 1]);
                }
            }
        }
        if forall|i: int| 0 <= i < n ==> holds(#[trigger] all[i]) {
            assert forall|i: int| 0 <= i < n - 1 implies holds(#[trigger] sorted[i]) by {
                if i < at {
                    assert(all[i] == sorted[i]);
                } else {
                    assert(all[i + 1] == sorted[i]);
                }
            }
        }
    }
}

/// Putting files in order of offset changes neither where they end nor whether they can be
/// read.
proof fn lemma_sorting_keeps(files: Seq<PlacedView>, source: Map<Seq<char>, Seq<u8>>)
    requires
        ends_held(files),
    ensures
        ends_held(by_offset(files, files.len() as int)),
        all_readable(by_offset(files, files.len() as int), source) == all_readable(files, source),
{
    let n = files.len() as int;
    let sorted = by_offset(files, n);
    let held = |f: PlacedView| end_of(f) <= u64::MAX;
    let readable = |f: PlacedView| source.contains_key(f.path) && f.size <= source[f.path].len();
    lemma_by_offset(files, n, held);
    lemma_by_offset(files, n, readable);
    assert(forall|i: int| 0 <= i < n ==> held(#[trigger] files[i]));
    assert forall|i: int| 0 <= i < sorted.len() implies end_of(#[trigger] sorted[i])
        <= u64::MAX by {
        assert(held(sorted[i]));
    }
    assert(all_readable(files, source) == (forall|i: int|
        0 <= i < n ==> readable(#[trigger] files[i])));
    assert(all_readable(sorted, source) == (forall|i: int|
        0 <= i < n ==> readable(#[trigger] sorted[i])));
}

/// The first file from `from` on that ends past position `p`; the number of files where none
/// does.
pub open spec fn file_at(files: Seq<PlacedView>, p: int, from: int) -> int
    decreases files.len() - from,
{
    if from < 0 || from >= files.len() || p < end_of(files[from]) {
        from
    } else {
        file_at(files, p, from + 1)
    }
}

/// The byte at position `p` of the streamed plaintext: of the first file that ends past `p`,
/// and zero in front of it or where there is none.
pub open spec fn plain_byte(
    files: Seq<PlacedView>,
    source: Map<Seq<char>, Seq<u8>>,
    p: int,
) -> u8 {
    let i = file_at(files, p, 0);
    if i < files.len() && files[i].offset <= p {
        source[files[i].path][p - files[i].offset]
    } else {
        0
    }
}

/// The streamed plaintext of a list of files in order of offset.
pub open spec fn streamed(
    files: Seq<PlacedView>,
    source: Map<Seq<char>, Seq<u8>>,
    data_len: int,
) -> Seq<u8> {
    Seq::new(data_len as nat, |p: int| plain_byte(files, source, p))
}

/// The plaintext that a reader streams of a content.
pub open spec fn content_stream(
    files: Seq<PlacedView>,
    source: Map<Seq<char>, Seq<u8>>,
    data_len: int,
) -> Seq<u8> {
    streamed(by_offset(files, files.len() as int), source, data_len)
}

/// Whether every file can be read as far as the plan takes it.
pub open spec fn all_readable(files: Seq<PlacedView>, source: Map<Seq<char>, Seq<u8>>) -> bool {
    forall|i: int|
        0 <= i < files.len() ==> source.contains_key((#[trigger] files[i]).path) && files[i].size
            <= source[files[i].path].len()
}

/// Whether every file ends at an offset that can be held.
pub open spec fn ends_held(files: Seq<PlacedView>) -> bool {
    forall|i: int| 0 <= i < files.len() ==> end_of(#[trigger] files[i]) <= u64::MAX
}

proof fn lemma_file_at(files: Seq<PlacedView>, p: int, from: int, i: int)
    requires
        0 <= from <= i <= files.len(),
        forall|j: int| from <= j < i ==> end_of(#[trigger] files[j]) <= p,
        i == files.len() || p < end_of(files[i]),
    ensures
        file_at(files, p, from) == i,
    decreases i - from,
{
    if from < i {
        lemma_file_at(files, p, from + 1, i);
    }
}

/// Streams the plaintext of a content without holding more of it than is asked for. It gives
/// the bytes that [`assemble_content`] gives, so large contents can be encoded as they are read.
pub struct ContentPlaintextReader<'a, F: FileSource> {
    files: Vec<PlacedFile>,
    source: &'a F,
    data_len: u64,
    pos: u64,
    file_idx: usize,
    failed: Ghost<nat>,
}

impl<'a, F: FileSource> ContentPlaintextReader<'a, F> {
    /// The files passed so far end before the position.
    #[verifier::type_invariant]
    spec fn inv(self) -> bool {
        &&& self.pos <= self.data_len
        &&& self.file_idx <= self.files@.len()
        &&& ends_held(placed_views(self.files@))
        &&& forall|i: int|
            0 <= i < self.file_idx ==> end_of(#[trigger] placed_views(self.files@)[i]) <= self.pos
    }

    /// A reader at the start of a content.
    pub fn new(c: &PlannedContent, source: &'a F) -> (r: Self)
        requires
            ends_held(c@.files),
        ensures
            r.rest() == content_stream(c@.files, source.files(), c.data_len as int),
            r.dependable() == all_readable(c@.files, source.files()),
    {
        let mut files: Vec<PlacedFile> = Vec::new();
        let mut i: usize = 0;
        assert(placed_views(files@) =~= by_offset(c@.files, 0));
        while i < c.files.len()
            invariant
                i <= c.files@.len(),
                placed_views(files@) == by_offset(c@.files, i as int),
            decreases c.files@.len() - i,
        {
            let f: &PlacedFile = &c.files[i];
            assert(c@.files[i as int] == f@);
            let ghost before = files@;
            let ghost sorted = placed_views(files@);
            let mut at: usize = files.len();
            while at > 0 && files[at - 1].offset > f.offset
                invariant
                    at <= files@.len(),
                    sorted == placed_views(files@),
                    insertion_point(sorted, f.offset, sorted.len() as int) == insertion_point(
                        sorted,
                        f.offset,
                        at as int,
                    ),
                decreases at,
            {
                assert(sorted[at - 1] == files@[at - 1]@);
                at -= 1;
            }
            proof {
                if at > 0 {
                    assert(sorted[at - 1] == files@[at - 1]@);
                }
            }
            files.insert(
                at,
                PlacedFile { path: f.path.clone(), offset: f.offset, size: f.size },
            );
            i += 1;
            assert(placed_views(files@) =~= by_offset(c@.files, i as int));
        }
        proof {
            lemma_sorting_keeps(c@.files, source.files());
        }
        let r = ContentPlaintextReader {
            files,
            source,
            data_len: c.data_len,
            pos: 0,
            file_idx: 0,
            failed: Ghost(0),
        };
        assert(r.rest() =~= content_stream(c@.files, source.files(), c.data_len as int));
        r
    }
}

impl<'a, F: FileSource> ByteReader for ContentPlaintextReader<'a, F> {
    closed spec fn rest(&self) -> Seq<u8> {
        streamed(placed_views(self.files@), self.source.files(), self.data_len as int).subrange(
            self.pos as int,
            self.data_len as int,
        )
    }

    closed spec fn dependable(&self) -> bool {
        all_readable(placed_views(self.files@), self.source.files())
    }

    closed spec fn faults(&self) -> nat {
        self.failed@
    }

    fn read(&mut self, max: usize) -> (r: Result<Vec<u8>>) {
        proof {
            use_type_invariant(&*self);
        }
        let ghost views = placed_views(self.files@);
        let ghost whole = streamed(views, self.source.files(), self.data_len as int);
        if self.pos >= self.data_len || max == 0 {
            let none: Vec<u8> = Vec::new();
            assert(none@ + self.rest() =~= self.rest());
            return Ok(none);
        }
        let pos: u64 = self.pos;
        let mut idx: usize = self.file_idx;
        assert forall|i: int| 0 <= i < self.files@.len() implies (#[trigger] self.files@[i]).offset
            + self.files@[i].size <= u64::MAX by {
            assert(end_of(views[i]) <= u64::MAX);
        }
        while idx < self.files.len() && pos >= self.files[idx].offset + self.files[idx].size
            invariant
                idx <= self.files@.len(),
                pos == self.pos,
                views == placed_views(self.files@),
                forall|i: int|
                    0 <= i < self.files@.len() ==> (#[trigger] self.files@[i]).offset
                        + self.files@[i].size <= u64::MAX,
                forall|i: int| 0 <= i < idx ==> end_of(#[trigger] views[i]) <= pos,
                self.files == old(self).files,
                self.source == old(self).source,
                self.data_len == old(self).data_len,
                self.pos == old(self).pos,
                self.failed == old(self).failed,
            ensures
                idx <= self.files@.len(),
                idx < self.files@.len() ==> pos < end_of(views[idx as int]),
                forall|i: int| 0 <= i < idx ==> end_of(#[trigger] views[i]) <= pos,
            decreases self.files@.len() - idx,
        {
            assert(views[idx as int] == self.files@[idx as int]@);
            idx += 1;
        }
        let left: u64 = self.data_len - pos;
        let want: usize = if left < max as u64 {
            left as usize
        } else {
            max
        };
        let chunk: Vec<u8> = if idx < self.files.len() {
            let f: &PlacedFile = &self.files[idx];
            assert(views[idx as int] == f@);
            if pos < f.offset {
                let gap: u64 = f.offset - pos;
                let n: usize = if gap < want as u64 {
                    gap as usize
                } else {
                    want
                };
                zero_bytes(n)
            } else {
                let inside: u64 = f.offset + f.size - pos;
                let n: usize = if inside < want as u64 {
                    inside as usize
                } else {
                    want
                };
                match self.source.read_part(&f.path, pos - f.offset, n) {
                    Ok(chunk) => chunk,
                    Err(e) => {
                        self.failed = Ghost(self.failed@ + 1);
                        return Err(e);
                    },
                }
            }
        } else {
            zero_bytes(want)
        };
        proof {
            assert forall|k: int| 0 <= k < chunk@.len() implies chunk@[k] == whole[pos + k] by {
                lemma_file_at(views, pos + k, 0, idx as int);
            }
        }
        self.file_idx = idx;
        self.pos = pos + chunk.len() as u64;
        assert(chunk@ + self.rest() =~= old(self).rest());
        Ok(chunk)
    }
}

/// Whether files stand in order of offset and none reaches into the next.
pub open spec fn apart(files: Seq<PlacedView>) -> bool {
    forall|i: int, j: int|
        0 <= i < j < files.len() ==> end_of(#[trigger] files[i]) <= (#[trigger] files[j]).offset
}

/// Whether every file is as long as the plan says.
pub open spec fn sizes_hold(files: Seq<PlacedView>, source: Map<Seq<char>, Seq<u8>>) -> bool {
    forall|i: int|
        0 <= i < files.len() ==> source[(#[trigger] files[i]).path].len() == files[i].size
}

/// Whether a file holds position `p` of its content.
pub open spec fn covers(f: PlacedView, p: int) -> bool {
    f.offset <= p < end_of(f)
}

/// Whether no two files overlap, in whatever order they stand.
pub open spec fn overlap_free(files: Seq<PlacedView>) -> bool {
    forall|i: int, j: int, p: int|
        0 <= i < files.len() && 0 <= j < files.len() && #[trigger] covers(files[i], p)
            && #[trigger] covers(files[j], p) ==> i == j
}

/// Files that stand apart do not overlap.
pub proof fn lemma_apart(files: Seq<PlacedView>)
    requires
        apart(files),
    ensures
        overlap_free(files),
{
    assert forall|i: int, j: int, p: int|
        0 <= i < files.len() && 0 <= j < files.len() && #[trigger] covers(files[i], p)
            && #[trigger] covers(files[j], p) implies i == j by {
        if i < j {
            assert(end_of(files[i]) <= files[j].offset);
        } else if j < i {
            assert(end_of(files[j]) <= files[i].offset);
        }
    }
}

/// The files by offset lie in order.
proof fn lemma_in_order(files: Seq<PlacedView>, n: int)
    requires
        0 <= n <= files.len(),
    ensures
        by_offset(files, n).len() == n,
        forall|i: int, j: int|
            0 <= i <= j < n ==> (#[trigger] by_offset(files, n)[i]).offset <= (
            #[trigger] by_offset(files, n)[j]).offset,
    decreases n,
{
    if n > 0 {
        lemma_in_order(files, n - 1);
        let sorted = by_offset(files, n - 1);
        let offset = files[n - 1].offset;
        let at = insertion_point(sorted, offset, sorted.len() as int);
        lemma_insertion_point(sorted, offset, sorted.len() as int);
        let all = by_offset(files, n);
        assert(all == sorted.insert(at, files[n - 1]));
        assert forall|i: int, j: int| 0 <= i <= j < n implies (#[trigger] all[i]).offset <= (
        #[trigger] all[j]).offset by {
            if i < at {
                assert(all[i] == sorted[i]);
                assert(sorted[i].offset <= sorted[at - 1].offset);
                if j < at {
                    assert(all[j] == sorted[j]);
                } else if j > at {
                    assert(all[j] == sorted[j - 1]);
                }
            } else if i == at {
                if j > at {
                    assert(all[j] == sorted[j - 1]);
                }
            } else {
                assert(all[i] == sorted[i - 1]);
                assert(all[j] == sorted[j - 1]);
            }
        }
    }
}

/// Sorting files by offset loses none and adds none.
proof fn lemma_same_files(files: Seq<PlacedView>, f: PlacedView)
    ensures
        by_offset(files, files.len() as int).contains(f) == files.contains(f),
{
    let n = files.len() as int;
    let sorted = by_offset(files, n);
    let other = |g: PlacedView| g != f;
    lemma_by_offset(files, n, other);
    if files.contains(f) {
        let i = choose|i: int| 0 <= i < files.len() && files[i] == f;
        assert(!other(files[i]));
    }
    if sorted.contains(f) {
        let i = choose|i: int| 0 <= i < sorted.len() && sorted[i] == f;
        assert(!other(sorted[i]));
    }
    assert((forall|i: int| 0 <= i < n ==> other(#[trigger] files[i])) == !files.contains(f));
    assert((forall|i: int| 0 <= i < n ==> other(#[trigger] sorted[i])) == !sorted.contains(f));
}

/// A byte of a content that file `i` covers, once the first `n` files have been copied in.
proof fn lemma_covered_byte(
    files: Seq<PlacedView>,
    source: Map<Seq<char>, Seq<u8>>,
    data_len: int,
    n: int,
    p: int,
    i: int,
)
    requires
        overlap_free(files),
        sizes_hold(files, source),
        0 <= n <= files.len(),
        0 <= p < data_len,
        forall|j: int| 0 <= j < files.len() ==> end_of(#[trigger] files[j]) <= data_len,
        0 <= i < files.len(),
        covers(files[i], p),
    ensures
        assembled(files, source, data_len, n).len() == data_len,
        assembled(files, source, data_len, n)[p] == if i < n {
            source[files[i].path][p - files[i].offset]
        } else {
            0
        },
    decreases n,
{
    if n > 0 {
        lemma_covered_byte(files, source, data_len, n - 1, p, i);
        let f = files[n - 1];
        assert(source[f.path].len() == f.size);
        assert(end_of(f) <= data_len);
        assert(covers(f, p) ==> n - 1 == i);
    }
}

/// A byte of a content that no file covers.
proof fn lemma_bare_byte(
    files: Seq<PlacedView>,
    source: Map<Seq<char>, Seq<u8>>,
    data_len: int,
    n: int,
    p: int,
)
    requires
        sizes_hold(files, source),
        0 <= n <= files.len(),
        0 <= p < data_len,
        forall|j: int| 0 <= j < files.len() ==> end_of(#[trigger] files[j]) <= data_len,
        forall|j: int| 0 <= j < files.len() ==> !#[trigger] covers(files[j], p),
    ensures
        assembled(files, source, data_len, n).len() == data_len,
        assembled(files, source, data_len, n)[p] == 0,
    decreases n,
{
    if n > 0 {
        lemma_bare_byte(files, source, data_len, n - 1, p);
        let f = files[n - 1];
        assert(source[f.path].len() == f.size);
        assert(end_of(f) <= data_len);
        assert(!covers(f, p));
    }
}

proof fn lemma_file_at_bounds(files: Seq<PlacedView>, p: int, from: int)
    requires
        0 <= from <= files.len(),
    ensures
        from <= file_at(files, p, from) <= files.len(),
        file_at(files, p, from) < files.len() ==> p < end_of(files[file_at(files, p, from)]),
    decreases files.len() - from,
{
    if from < files.len() && p >= end_of(files[from]) {
        lemma_file_at_bounds(files, p, from + 1);
    }
}

/// The byte of the stream at `p` is that of the assembled content.
proof fn lemma_same_byte(
    files: Seq<PlacedView>,
    source: Map<Seq<char>, Seq<u8>>,
    data_len: int,
    p: int,
)
    requires
        overlap_free(files),
        sizes_hold(files, source),
        0 <= p < data_len,
        forall|i: int| 0 <= i < files.len() ==> end_of(#[trigger] files[i]) <= data_len,
    ensures
        content_stream(files, source, data_len)[p] == assembled(
            files,
            source,
            data_len,
            files.len() as int,
        )[p],
{
    let n = files.len() as int;
    let sorted = by_offset(files, n);
    lemma_in_order(files, n);
    lemma_file_at_bounds(sorted, p, 0);
    let m = file_at(sorted, p, 0);
    if exists|i: int| 0 <= i < n && #[trigger] covers(files[i], p) {
        let i = choose|i: int| 0 <= i < n && #[trigger] covers(files[i], p);
        lemma_covered_byte(files, source, data_len, n, p, i);
        lemma_same_files(files, files[i]);
        assert(files.contains(files[i]));
        let k = choose|k: int| 0 <= k < sorted.len() && sorted[k] == files[i];
        if m > k {
            lemma_passed(sorted, p, 0, k);
        }
        assert(sorted[m].offset <= sorted[k].offset);
        lemma_same_files(files, sorted[m]);
        assert(sorted.contains(sorted[m]));
        let j = choose|j: int| 0 <= j < files.len() && files[j] == sorted[m];
        assert(covers(files[j], p));
    } else {
        lemma_bare_byte(files, source, data_len, n, p);
        if m < n {
            lemma_same_files(files, sorted[m]);
            assert(sorted.contains(sorted[m]));
            let j = choose|j: int| 0 <= j < files.len() && files[j] == sorted[m];
            assert(!covers(files[j], p));
        }
    }
}

/// The files that were passed by end at or before the position.
proof fn lemma_passed(files: Seq<PlacedView>, p: int, from: int, k: int)
    requires
        0 <= from <= k < file_at(files, p, from),
        k < files.len(),
    ensures
        end_of(files[k]) <= p,
    decreases files.len() - from,
{
    if from < k {
        lemma_passed(files, p, from + 1, k);
    }
}

/// Streaming a content gives what assembling it in memory gives, where its files do not overlap
/// and are as long as planned. They may stand in any order.
pub proof fn law_stream_matches_assembly(
    files: Seq<PlacedView>,
    source: Map<Seq<char>, Seq<u8>>,
    data_len: int,
)
    requires
        overlap_free(files),
        sizes_hold(files, source),
        0 <= data_len,
        forall|i: int| 0 <= i < files.len() ==> end_of(#[trigger] files[i]) <= data_len,
    ensures
        content_stream(files, source, data_len) == assembled(
            files,
            source,
            data_len,
            files.len() as int,
        ),
{
    let n = files.len() as int;
    lemma_assembled_len(files, source, data_len, n);
    assert forall|p: int| 0 <= p < data_len implies content_stream(files, source, data_len)[p]
        == assembled(files, source, data_len, n)[p] by {
        lemma_same_byte(files, source, data_len, p);
    }
    assert(content_stream(files, source, data_len) =~= assembled(files, source, data_len, n));
}

proof fn lemma_assembled_len(
    files: Seq<PlacedView>,
    source: Map<Seq<char>, Seq<u8>>,
    data_len: int,
    n: int,
)
    requires
        sizes_hold(files, source),
        0 <= n <= files.len(),
        0 <= data_len,
        forall|i: int| 0 <= i < files.len() ==> end_of(#[trigger] files[i]) <= data_len,
    ensures
        assembled(files, source, data_len, n).len() == data_len,
    decreases n,
{
    if n > 0 {
        lemma_assembled_len(files, source, data_len, n - 1);
        assert(source[files[n - 1].path].len() == files[n - 1].size);
        assert(end_of(files[n - 1]) <= data_len);
    }
}

/// Whether these chunks are what successive reads give: before read `i`, `rests[i]` is left, and a
/// read that gives nothing is the last, for nothing is left then.
pub open spec fn read_in_turn(chunks: Seq<Seq<u8>>, rests: Seq<Seq<u8>>) -> bool {
    &&& rests.len() == chunks.len() + 1
    &&& forall|i: int| 0 <= i < chunks.len() ==> #[trigger] read_gives(chunks, rests, i)
    &&& chunks.len() > 0
    &&& chunks.last().len() == 0
    &&& rests.last().len() == 0
}

/// Whether chunk `i` and what is left behind it make up what was left before it.
pub open spec fn read_gives(chunks: Seq<Seq<u8>>, rests: Seq<Seq<u8>>, i: int) -> bool {
    chunks[i] + rests[i + 1] == rests[i]
}

proof fn lemma_chunks_join(chunks: Seq<Seq<u8>>, rests: Seq<Seq<u8>>, n: int)
    requires
        0 <= n <= chunks.len(),
        rests.len() == chunks.len() + 1,
        forall|i: int| 0 <= i < chunks.len() ==> #[trigger] read_gives(chunks, rests, i),
    ensures
        joined(chunks, n) + rests[n] == rests[0],
    decreases n,
{
    if n > 0 {
        lemma_chunks_join(chunks, rests, n - 1);
        assert(read_gives(chunks, rests, n - 1));
        assert(joined(chunks, n) + rests[n] =~= joined(chunks, n - 1) + (chunks[n - 1] + rests[n]));
    } else {
        assert(joined(chunks, 0) + rests[0] =~= rests[0]);
    }
}

/// A content that is read to its end, in reads of any sizes, comes out as it is assembled in
/// memory, where its files do not overlap and are as long as planned: the files at their offsets,
/// zeros everywhere else, and `data_len` bytes in all.
pub proof fn law_reads_deliver_the_content(
    files: Seq<PlacedView>,
    source: Map<Seq<char>, Seq<u8>>,
    data_len: int,
    chunks: Seq<Seq<u8>>,
    rests: Seq<Seq<u8>>,
)
    requires
        overlap_free(files),
        sizes_hold(files, source),
        0 <= data_len,
        forall|i: int| 0 <= i < files.len() ==> end_of(#[trigger] files[i]) <= data_len,
        rests.len() > 0,
        rests[0] == content_stream(files, source, data_len),
        read_in_turn(chunks, rests),
    ensures
        joined(chunks, chunks.len() as int) == assembled(
            files,
            source,
            data_len,
            files.len() as int,
        ),
        joined(chunks, chunks.len() as int).len() == data_len,
{
    let n = chunks.len() as int;
    law_stream_matches_assembly(files, source, data_len);
    lemma_chunks_join(chunks, rests, n);
    assert(joined(chunks, n) + rests[n] =~= joined(chunks, n));
    lemma_assembled_len(files, source, data_len, files.len() as int);
}

/// A file of an assembled content stands at its offset.
pub proof fn law_files_stand_at_their_offsets(
    files: Seq<PlacedView>,
    source: Map<Seq<char>, Seq<u8>>,
    data_len: int,
    i: int,
)
    requires
        overlap_free(files),
        sizes_hold(files, source),
        0 <= data_len,
        forall|j: int| 0 <= j < files.len() ==> end_of(#[trigger] files[j]) <= data_len,
        0 <= i < files.len(),
    ensures
        assembled(files, source, data_len, files.len() as int).subrange(
            files[i].offset as int,
            end_of(files[i]),
        ) == source[files[i].path],
{
    let n = files.len() as int;
    lemma_assembled_len(files, source, data_len, n);
    let all = assembled(files, source, data_len, n);
    let f = files[i];
    assert(source[f.path].len() == f.size);
    assert forall|p: int| f.offset <= p < end_of(f) implies all[p] == source[f.path][p
        - f.offset] by {
        lemma_covered_byte(files, source, data_len, n, p, i);
    }
    assert(all.subrange(f.offset as int, end_of(f)) =~= source[f.path]);
}

/// An assembled content is as long as it is planned, and zero where no file stands.
pub proof fn law_gaps_are_zero(
    files: Seq<PlacedView>,
    source: Map<Seq<char>, Seq<u8>>,
    data_len: int,
    p: int,
)
    requires
        sizes_hold(files, source),
        forall|j: int| 0 <= j < files.len() ==> end_of(#[trigger] files[j]) <= data_len,
        0 <= p < data_len,
        forall|j: int|
            0 <= j < files.len() ==> !((#[trigger] files[j]).offset <= p < files[j].offset
                + files[j].size),
    ensures
        assembled(files, source, data_len, files.len() as int).len() == data_len,
        assembled(files, source, data_len, files.len() as int)[p] == 0,
{
    let n = files.len() as int;
    lemma_assembled_len(files, source, data_len, n);
    assert forall|j: int| 0 <= j < n implies !covers(#[trigger] files[j], p) by {}
    lemma_bare_byte(files, source, data_len, n, p);
}

} // verus!

//! Splitting the NFS stream into `hif_%06d.nfs` files of 250 MiB.
//!
//! The header counts toward the first file.

use vstd::prelude::*;

use crate::text::{
    decimal_of, law_decimal_reads_back, law_padding_adds_zeros_in_front, number_of,
    push_decimal_padded, zero_padded,
};

verus! {

/// Size of every `hif_*.nfs` file but the last.
pub const NFS_FILE_SIZE: u64 = 0xFA0_0000;

/// Most bytes a stream can hold before the file numbers run out.
pub const MAX_STREAM: u64 = 0x800_0000_0000_0000;

/// A piece of the data handed in: its bytes from `start` up to `end` go to the end of file
/// number `file`.
#[derive(Clone, Copy, Debug, PartialEq, Eq, Structural)]
pub struct Piece {
    /// Number of the file.
    pub file: u32,
    /// First byte of the piece.
    pub start: usize,
    /// One past its last byte.
    pub end: usize,
}

/// Decides which file every byte of the stream goes to.
pub struct SplitWriter {
    index: u32,
    written_in_current: u64,
    total_written: u64,
}

/// How many files a stream of `total` bytes takes; an empty one still takes one.
pub open spec fn files_for(total: int) -> int {
    if total == 0 {
        1
    } else {
        (total - 1) / 0xFA0_0000 + 1
    }
}

/// The name of file `index`.
pub open spec fn file_name_of(index: u32) -> Seq<char> {
    "hif_"@ + zero_padded(decimal_of(index as nat), 6) + ".nfs"@
}

/// Whether piece `i` goes on where the one before it ends, is not empty, and all its bytes go to
/// the file that their place in the stream falls into; `total` bytes come before the pieces.
pub open spec fn piece_stands(pieces: Seq<Piece>, total: int, len: int, i: int) -> bool {
    let p = pieces[i];
    &&& p.start < p.end <= len
    &&& p.start == if i == 0 {
        0
    } else {
        pieces[i - 1].end as int
    }
    &&& p.file == (total + p.start) / 0xFA0_0000
    &&& p.file == (total + p.end - 1) / 0xFA0_0000
}

/// Whether `pieces` send `len` bytes that follow `total` earlier ones to their files.
pub open spec fn pieces_of(pieces: Seq<Piece>, total: int, len: int) -> bool {
    &&& forall|i: int| 0 <= i < pieces.len() ==> #[trigger] piece_stands(pieces, total, len, i)
    &&& if len == 0 {
        pieces.len() == 0
    } else {
        pieces.len() > 0 && pieces.last().end == len
    }
}

impl View for SplitWriter {
    type V = int;

    closed spec fn view(&self) -> int {
        self.total_written as int
    }
}

impl SplitWriter {
    /// The current file is the one that the last byte went to.
    #[verifier::type_invariant]
    spec fn consistent(self) -> bool {
        &&& self.total_written <= MAX_STREAM
        &&& self.index == files_for(self.total_written as int) - 1
        &&& self.total_written == self.index * NFS_FILE_SIZE + self.written_in_current
        &&& self.written_in_current <= NFS_FILE_SIZE
    }

    /// Nothing written yet.
    pub fn new() -> (r: Self)
        ensures
            r@ == 0,
    {
        SplitWriter { index: 0, written_in_current: 0, total_written: 0 }
    }

    /// Take `len` more bytes; the result says where each of them goes.
    pub fn write_all(&mut self, len: usize) -> (pieces: Vec<Piece>)
        requires
            old(self)@ + len <= MAX_STREAM,
        ensures
            final(self)@ == old(self)@ + len,
            pieces_of(pieces@, old(self)@, len as int),
    {
        proof {
            use_type_invariant(&*self);
        }
        let total: u64 = self.total_written;
        let mut index: u32 = self.index;
        let mut in_file: u64 = self.written_in_current;
        let mut pieces: Vec<Piece> = Vec::new();
        let mut done: usize = 0;
        while done < len
            invariant
                done <= len,
                total + len <= MAX_STREAM,
                in_file <= NFS_FILE_SIZE,
                index == files_for(total + done) - 1,
                total + done == index * NFS_FILE_SIZE + in_file,
                done == 0 ==> pieces@.len() == 0,
                pieces_of(pieces@, total as int, done as int),
            decreases len - done,
        {
            let ghost before = pieces@;
            let ghost came = done;
            if in_file == NFS_FILE_SIZE {
                index = index + 1;
                in_file = 0;
            }
            let room: u64 = NFS_FILE_SIZE - in_file;
            let left: usize = len - done;
            let take: usize = if room < left as u64 {
                room as usize
            } else {
                left
            };
            pieces.push(Piece { file: index, start: done, end: done + take });
            in_file = in_file + take as u64;
            done = done + take;
            assert forall|i: int| 0 <= i < pieces@.len() implies #[trigger] piece_stands(
                pieces@,
                total as int,
                done as int,
                i,
            ) by {
                if i < before.len() {
                    assert(piece_stands(before, total as int, came as int, i));
                    assert(pieces@[i] == before[i]);
                }
            }
        }
        *self = SplitWriter {
            index,
            written_in_current: in_file,
            total_written: total + len as u64,
        };
        pieces
    }

    /// Number of files so far.
    pub fn file_count(&self) -> (r: u32)
        ensures
            r == files_for(self@),
    {
        proof {
            use_type_invariant(self);
        }
        self.index + 1
    }

    /// Nothing more will be written; the result is the number of files.
    pub fn finish(self) -> (r: u32)
        ensures
            r == files_for(self@),
    {
        self.file_count()
    }

    /// Bytes written so far, over all files.
    pub fn total_written(&self) -> (r: u64)
        ensures
            r == self@,
    {
        self.total_written
    }
}

/// The name of file `index`.
pub fn file_name(index: u32) -> (r: String)
    ensures
        r@ == file_name_of(index),
{
    let mut r: String = String::from_str("hif_");
    push_decimal_padded(&mut r, index as u64, 6);
    r.append(".nfs");
    r
}

/// `files` with `bytes` at the end of file number `file`; the next number starts a new file.
pub open spec fn piece_put(files: Seq<Seq<u8>>, file: int, bytes: Seq<u8>) -> Seq<Seq<u8>> {
    if file < files.len() {
        files.update(file, files[file] + bytes)
    } else {
        files.push(bytes)
    }
}

/// `files` once the first `n` pieces of `data` have been put where they go.
pub open spec fn pieces_put(
    files: Seq<Seq<u8>>,
    data: Seq<u8>,
    pieces: Seq<Piece>,
    n: int,
) -> Seq<Seq<u8>>
    decreases n,
{
    if n <= 0 {
        files
    } else {
        let p = pieces[n - 1];
        piece_put(
            pieces_put(files, data, pieces, n - 1),
            p.file as int,
            data.subrange(p.start as int, p.end as int),
        )
    }
}

/// The first `n` writes joined.
pub open spec fn stream_of(writes: Seq<Seq<u8>>, n: int) -> Seq<u8>
    decreases n,
{
    if n <= 0 {
        Seq::empty()
    } else {
        stream_of(writes, n - 1) + writes[n - 1]
    }
}

/// The files after the first `n` writes, whose pieces are given: one empty file to begin with.
pub open spec fn files_of(
    writes: Seq<Seq<u8>>,
    pieces: Seq<Seq<Piece>>,
    n: int,
) -> Seq<Seq<u8>>
    decreases n,
{
    if n <= 0 {
        seq![Seq::empty()]
    } else {
        pieces_put(
            files_of(writes, pieces, n - 1),
            writes[n - 1],
            pieces[n - 1],
            pieces[n - 1].len() as int,
        )
    }
}

/// A stream cut into files of [`NFS_FILE_SIZE`] bytes, the last of them shorter; an empty stream
/// is one empty file.
pub open spec fn cut(stream: Seq<u8>) -> Seq<Seq<u8>> {
    Seq::new(
        files_for(stream.len() as int) as nat,
        |k: int|
            stream.subrange(
                k * 0xFA0_0000,
                if (k + 1) * 0xFA0_0000 < stream.len() {
                    (k + 1) * 0xFA0_0000
                } else {
                    stream.len() as int
                },
            ),
    )
}

/// One more piece: the files are those of the stream with its bytes.
proof fn lemma_piece_put(stream: Seq<u8>, bytes: Seq<u8>, file: int)
    requires
        bytes.len() > 0,
        file == stream.len() as int / 0xFA0_0000,
        file == (stream.len() + bytes.len() - 1) / 0xFA0_0000,
    ensures
        piece_put(cut(stream), file, bytes) == cut(stream + bytes),
{
    let before = cut(stream);
    let after = cut(stream + bytes);
    let got = piece_put(before, file, bytes);
    let all = stream + bytes;
    assert(after.len() == file + 1);
    if stream.len() == 0 {
        assert(got[0] =~= after[0]);
    } else if stream.len() as int % 0xFA0_0000 == 0 {
        assert(before.len() == file);
        assert(got[file] =~= after[file]);
    } else {
        assert(before.len() == file + 1);
        assert(got[file] =~= after[file]);
    }
    assert(got.len() == after.len());
    assert forall|k: int| 0 <= k < got.len() implies got[k] == after[k] by {
        if k < file {
            assert((k + 1) * 0xFA0_0000 <= stream.len());
            assert(got[k] == before[k]);
            assert(before[k] =~= after[k]);
        }
    }
    assert(got =~= after);
}

proof fn lemma_pieces_put(stream: Seq<u8>, data: Seq<u8>, pieces: Seq<Piece>, n: int)
    requires
        pieces_of(pieces, stream.len() as int, data.len() as int),
        0 <= n <= pieces.len(),
    ensures
        pieces_put(cut(stream), data, pieces, n) == cut(
            stream + data.subrange(
                0,
                if n == 0 {
                    0
                } else {
                    pieces[n - 1].end as int
                },
            ),
        ),
    decreases n,
{
    if n == 0 {
        assert(stream + data.subrange(0, 0) =~= stream);
    } else {
        lemma_pieces_put(stream, data, pieces, n - 1);
        let p = pieces[n - 1];
        let sofar = stream + data.subrange(0, p.start as int);
        let bytes = data.subrange(p.start as int, p.end as int);
        assert(piece_stands(pieces, stream.len() as int, data.len() as int, n - 1));
        lemma_piece_put(sofar, bytes, p.file as int);
        assert(sofar + bytes =~= stream + data.subrange(0, p.end as int));
    }
}

/// The files of a stream, joined, are the stream. There is at least one, and every one but the
/// last is full.
pub proof fn law_cut_files_join_up(stream: Seq<u8>)
    ensures
        cut(stream).len() == files_for(stream.len() as int),
        stream_of(cut(stream), cut(stream).len() as int) == stream,
        forall|k: int|
            0 <= k < cut(stream).len() - 1 ==> (#[trigger] cut(stream)[k]).len() == NFS_FILE_SIZE,
        cut(stream).last().len() <= NFS_FILE_SIZE,
        stream.len() > 0 ==> cut(stream).last().len() > 0,
{
    let files = cut(stream);
    lemma_joined_upto(stream, files.len() as int);
    assert(stream.subrange(0, stream.len() as int) =~= stream);
}

proof fn lemma_joined_upto(stream: Seq<u8>, n: int)
    requires
        0 <= n <= cut(stream).len(),
    ensures
        stream_of(cut(stream), n) == stream.subrange(
            0,
            if n * 0xFA0_0000 < stream.len() {
                n * 0xFA0_0000
            } else {
                stream.len() as int
            },
        ),
    decreases n,
{
    if n > 0 {
        lemma_joined_upto(stream, n - 1);
        assert((n - 1) * 0xFA0_0000 <= stream.len());
        assert(stream_of(cut(stream), n) =~= stream.subrange(
            0,
            if n * 0xFA0_0000 < stream.len() {
                n * 0xFA0_0000
            } else {
                stream.len() as int
            },
        ));
    }
}

/// However a stream is cut up into writes, the files that its pieces go to are the stream cut
/// into files: they depend on the bytes written alone, and joined they are those bytes.
pub proof fn law_files_are_the_stream(writes: Seq<Seq<u8>>, pieces: Seq<Seq<Piece>>)
    requires
        pieces.len() == writes.len(),
        forall|i: int|
            0 <= i < writes.len() ==> pieces_of(
                #[trigger] pieces[i],
                stream_of(writes, i).len() as int,
                writes[i].len() as int,
            ),
    ensures
        ({
            let n = writes.len() as int;
            let stream = stream_of(writes, n);
            let files = files_of(writes, pieces, n);
            &&& files == cut(stream)
            &&& files.len() == files_for(stream.len() as int)
            &&& stream_of(files, files.len() as int) == stream
            &&& forall|k: int|
                0 <= k < files.len() - 1 ==> (#[trigger] files[k]).len() == NFS_FILE_SIZE
        }),
{
    let n = writes.len() as int;
    lemma_files_upto(writes, pieces, n);
    law_cut_files_join_up(stream_of(writes, n));
}

proof fn lemma_files_upto(writes: Seq<Seq<u8>>, pieces: Seq<Seq<Piece>>, n: int)
    requires
        0 <= n <= writes.len(),
        pieces.len() == writes.len(),
        forall|i: int|
            0 <= i < writes.len() ==> pieces_of(
                #[trigger] pieces[i],
                stream_of(writes, i).len() as int,
                writes[i].len() as int,
            ),
    ensures
        files_of(writes, pieces, n) == cut(stream_of(writes, n)),
    decreases n,
{
    let stream = stream_of(writes, n);
    if n == 0 {
        assert(cut(stream)[0] =~= Seq::<u8>::empty());
        assert(files_of(writes, pieces, n) =~= cut(stream));
    } else {
        lemma_files_upto(writes, pieces, n - 1);
        let before = stream_of(writes, n - 1);
        let data = writes[n - 1];
        lemma_pieces_put(before, data, pieces[n - 1], pieces[n - 1].len() as int);
        assert(data.subrange(0, data.len() as int) =~= data);
        if data.len() == 0 {
            assert(before + data.subrange(0, 0) =~= before);
            assert(stream =~= before);
        }
    }
}

/// A stream takes as many files of 262144000 bytes as it fills, the last of them in part, and one
/// at least.
pub proof fn law_number_of_files(total: int)
    requires
        0 <= total,
    ensures
        NFS_FILE_SIZE == 262144000,
        files_for(0) == 1,
        files_for(total) * 262144000 >= total,
        total > 0 ==> (files_for(total) - 1) * 262144000 < total,
{
}

/// A file is named by its number in decimal between `hif_` and `.nfs`, of six digits at least;
/// no two files share a name.
pub proof fn law_file_is_named_by_its_number(index: u32)
    ensures
        ({
            let name = file_name_of(index);
            let n = name.len() as int;
            &&& n >= 14
            &&& name.subrange(0, 4) == seq!['h', 'i', 'f', '_']
            &&& name.subrange(n - 4, n) == seq!['.', 'n', 'f', 's']
            &&& number_of(name.subrange(4, n - 4), 10) == index
            &&& n > 14 ==> name[4] != '0'
        }),
{
    let digits = decimal_of(index as nat);
    let padded = zero_padded(digits, 6);
    let name = file_name_of(index);
    let n = name.len() as int;
    reveal_strlit("hif_");
    reveal_strlit(".nfs");
    law_decimal_reads_back(index as nat);
    law_padding_adds_zeros_in_front(digits, 6);
    assert(name.subrange(0, 4) =~= seq!['h', 'i', 'f', '_']);
    assert(name.subrange(n - 4, n) =~= seq!['.', 'n', 'f', 's']);
    assert(name.subrange(4, n - 4) =~= padded);
    let gap = padded.len() - digits.len();
    assert(padded.subrange(gap, padded.len() as int) == digits);
    lemma_zeros_in_front(padded, gap);
    if n > 14 {
        assert(gap == 0);
        assert(padded =~= digits);
        assert(name[4] == digits[0]);
        if digits[0] == '0' {
            assert(index == 0);
            assert(digits.len() == 1);
        }
    }
}

/// Files have names of their own.
pub proof fn law_files_have_names_of_their_own(a: u32, b: u32)
    requires
        a != b,
    ensures
        file_name_of(a) != file_name_of(b),
{
    law_file_is_named_by_its_number(a);
    law_file_is_named_by_its_number(b);
}

/// Zeros in front do not change a number.
proof fn lemma_zeros_in_front(digits: Seq<char>, gap: int)
    requires
        0 <= gap <= digits.len(),
        forall|i: int| 0 <= i < gap ==> #[trigger] digits[i] == '0',
    ensures
        number_of(digits, 10) == number_of(digits.subrange(gap, digits.len() as int), 10),
    decreases digits.len(),
{
    let rest = digits.subrange(gap, digits.len() as int);
    if digits.len() == 0 {
    } else if gap == digits.len() {
        assert(rest =~= Seq::<char>::empty());
        let less = digits.drop_last();
        lemma_zeros_in_front(less, gap - 1);
        assert(less.subrange(gap - 1, less.len() as int) =~= rest);
        assert(digits.last() == '0');
    } else {
        let less = digits.drop_last();
        lemma_zeros_in_front(less, gap);
        assert(rest.drop_last() =~= less.subrange(gap, less.len() as int));
        assert(rest.last() == digits.last());
    }
}

} // verus!

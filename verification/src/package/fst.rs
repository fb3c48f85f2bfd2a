//! The title's file system table, the data of content 0.
//!
//! It maps every file of the title to the content ("cluster") that stores it, with the file's
//! offset and size there. All numbers are big-endian:
//!
//! ```text
//! 0x00  "FST\0"
//! 0x04  u32 offset factor (file offsets are stored divided by it)
//! 0x08  u32 number of contents
//! 0x0C  20 zero bytes
//! 0x20  one descriptor per content, 0x20 bytes each:
//!         u32 offset in sectors, u32 size in sectors, u64 owner title id,
//!         u32 group id, u16 flags, 10 zero bytes
//!       then file and directory entries, 0x10 bytes each, the root first:
//!         u8 type (bit 0: directory), u24 name offset,
//!         u32 offset (file: byte offset / factor; directory: parent entry),
//!         u32 size   (file: bytes; directory: one past its last descendant),
//!         u16 flags, u16 content index
//!       then the names in entry order, each ended by a zero byte.
//! ```

use vstd::prelude::*;
use vstd::utf8::encode_utf8;

use crate::text::{lemma_lossy_round_trip, lemma_no_zero_bytes, lossy_text, text_from_bytes};
use crate::util::{
    append_bytes, append_zeros, be16, be16_at, be32, be32_at, be64, be64_at,
    law_numbers_are_stored_high_byte_first, lemma_be16, lemma_be16_bytes, lemma_be32,
    lemma_be32_bytes, lemma_be64, lemma_middle, push_be16, push_be32, push_be64, read_be16,
    read_be32, read_be64, zeros,
};

verus! {

/// Offset factor used for file offsets within contents.
pub const OFFSET_FACTOR: u32 = 0x20;

/// A content descriptor.
#[derive(Clone, Copy, Debug, PartialEq, Eq, Structural)]
pub struct FstContent {
    /// Where the content's data starts, in 0x8000 sectors, counted across contents.
    pub offset_sectors: u32,
    /// Size of the content's data, in 0x8000 sectors.
    pub size_sectors: u32,
    /// Owning title id, 0 for shared contents.
    pub owner_title_id: u64,
    /// Group id.
    pub group_id: u32,
    /// Flags: 0x0100 for non-hashed, 0x0200 for hashed contents.
    pub flags: u16,
}

/// What an entry is.
#[derive(Clone, Copy, Debug, PartialEq, Eq, Structural)]
pub enum FstNodeKind {
    /// A file.
    File {
        /// Byte offset within its content.
        offset: u64,
        /// Byte size.
        size: u64,
    },
    /// A directory.
    Dir {
        /// Index of the parent entry.
        parent_index: u32,
        /// One past the index of the last descendant.
        end_index: u32,
    },
}

/// A file or directory entry.
#[derive(Clone, Debug, PartialEq, Eq)]
pub struct FstNode {
    /// Entry name, empty for the root.
    pub name: String,
    /// File or directory payload.
    pub kind: FstNodeKind,
    /// Type bits beyond the directory bit; 0x02 marks the disc image files.
    pub type_flags: u8,
    /// Entry flags.
    pub flags: u16,
    /// Index of the content that stores this entry.
    pub cluster: u16,
}

/// A file system table.
#[derive(Clone, Debug)]
pub struct Fst {
    /// Offset factor, usually [`OFFSET_FACTOR`].
    pub offset_factor: u32,
    /// The content descriptors.
    pub contents: Vec<FstContent>,
    /// The entries, root first, depth first.
    pub nodes: Vec<FstNode>,
}

/// An entry, its name taken as text.
#[verifier::ext_equal]
pub struct NodeView {
    pub name: Seq<char>,
    pub kind: FstNodeKind,
    pub type_flags: u8,
    pub flags: u16,
    pub cluster: u16,
}

/// A file system table as a mathematical value.
#[verifier::ext_equal]
pub struct FstView {
    pub offset_factor: u32,
    pub contents: Seq<FstContent>,
    pub nodes: Seq<NodeView>,
}

impl View for FstNode {
    type V = NodeView;

    open spec fn view(&self) -> NodeView {
        NodeView {
            name: self.name@,
            kind: self.kind,
            type_flags: self.type_flags,
            flags: self.flags,
            cluster: self.cluster,
        }
    }
}

/// The views of a list of entries.
pub open spec fn node_views(nodes: Seq<FstNode>) -> Seq<NodeView> {
    Seq::new(nodes.len(), |i: int| nodes[i]@)
}

impl View for Fst {
    type V = FstView;

    open spec fn view(&self) -> FstView {
        FstView {
            offset_factor: self.offset_factor,
            contents: self.contents@,
            nodes: node_views(self.nodes@),
        }
    }
}

/// The low 32 bits of `n`.
pub open spec fn low32(n: int) -> u32 {
    (n % 0x1_0000_0000) as u32
}

/// The bytes of one content descriptor.
#[verifier::opaque]
pub open spec fn content_bytes(c: FstContent) -> Seq<u8> {
    be32(c.offset_sectors) + be32(c.size_sectors) + be64(c.owner_title_id) + be32(c.group_id)
        + be16(c.flags) + zeros(10)
}

/// The bytes of the first `n` content descriptors.
pub open spec fn contents_bytes(contents: Seq<FstContent>, n: int) -> Seq<u8>
    decreases n,
{
    if n <= 0 {
        Seq::empty()
    } else {
        contents_bytes(contents, n - 1) + content_bytes(contents[n - 1])
    }
}

/// The names of the first `n` entries, each ended by a zero byte.
pub open spec fn names_bytes(nodes: Seq<NodeView>, n: int) -> Seq<u8>
    decreases n,
{
    if n <= 0 {
        Seq::empty()
    } else {
        names_bytes(nodes, n - 1) + encode_utf8(nodes[n - 1].name) + seq![0u8]
    }
}

/// The two 32-bit fields of an entry.
pub open spec fn kind_fields(kind: FstNodeKind, factor: u32) -> (u32, u32) {
    match kind {
        FstNodeKind::File { offset, size } => (
            low32(offset as int / factor as int),
            low32(size as int),
        ),
        FstNodeKind::Dir { parent_index, end_index } => (parent_index, end_index),
    }
}

/// The type byte of an entry.
pub open spec fn type_byte(node: NodeView) -> u8 {
    if node.kind is Dir {
        0x01u8 | node.type_flags
    } else {
        0x00u8 | node.type_flags
    }
}

/// The bytes of one entry whose name starts `name_off` bytes into the name table.
#[verifier::opaque]
pub open spec fn entry_bytes(node: NodeView, factor: u32, name_off: int) -> Seq<u8> {
    let (offset, size) = kind_fields(node.kind, factor);
    seq![type_byte(node), (name_off / 0x1_0000 % 0x100) as u8] + be16(
        (name_off % 0x1_0000) as u16,
    ) + be32(offset) + be32(size) + be16(node.flags) + be16(node.cluster)
}

/// The bytes of the first `n` entries.
pub open spec fn entries_bytes(nodes: Seq<NodeView>, factor: u32, n: int) -> Seq<u8>
    decreases n,
{
    if n <= 0 {
        Seq::empty()
    } else {
        entries_bytes(nodes, factor, n - 1) + entry_bytes(
            nodes[n - 1],
            factor,
            names_bytes(nodes, n - 1).len() as int,
        )
    }
}

/// The magic at the front of the table.
pub open spec fn fst_magic() -> Seq<u8> {
    seq![0x46u8, 0x53u8, 0x54u8, 0x00u8]
}

/// The on-disk form of a table.
pub open spec fn fst_bytes(f: FstView) -> Seq<u8> {
    fst_magic() + be32(f.offset_factor) + be32(low32(f.contents.len() as int)) + zeros(20)
        + contents_bytes(f.contents, f.contents.len() as int) + entries_bytes(
        f.nodes,
        f.offset_factor,
        f.nodes.len() as int,
    ) + names_bytes(f.nodes, f.nodes.len() as int)
}

/// Where the entries start.
pub open spec fn entries_at(data: Seq<u8>) -> int {
    0x20 + be32_at(data, 8) * 0x20
}

/// How many entries there are: the root's size field.
pub open spec fn entry_count(data: Seq<u8>) -> int {
    be32_at(data, entries_at(data) + 8) as int
}

/// Where the names start.
pub open spec fn names_at(data: Seq<u8>) -> int {
    entries_at(data) + entry_count(data) * 0x10
}

/// The first position from `at` on that holds a zero byte, or the end of the data.
pub open spec fn zero_from(data: Seq<u8>, at: int) -> int
    decreases data.len() - at,
{
    if at >= data.len() {
        data.len() as int
    } else if data[at] == 0 {
        at
    } else {
        zero_from(data, at + 1)
    }
}

/// Where the name of entry `i` starts.
pub open spec fn name_start(data: Seq<u8>, i: int) -> int {
    let o = entries_at(data) + i * 0x10;
    names_at(data) + data[o + 1] * 0x1_0000 + be16_at(data, o + 2)
}

/// Whether every part that the table speaks of lies inside the data.
pub open spec fn fst_readable(data: Seq<u8>) -> bool {
    &&& data.len() >= 0x20
    &&& data.subrange(0, 4) == fst_magic()
    &&& data.len() >= entries_at(data) + 0x10
    &&& data.len() >= names_at(data)
    &&& forall|i: int| 0 <= i < entry_count(data) ==> #[trigger] name_start(data, i) <= data.len()
}

/// Content descriptor `i` of the data.
pub open spec fn parsed_content(data: Seq<u8>, i: int) -> FstContent {
    let o = 0x20 + i * 0x20;
    FstContent {
        offset_sectors: be32_at(data, o),
        size_sectors: be32_at(data, o + 4),
        owner_title_id: be64_at(data, o + 8),
        group_id: be32_at(data, o + 16),
        flags: be16_at(data, o + 20),
    }
}

/// Entry `i` of the data.
pub open spec fn parsed_node(data: Seq<u8>, i: int) -> NodeView {
    let o = entries_at(data) + i * 0x10;
    let start = name_start(data, i);
    NodeView {
        name: lossy_text(data.subrange(start, zero_from(data, start))),
        kind: if data[o] & 0x01 != 0 {
            FstNodeKind::Dir { parent_index: be32_at(data, o + 4), end_index: be32_at(data, o + 8) }
        } else {
            FstNodeKind::File {
                offset: (be32_at(data, o + 4) * be32_at(data, 4)) as u64,
                size: be32_at(data, o + 8) as u64,
            }
        },
        type_flags: data[o] & 0xFE,
        flags: be16_at(data, o + 12),
        cluster: be16_at(data, o + 14),
    }
}

/// The table that the data holds.
pub open spec fn parsed_fst(data: Seq<u8>) -> FstView {
    FstView {
        offset_factor: be32_at(data, 4),
        contents: Seq::new(be32_at(data, 8) as nat, |i: int| parsed_content(data, i)),
        nodes: Seq::new(entry_count(data) as nat, |i: int| parsed_node(data, i)),
    }
}

/// Append one content descriptor.
fn push_content(out: &mut Vec<u8>, c: FstContent)
    ensures
        final(out)@ == old(out)@ + content_bytes(c),
{
    push_be32(out, c.offset_sectors);
    push_be32(out, c.size_sectors);
    push_be64(out, c.owner_title_id);
    push_be32(out, c.group_id);
    push_be16(out, c.flags);
    append_zeros(out, 10);
    assert(out@ =~= old(out)@ + content_bytes(c)) by {
        reveal(content_bytes);
    }
}

/// Append one entry whose name starts `name_off` bytes into the name table.
fn push_entry(out: &mut Vec<u8>, node: &FstNode, factor: u32, name_off: u64)
    requires
        factor != 0,
    ensures
        final(out)@ == old(out)@ + entry_bytes(node@, factor, name_off as int),
{
    let (bit, offset, size): (u8, u32, u32) = match node.kind {
        FstNodeKind::File { offset, size } => (
            0x00,
            (offset / factor as u64 % 0x1_0000_0000) as u32,
            (size % 0x1_0000_0000) as u32,
        ),
        FstNodeKind::Dir { parent_index, end_index } => (0x01, parent_index, end_index),
    };
    out.push(bit | node.type_flags);
    out.push((name_off / 0x1_0000 % 0x100) as u8);
    push_be16(out, (name_off % 0x1_0000) as u16);
    push_be32(out, offset);
    push_be32(out, size);
    push_be16(out, node.flags);
    push_be16(out, node.cluster);
    assert(out@ =~= old(out)@ + entry_bytes(node@, factor, name_off as int)) by {
        reveal(entry_bytes);
    }
}

impl Fst {
    /// Write the table in its on-disk form.
    pub fn serialize(&self) -> (out: Vec<u8>)
        requires
            self.offset_factor != 0,
        ensures
            out@ == fst_bytes(self@),
    {
        let ghost f = self@;
        let mut out: Vec<u8> = Vec::new();
        out.push(0x46);
        out.push(0x53);
        out.push(0x54);
        out.push(0x00);
        assert(out@ =~= fst_magic());
        push_be32(&mut out, self.offset_factor);
        push_be32(&mut out, (self.contents.len() as u64 % 0x1_0000_0000) as u32);
        append_zeros(&mut out, 20);
        let ghost head = out@;
        let mut i: usize = 0;
        assert(head + contents_bytes(f.contents, 0) =~= head);
        while i < self.contents.len()
            invariant
                i <= self.contents@.len(),
                f == self@,
                out@ == head + contents_bytes(f.contents, i as int),
            decreases self.contents@.len() - i,
        {
            push_content(&mut out, self.contents[i]);
            i += 1;
            assert(out@ =~= head + contents_bytes(f.contents, i as int));
        }
        let ghost front = out@;
        let mut names: Vec<u8> = Vec::new();
        let mut k: usize = 0;
        assert(front + entries_bytes(f.nodes, f.offset_factor, 0) =~= front);
        while k < self.nodes.len()
            invariant
                k <= self.nodes@.len(),
                f == self@,
                self.offset_factor != 0,
                names@ == names_bytes(f.nodes, k as int),
                out@ == front + entries_bytes(f.nodes, f.offset_factor, k as int),
            decreases self.nodes@.len() - k,
        {
            let node: &FstNode = &self.nodes[k];
            assert(f.nodes[k as int] == node@);
            let name_off: u64 = names.len() as u64;
            push_entry(&mut out, node, self.offset_factor, name_off);
            append_bytes(&mut names, node.name.as_str().as_bytes());
            names.push(0);
            k += 1;
            assert(names@ =~= names_bytes(f.nodes, k as int));
            assert(out@ =~= front + entries_bytes(f.nodes, f.offset_factor, k as int));
        }
        append_bytes(&mut out, names.as_slice());
        assert(out@ =~= fst_bytes(f));
        out
    }

    /// Read a table back; what follows the name table is ignored. Data in which any count or
    /// offset points outside gives `None`.
    pub fn parse(data: &[u8]) -> (r: Option<Fst>)
        ensures
            r is Some <==> fst_readable(data@),
            r matches Some(fst) ==> fst@ == parsed_fst(data@),
    {
        assert(data.len() == data@.len());
        if data.len() < 0x20 {
            return None;
        }
        if data[0] != 0x46 || data[1] != 0x53 || data[2] != 0x54 || data[3] != 0x00 {
            assert(data@.subrange(0, 4) != fst_magic()) by {
                assert(data@.subrange(0, 4)[0] == data@[0]);
                assert(data@.subrange(0, 4)[1] == data@[1]);
                assert(data@.subrange(0, 4)[2] == data@[2]);
                assert(data@.subrange(0, 4)[3] == data@[3]);
            }
            return None;
        }
        assert(data@.subrange(0, 4) =~= fst_magic());
        let offset_factor: u32 = read_be32(data, 4);
        let content_count: usize = read_be32(data, 8) as usize;
        let entries_start: usize = match content_count.checked_mul(0x20) {
            None => return None,
            Some(bytes) => match bytes.checked_add(0x20) {
                None => return None,
                Some(start) => start,
            },
        };
        if data.len() < entries_start || data.len() - entries_start < 0x10 {
            return None;
        }
        assert(entries_start == entries_at(data@));
        let mut contents: Vec<FstContent> = Vec::with_capacity(content_count);
        let mut i: usize = 0;
        while i < content_count
            invariant
                i <= content_count,
                content_count == be32_at(data@, 8),
                0x20 + content_count * 0x20 <= data@.len(),
                contents@.len() == i,
                forall|j: int| 0 <= j < i ==> contents@[j] == #[trigger] parsed_content(data@, j),
            decreases content_count - i,
        {
            assert(data.len() == data@.len());
            let o: usize = 0x20 + i * 0x20;
            let content = FstContent {
                offset_sectors: read_be32(data, o),
                size_sectors: read_be32(data, o + 4),
                owner_title_id: read_be64(data, o + 8),
                group_id: read_be32(data, o + 16),
                flags: read_be16(data, o + 20),
            };
            assert(content == parsed_content(data@, i as int));
            contents.push(content);
            i += 1;
        }
        let root_size: usize = read_be32(data, entries_start + 8) as usize;
        let name_table: usize = match root_size.checked_mul(0x10) {
            None => return None,
            Some(bytes) => match bytes.checked_add(entries_start) {
                None => return None,
                Some(at) => at,
            },
        };
        if data.len() < name_table {
            return None;
        }
        let mut nodes: Vec<FstNode> = Vec::with_capacity(root_size);
        let mut k: usize = 0;
        while k < root_size
            invariant
                k <= root_size,
                entries_start == entries_at(data@),
                root_size == entry_count(data@),
                name_table == names_at(data@),
                name_table <= data@.len(),
                offset_factor == be32_at(data@, 4),
                nodes@.len() == k,
                forall|j: int| 0 <= j < k ==> #[trigger] name_start(data@, j) <= data@.len(),
                forall|j: int| 0 <= j < k ==> (#[trigger] nodes@[j])@ == parsed_node(data@, j),
            decreases root_size - k,
        {
            assert(data.len() == data@.len());
            let o: usize = entries_start + k * 0x10;
            let tag: u8 = data[o];
            let name_off: usize = data[o + 1] as usize * 0x1_0000 + read_be16(data, o + 2) as usize;
            let offset: u32 = read_be32(data, o + 4);
            let size: u32 = read_be32(data, o + 8);
            let flags: u16 = read_be16(data, o + 12);
            let cluster: u16 = read_be16(data, o + 14);
            assert(name_start(data@, k as int) == name_table + name_off);
            if data.len() - name_table < name_off {
                return None;
            }
            let name: String = name_at(data, name_table + name_off);
            let kind: FstNodeKind = if tag & 0x01 != 0 {
                FstNodeKind::Dir { parent_index: offset, end_index: size }
            } else {
                assert(offset * offset_factor <= 0xFFFF_FFFF * 0xFFFF_FFFF) by (nonlinear_arith)
                    requires
                        0 <= offset <= 0xFFFF_FFFF,
                        0 <= offset_factor <= 0xFFFF_FFFF,
                ;
                FstNodeKind::File {
                    offset: offset as u64 * offset_factor as u64,
                    size: size as u64,
                }
            };
            let node = FstNode { name, kind, type_flags: tag & 0xFE, flags, cluster };
            assert(node@ == parsed_node(data@, k as int));
            nodes.push(node);
            k += 1;
        }
        let fst = Fst { offset_factor, contents, nodes };
        assert(fst@.contents =~= parsed_fst(data@).contents);
        assert(fst@.nodes =~= parsed_fst(data@).nodes);
        Some(fst)
    }
}

/// The text from `start` up to the next zero byte or the end of the data.
fn name_at(data: &[u8], start: usize) -> (name: String)
    requires
        start <= data@.len(),
    ensures
        name@ == lossy_text(data@.subrange(start as int, zero_from(data@, start as int))),
{
    let mut end: usize = start;
    while end < data.len() && data[end] != 0
        invariant
            start <= end <= data@.len(),
            zero_from(data@, start as int) == zero_from(data@, end as int),
        decreases data@.len() - end,
    {
        end += 1;
    }
    text_from_bytes(vstd::slice::slice_subrange(data, start, end))
}

/// Whether a table fits its on-disk form: the counts, offsets and sizes fit their fields, the
/// root spans all entries, the names hold no NUL, and the type bits leave the directory bit.
pub open spec fn fst_storable(f: FstView) -> bool {
    &&& f.offset_factor != 0
    &&& f.contents.len() <= u32::MAX
    &&& 0 < f.nodes.len() <= u32::MAX
    &&& f.nodes[0].kind matches FstNodeKind::Dir { end_index, .. } && end_index == f.nodes.len()
    &&& forall|i: int|
        0 <= i < f.nodes.len() ==> (#[trigger] names_bytes(f.nodes, i)).len() < 0x100_0000
    &&& forall|i: int| 0 <= i < f.nodes.len() ==> #[trigger] node_storable(f.nodes[i], f.offset_factor)
}

/// Whether one entry fits its on-disk form.
pub open spec fn node_storable(node: NodeView, factor: u32) -> bool {
    &&& node.type_flags % 2 == 0
    &&& forall|i: int| 0 <= i < node.name.len() ==> node.name[i] != '\0'
    &&& node.kind matches FstNodeKind::File { offset, size } ==> {
        &&& offset as int % factor as int == 0
        &&& offset as int / factor as int <= u32::MAX
        &&& size <= u32::MAX
    }
}

proof fn lemma_contents_at(contents: Seq<FstContent>, n: int, i: int)
    requires
        0 <= n <= contents.len(),
    ensures
        contents_bytes(contents, n).len() == n * 0x20,
        0 <= i < n ==> contents_bytes(contents, n).subrange(i * 0x20, i * 0x20 + 0x20)
            == content_bytes(contents[i]),
    decreases n,
{
    if n > 0 {
        lemma_contents_at(contents, n - 1, i);
        assert(content_bytes(contents[n - 1]).len() == 0x20) by {
            reveal(content_bytes);
        }
        let all = contents_bytes(contents, n);
        let front = contents_bytes(contents, n - 1);
        if 0 <= i < n - 1 {
            assert(all.subrange(i * 0x20, i * 0x20 + 0x20) =~= front.subrange(
                i * 0x20,
                i * 0x20 + 0x20,
            ));
        } else if i == n - 1 {
            assert(all.subrange(i * 0x20, i * 0x20 + 0x20) =~= content_bytes(contents[i]));
        }
    }
}

/// The length of a table follows from the number of its contents and the names of its nodes.
pub proof fn lemma_fst_len(f: FstView)
    ensures
        fst_bytes(f).len() == 0x20 + f.contents.len() * 0x20 + f.nodes.len() * 0x10 + names_bytes(
            f.nodes,
            f.nodes.len() as int,
        ).len(),
{
    lemma_contents_at(f.contents, f.contents.len() as int, 0);
    lemma_entries_at(f.nodes, f.offset_factor, f.nodes.len() as int, 0);
}

proof fn lemma_entries_at(nodes: Seq<NodeView>, factor: u32, n: int, i: int)
    requires
        0 <= n <= nodes.len(),
    ensures
        entries_bytes(nodes, factor, n).len() == n * 0x10,
        0 <= i < n ==> entries_bytes(nodes, factor, n).subrange(i * 0x10, i * 0x10 + 0x10)
            == entry_bytes(nodes[i], factor, names_bytes(nodes, i).len() as int),
    decreases n,
{
    if n > 0 {
        lemma_entries_at(nodes, factor, n - 1, i);
        assert(entry_bytes(
            nodes[n - 1],
            factor,
            names_bytes(nodes, n - 1).len() as int,
        ).len() == 0x10) by {
            reveal(entry_bytes);
        }
        let all = entries_bytes(nodes, factor, n);
        let front = entries_bytes(nodes, factor, n - 1);
        if 0 <= i < n - 1 {
            assert(all.subrange(i * 0x10, i * 0x10 + 0x10) =~= front.subrange(
                i * 0x10,
                i * 0x10 + 0x10,
            ));
        } else if i == n - 1 {
            assert(all.subrange(i * 0x10, i * 0x10 + 0x10) =~= entry_bytes(
                nodes[i],
                factor,
                names_bytes(nodes, i).len() as int,
            ));
        }
    }
}

proof fn lemma_names_at(nodes: Seq<NodeView>, n: int, i: int)
    requires
        0 <= i < n <= nodes.len(),
    ensures
        ({
            let start = names_bytes(nodes, i).len() as int;
            let end = start + encode_utf8(nodes[i].name).len();
            &&& end < names_bytes(nodes, n).len()
            &&& names_bytes(nodes, n).subrange(start, end) == encode_utf8(nodes[i].name)
            &&& names_bytes(nodes, n)[end] == 0
        }),
    decreases n,
{
    let all = names_bytes(nodes, n);
    let front = names_bytes(nodes, n - 1);
    let start = names_bytes(nodes, i).len() as int;
    let end = start + encode_utf8(nodes[i].name).len();
    if i < n - 1 {
        lemma_names_at(nodes, n - 1, i);
        assert(all.subrange(start, end) =~= front.subrange(start, end));
        assert(all[end] == front[end]);
    } else {
        assert(all.subrange(start, end) =~= encode_utf8(nodes[i].name));
    }
}

proof fn lemma_zero_from(data: Seq<u8>, at: int, end: int)
    requires
        0 <= at <= end < data.len(),
        data[end] == 0,
        forall|j: int| at <= j < end ==> data[j] != 0,
    ensures
        zero_from(data, at) == end,
    decreases end - at,
{
    if at < end {
        lemma_zero_from(data, at + 1, end);
    }
}

proof fn lemma_content_fields(data: Seq<u8>, o: int, c: FstContent)
    requires
        0 <= o,
        o + 0x20 <= data.len(),
        data.subrange(o, o + 0x20) == content_bytes(c),
    ensures
        be32_at(data, o) == c.offset_sectors,
        be32_at(data, o + 4) == c.size_sectors,
        be64_at(data, o + 8) == c.owner_title_id,
        be32_at(data, o + 16) == c.group_id,
        be16_at(data, o + 20) == c.flags,
{
    reveal(content_bytes);
    let cut = data.subrange(o, o + 0x20);
    assert(data.subrange(o, o + 4) =~= cut.subrange(0, 4));
    assert(cut.subrange(0, 4) =~= be32(c.offset_sectors));
    lemma_be32(data, o, c.offset_sectors);
    assert(data.subrange(o + 4, o + 8) =~= cut.subrange(4, 8));
    assert(cut.subrange(4, 8) =~= be32(c.size_sectors));
    lemma_be32(data, o + 4, c.size_sectors);
    assert(data.subrange(o + 8, o + 16) =~= cut.subrange(8, 16));
    assert(cut.subrange(8, 16) =~= be64(c.owner_title_id));
    lemma_be64(data, o + 8, c.owner_title_id);
    assert(data.subrange(o + 16, o + 20) =~= cut.subrange(16, 20));
    assert(cut.subrange(16, 20) =~= be32(c.group_id));
    lemma_be32(data, o + 16, c.group_id);
    assert(data.subrange(o + 20, o + 22) =~= cut.subrange(20, 22));
    assert(cut.subrange(20, 22) =~= be16(c.flags));
    lemma_be16(data, o + 20, c.flags);
}

proof fn lemma_entry_fields(data: Seq<u8>, o: int, node: NodeView, factor: u32, name_off: int)
    requires
        0 <= o,
        o + 0x10 <= data.len(),
        0 <= name_off < 0x100_0000,
        data.subrange(o, o + 0x10) == entry_bytes(node, factor, name_off),
    ensures
        data[o] == type_byte(node),
        data[o + 1] * 0x1_0000 + be16_at(data, o + 2) == name_off,
        be32_at(data, o + 4) == kind_fields(node.kind, factor).0,
        be32_at(data, o + 8) == kind_fields(node.kind, factor).1,
        be16_at(data, o + 12) == node.flags,
        be16_at(data, o + 14) == node.cluster,
{
    reveal(entry_bytes);
    let cut = data.subrange(o, o + 0x10);
    let (offset, size) = kind_fields(node.kind, factor);
    assert(cut[0] == data[o] && cut[1] == data[o + 1]);
    assert(data.subrange(o + 2, o + 4) =~= cut.subrange(2, 4));
    assert(cut.subrange(2, 4) =~= be16((name_off % 0x1_0000) as u16));
    lemma_be16(data, o + 2, (name_off % 0x1_0000) as u16);
    assert(data.subrange(o + 4, o + 8) =~= cut.subrange(4, 8));
    assert(cut.subrange(4, 8) =~= be32(offset));
    lemma_be32(data, o + 4, offset);
    assert(data.subrange(o + 8, o + 12) =~= cut.subrange(8, 12));
    assert(cut.subrange(8, 12) =~= be32(size));
    lemma_be32(data, o + 8, size);
    assert(data.subrange(o + 12, o + 14) =~= cut.subrange(12, 14));
    assert(cut.subrange(12, 14) =~= be16(node.flags));
    lemma_be16(data, o + 12, node.flags);
    assert(data.subrange(o + 14, o + 16) =~= cut.subrange(14, 16));
    assert(cut.subrange(14, 16) =~= be16(node.cluster));
    lemma_be16(data, o + 14, node.cluster);
}

proof fn lemma_head_fields(factor: u32, count: u32, data: Seq<u8>)
    requires
        data.len() >= 0x20,
        data.subrange(0, 0x20) == fst_magic() + be32(factor) + be32(count) + zeros(20),
    ensures
        data.subrange(0, 4) == fst_magic(),
        be32_at(data, 4) == factor,
        be32_at(data, 8) == count,
{
    let cut = data.subrange(0, 0x20);
    assert(data.subrange(0, 4) =~= cut.subrange(0, 4));
    assert(cut.subrange(0, 4) =~= fst_magic());
    assert(data.subrange(4, 8) =~= cut.subrange(4, 8));
    assert(cut.subrange(4, 8) =~= be32(factor));
    lemma_be32(data, 4, factor);
    assert(data.subrange(8, 12) =~= cut.subrange(8, 12));
    assert(cut.subrange(8, 12) =~= be32(count));
    lemma_be32(data, 8, count);
}

/// Where the parts of a written table stand.
proof fn lemma_written_parts(f: FstView, padding: Seq<u8>)
    requires
        f.contents.len() <= u32::MAX,
    ensures
        ({
            let data = fst_bytes(f) + padding;
            let c = f.contents.len() as int;
            let n = f.nodes.len() as int;
            let estart = 0x20 + c * 0x20;
            let nstart = estart + n * 0x10;
            let ntab = names_bytes(f.nodes, n);
            &&& data.subrange(0, 4) == fst_magic()
            &&& be32_at(data, 4) == f.offset_factor
            &&& be32_at(data, 8) == c
            &&& nstart + ntab.len() <= data.len()
            &&& data.subrange(0x20, estart) == contents_bytes(f.contents, c)
            &&& data.subrange(estart, nstart) == entries_bytes(f.nodes, f.offset_factor, n)
            &&& data.subrange(nstart, nstart + ntab.len()) == ntab
        }),
{
    let n = f.nodes.len() as int;
    let c = f.contents.len() as int;
    let data = fst_bytes(f) + padding;
    let head = fst_magic() + be32(f.offset_factor) + be32(low32(c)) + zeros(20);
    let ctab = contents_bytes(f.contents, c);
    let etab = entries_bytes(f.nodes, f.offset_factor, n);
    let ntab = names_bytes(f.nodes, n);
    assert(head.len() == 0x20);
    lemma_contents_at(f.contents, c, 0);
    lemma_entries_at(f.nodes, f.offset_factor, n, 0);
    let nothing = Seq::<u8>::empty();
    assert(data =~= nothing + head + (ctab + etab + ntab + padding));
    lemma_middle(nothing, head, ctab + etab + ntab + padding);
    lemma_head_fields(f.offset_factor, low32(c), data);
    assert(data =~= head + ctab + (etab + ntab + padding));
    lemma_middle(head, ctab, etab + ntab + padding);
    assert(data =~= (head + ctab) + etab + (ntab + padding));
    lemma_middle(head + ctab, etab, ntab + padding);
    assert(data =~= (head + ctab + etab) + ntab + padding);
    lemma_middle(head + ctab + etab, ntab, padding);
}

/// A written table states its number of entries.
proof fn lemma_written_count(f: FstView, data: Seq<u8>)
    requires
        fst_storable(f),
        be32_at(data, 8) == f.contents.len(),
        0x20 + f.contents.len() * 0x20 + f.nodes.len() * 0x10 <= data.len(),
        data.subrange(
            (0x20 + f.contents.len() * 0x20) as int,
            (0x20 + f.contents.len() * 0x20 + f.nodes.len() * 0x10) as int,
        ) == entries_bytes(f.nodes, f.offset_factor, f.nodes.len() as int),
    ensures
        entry_count(data) == f.nodes.len(),
{
    let n = f.nodes.len() as int;
    let estart = (0x20 + f.contents.len() * 0x20) as int;
    let etab = data.subrange(estart, estart + n * 0x10);
    lemma_entries_at(f.nodes, f.offset_factor, n, 0);
    assert(data.subrange(estart, estart + 0x10) =~= etab.subrange(0, 0x10));
    assert(names_bytes(f.nodes, 0).len() == 0);
    lemma_entry_fields(data, estart, f.nodes[0], f.offset_factor, 0);
}

/// The content descriptors of a written table read back as they were.
proof fn lemma_content_round_trip(f: FstView, data: Seq<u8>, i: int)
    requires
        0 <= i < f.contents.len(),
        0x20 + f.contents.len() * 0x20 <= data.len(),
        data.subrange(0x20, (0x20 + f.contents.len() * 0x20) as int) == contents_bytes(
            f.contents,
            f.contents.len() as int,
        ),
    ensures
        parsed_content(data, i) == f.contents[i],
{
    let c = f.contents.len() as int;
    lemma_contents_at(f.contents, c, i);
    let o = 0x20 + i * 0x20;
    let ctab = data.subrange(0x20, 0x20 + c * 0x20);
    assert(data.subrange(o, o + 0x20) =~= ctab.subrange(i * 0x20, i * 0x20 + 0x20));
    lemma_content_fields(data, o, f.contents[i]);
}

/// The content descriptors of a table are read back as they were written, whatever its entries are
/// and whatever follows it.
pub proof fn law_descriptors_read_back(f: FstView, padding: Seq<u8>)
    requires
        f.contents.len() <= u32::MAX,
    ensures
        parsed_fst(fst_bytes(f) + padding).offset_factor == f.offset_factor,
        parsed_fst(fst_bytes(f) + padding).contents == f.contents,
{
    let data = fst_bytes(f) + padding;
    let got = parsed_fst(data);
    lemma_written_parts(f, padding);
    assert forall|i: int| 0 <= i < f.contents.len() implies got.contents[i] == f.contents[i] by {
        lemma_content_round_trip(f, data, i);
    }
    assert(got.contents =~= f.contents);
}

/// Reading a table back gives the table that was written, whatever padding follows it.
pub proof fn law_fst_round_trip(f: FstView, padding: Seq<u8>)
    requires
        fst_storable(f),
    ensures
        fst_readable(fst_bytes(f) + padding),
        parsed_fst(fst_bytes(f) + padding) == f,
{
    let n = f.nodes.len() as int;
    let c = f.contents.len() as int;
    let data = fst_bytes(f) + padding;
    lemma_written_parts(f, padding);
    lemma_written_count(f, data);
    let nstart = 0x20 + c * 0x20 + n * 0x10;
    assert(names_at(data) == nstart);
    let got = parsed_fst(data);
    assert forall|i: int| 0 <= i < c implies got.contents[i] == f.contents[i] by {
        lemma_content_round_trip(f, data, i);
    }
    assert(got.contents =~= f.contents);
    assert forall|i: int| 0 <= i < n implies (#[trigger] name_start(data, i)) <= data.len()
        && parsed_node(data, i) == f.nodes[i] by {
        lemma_node_round_trip(f, data, nstart, i);
    }
    assert(got.nodes =~= f.nodes);
}

/// The name of an entry reads back as it was.
proof fn lemma_name_round_trip(nodes: Seq<NodeView>, data: Seq<u8>, nstart: int, i: int)
    requires
        0 <= i < nodes.len(),
        0 <= nstart,
        nstart + names_bytes(nodes, nodes.len() as int).len() <= data.len(),
        data.subrange(nstart, nstart + names_bytes(nodes, nodes.len() as int).len())
            == names_bytes(nodes, nodes.len() as int),
        forall|j: int| 0 <= j < nodes[i].name.len() ==> nodes[i].name[j] != '\0',
    ensures
        ({
            let start = nstart + names_bytes(nodes, i).len();
            &&& start <= data.len()
            &&& lossy_text(data.subrange(start, zero_from(data, start))) == nodes[i].name
        }),
{
    let n = nodes.len() as int;
    let ntab = names_bytes(nodes, n);
    let name_off = names_bytes(nodes, i).len() as int;
    lemma_names_at(nodes, n, i);
    let text = encode_utf8(nodes[i].name);
    let start = nstart + name_off;
    let end = start + text.len();
    let cut = data.subrange(nstart, nstart + ntab.len());
    assert(data.subrange(start, end) =~= cut.subrange(name_off, name_off + text.len()));
    assert(data[end] == cut[name_off + text.len()]);
    lemma_no_zero_bytes(nodes[i].name);
    assert forall|j: int| start <= j < end implies data[j] != 0 by {
        assert(data.subrange(start, end)[j - start] == data[j]);
    }
    lemma_zero_from(data, start, end);
    lemma_lossy_round_trip(nodes[i].name);
}

/// The fields of an entry, taken apart again, are those it was built from.
proof fn lemma_kind_round_trip(node: NodeView, factor: u32)
    requires
        factor != 0,
        node_storable(node, factor),
    ensures
        ({
            let (offset, size) = kind_fields(node.kind, factor);
            let tag = type_byte(node);
            &&& tag & 0xFE == node.type_flags
            &&& node.kind == if tag & 0x01 != 0 {
                FstNodeKind::Dir { parent_index: offset, end_index: size }
            } else {
                FstNodeKind::File { offset: (offset * factor) as u64, size: size as u64 }
            }
        }),
{
    let tf = node.type_flags;
    assert(tf % 2 == 0 ==> (0x01u8 | tf) & 0x01 != 0 && (0x01u8 | tf) & 0xFE == tf && (0x00u8 | tf)
        & 0x01 == 0 && (0x00u8 | tf) & 0xFE == tf) by (bit_vector);
    if node.kind is File {
        let offset = node.kind->File_offset as int;
        vstd::arithmetic::div_mod::lemma_fundamental_div_mod(offset, factor as int);
        vstd::arithmetic::mul::lemma_mul_is_commutative(factor as int, offset / factor as int);
    }
}

/// One entry of a written table reads back as it was.
proof fn lemma_node_round_trip(f: FstView, data: Seq<u8>, nstart: int, i: int)
    requires
        fst_storable(f),
        0 <= i < f.nodes.len(),
        be32_at(data, 4) == f.offset_factor,
        entries_at(data) == 0x20 + f.contents.len() * 0x20,
        names_at(data) == nstart,
        entries_at(data) + f.nodes.len() * 0x10 == nstart,
        nstart + names_bytes(f.nodes, f.nodes.len() as int).len() <= data.len(),
        data.subrange(nstart, nstart + names_bytes(f.nodes, f.nodes.len() as int).len())
            == names_bytes(f.nodes, f.nodes.len() as int),
        data.subrange(entries_at(data), nstart) == entries_bytes(
            f.nodes,
            f.offset_factor,
            f.nodes.len() as int,
        ),
    ensures
        name_start(data, i) <= data.len(),
        parsed_node(data, i) == f.nodes[i],
{
    let n = f.nodes.len() as int;
    let node = f.nodes[i];
    let factor = f.offset_factor;
    let estart = entries_at(data);
    let o = estart + i * 0x10;
    let name_off = names_bytes(f.nodes, i).len() as int;
    assert(node_storable(node, factor));
    assert(data.subrange(o, o + 0x10) == entry_bytes(node, factor, name_off)) by {
        lemma_entries_at(f.nodes, factor, n, i);
        assert(data.subrange(o, o + 0x10) =~= data.subrange(estart, nstart).subrange(
            i * 0x10,
            i * 0x10 + 0x10,
        ));
    }
    lemma_entry_fields(data, o, node, factor, name_off);
    lemma_name_round_trip(f.nodes, data, nstart, i);
    lemma_kind_round_trip(node, factor);
    assert(name_start(data, i) == nstart + name_off);
}

/// A content descriptor takes 0x20 bytes: where it starts and how long it is in sectors, its
/// owner, its group and its flags, each with the high byte first, and ten zeros.
pub proof fn law_descriptor_layout(c: FstContent)
    ensures
        ({
            let b = content_bytes(c);
            &&& b.len() == 0x20
            &&& b[0] * 0x100_0000 + b[1] * 0x1_0000 + b[2] * 0x100 + b[3] == c.offset_sectors
            &&& b[4] * 0x100_0000 + b[5] * 0x1_0000 + b[6] * 0x100 + b[7] == c.size_sectors
            &&& b[8] * 0x100_0000_0000_0000 + b[9] * 0x1_0000_0000_0000 + b[10] * 0x100_0000_0000
                + b[11] * 0x1_0000_0000 + b[12] * 0x100_0000 + b[13] * 0x1_0000 + b[14] * 0x100
                + b[15] == c.owner_title_id
            &&& b[16] * 0x100_0000 + b[17] * 0x1_0000 + b[18] * 0x100 + b[19] == c.group_id
            &&& b[20] * 0x100 + b[21] == c.flags
            &&& forall|z: int| 22 <= z < 32 ==> #[trigger] b[z] == 0
        }),
{
    reveal(content_bytes);
    let b = content_bytes(c);
    law_numbers_are_stored_high_byte_first(c.flags, c.offset_sectors, c.owner_title_id);
    lemma_be32_bytes(c.size_sectors);
    lemma_be32_bytes(c.group_id);
    let (o, s, t, g) = (
        be32(c.offset_sectors),
        be32(c.size_sectors),
        be64(c.owner_title_id),
        be32(c.group_id),
    );
    assert(b[0] == o[0] && b[1] == o[1] && b[2] == o[2] && b[3] == o[3]);
    assert(b[4] == s[0] && b[5] == s[1] && b[6] == s[2] && b[7] == s[3]);
    assert(b[8] == t[0] && b[9] == t[1] && b[10] == t[2] && b[11] == t[3] && b[12] == t[4] && b[13]
        == t[5] && b[14] == t[6] && b[15] == t[7]);
    assert(b[16] == g[0] && b[17] == g[1] && b[18] == g[2] && b[19] == g[3]);
    assert(b[20] == be16(c.flags)[0] && b[21] == be16(c.flags)[1]);
}

/// An entry takes 0x10 bytes: its type, whose lowest bit tells a directory, the place of its name,
/// and then for a file its place in units of the factor and its size, for a directory its parent
/// and its end; its flags and its content.
pub proof fn law_entry_layout(node: NodeView, factor: u32, name_off: int)
    requires
        factor > 0,
        0 <= name_off < 0x100_0000,
        node.type_flags % 2 == 0,
        node.kind matches FstNodeKind::File { offset, size } ==> offset as int % factor as int == 0
            && offset as int / factor as int <= u32::MAX && size <= u32::MAX,
    ensures
        ({
            let b = entry_bytes(node, factor, name_off);
            let first = b[4] * 0x100_0000 + b[5] * 0x1_0000 + b[6] * 0x100 + b[7];
            let second = b[8] * 0x100_0000 + b[9] * 0x1_0000 + b[10] * 0x100 + b[11];
            &&& b.len() == 0x10
            &&& b[1] * 0x1_0000 + b[2] * 0x100 + b[3] == name_off
            &&& match node.kind {
                FstNodeKind::File { offset, size } => {
                    &&& b[0] == node.type_flags
                    &&& first * factor == offset
                    &&& second == size
                },
                FstNodeKind::Dir { parent_index, end_index } => {
                    &&& b[0] == node.type_flags + 1
                    &&& first == parent_index
                    &&& second == end_index
                },
            }
            &&& b[12] * 0x100 + b[13] == node.flags
            &&& b[14] * 0x100 + b[15] == node.cluster
        }),
{
    reveal(entry_bytes);
    let b = entry_bytes(node, factor, name_off);
    let (offset, size) = kind_fields(node.kind, factor);
    lemma_be16_bytes((name_off % 0x1_0000) as u16);
    lemma_be32_bytes(offset);
    lemma_be32_bytes(size);
    lemma_be16_bytes(node.flags);
    lemma_be16_bytes(node.cluster);
    let low = be16((name_off % 0x1_0000) as u16);
    assert(b[2] == low[0] && b[3] == low[1]);
    assert(b[4] == be32(offset)[0] && b[5] == be32(offset)[1] && b[6] == be32(offset)[2] && b[7]
        == be32(offset)[3]);
    assert(b[8] == be32(size)[0] && b[9] == be32(size)[1] && b[10] == be32(size)[2] && b[11]
        == be32(size)[3]);
    assert(b[12] == be16(node.flags)[0] && b[13] == be16(node.flags)[1]);
    assert(b[14] == be16(node.cluster)[0] && b[15] == be16(node.cluster)[1]);
    let t = node.type_flags;
    assert(t % 2 == 0 ==> 0x01u8 | t == t + 1) by (bit_vector);
    assert(0x00u8 | t == t) by (bit_vector);
    assert(b[0] == type_byte(node));
    if let FstNodeKind::File { offset: place, size: bytes } = node.kind {
        vstd::arithmetic::div_mod::lemma_fundamental_div_mod(place as int, factor as int);
        assert(offset == place as int / factor as int);
        assert(offset * factor == place) by (nonlinear_arith)
            requires
                place == factor * (place as int / factor as int) + place as int % factor as int,
                place as int % factor as int == 0,
                offset == place as int / factor as int,
        ;
    }
}

/// The name of an entry stands in the name table behind those of the entries before it, and a zero
/// byte ends it.
pub proof fn law_names_follow_one_another(nodes: Seq<NodeView>, n: int, i: int)
    requires
        0 <= i < n <= nodes.len(),
    ensures
        ({
            let all = names_bytes(nodes, n);
            let at = names_bytes(nodes, i).len() as int;
            let name = encode_utf8(nodes[i].name);
            &&& at + name.len() < all.len()
            &&& all.subrange(at, at + name.len()) == name
            &&& all[at + name.len()] == 0
            &&& names_bytes(nodes, i + 1).len() == at + name.len() + 1
        }),
    decreases n,
{
    let all = names_bytes(nodes, n);
    let at = names_bytes(nodes, i).len() as int;
    let name = encode_utf8(nodes[i].name);
    if i < n - 1 {
        law_names_follow_one_another(nodes, n - 1, i);
        let front = names_bytes(nodes, n - 1);
        assert(all.subrange(at, at + name.len()) =~= front.subrange(at, at + name.len()));
    } else {
        assert(all.subrange(at, at + name.len()) =~= name);
    }
}

/// A table starts with `FST` and a zero byte, its factor and the number of its contents, and 20
/// zeros.
pub proof fn law_table_header(f: FstView)
    requires
        f.contents.len() <= u32::MAX,
    ensures
        ({
            let b = fst_bytes(f);
            &&& b.len() >= 0x20
            &&& b[0] == 'F' as u8 && b[1] == 'S' as u8 && b[2] == 'T' as u8 && b[3] == 0
            &&& b[4] * 0x100_0000 + b[5] * 0x1_0000 + b[6] * 0x100 + b[7] == f.offset_factor
            &&& b[8] * 0x100_0000 + b[9] * 0x1_0000 + b[10] * 0x100 + b[11] == f.contents.len()
            &&& forall|z: int| 12 <= z < 32 ==> #[trigger] b[z] == 0
        }),
{
    let b = fst_bytes(f);
    let count = low32(f.contents.len() as int);
    lemma_be32_bytes(f.offset_factor);
    lemma_be32_bytes(count);
    let head = fst_magic() + be32(f.offset_factor) + be32(count) + zeros(20);
    let tail = contents_bytes(f.contents, f.contents.len() as int) + entries_bytes(
        f.nodes,
        f.offset_factor,
        f.nodes.len() as int,
    ) + names_bytes(f.nodes, f.nodes.len() as int);
    assert(head.len() == 0x20);
    assert(b =~= head + tail);
    assert(forall|i: int| 0 <= i < 0x20 ==> b[i] == head[i]);
    assert(b[4] == be32(f.offset_factor)[0] && b[5] == be32(f.offset_factor)[1] && b[6] == be32(
        f.offset_factor,
    )[2] && b[7] == be32(f.offset_factor)[3]);
    assert(b[8] == be32(count)[0] && b[9] == be32(count)[1] && b[10] == be32(count)[2] && b[11]
        == be32(count)[3]);
}

/// The parts of a table stand one behind another: a header of 0x20 bytes, the descriptors with
/// 0x20 each, the entries with 0x10 each, then the names. The entry of a file or a directory
/// states where its name starts among the names.
pub proof fn law_parts_of_the_table_follow_one_another(f: FstView, i: int)
    requires
        f.contents.len() <= u32::MAX,
    ensures
        ({
            let b = fst_bytes(f);
            let c = f.contents.len() as int;
            let n = f.nodes.len() as int;
            let entries = 0x20 + c * 0x20;
            let names = entries + n * 0x10;
            &&& 0 <= i < c ==> b.subrange(0x20 + i * 0x20, 0x40 + i * 0x20) == content_bytes(
                f.contents[i],
            )
            &&& 0 <= i < n ==> b.subrange(entries + i * 0x10, entries + i * 0x10 + 0x10)
                == entry_bytes(
                f.nodes[i],
                f.offset_factor,
                names_bytes(f.nodes, i).len() as int,
            )
            &&& b.subrange(names, b.len() as int) == names_bytes(f.nodes, n)
        }),
{
    let b = fst_bytes(f);
    let c = f.contents.len() as int;
    let n = f.nodes.len() as int;
    let entries = 0x20 + c * 0x20;
    let names = entries + n * 0x10;
    lemma_written_parts(f, Seq::empty());
    assert(b + Seq::<u8>::empty() =~= b);
    lemma_fst_len(f);
    lemma_contents_at(f.contents, c, i);
    lemma_entries_at(f.nodes, f.offset_factor, n, i);
    if 0 <= i < c {
        assert(b.subrange(0x20 + i * 0x20, 0x40 + i * 0x20) =~= b.subrange(0x20, entries).subrange(
            i * 0x20,
            i * 0x20 + 0x20,
        ));
    }
    if 0 <= i < n {
        assert(b.subrange(entries + i * 0x10, entries + i * 0x10 + 0x10) =~= b.subrange(
            entries,
            names,
        ).subrange(i * 0x10, i * 0x10 + 0x10));
    }
}

proof fn lemma_zero_found(data: Seq<u8>, at: int)
    requires
        0 <= at <= data.len(),
    ensures
        at <= zero_from(data, at) <= data.len(),
        zero_from(data, at) < data.len() ==> data[zero_from(data, at)] == 0,
        forall|j: int| at <= j < zero_from(data, at) ==> #[trigger] data[j] != 0,
    decreases data.len() - at,
{
    if at < data.len() && data[at] != 0 {
        lemma_zero_found(data, at + 1);
    }
}

/// Whatever table is read: behind the descriptors, whose number the header states, stand the
/// entries; the root's states how many there are. An odd type byte marks a directory, with its
/// parent and its end; a file has its offset in units and its size. Flags and content follow. The
/// name stands where the entry says, up to the next zero byte.
pub proof fn law_entries_are_read_from_their_places(data: Seq<u8>, i: int, end: int)
    requires
        fst_readable(data),
        0 <= i < parsed_fst(data).nodes.len(),
        ({
            let names = 0x20 + be32_at(data, 8) * 0x20 + parsed_fst(data).nodes.len() * 0x10;
            let at = 0x20 + be32_at(data, 8) * 0x20 + i * 0x10;
            let start = names + data[at + 1] * 0x1_0000 + data[at + 2] * 0x100 + data[at + 3];
            &&& start <= end <= data.len()
            &&& end < data.len() ==> data[end] == 0
            &&& forall|j: int| start <= j < end ==> #[trigger] data[j] != 0
        }),
    ensures
        ({
            let first = 0x20 + be32_at(data, 8) * 0x20;
            let names = first + parsed_fst(data).nodes.len() * 0x10;
            let at = first + i * 0x10;
            let start = names + data[at + 1] * 0x1_0000 + data[at + 2] * 0x100 + data[at + 3];
            let node = parsed_fst(data).nodes[i];
            &&& parsed_fst(data).nodes.len() == be32_at(data, first + 8)
            &&& parsed_fst(data).contents.len() == be32_at(data, 8)
            &&& node.kind == (if data[at] % 2 == 1 {
                FstNodeKind::Dir {
                    parent_index: be32_at(data, at + 4),
                    end_index: be32_at(data, at + 8),
                }
            } else {
                FstNodeKind::File {
                    offset: (be32_at(data, at + 4) * be32_at(data, 4)) as u64,
                    size: be32_at(data, at + 8) as u64,
                }
            })
            &&& node.type_flags == data[at] - data[at] % 2
            &&& node.flags == data[at + 12] * 0x100 + data[at + 13]
            &&& node.cluster == data[at + 14] * 0x100 + data[at + 15]
            &&& node.name == lossy_text(data.subrange(start, end))
        }),
{
    let first = 0x20 + be32_at(data, 8) * 0x20;
    let at = first + i * 0x10;
    let t: u8 = data[at];
    assert(t & 0x01 != 0 <==> t % 2 == 1) by (bit_vector);
    assert(t & 0xFE == t - t % 2) by (bit_vector);
    let start = name_start(data, i);
    lemma_zero_found(data, start);
    let found = zero_from(data, start);
    if found < end {
        assert(data[found] == 0);
    }
    if end < found {
        assert(data[end] != 0);
    }
}

} // verus!

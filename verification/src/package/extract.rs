//! Decrypting a title's contents and finding its files: the way back from a package.
//!
//! The file system table is content 0. Every content is checked against the hash that its TMD
//! record states, the only integrity check that a download gets.

use vstd::prelude::*;

use crate::aes_cbc::{cbc_decrypted, Key};
use crate::base::{escapes, safe_to_join};
use crate::digest::sha1_of;
use crate::error::{DiscFault, Error, Result};
use crate::io::after;
use crate::package::content::TYPE_HASHED;
use crate::package::content_crypto::{
    content_iv_of, decode_hashed, decode_nonhashed, h3_file, hashed_tmd_hash,
    law_content_iv_spells_the_index, nonhashed_tmd_hash, raw_blocks, recovered_data,
};
use crate::package::fst::{
    fst_readable, parsed_fst, parsed_node, Fst, FstNode, FstNodeKind, NodeView,
};
use crate::package::staging::{hif_name, is_hif, law_names_tell_disc_images_and_programs};
use crate::package::tmd::ContentRecord;
use crate::util::{bytes_equal, copy_range};

verus! {

/// Reads the encrypted contents of a title.
pub trait ContentReader {
    /// The contents that can be read, by id.
    open spec fn contents(&self) -> Map<u32, Seq<u8>> {
        arbitrary()
    }

    /// The ids that were asked for so far, in order.
    open spec fn asked(&self) -> Seq<u32> {
        arbitrary()
    }

    /// The encrypted bytes of content `id`.
    fn read(&mut self, id: u32) -> (r: Result<Vec<u8>>)
        ensures
            final(self).contents() == old(self).contents(),
            final(self).asked() == old(self).asked().push(id),
            match r {
                Ok(data) => old(self).contents().contains_key(id) && data@
                    == old(self).contents()[id],
                Err(_) => !old(self).contents().contains_key(id),
            },
    ;
}

/// The contents that the first `n` entries of a list hold; later ones win.
pub open spec fn listed_contents(list: Seq<(u32, Vec<u8>)>, n: int) -> Map<u32, Seq<u8>>
    decreases n,
{
    if n <= 0 {
        Map::empty()
    } else {
        listed_contents(list, n - 1).insert(list[n - 1].0, list[n - 1].1@)
    }
}

/// Contents held in memory.
pub struct MemoryContents {
    /// Ids and encrypted bytes.
    pub list: Vec<(u32, Vec<u8>)>,
    /// The ids that were asked for.
    pub asked: Vec<u32>,
}

impl ContentReader for MemoryContents {
    open spec fn contents(&self) -> Map<u32, Seq<u8>> {
        listed_contents(self.list@, self.list@.len() as int)
    }

    open spec fn asked(&self) -> Seq<u32> {
        self.asked@
    }

    fn read(&mut self, id: u32) -> (r: Result<Vec<u8>>) {
        self.asked.push(id);
        let mut i: usize = self.list.len();
        while i > 0
            invariant
                self.list == old(self).list,
                self.asked@ == old(self).asked@.push(id),
                i <= self.list@.len(),
                self.contents().contains_key(id) == listed_contents(
                    self.list@,
                    i as int,
                ).contains_key(id),
                self.contents()[id] == listed_contents(self.list@, i as int)[id],
            decreases i,
        {
            if self.list[i - 1].0 == id {
                let data: &Vec<u8> = &self.list[i - 1].1;
                let all: Vec<u8> = copy_range(data.as_slice(), 0, data.len());
                assert(all@ =~= data@);
                return Ok(all);
            }
            i -= 1;
        }
        Err(Error::Io(String::from_str("no such content")))
    }
}

/// The plaintext of a content's ciphertext.
pub open spec fn plain_of(rec: ContentRecord, key: Seq<u8>, cipher: Seq<u8>) -> Seq<u8> {
    if rec.content_type == TYPE_HASHED {
        recovered_data(key, rec.index, cipher, cipher.len() as int / 0x10000)
    } else if cipher.len() == 0 {
        Seq::empty()
    } else {
        cbc_decrypted(key, content_iv_of(rec.index), cipher)
    }
}

/// The hash that a record should state for its plaintext.
pub open spec fn hash_of(content_type: u16, plain: Seq<u8>) -> Seq<u8> {
    if content_type == TYPE_HASHED {
        sha1_of(h3_file(raw_blocks(plain)))
    } else {
        sha1_of(plain)
    }
}

/// Why a content is refused; `None` where it decodes.
pub open spec fn content_fault(rec: ContentRecord, key: Seq<u8>, cipher: Seq<u8>) -> Option<
    DiscFault,
> {
    if rec.content_type == TYPE_HASHED && cipher.len() % 0x10000 != 0 {
        Some(DiscFault::RaggedHashedContent(cipher.len() as usize))
    } else if rec.content_type != TYPE_HASHED && cipher.len() % 16 != 0 {
        Some(DiscFault::RaggedContent(cipher.len() as usize))
    } else if hash_of(rec.content_type, plain_of(rec, key, cipher)) != rec.hash@ {
        Some(DiscFault::ContentHash { id: rec.id, index: rec.index })
    } else {
        None
    }
}

/// Decrypt a content and check it against the hash that its record states: of a hashed content
/// the hash of the `.h3` over its data, of another the hash of its padded plaintext.
pub fn decode_content(rec: &ContentRecord, title_key: &Key, cipher: &[u8]) -> (r: Result<Vec<u8>>)
    ensures
        match r {
            Ok(data) => content_fault(*rec, title_key@, cipher@) is None && data@ == plain_of(
                *rec,
                title_key@,
                cipher@,
            ),
            Err(e) => content_fault(*rec, title_key@, cipher@) matches Some(fault) && e
                == Error::UnsupportedDisc(fault),
        },
{
    let data: Vec<u8>;
    let found: [u8; 20];
    if rec.content_type == TYPE_HASHED {
        data =
        match decode_hashed(title_key, rec.index, cipher) {
            Ok(data) => data,
            Err(e) => return Err(e),
        };
        found = hashed_tmd_hash(data.as_slice());
    } else {
        data =
        match decode_nonhashed(title_key, rec.index, cipher) {
            Ok(data) => data,
            Err(e) => return Err(e),
        };
        found = nonhashed_tmd_hash(data.as_slice());
    }
    assert(data@ =~= plain_of(*rec, title_key@, cipher@));
    if !bytes_equal(found.as_slice(), rec.hash.as_slice()) {
        return Err(
            Error::UnsupportedDisc(DiscFault::ContentHash { id: rec.id, index: rec.index }),
        );
    }
    Ok(data)
}

/// Whether node `i` is a directory.
pub open spec fn is_dir(nodes: Seq<NodeView>, i: int) -> bool {
    nodes[i].kind is Dir
}

/// Where directory `i` ends.
pub open spec fn dir_end(nodes: Seq<NodeView>, i: int) -> int {
    match nodes[i].kind {
        FstNodeKind::Dir { end_index, .. } => end_index as int,
        FstNodeKind::File { .. } => 0,
    }
}

/// The open directories without those at the top that end at or before node `i`.
pub open spec fn closed_before(nodes: Seq<NodeView>, stack: Seq<int>, i: int) -> Seq<int>
    decreases stack.len(),
{
    if stack.len() > 0 && dir_end(nodes, stack.last()) <= i % 0x1_0000_0000 {
        closed_before(nodes, stack.drop_last(), i)
    } else {
        stack
    }
}

/// The directories open after node `i`, outermost first.
pub open spec fn open_after(nodes: Seq<NodeView>, i: int) -> Seq<int>
    decreases i,
{
    if i < 0 {
        Seq::empty()
    } else {
        let before = if i == 0 {
            Seq::empty()
        } else {
            closed_before(nodes, open_after(nodes, i - 1), i)
        };
        if is_dir(nodes, i) {
            before.push(i)
        } else {
            before
        }
    }
}

/// The directories that node `i` lies in, outermost first.
pub open spec fn parents_of(nodes: Seq<NodeView>, i: int) -> Seq<int> {
    closed_before(nodes, open_after(nodes, i - 1), i)
}

/// A name below a directory; the root directory has no name of its own.
pub open spec fn below(dir: Seq<char>, name: Seq<char>) -> Seq<char> {
    if dir.len() == 0 {
        name
    } else {
        dir + "/"@ + name
    }
}

/// The path of node `i`: the names of the directories it lies in and its own.
pub open spec fn node_path(nodes: Seq<NodeView>, i: int) -> Seq<char>
    decreases i,
{
    let parents = parents_of(nodes, i);
    if i <= 0 {
        Seq::empty()
    } else if parents.len() > 0 && 0 <= parents.last() < i {
        below(node_path(nodes, parents.last()), nodes[i].name)
    } else {
        nodes[i].name
    }
}

proof fn lemma_closed_before(nodes: Seq<NodeView>, stack: Seq<int>, i: int, bound: int)
    requires
        forall|k: int| 0 <= k < stack.len() ==> 0 <= #[trigger] stack[k] < bound,
    ensures
        forall|k: int|
            0 <= k < closed_before(nodes, stack, i).len() ==> 0 <= #[trigger] closed_before(
                nodes,
                stack,
                i,
            )[k] < bound,
    decreases stack.len(),
{
    if stack.len() > 0 && dir_end(nodes, stack.last()) <= i % 0x1_0000_0000 {
        let rest = stack.drop_last();
        assert forall|k: int| 0 <= k < rest.len() implies 0 <= #[trigger] rest[k] < bound by {
            assert(rest[k] == stack[k]);
        }
        lemma_closed_before(nodes, rest, i, bound);
        assert(closed_before(nodes, stack, i) == closed_before(nodes, rest, i));
    } else {
        assert(closed_before(nodes, stack, i) == stack);
    }
}

/// A node lies in directories that stand before it.
proof fn lemma_open_after(nodes: Seq<NodeView>, i: int)
    ensures
        forall|k: int|
            0 <= k < open_after(nodes, i).len() ==> 0 <= #[trigger] open_after(nodes, i)[k] <= i,
    decreases i,
{
    if i >= 0 {
        if i > 0 {
            lemma_open_after(nodes, i - 1);
            lemma_closed_before(nodes, open_after(nodes, i - 1), i, i);
        }
    }
}

/// The paths of all nodes.
pub open spec fn all_paths(nodes: Seq<NodeView>) -> Seq<Seq<char>> {
    Seq::new(nodes.len(), |i: int| node_path(nodes, i))
}

/// The views of a list of texts.
pub open spec fn text_views(texts: Seq<String>) -> Seq<Seq<char>> {
    Seq::new(texts.len(), |i: int| texts[i]@)
}

/// The full path of every node; the root's is empty.
pub fn node_paths(fst: &Fst) -> (paths: Vec<String>)
    ensures
        text_views(paths@) == all_paths(fst@.nodes),
{
    let ghost nodes = fst@.nodes;
    let mut paths: Vec<String> = Vec::new();
    if fst.nodes.len() == 0 {
        assert(text_views(paths@) =~= all_paths(nodes));
        return paths;
    }
    assert(nodes[0] == fst.nodes@[0]@);
    paths.push(String::new());
    let mut stack: Vec<(u32, usize)> = Vec::new();
    let ghost mut marks: Seq<int> = Seq::empty();
    if let FstNodeKind::Dir { end_index, .. } = fst.nodes[0].kind {
        stack.push((end_index, 0));
        proof {
            marks = marks.push(0);
        }
    }
    assert(marks =~= open_after(nodes, 0));
    let mut i: usize = 1;
    while i < fst.nodes.len()
        invariant
            1 <= i <= fst.nodes@.len(),
            nodes == fst@.nodes,
            paths@.len() == i,
            forall|k: int| 0 <= k < i ==> (#[trigger] paths@[k])@ == node_path(nodes, k),
            stack@.len() == marks.len(),
            forall|k: int|
                0 <= k < marks.len() ==> (#[trigger] stack@[k]).1 == marks[k] && stack@[k].0
                    == dir_end(nodes, marks[k]) && marks[k] < i,
            marks == open_after(nodes, i - 1),
        decreases fst.nodes@.len() - i,
    {
        let node: &FstNode = &fst.nodes[i];
        assert(nodes[i as int] == node@);
        proof {
            lemma_open_after(nodes, i - 1);
            lemma_closed_before(nodes, marks, i as int, i as int);
        }
        let low: u32 = (i as u64 % 0x1_0000_0000) as u32;
        while stack.len() > 0 && low >= stack[stack.len() - 1].0
            invariant
                low == i as int % 0x1_0000_0000,
                stack@.len() == marks.len(),
                forall|k: int|
                    0 <= k < marks.len() ==> (#[trigger] stack@[k]).1 == marks[k] && stack@[k].0
                        == dir_end(nodes, marks[k]) && marks[k] < i,
                closed_before(nodes, marks, i as int) == parents_of(nodes, i as int),
            ensures
                stack@.len() == marks.len(),
                forall|k: int|
                    0 <= k < marks.len() ==> (#[trigger] stack@[k]).1 == marks[k] && stack@[k].0
                        == dir_end(nodes, marks[k]) && marks[k] < i,
                marks == parents_of(nodes, i as int),
            decreases stack@.len(),
        {
            assert(stack@[stack@.len() - 1].0 == dir_end(nodes, marks.last()));
            let top = stack.pop();
            proof {
                marks = marks.drop_last();
            }
        }
        let mut path: String = String::new();
        if stack.len() > 0 {
            let parent: usize = stack[stack.len() - 1].1;
            assert(stack@[stack@.len() - 1].1 == marks.last());
            let dir: &String = &paths[parent];
            if dir.as_str().unicode_len() > 0 {
                path.append(dir.as_str());
                path.append("/");
            }
        }
        path.append(node.name.as_str());
        assert(path@ =~= node_path(nodes, i as int));
        paths.push(path);
        if let FstNodeKind::Dir { end_index, .. } = node.kind {
            stack.push((end_index, i));
            proof {
                marks = marks.push(i as int);
            }
        }
        i += 1;
        assert(marks =~= open_after(nodes, i - 1));
    }
    assert(text_views(paths@) =~= all_paths(nodes));
    paths
}

/// Says which files of a title are left out.
pub trait SkipRule {
    /// Whether a file of this name is left out.
    open spec fn leaves_out(&self, name: Seq<char>) -> bool {
        arbitrary()
    }

    /// Whether a file of this name is left out.
    fn skip_file(&self, name: &str) -> (r: bool)
        ensures
            r == self.leaves_out(name@),
    ;
}

/// The usual rules.
#[derive(Clone, Copy, Debug, PartialEq, Eq, Structural)]
pub enum SkipFiles {
    /// None.
    Nothing,
    /// The `hif_*.nfs` files, which an injected game replaces.
    GameImages,
}

impl SkipRule for SkipFiles {
    open spec fn leaves_out(&self, name: Seq<char>) -> bool {
        match *self {
            SkipFiles::Nothing => false,
            SkipFiles::GameImages => hif_name(name),
        }
    }

    fn skip_file(&self, name: &str) -> (r: bool) {
        match self {
            SkipFiles::Nothing => false,
            SkipFiles::GameImages => is_hif(name),
        }
    }
}

/// The names that a rule leaves out.
pub open spec fn left_out<S: SkipRule>(rule: &S) -> spec_fn(Seq<char>) -> bool {
    |name: Seq<char>| rule.leaves_out(name)
}

/// Something that a title holds, with its path.
#[derive(Debug)]
pub enum Extracted {
    /// A directory.
    Dir(String),
    /// A file.
    File {
        /// Its path.
        path: String,
        /// What it holds.
        data: Vec<u8>,
    },
}

/// Something that a title holds, as a mathematical value.
#[verifier::ext_equal]
pub enum ExtractedView {
    Dir(Seq<char>),
    File { path: Seq<char>, data: Seq<u8> },
}

impl View for Extracted {
    type V = ExtractedView;

    open spec fn view(&self) -> ExtractedView {
        match *self {
            Extracted::Dir(path) => ExtractedView::Dir(path@),
            Extracted::File { path, data } => ExtractedView::File { path: path@, data: data@ },
        }
    }
}

/// Takes what an extraction finds.
pub trait ExtractSink {
    /// What was taken whole so far, in order.
    open spec fn made(&self) -> Seq<ExtractedView> {
        arbitrary()
    }

    /// How many times taking something failed.
    open spec fn faults(&self) -> nat {
        arbitrary()
    }

    /// Take a directory or a file.
    fn put(&mut self, found: Extracted) -> (r: Result<()>)
        ensures
            final(self).faults() == after(old(self).faults(), r is Ok),
            final(self).made() == if r is Ok {
                old(self).made().push(found@)
            } else {
                old(self).made()
            },
    ;
}

/// Keeps what an extraction finds in memory.
pub struct MemoryTree {
    /// What was found, in the order of the table.
    pub made: Vec<Extracted>,
}

impl MemoryTree {
    /// A sink that holds nothing yet.
    pub fn new() -> (r: Self)
        ensures
            r.made() == Seq::<ExtractedView>::empty(),
    {
        let r = MemoryTree { made: Vec::new() };
        assert(r.made() =~= Seq::<ExtractedView>::empty());
        r
    }
}

impl ExtractSink for MemoryTree {
    open spec fn made(&self) -> Seq<ExtractedView> {
        found_views(self.made@)
    }

    open spec fn faults(&self) -> nat {
        0
    }

    fn put(&mut self, found: Extracted) -> (r: Result<()>) {
        let ghost before = self.made@;
        let ghost view = found@;
        self.made.push(found);
        assert(found_views(self.made@) =~= found_views(before).push(view));
        Ok(())
    }
}

/// A title as the extraction sees it.
pub struct TitleView {
    pub records: Seq<ContentRecord>,
    pub key: Seq<u8>,
    pub contents: Map<u32, Seq<u8>>,
    pub skip: spec_fn(Seq<char>) -> bool,
}

/// The last of the first `n` records with the given content index.
pub open spec fn record_upto(records: Seq<ContentRecord>, index: u16, n: int) -> Option<
    ContentRecord,
>
    decreases n,
{
    if n <= 0 {
        None
    } else if records[n - 1].index == index {
        Some(records[n - 1])
    } else {
        record_upto(records, index, n - 1)
    }
}

/// The record of a content index; of several the last.
pub open spec fn record_of(records: Seq<ContentRecord>, index: u16) -> Option<ContentRecord> {
    record_upto(records, index, records.len() as int)
}

/// Why an extraction stops.
pub enum Stop {
    /// A fault of the title.
    Fault(DiscFault),
    /// A content cannot be read.
    Unread(u32),
    /// A file reaches past its content.
    PastContent { path: Seq<char>, end: int, content_len: int },
    /// A path leaves the directory extracted to.
    Escaping(Seq<char>),
}

/// The plaintext of the content of the given index.
pub open spec fn content_at(t: TitleView, index: u16) -> core::result::Result<Seq<u8>, Stop> {
    match record_of(t.records, index) {
        None => Err(
            Stop::Fault(
                if index == 0 {
                    DiscFault::NoTable
                } else {
                    DiscFault::MissingContent(index)
                },
            ),
        ),
        Some(rec) => if !t.contents.contains_key(rec.id) {
            Err(Stop::Unread(rec.id))
        } else {
            match content_fault(rec, t.key, t.contents[rec.id]) {
                Some(fault) => Err(Stop::Fault(fault)),
                None => Ok(plain_of(rec, t.key, t.contents[rec.id])),
            }
        },
    }
}

/// What node `i` of a table gives: nothing, something found, or a reason to stop.
pub open spec fn node_gives(t: TitleView, nodes: Seq<NodeView>, i: int) -> core::result::Result<
    Option<ExtractedView>,
    Stop,
> {
    let path = node_path(nodes, i);
    match nodes[i].kind {
        FstNodeKind::Dir { .. } => if path.len() == 0 {
            Ok(None)
        } else if escapes(path) {
            Err(Stop::Escaping(path))
        } else {
            Ok(Some(ExtractedView::Dir(path)))
        },
        FstNodeKind::File { offset, size } => if (t.skip)(nodes[i].name) {
            Ok(None)
        } else {
            match content_at(t, nodes[i].cluster) {
                Err(stop) => Err(stop),
                Ok(data) => if offset + size > data.len() {
                    Err(
                        Stop::PastContent {
                            path,
                            end: offset + size,
                            content_len: data.len() as int,
                        },
                    )
                } else if escapes(path) {
                    Err(Stop::Escaping(path))
                } else {
                    Ok(
                        Some(
                            ExtractedView::File {
                                path,
                                data: data.subrange(offset as int, offset + size),
                            },
                        ),
                    )
                },
            }
        },
    }
}

/// What the first `n` nodes give.
pub open spec fn given(t: TitleView, nodes: Seq<NodeView>, n: int) -> Seq<ExtractedView>
    decreases n,
{
    if n <= 0 {
        Seq::empty()
    } else {
        match node_gives(t, nodes, n - 1) {
            Ok(Some(found)) => given(t, nodes, n - 1).push(found),
            _ => given(t, nodes, n - 1),
        }
    }
}

/// Whether the extraction gets past the first `n` nodes.
pub open spec fn passes(t: TitleView, nodes: Seq<NodeView>, n: int) -> bool {
    forall|i: int| 0 <= i < n ==> #[trigger] node_gives(t, nodes, i) is Ok
}

/// Whether an error reports a reason to stop. What is reported of a content that cannot be read
/// is up to its reader.
pub open spec fn reports(e: Error, stop: Stop) -> bool {
    match stop {
        Stop::Fault(fault) => e == Error::UnsupportedDisc(fault),
        Stop::Unread(_) => true,
        Stop::PastContent { path, end, content_len } => {
            &&& e matches Error::UnsupportedDisc(
                DiscFault::FilePastContent { path: p, end: at, content_len: len },
            )
            &&& p@ == path
            &&& at == end
            &&& len == content_len
        },
        Stop::Escaping(path) => e matches Error::UnsupportedDisc(DiscFault::EscapingPath(p)) && p@
            == path,
    }
}

/// The views of what was found.
pub open spec fn found_views(made: Seq<Extracted>) -> Seq<ExtractedView> {
    Seq::new(made.len(), |i: int| made[i]@)
}

/// The record of a content index; of several the last.
fn find_record(records: &[ContentRecord], index: u16) -> (r: Option<ContentRecord>)
    ensures
        r == record_of(records@, index),
{
    let mut i: usize = records.len();
    while i > 0
        invariant
            i <= records@.len(),
            record_of(records@, index) == record_upto(records@, index, i as int),
        decreases i,
    {
        if records[i - 1].index == index {
            return Some(records[i - 1]);
        }
        i -= 1;
    }
    None
}

/// The ids that are read for the content of the given index: that of its record, if it has one.
pub open spec fn read_for(t: TitleView, index: u16) -> Seq<u32> {
    match record_of(t.records, index) {
        Some(rec) => seq![rec.id],
        None => Seq::empty(),
    }
}

/// Whether node `i` is a file that is not left out.
pub open spec fn is_wanted(t: TitleView, nodes: Seq<NodeView>, i: int) -> bool {
    nodes[i].kind is File && !(t.skip)(nodes[i].name)
}

/// Whether one of the first `n` nodes is a wanted file of this content.
pub open spec fn loaded(t: TitleView, nodes: Seq<NodeView>, n: int, cluster: u16) -> bool {
    exists|j: int| 0 <= j < n && #[trigger] is_wanted(t, nodes, j) && nodes[j].cluster == cluster
}

/// The ids that are read for node `i`: that of its content, where it is the first wanted file in
/// it.
pub open spec fn node_read(t: TitleView, nodes: Seq<NodeView>, i: int) -> Seq<u32> {
    if is_wanted(t, nodes, i) && !loaded(t, nodes, i, nodes[i].cluster) {
        read_for(t, nodes[i].cluster)
    } else {
        Seq::empty()
    }
}

/// The ids that are read for the first `n` nodes: one for each content with a wanted file among
/// them, in the order of the first such file.
pub open spec fn read_upto(t: TitleView, nodes: Seq<NodeView>, n: int) -> Seq<u32>
    decreases n,
{
    if n <= 0 {
        Seq::empty()
    } else {
        read_upto(t, nodes, n - 1) + node_read(t, nodes, n - 1)
    }
}

/// How many nodes the extraction looks at, coming to node `i`: up to the first that stops it.
pub open spec fn visited(t: TitleView, nodes: Seq<NodeView>, i: int) -> int
    decreases nodes.len() - i,
{
    if i >= nodes.len() {
        nodes.len() as int
    } else if node_gives(t, nodes, i) is Err {
        i + 1
    } else {
        visited(t, nodes, i + 1)
    }
}

/// The ids that an extraction reads: the table's, then those that the files need.
pub open spec fn all_read(t: TitleView) -> Seq<u32> {
    read_for(t, 0) + match content_at(t, 0) {
        Ok(table) => if fst_readable(table) {
            let nodes = parsed_fst(table).nodes;
            read_upto(t, nodes, visited(t, nodes, 0))
        } else {
            Seq::empty()
        },
        Err(_) => Seq::empty(),
    }
}

/// Read, decrypt and check the content of the given index.
fn load_content<R: ContentReader>(
    records: &[ContentRecord],
    title_key: &Key,
    reader: &mut R,
    index: u16,
    Ghost(t): Ghost<TitleView>,
) -> (r: Result<Vec<u8>>)
    requires
        t.records == records@,
        t.key == title_key@,
        t.contents == old(reader).contents(),
    ensures
        final(reader).contents() == old(reader).contents(),
        final(reader).asked() == old(reader).asked() + read_for(t, index),
        match r {
            Ok(data) => content_at(t, index) matches Ok(plain) && data@ == plain,
            Err(e) => content_at(t, index) matches Err(stop) && reports(e, stop),
        },
{
    let rec: ContentRecord = match find_record(records, index) {
        Some(rec) => rec,
        None => {
            assert(reader.asked() + read_for(t, index) =~= reader.asked());
            return Err(
                Error::UnsupportedDisc(
                    if index == 0 {
                        DiscFault::NoTable
                    } else {
                        DiscFault::MissingContent(index)
                    },
                ),
            );
        },
    };
    let cipher_read: Result<Vec<u8>> = reader.read(rec.id);
    assert(reader.asked() =~= old(reader).asked() + read_for(t, index));
    let cipher: Vec<u8> = match cipher_read {
        Ok(cipher) => cipher,
        Err(e) => return Err(e),
    };
    decode_content(&rec, title_key, cipher.as_slice())
}

/// Where a decoded content stands in the cache.
fn find_cached(cache: &Vec<(u16, Vec<u8>)>, index: u16) -> (r: Option<usize>)
    ensures
        match r {
            Some(i) => i < cache@.len() && cache@[i as int].0 == index,
            None => forall|j: int| 0 <= j < cache@.len() ==> (#[trigger] cache@[j]).0 != index,
        },
{
    let mut i: usize = 0;
    while i < cache.len()
        invariant
            i <= cache@.len(),
            forall|j: int| 0 <= j < i ==> (#[trigger] cache@[j]).0 != index,
        decreases cache@.len() - i,
    {
        if cache[i].0 == index {
            return Some(i);
        }
        i += 1;
    }
    None
}

/// Whether every cached content is what its index decodes to.
pub open spec fn cache_holds(t: TitleView, cache: Seq<(u16, Vec<u8>)>) -> bool {
    forall|i: int|
        0 <= i < cache.len() ==> content_at(t, (#[trigger] cache[i]).0) == Ok::<Seq<u8>, Stop>(
            cache[i].1@,
        )
}

/// Whether the cache holds the contents of the wanted files among the first `n` nodes.
pub open spec fn cache_covers(
    t: TitleView,
    nodes: Seq<NodeView>,
    n: int,
    cache: Seq<(u16, Vec<u8>)>,
) -> bool {
    forall|cluster: u16| #[trigger]
        loaded(t, nodes, n, cluster) <==> exists|j: int|
            0 <= j < cache.len() && (#[trigger] cache[j]).0 == cluster
}

/// What one more node adds to the contents that are loaded.
proof fn lemma_loaded_step(t: TitleView, nodes: Seq<NodeView>, n: int, cluster: u16)
    requires
        0 <= n,
    ensures
        loaded(t, nodes, n + 1, cluster) <==> (loaded(t, nodes, n, cluster) || (is_wanted(
            t,
            nodes,
            n,
        ) && nodes[n].cluster == cluster)),
{
    if loaded(t, nodes, n + 1, cluster) {
        let j = choose|j: int|
            0 <= j < n + 1 && #[trigger] is_wanted(t, nodes, j) && nodes[j].cluster == cluster;
        if j < n {
            assert(loaded(t, nodes, n, cluster));
        }
    }
    if loaded(t, nodes, n, cluster) {
        let j = choose|j: int|
            0 <= j < n && #[trigger] is_wanted(t, nodes, j) && nodes[j].cluster == cluster;
        assert(is_wanted(t, nodes, j));
    }
}

/// A node that is no wanted file needs nothing in the cache.
proof fn lemma_cache_same(
    t: TitleView,
    nodes: Seq<NodeView>,
    i: int,
    cache: Seq<(u16, Vec<u8>)>,
)
    requires
        0 <= i,
        cache_covers(t, nodes, i, cache),
        !is_wanted(t, nodes, i),
    ensures
        cache_covers(t, nodes, i + 1, cache),
{
    assert forall|cluster: u16| #[trigger]
        loaded(t, nodes, i + 1, cluster) <==> exists|j: int|
            0 <= j < cache.len() && (#[trigger] cache[j]).0 == cluster by {
        lemma_loaded_step(t, nodes, i, cluster);
        assert(loaded(t, nodes, i, cluster) == loaded(t, nodes, i + 1, cluster));
    }
}

/// The cache covers one more node once it holds that node's content.
proof fn lemma_cache_step(
    t: TitleView,
    nodes: Seq<NodeView>,
    i: int,
    before: Seq<(u16, Vec<u8>)>,
    after: Seq<(u16, Vec<u8>)>,
    at: int,
)
    requires
        0 <= i,
        cache_covers(t, nodes, i, before),
        is_wanted(t, nodes, i),
        0 <= at < after.len(),
        after[at].0 == nodes[i].cluster,
        after == before || (at == before.len() && after == before.push(after[at])),
    ensures
        cache_covers(t, nodes, i + 1, after),
{
    assert forall|cluster: u16| #[trigger]
        loaded(t, nodes, i + 1, cluster) <==> exists|j: int|
            0 <= j < after.len() && (#[trigger] after[j]).0 == cluster by {
        lemma_loaded_step(t, nodes, i, cluster);
        if loaded(t, nodes, i + 1, cluster) {
            if loaded(t, nodes, i, cluster) {
                let j = choose|j: int| 0 <= j < before.len() && (#[trigger] before[j]).0 == cluster;
                assert(after[j].0 == cluster);
            } else {
                assert(after[at].0 == cluster);
            }
        }
        if exists|j: int| 0 <= j < after.len() && (#[trigger] after[j]).0 == cluster {
            let j = choose|j: int| 0 <= j < after.len() && (#[trigger] after[j]).0 == cluster;
            if j < before.len() {
                assert(before[j].0 == cluster);
                assert(loaded(t, nodes, i, cluster));
            }
        }
    }
}

/// What node `i` gives: see [`node_gives`]. Contents are read and decoded once.
fn extract_node<R: ContentReader, S: SkipRule>(
    records: &[ContentRecord],
    title_key: &Key,
    reader: &mut R,
    skip: &S,
    fst: &Fst,
    paths: &Vec<String>,
    i: usize,
    cache: &mut Vec<(u16, Vec<u8>)>,
    Ghost(t): Ghost<TitleView>,
) -> (r: Result<Option<Extracted>>)
    requires
        t == (TitleView {
            records: records@,
            key: title_key@,
            contents: old(reader).contents(),
            skip: left_out(skip),
        }),
        i < fst.nodes@.len(),
        text_views(paths@) == all_paths(fst@.nodes),
        fst@.nodes[i as int].kind matches FstNodeKind::File { offset, size } ==> offset + size
            <= u64::MAX,
        cache_holds(t, old(cache)@),
        cache_covers(t, fst@.nodes, i as int, old(cache)@),
    ensures
        final(reader).contents() == old(reader).contents(),
        final(reader).asked() == old(reader).asked() + node_read(t, fst@.nodes, i as int),
        cache_holds(t, final(cache)@),
        r is Ok ==> cache_covers(t, fst@.nodes, i + 1, final(cache)@),
        match r {
            Ok(None) => node_gives(t, fst@.nodes, i as int) == Ok::<Option<ExtractedView>, Stop>(
                None,
            ),
            Ok(Some(found)) => node_gives(t, fst@.nodes, i as int) == Ok::<
                Option<ExtractedView>,
                Stop,
            >(Some(found@)),
            Err(e) => node_gives(t, fst@.nodes, i as int) matches Err(stop) && reports(e, stop),
        },
{
    let ghost nodes = fst@.nodes;
    let node: &FstNode = &fst.nodes[i];
    assert(nodes[i as int] == node@);
    assert(paths@.len() == text_views(paths@).len());
    let rel: &String = &paths[i];
    assert(rel@ == text_views(paths@)[i as int]);
    let safe: bool = safe_to_join(rel.as_str());
    assert(reader.asked() + Seq::<u32>::empty() =~= reader.asked());
    match node.kind {
        FstNodeKind::Dir { .. } => {
            proof {
                lemma_cache_same(t, nodes, i as int, cache@);
            }
            if rel.as_str().unicode_len() == 0 {
                return Ok(None);
            }
            if !safe {
                return Err(Error::UnsupportedDisc(DiscFault::EscapingPath(rel.clone())));
            }
            Ok(Some(Extracted::Dir(rel.clone())))
        },
        FstNodeKind::File { offset, size } => {
            let skipped: bool = skip.skip_file(node.name.as_str());
            assert(skipped == (t.skip)(nodes[i as int].name));
            if skipped {
                proof {
                    lemma_cache_same(t, nodes, i as int, cache@);
                }
                return Ok(None);
            }
            assert(is_wanted(t, nodes, i as int));
            let ghost before = cache@;
            let at: usize = match find_cached(cache, node.cluster) {
                Some(at) => {
                    assert(before[at as int].0 == node.cluster);
                    assert(loaded(t, nodes, i as int, node.cluster));
                    at
                },
                None => {
                    assert(!loaded(t, nodes, i as int, node.cluster));
                    let data: Vec<u8> = match load_content(
                        records,
                        title_key,
                        reader,
                        node.cluster,
                        Ghost(t),
                    ) {
                        Ok(data) => data,
                        Err(e) => return Err(e),
                    };
                    cache.push((node.cluster, data));
                    cache.len() - 1
                },
            };
            proof {
                lemma_cache_step(t, nodes, i as int, before, cache@, at as int);
            }
            assert(content_at(t, cache@[at as int].0) is Ok);
            let data: &Vec<u8> = &cache[at].1;
            let end: u64 = offset + size;
            if end > data.len() as u64 {
                return Err(
                    Error::UnsupportedDisc(
                        DiscFault::FilePastContent {
                            path: rel.clone(),
                            end,
                            content_len: data.len(),
                        },
                    ),
                );
            }
            if !safe {
                return Err(Error::UnsupportedDisc(DiscFault::EscapingPath(rel.clone())));
            }
            let part: Vec<u8> = copy_range(data.as_slice(), offset as usize, end as usize);
            Ok(Some(Extracted::File { path: rel.clone(), data: part }))
        },
    }
}

/// What an extraction has to give: what it finds before the end or before the first fault, and
/// how it ends.
pub open spec fn extracts(t: TitleView, made: Seq<ExtractedView>, result: Result<()>) -> bool {
    match content_at(t, 0) {
        Err(stop) => made.len() == 0 && (result matches Err(e) && reports(e, stop)),
        Ok(table) => if !fst_readable(table) {
            made.len() == 0 && result == Err::<(), Error>(
                Error::UnsupportedDisc(DiscFault::BadTable),
            )
        } else {
            let nodes = parsed_fst(table).nodes;
            match result {
                Ok(_) => passes(t, nodes, nodes.len() as int) && made == given(
                    t,
                    nodes,
                    nodes.len() as int,
                ),
                Err(e) => exists|n: int|
                    {
                        &&& 0 <= n < nodes.len()
                        &&& passes(t, nodes, n)
                        &&& #[trigger] node_gives(t, nodes, n) matches Err(stop) && reports(e, stop)
                        &&& made == given(t, nodes, n)
                    },
            }
        },
    }
}

/// Whether an extraction puts down what it has to give, behind what was there before.
pub open spec fn goes_through(
    t: TitleView,
    before: Seq<ExtractedView>,
    after: Seq<ExtractedView>,
    result: Result<()>,
) -> bool {
    exists|made: Seq<ExtractedView>| after == before + made && #[trigger] extracts(t, made, result)
}

/// Whether an extraction came as far as node `n` and could not put down what that node gives.
pub open spec fn broke_at(
    t: TitleView,
    n: int,
    before: Seq<ExtractedView>,
    after: Seq<ExtractedView>,
    asked: Seq<u32>,
    asked_after: Seq<u32>,
) -> bool {
    &&& content_at(t, 0) matches Ok(table) && fst_readable(table) && {
        let nodes = parsed_fst(table).nodes;
        &&& 0 <= n < nodes.len()
        &&& passes(t, nodes, n + 1)
        &&& node_gives(t, nodes, n)->Ok_0 is Some
        &&& after == before + given(t, nodes, n)
        &&& asked_after == asked + (read_for(t, 0) + read_upto(t, nodes, n + 1))
    }
}

/// Whether an extraction stops where something could not be put down: everything before it has
/// been, and no more has been read.
pub open spec fn breaks_off(
    t: TitleView,
    before: Seq<ExtractedView>,
    after: Seq<ExtractedView>,
    asked: Seq<u32>,
    asked_after: Seq<u32>,
) -> bool {
    exists|n: int| #[trigger] broke_at(t, n, before, after, asked, asked_after)
}

/// How far an extraction has come: the first `i` nodes are done.
spec fn under_way(
    t: TitleView,
    table: Seq<u8>,
    i: int,
    before: Seq<ExtractedView>,
    after: Seq<ExtractedView>,
    asked: Seq<u32>,
    asked_after: Seq<u32>,
) -> bool {
    let nodes = parsed_fst(table).nodes;
    &&& content_at(t, 0) == Ok::<Seq<u8>, Stop>(table)
    &&& fst_readable(table)
    &&& 0 <= i <= nodes.len()
    &&& passes(t, nodes, i)
    &&& after == before + given(t, nodes, i)
    &&& visited(t, nodes, 0) == visited(t, nodes, i)
    &&& asked_after == asked + (read_for(t, 0) + read_upto(t, nodes, i))
}

proof fn lemma_at_the_start(
    t: TitleView,
    table: Seq<u8>,
    before: Seq<ExtractedView>,
    asked: Seq<u32>,
    asked_after: Seq<u32>,
)
    requires
        content_at(t, 0) == Ok::<Seq<u8>, Stop>(table),
        fst_readable(table),
        asked_after == asked + read_for(t, 0),
    ensures
        under_way(t, table, 0, before, before, asked, asked_after),
        cache_covers(t, parsed_fst(table).nodes, 0, Seq::empty()),
{
    let nodes = parsed_fst(table).nodes;
    assert(before + given(t, nodes, 0) =~= before);
    assert(read_for(t, 0) + read_upto(t, nodes, 0) =~= read_for(t, 0));
}

proof fn lemma_no_table(
    t: TitleView,
    before: Seq<ExtractedView>,
    asked: Seq<u32>,
    asked_after: Seq<u32>,
    e: Error,
)
    requires
        asked_after == asked + read_for(t, 0),
        match content_at(t, 0) {
            Ok(table) => !fst_readable(table) && e == Error::UnsupportedDisc(DiscFault::BadTable),
            Err(stop) => reports(e, stop),
        },
    ensures
        goes_through(t, before, before, Err(e)),
        asked_after == asked + all_read(t),
{
    let nothing = Seq::<ExtractedView>::empty();
    assert(before + nothing =~= before);
    assert(extracts(t, nothing, Err(e)));
    assert(read_for(t, 0) + Seq::<u32>::empty() =~= read_for(t, 0));
}

/// What node `i` gives decides how the extraction goes on.
proof fn lemma_one_more(
    t: TitleView,
    table: Seq<u8>,
    i: int,
    before: Seq<ExtractedView>,
    after: Seq<ExtractedView>,
    asked: Seq<u32>,
    asked_after: Seq<u32>,
    last: Seq<u32>,
)
    requires
        under_way(t, table, i, before, after, asked, asked_after),
        i < parsed_fst(table).nodes.len(),
        last == asked_after + node_read(t, parsed_fst(table).nodes, i),
    ensures
        ({
            let nodes = parsed_fst(table).nodes;
            match node_gives(t, nodes, i) {
                Ok(None) => under_way(t, table, i + 1, before, after, asked, last),
                Ok(Some(found)) => {
                    &&& under_way(t, table, i + 1, before, after.push(found), asked, last)
                    &&& breaks_off(t, before, after, asked, last)
                },
                Err(stop) => {
                    &&& last == asked + all_read(t)
                    &&& forall|e: Error| #[trigger]
                        reports(e, stop) ==> goes_through(t, before, after, Err(e))
                },
            }
        }),
{
    let nodes = parsed_fst(table).nodes;
    assert(last =~= asked + (read_for(t, 0) + read_upto(t, nodes, i + 1)));
    match node_gives(t, nodes, i) {
        Ok(None) => {},
        Ok(Some(found)) => {
            assert(after.push(found) =~= before + given(t, nodes, i).push(found));
            assert(broke_at(t, i, before, after, asked, last));
        },
        Err(stop) => {
            assert forall|e: Error| #[trigger] reports(e, stop) implies goes_through(
                t,
                before,
                after,
                Err(e),
            ) by {
                assert(extracts(t, given(t, nodes, i), Err(e)));
            }
        },
    }
}

proof fn lemma_to_the_end(
    t: TitleView,
    table: Seq<u8>,
    before: Seq<ExtractedView>,
    after: Seq<ExtractedView>,
    asked: Seq<u32>,
    asked_after: Seq<u32>,
)
    requires
        under_way(
            t,
            table,
            parsed_fst(table).nodes.len() as int,
            before,
            after,
            asked,
            asked_after,
        ),
    ensures
        goes_through(t, before, after, Ok(())),
        asked_after == asked + all_read(t),
{
    let nodes = parsed_fst(table).nodes;
    assert(extracts(t, given(t, nodes, nodes.len() as int), Ok(())));
}

/// Extract everything that a title holds to `out`, in the order of its file system table:
/// directories, and files with what they hold.
///
/// Files that `skip` leaves out are not looked at, and the contents that only they need are not
/// read. Of the others the table's is read first, then each once, when the first file in it is
/// come to. The first fault ends the extraction, and so does a sink that fails; what was put down
/// before stays.
pub fn extract_title<R: ContentReader, O: ExtractSink, S: SkipRule>(
    records: &[ContentRecord],
    title_key: &Key,
    reader: &mut R,
    out: &mut O,
    skip: &S,
) -> (r: Result<()>)
    ensures
        ({
            let t = TitleView {
                records: records@,
                key: title_key@,
                contents: old(reader).contents(),
                skip: left_out(skip),
            };
            &&& final(reader).contents() == old(reader).contents()
            &&& if final(out).faults() == old(out).faults() {
                &&& goes_through(t, old(out).made(), final(out).made(), r)
                &&& final(reader).asked() == old(reader).asked() + all_read(t)
            } else {
                &&& r is Err
                &&& breaks_off(
                    t,
                    old(out).made(),
                    final(out).made(),
                    old(reader).asked(),
                    final(reader).asked(),
                )
            }
        }),
{
    let ghost t = TitleView {
        records: records@,
        key: title_key@,
        contents: reader.contents(),
        skip: left_out(skip),
    };
    let ghost first = reader.asked();
    let ghost start = out.made();
    let table: Vec<u8> = match load_content(records, title_key, reader, 0, Ghost(t)) {
        Ok(table) => table,
        Err(e) => {
            proof {
                lemma_no_table(t, start, first, reader.asked(), e);
            }
            return Err(e);
        },
    };
    let fst: Fst = match Fst::parse(table.as_slice()) {
        Some(fst) => fst,
        None => {
            let e: Error = Error::UnsupportedDisc(DiscFault::BadTable);
            proof {
                lemma_no_table(t, start, first, reader.asked(), e);
            }
            return Err(e);
        },
    };
    let ghost nodes = parsed_fst(table@).nodes;
    assert(fst@.nodes == nodes);
    let paths: Vec<String> = node_paths(&fst);
    let mut cache: Vec<(u16, Vec<u8>)> = Vec::new();
    let mut i: usize = 0;
    proof {
        lemma_at_the_start(t, table@, start, first, reader.asked());
    }
    while i < fst.nodes.len()
        invariant
            i <= fst.nodes@.len(),
            t == (TitleView {
                records: records@,
                key: title_key@,
                contents: reader.contents(),
                skip: left_out(skip),
            }),
            reader.contents() == old(reader).contents(),
            first == old(reader).asked(),
            start == old(out).made(),
            out.faults() == old(out).faults(),
            nodes == parsed_fst(table@).nodes,
            fst@.nodes == nodes,
            text_views(paths@) == all_paths(nodes),
            cache_holds(t, cache@),
            cache_covers(t, nodes, i as int, cache@),
            under_way(t, table@, i as int, start, out.made(), first, reader.asked()),
        decreases fst.nodes@.len() - i,
    {
        let ghost asked = reader.asked();
        proof {
            assert(nodes[i as int] == parsed_node(table@, i as int));
            lemma_file_end(table@, i as int);
        }
        let outcome: Result<Option<Extracted>> = extract_node(
            records,
            title_key,
            reader,
            skip,
            &fst,
            &paths,
            i,
            &mut cache,
            Ghost(t),
        );
        proof {
            lemma_one_more(
                t,
                table@,
                i as int,
                start,
                out.made(),
                first,
                asked,
                reader.asked(),
            );
        }
        match outcome {
            Ok(None) => {},
            Ok(Some(found)) => {
                match out.put(found) {
                    Ok(_) => {},
                    Err(e) => return Err(e),
                }
            },
            Err(e) => return Err(e),
        }
        i += 1;
    }
    proof {
        lemma_to_the_end(t, table@, start, out.made(), first, reader.asked());
    }
    Ok(())
}

/// A file of a table that was read ends at an offset that can be held.
proof fn lemma_file_end(data: Seq<u8>, i: int)
    ensures
        parsed_node(data, i).kind matches FstNodeKind::File { offset, size } ==> offset + size
            <= u64::MAX,
{
    let o = crate::package::fst::entries_at(data) + i * 0x10;
    let a = crate::util::be32_at(data, o + 4);
    let b = crate::util::be32_at(data, 4);
    assert(a * b <= 0xFFFF_FFFF * 0xFFFF_FFFF) by (nonlinear_arith)
        requires
            0 <= a <= 0xFFFF_FFFF,
            0 <= b <= 0xFFFF_FFFF,
    ;
    assert(0 <= a * b) by (nonlinear_arith)
        requires
            0 <= a,
            0 <= b,
    ;
}

/// Whether an extraction needs the content with this id: it holds the file system table, or a
/// file that is not skipped.
pub open spec fn needs(t: TitleView, id: u32) -> bool {
    ||| record_of(t.records, 0) matches Some(rec) && rec.id == id
    ||| content_at(t, 0) matches Ok(table) && exists|i: int|
        #![trigger parsed_fst(table).nodes[i]]
        {
            let node = parsed_fst(table).nodes[i];
            &&& 0 <= i < parsed_fst(table).nodes.len()
            &&& node.kind is File
            &&& !(t.skip)(node.name)
            &&& record_of(t.records, node.cluster) matches Some(rec) && rec.id == id
        }
}

/// Only what an extraction needs is read.
proof fn lemma_read_is_needed(t: TitleView, nodes: Seq<NodeView>, n: int, k: int)
    requires
        content_at(t, 0) is Ok,
        nodes == parsed_fst(content_at(t, 0)->Ok_0).nodes,
        0 <= n <= nodes.len(),
        0 <= k < read_upto(t, nodes, n).len(),
    ensures
        needs(t, read_upto(t, nodes, n)[k]),
    decreases n,
{
    if n > 0 {
        let before = read_upto(t, nodes, n - 1);
        if k < before.len() {
            lemma_read_is_needed(t, nodes, n - 1, k);
        } else {
            assert(parsed_fst(content_at(t, 0)->Ok_0).nodes[n - 1] == nodes[n - 1]);
        }
    }
}

proof fn lemma_visited(t: TitleView, nodes: Seq<NodeView>, i: int)
    requires
        0 <= i <= nodes.len(),
    ensures
        i <= visited(t, nodes, i) <= nodes.len(),
    decreases nodes.len() - i,
{
    if i < nodes.len() && node_gives(t, nodes, i) !is Err {
        lemma_visited(t, nodes, i + 1);
    }
}

/// Whether records of different indices have different ids.
pub open spec fn ids_apart(records: Seq<ContentRecord>) -> bool {
    forall|a: u16, b: u16|
        #![trigger record_of(records, a), record_of(records, b)]
        record_of(records, a) is Some && record_of(records, b) is Some && record_of(
            records,
            a,
        )->Some_0.id == record_of(records, b)->Some_0.id ==> a == b
}

proof fn lemma_read_once(t: TitleView, nodes: Seq<NodeView>, n: int)
    requires
        ids_apart(t.records),
        0 <= n <= nodes.len(),
    ensures
        read_upto(t, nodes, n).no_duplicates(),
        forall|k: int|
            0 <= k < read_upto(t, nodes, n).len() ==> comes_of_loaded(
                t,
                nodes,
                n,
                #[trigger] read_upto(t, nodes, n)[k],
            ),
    decreases n,
{
    if n > 0 {
        lemma_read_once(t, nodes, n - 1);
        let before = read_upto(t, nodes, n - 1);
        let all = read_upto(t, nodes, n);
        assert forall|k: int| 0 <= k < all.len() implies comes_of_loaded(
            t,
            nodes,
            n,
            #[trigger] all[k],
        ) by {
            if k < before.len() {
                assert(all[k] == before[k]);
                let c = choose|c: u16|
                    #![trigger record_of(t.records, c)]
                    loaded(t, nodes, n - 1, c) && record_of(t.records, c) is Some && record_of(
                        t.records,
                        c,
                    )->Some_0.id == before[k];
                lemma_loaded_step(t, nodes, n - 1, c);
                assert(record_of(t.records, c) is Some);
            } else {
                let c = nodes[n - 1].cluster;
                lemma_loaded_step(t, nodes, n - 1, c);
                assert(record_of(t.records, c) is Some);
            }
        }
        assert forall|i: int, j: int| 0 <= i < all.len() && 0 <= j < all.len() && i
            != j implies all[i] != all[j] by {
            if i < before.len() && j < before.len() {
                assert(before[i] != before[j]);
            } else {
                let k = if i < before.len() {
                    i
                } else {
                    j
                };
                assert(all[k] == before[k]);
                let c = choose|c: u16|
                    #![trigger record_of(t.records, c)]
                    loaded(t, nodes, n - 1, c) && record_of(t.records, c) is Some && record_of(
                        t.records,
                        c,
                    )->Some_0.id == before[k];
                let d = nodes[n - 1].cluster;
                assert(record_of(t.records, c) is Some && record_of(t.records, d) is Some);
                assert(c != d);
            }
        }
    }
}

/// Whether an id is that of a content with a wanted file among the first `n` nodes.
pub open spec fn comes_of_loaded(t: TitleView, nodes: Seq<NodeView>, n: int, id: u32) -> bool {
    exists|c: u16|
        #![trigger record_of(t.records, c)]
        loaded(t, nodes, n, c) && record_of(t.records, c) is Some && record_of(
            t.records,
            c,
        )->Some_0.id == id
}

/// An extraction reads the table's content first, and nothing that it does not need: a content
/// that holds left-out files alone is never read. Behind the table's, none is read twice where
/// different contents have different ids.
pub proof fn law_contents_are_read_once(t: TitleView)
    ensures
        forall|k: int| 0 <= k < all_read(t).len() ==> needs(t, #[trigger] all_read(t)[k]),
        record_of(t.records, 0) matches Some(rec) ==> all_read(t).len() > 0 && all_read(t)[0]
            == rec.id,
        record_of(t.records, 0) is None ==> all_read(t).len() == 0,
        ids_apart(t.records) && all_read(t).len() > 0 ==> all_read(t).subrange(
            1,
            all_read(t).len() as int,
        ).no_duplicates(),
{
    let head = read_for(t, 0);
    if let Ok(table) = content_at(t, 0) {
        let nodes = parsed_fst(table).nodes;
        let n = visited(t, nodes, 0);
        lemma_visited(t, nodes, 0);
        if fst_readable(table) {
            assert(all_read(t) == head + read_upto(t, nodes, n));
            assert forall|k: int| 0 <= k < all_read(t).len() implies needs(
                t,
                #[trigger] all_read(t)[k],
            ) by {
                if k >= head.len() {
                    lemma_read_is_needed(t, nodes, n, k - head.len());
                    assert(all_read(t)[k] == read_upto(t, nodes, n)[k - head.len()]);
                }
            }
            if ids_apart(t.records) {
                lemma_read_once(t, nodes, n);
                assert(head.len() == 1);
                assert(all_read(t).subrange(1, all_read(t).len() as int) =~= read_upto(
                    t,
                    nodes,
                    n,
                ));
            }
        }
    }
}

/// Whether two collections of contents hold the same under an id.
pub open spec fn agree_at(a: Map<u32, Seq<u8>>, b: Map<u32, Seq<u8>>, id: u32) -> bool {
    a.contains_key(id) == b.contains_key(id) && (a.contains_key(id) ==> a[id] == b[id])
}

proof fn lemma_given_alike(a: TitleView, b: TitleView, nodes: Seq<NodeView>, n: int)
    requires
        0 <= n <= nodes.len(),
        forall|i: int|
            0 <= i < nodes.len() ==> #[trigger] node_gives(a, nodes, i) == node_gives(b, nodes, i),
    ensures
        given(a, nodes, n) == given(b, nodes, n),
        passes(a, nodes, n) == passes(b, nodes, n),
    decreases n,
{
    if n > 0 {
        lemma_given_alike(a, b, nodes, n - 1);
        assert(node_gives(a, nodes, n - 1) == node_gives(b, nodes, n - 1));
    }
    if passes(a, nodes, n) {
        assert forall|i: int| 0 <= i < n implies #[trigger] node_gives(b, nodes, i) is Ok by {
            assert(node_gives(a, nodes, i) == node_gives(b, nodes, i));
        }
    }
    if passes(b, nodes, n) {
        assert forall|i: int| 0 <= i < n implies #[trigger] node_gives(a, nodes, i) is Ok by {
            assert(node_gives(a, nodes, i) == node_gives(b, nodes, i));
        }
    }
}

/// A content that holds skipped files alone is never needed: whatever stands in its place, or
/// nothing at all, the extraction is the same.
pub proof fn law_skipped_contents_are_not_needed(
    t: TitleView,
    contents: Map<u32, Seq<u8>>,
    made: Seq<ExtractedView>,
    result: Result<()>,
)
    requires
        forall|id: u32| #[trigger] needs(t, id) ==> agree_at(t.contents, contents, id),
        extracts(t, made, result),
    ensures
        extracts(
            TitleView { records: t.records, key: t.key, contents, skip: t.skip },
            made,
            result,
        ),
{
    let other = TitleView { records: t.records, key: t.key, contents, skip: t.skip };
    assert(content_at(other, 0) == content_at(t, 0)) by {
        if let Some(rec) = record_of(t.records, 0) {
            assert(needs(t, rec.id));
        }
    }
    if let Ok(table) = content_at(t, 0) {
        let nodes = parsed_fst(table).nodes;
        assert forall|i: int| 0 <= i < nodes.len() implies #[trigger] node_gives(t, nodes, i)
            == node_gives(other, nodes, i) by {
            if nodes[i].kind is File && !(t.skip)(nodes[i].name) {
                if let Some(rec) = record_of(t.records, nodes[i].cluster) {
                    assert(needs(t, rec.id)) by {
                        assert(parsed_fst(table).nodes[i] == nodes[i]);
                    }
                }
                assert(content_at(t, nodes[i].cluster) == content_at(other, nodes[i].cluster));
            }
        }
        assert forall|n: int| 0 <= n <= nodes.len() implies #[trigger] given(t, nodes, n) == given(
            other,
            nodes,
            n,
        ) && passes(t, nodes, n) == passes(other, nodes, n) by {
            lemma_given_alike(t, other, nodes, n);
        }
        if fst_readable(table) {
            match result {
                Ok(_) => {
                    assert(given(t, nodes, nodes.len() as int) == given(
                        other,
                        nodes,
                        nodes.len() as int,
                    ));
                },
                Err(e) => {
                    let n = choose|n: int|
                        {
                            &&& 0 <= n < nodes.len()
                            &&& passes(t, nodes, n)
                            &&& #[trigger] node_gives(t, nodes, n) matches Err(stop) && reports(
                                e,
                                stop,
                            )
                            &&& made == given(t, nodes, n)
                        };
                    assert(given(t, nodes, n) == given(other, nodes, n));
                    assert(node_gives(other, nodes, n) == node_gives(t, nodes, n));
                },
            }
        }
    }
}

/// The path of something found.
pub open spec fn found_path(v: ExtractedView) -> Seq<char> {
    match v {
        ExtractedView::Dir(path) => path,
        ExtractedView::File { path, .. } => path,
    }
}

proof fn lemma_given_inside(t: TitleView, nodes: Seq<NodeView>, n: int, k: int)
    requires
        0 <= n <= nodes.len(),
        0 <= k < given(t, nodes, n).len(),
    ensures
        !escapes(found_path(given(t, nodes, n)[k])),
    decreases n,
{
    if n > 0 && k < given(t, nodes, n - 1).len() {
        lemma_given_inside(t, nodes, n - 1, k);
    }
}

/// Nothing that an extraction finds leaves the directory that it is extracted to, whatever the
/// title's file system table says, and however the extraction ends.
pub proof fn law_extraction_stays_inside(
    t: TitleView,
    made: Seq<ExtractedView>,
    result: Result<()>,
    k: int,
)
    requires
        extracts(t, made, result),
        0 <= k < made.len(),
    ensures
        !escapes(found_path(made[k])),
{
    let nodes = parsed_fst(content_at(t, 0)->Ok_0).nodes;
    match result {
        Ok(_) => lemma_given_inside(t, nodes, nodes.len() as int, k),
        Err(e) => {
            let n = choose|n: int|
                {
                    &&& 0 <= n < nodes.len()
                    &&& passes(t, nodes, n)
                    &&& #[trigger] node_gives(t, nodes, n) matches Err(stop) && reports(e, stop)
                    &&& made == given(t, nodes, n)
                };
            lemma_given_inside(t, nodes, n, k);
        },
    }
}

/// A content that is not made of whole blocks is refused, 16 bytes each, or 0x10000 where it is
/// hashed. One that is not hashed is decrypted under the sixteen bytes that begin with its index;
/// it is taken where the SHA-1 of all of that is the one stated, and refused otherwise. Of a
/// hashed one the SHA-1 of the list of its topmost hashes decides.
pub proof fn law_damaged_contents_are_refused(
    rec: ContentRecord,
    key: Seq<u8>,
    cipher: Seq<u8>,
    iv: Seq<u8>,
)
    requires
        iv.len() == 16,
        iv[0] * 0x100 + iv[1] == rec.index,
        forall|j: int| 2 <= j < 16 ==> #[trigger] iv[j] == 0,
    ensures
        ({
            let len = cipher.len();
            let hashed = rec.content_type == 0x2003;
            let fault = content_fault(rec, key, cipher);
            let bad = Some(DiscFault::ContentHash { id: rec.id, index: rec.index });
            &&& hashed && len % 0x1_0000 != 0 ==> fault == Some(
                DiscFault::RaggedHashedContent(len as usize),
            )
            &&& !hashed && len % 16 != 0 ==> fault == Some(DiscFault::RaggedContent(len as usize))
            &&& !hashed && len % 16 == 0 && len > 0 ==> {
                let plain = cbc_decrypted(key, iv, cipher);
                &&& plain_of(rec, key, cipher) == plain
                &&& fault == (if sha1_of(plain) == rec.hash@ {
                    None
                } else {
                    bad
                })
            }
            &&& !hashed && len == 0 ==> plain_of(rec, key, cipher).len() == 0 && fault == (
            if sha1_of(Seq::empty()) == rec.hash@ {
                None
            } else {
                bad
            })
            &&& hashed && len % 0x1_0000 == 0 ==> {
                let plain = recovered_data(key, rec.index, cipher, len as int / 0x1_0000);
                &&& plain_of(rec, key, cipher) == plain
                &&& fault == (if sha1_of(h3_file(raw_blocks(plain))) == rec.hash@ {
                    None
                } else {
                    bad
                })
            }
        }),
{
    law_content_iv_spells_the_index(rec.index, rec.index);
    assert(iv =~= content_iv_of(rec.index)) by {
        let own = content_iv_of(rec.index);
        assert(own[0] * 0x100 + own[1] == rec.index);
        assert(0 <= iv[1] < 0x100 && 0 <= own[1] < 0x100);
        assert(iv[0] == own[0] && iv[1] == own[1]);
        assert forall|j: int| 2 <= j < 16 implies #[trigger] iv[j] == own[j] by {}
    }
}

/// Of several records with one index the last counts, and no record is found only where none has
/// the index.
pub proof fn law_last_record_counts(records: Seq<ContentRecord>, index: u16)
    ensures
        match record_of(records, index) {
            Some(rec) => rec.index == index && exists|k: int|
                0 <= k < records.len() && #[trigger] records[k] == rec && forall|j: int|
                    k < j < records.len() ==> (#[trigger] records[j]).index != index,
            None => forall|j: int|
                0 <= j < records.len() ==> (#[trigger] records[j]).index != index,
        },
{
    lemma_last_record(records, index, records.len() as int);
}

proof fn lemma_last_record(records: Seq<ContentRecord>, index: u16, n: int)
    requires
        0 <= n <= records.len(),
    ensures
        match record_upto(records, index, n) {
            Some(rec) => rec.index == index && exists|k: int|
                0 <= k < n && #[trigger] records[k] == rec && forall|j: int|
                    k < j < n ==> (#[trigger] records[j]).index != index,
            None => forall|j: int| 0 <= j < n ==> (#[trigger] records[j]).index != index,
        },
    decreases n,
{
    if n > 0 {
        lemma_last_record(records, index, n - 1);
        if records[n - 1].index == index {
            assert(records[n - 1] == record_upto(records, index, n)->0);
        } else if let Some(rec) = record_upto(records, index, n - 1) {
            let k = choose|k: int|
                0 <= k < n - 1 && #[trigger] records[k] == rec && forall|j: int|
                    k < j < n - 1 ==> (#[trigger] records[j]).index != index;
            assert(records[k] == rec);
        }
    }
}

/// A file that comes out is the part of its content that its entry states; one comes out unless
/// it is left out, its content cannot be had, it reaches past its content, or its path leaves the
/// directory extracted to.
pub proof fn law_files_are_cut_from_their_contents(
    t: TitleView,
    nodes: Seq<NodeView>,
    i: int,
    plain: Seq<u8>,
    offset: u64,
    size: u64,
)
    requires
        nodes[i].kind == (FstNodeKind::File { offset, size }),
        content_at(t, nodes[i].cluster) == Ok::<Seq<u8>, Stop>(plain),
    ensures
        node_gives(t, nodes, i) is Err <==> !(t.skip)(nodes[i].name) && (offset + size > plain.len()
            || escapes(node_path(nodes, i))),
        node_gives(t, nodes, i) == Ok::<Option<ExtractedView>, Stop>(None) <==> (t.skip)(
            nodes[i].name,
        ),
        node_gives(t, nodes, i) matches Ok(Some(found)) ==> {
            &&& found matches ExtractedView::File { path, data }
            &&& path == node_path(nodes, i)
            &&& data.len() == size
            &&& forall|k: int| 0 <= k < size ==> #[trigger] data[k] == plain[offset + k]
        },
{
}

/// A directory comes out under its path, the root excepted.
pub proof fn law_directories_come_out(t: TitleView, nodes: Seq<NodeView>, i: int)
    requires
        nodes[i].kind is Dir,
    ensures
        node_gives(t, nodes, i) is Err <==> escapes(node_path(nodes, i)) && node_path(
            nodes,
            i,
        ).len() > 0,
        node_gives(t, nodes, i) matches Ok(found) ==> found == (if node_path(nodes, i).len() == 0 {
            None
        } else {
            Some(ExtractedView::Dir(node_path(nodes, i)))
        }),
{
}

/// A content comes of the record of its index: what the record's id is read for, decrypted. It
/// stops the extraction where there is no record, nothing can be read, or the content is refused.
pub proof fn law_contents_come_of_their_records(t: TitleView, index: u16)
    ensures
        match (record_of(t.records, index), content_at(t, index)) {
            (Some(rec), Ok(plain)) => {
                &&& t.contents.contains_key(rec.id)
                &&& content_fault(rec, t.key, t.contents[rec.id]) is None
                &&& plain == plain_of(rec, t.key, t.contents[rec.id])
            },
            (Some(rec), Err(stop)) => {
                ||| !t.contents.contains_key(rec.id) && stop == Stop::Unread(rec.id)
                ||| t.contents.contains_key(rec.id) && (content_fault(
                    rec,
                    t.key,
                    t.contents[rec.id],
                ) matches Some(fault) && stop == Stop::Fault(fault))
            },
            (None, Err(stop)) => stop == Stop::Fault(
                if index == 0 {
                    DiscFault::NoTable
                } else {
                    DiscFault::MissingContent(index)
                },
            ),
            (None, Ok(_)) => false,
        },
{
}

/// The rule for game images leaves out the names that start with `hif_` and end with `.nfs`, the
/// other rule none.
pub proof fn law_rules_leave_out_game_images(name: Seq<char>)
    ensures
        !SkipFiles::Nothing.leaves_out(name),
        ({
            let n = name.len() as int;
            SkipFiles::GameImages.leaves_out(name) <==> n >= 4 && name[0] == 'h' && name[1] == 'i'
                && name[2] == 'f' && name[3] == '_' && name[n - 4] == '.' && name[n - 3] == 'n'
                && name[n - 2] == 'f' && name[n - 1] == 's'
        }),
{
    law_names_tell_disc_images_and_programs(name);
}

} // verus!

//! Assigning the staged files to contents and laying out the file system table.
//!
//! The contents come in the order a working retail package has them; the installer hangs on
//! other layouts:
//!
//! 1. content 0 is the file system table;
//! 2. `code/app.xml`, then `code/cos.xml`, each a non-hashed content of its own;
//! 3. `meta/` in hashed contents: `meta.xml` alone, the boot files together, the boot movie and
//!    the boot logo each alone, then all other files together;
//! 4. the remaining `code/` files, programs first, each a non-hashed content of its own;
//! 5. `content/`, the game data, in hashed contents of up to [`MAX_GAME_CONTENT_BYTES`] that the
//!    title owns. Nothing follows the game data.

use vstd::prelude::*;

use crate::error::{DiscFault, Error, Result};
use crate::package::fst::{
    fst_bytes, law_descriptors_read_back, lemma_fst_len, low32, names_bytes, node_views, parsed_fst,
    Fst, FstContent, FstNode, FstNodeKind, FstView, NodeView, OFFSET_FACTOR,
};
use crate::package::staging::{
    dir_weight, hif_name, is_hif, lemma_dir_weight, lemma_listed_prefix, lemma_listed_step,
    lemma_listing_weight, lemma_order_bounds, lemma_weight_bounds, lemma_weight_of, list_order,
    listed_weight, listing, weight, Lead, StagedBuild, StagedEntry,
};
use crate::text::{text_equal, text_join};
use crate::util::{align_up, lemma_rounded_up, rounded_up};

verus! {

/// Content type of a non-hashed content.
pub const TYPE_NONHASHED: u16 = 0x2001;

/// Content type of a hashed content.
pub const TYPE_HASHED: u16 = 0x2003;

/// Unit of the content offsets and sizes in the file system table.
pub const SECTOR: u64 = 0x8000;

/// Most decrypted bytes packed into one game content before the next one is begun. It keeps
/// every encrypted game content under 2 GiB, beyond which the installer hangs.
pub const MAX_GAME_CONTENT_BYTES: u64 = 0x7000_0000;

/// A file placed within a content.
#[derive(Debug)]
pub struct PlacedFile {
    /// Path below the staged build directory.
    pub path: String,
    /// Byte offset within the content.
    pub offset: u64,
    /// File size in bytes.
    pub size: u64,
}

/// A content to be encrypted and written.
#[derive(Debug)]
pub struct PlannedContent {
    /// Content index and id.
    pub index: u16,
    /// Content type.
    pub content_type: u16,
    /// Files in placement order; none for the file system table.
    pub files: Vec<PlacedFile>,
    /// Decrypted size before padding.
    pub data_len: u64,
    /// Whether the content holds game data, which the title must own.
    pub is_game: bool,
}

/// The plan of a package: the file system table and the layout of every content.
#[derive(Debug)]
pub struct PackagePlan {
    /// The table's bytes, the data of content 0.
    pub fst: Vec<u8>,
    /// All contents, content 0 first.
    pub contents: Vec<PlannedContent>,
}

/// A placed file, its path taken as text.
pub struct PlacedView {
    pub path: Seq<char>,
    pub offset: u64,
    pub size: u64,
}

/// A planned content as a mathematical value.
#[verifier::ext_equal]
pub struct ContentView {
    pub index: u16,
    pub content_type: u16,
    pub files: Seq<PlacedView>,
    pub data_len: u64,
    pub is_game: bool,
}

impl View for PlacedFile {
    type V = PlacedView;

    open spec fn view(&self) -> PlacedView {
        PlacedView { path: self.path@, offset: self.offset, size: self.size }
    }
}

impl View for PlannedContent {
    type V = ContentView;

    open spec fn view(&self) -> ContentView {
        ContentView {
            index: self.index,
            content_type: self.content_type,
            files: Seq::new(self.files@.len(), |i: int| self.files@[i]@),
            data_len: self.data_len,
            is_game: self.is_game,
        }
    }
}

/// The views of a list of contents.
pub open spec fn content_views(contents: Seq<PlannedContent>) -> Seq<ContentView> {
    Seq::new(contents.len(), |i: int| contents[i]@)
}

/// Contents without their files, and the content that each staged path belongs to.
pub struct Layout {
    pub contents: Seq<ContentView>,
    pub clusters: Map<Seq<char>, u16>,
}

/// An empty content at position `at`.
pub open spec fn new_content(at: int, content_type: u16, is_game: bool) -> ContentView {
    ContentView {
        index: (at % 0x1_0000) as u16,
        content_type,
        files: Seq::empty(),
        data_len: 0,
        is_game,
    }
}

impl Layout {
    /// The layout that holds the file system table alone.
    pub open spec fn start() -> Layout {
        Layout { contents: seq![new_content(0, TYPE_NONHASHED, false)], clusters: Map::empty() }
    }

    /// One more content.
    pub open spec fn grown(self, content_type: u16, is_game: bool) -> Layout {
        Layout {
            contents: self.contents.push(
                new_content(self.contents.len() as int, content_type, is_game),
            ),
            clusters: self.clusters,
        }
    }

    /// `path` belongs to the last content.
    pub open spec fn filed(self, path: Seq<char>) -> Layout {
        Layout {
            contents: self.contents,
            clusters: self.clusters.insert(path, self.contents.last().index),
        }
    }

    /// The first `n` of `paths` belong to the last content.
    pub open spec fn filed_all(self, paths: Seq<Seq<char>>, n: int) -> Layout
        decreases n,
    {
        if n <= 0 {
            self
        } else {
            self.filed_all(paths, n - 1).filed(paths[n - 1])
        }
    }

    /// All of `paths` share one new content; without paths there is none.
    pub open spec fn shared(self, paths: Seq<Seq<char>>, content_type: u16) -> Layout {
        if paths.len() == 0 {
            self
        } else {
            self.grown(content_type, false).filed_all(paths, paths.len() as int)
        }
    }

    /// Each of the first `n` of `paths` has a new content of its own.
    pub open spec fn separate(self, paths: Seq<Seq<char>>, content_type: u16, n: int) -> Layout
        decreases n,
    {
        if n <= 0 {
            self
        } else {
            self.separate(paths, content_type, n - 1).grown(content_type, false).filed(
                paths[n - 1],
            )
        }
    }
}

/// Whether the directory holds a regular file of that name.
pub open spec fn has_file(entries: Seq<StagedEntry>, name: Seq<char>) -> bool {
    exists|i: int|
        0 <= i < entries.len() && (#[trigger] entries[i]).is_regular() && entries[i].name_view()
            == name
}

/// The paths of those of the first `n` names that the directory holds as regular files.
pub open spec fn present(
    dir: Seq<char>,
    entries: Seq<StagedEntry>,
    names: Seq<Seq<char>>,
    n: int,
) -> Seq<Seq<char>>
    decreases n,
{
    if n <= 0 {
        Seq::empty()
    } else if has_file(entries, names[n - 1]) {
        present(dir, entries, names, n - 1).push(dir + names[n - 1])
    } else {
        present(dir, entries, names, n - 1)
    }
}

/// The paths of the regular files without a content, among the first `n` in listing order.
pub open spec fn leftover(
    dir: Seq<char>,
    entries: Seq<StagedEntry>,
    order: Seq<usize>,
    taken: Map<Seq<char>, u16>,
    n: int,
) -> Seq<Seq<char>>
    decreases n,
{
    if n <= 0 {
        Seq::empty()
    } else {
        let before = leftover(dir, entries, order, taken, n - 1);
        let entry = entries[order[n - 1] as int];
        let path = dir + entry.name_view();
        if entry.is_regular() && !taken.contains_key(path) {
            before.push(path)
        } else {
            before
        }
    }
}

/// The layout after `code/app.xml` and `code/cos.xml`.
pub open spec fn with_code_heads(l: Layout, code: Seq<StagedEntry>) -> Layout {
    let paths = present("code/"@, code, seq!["app.xml"@, "cos.xml"@], 2);
    l.separate(paths, TYPE_NONHASHED, paths.len() as int)
}

/// The layout after the files of `meta/`.
pub open spec fn with_meta(l: Layout, meta: Seq<StagedEntry>) -> Layout {
    let dir = "meta/"@;
    let alone = present(dir, meta, seq!["meta.xml"@], 1);
    let l1 = l.shared(alone, TYPE_HASHED);
    let boot = present(
        dir,
        meta,
        seq!["iconTex.tga"@, "bootTvTex.tga"@, "bootDrcTex.tga"@, "bootSound.btsnd"@],
        4,
    );
    let l2 = l1.shared(boot, TYPE_HASHED);
    let singles = present(dir, meta, seq!["bootMovie.h264"@, "bootLogoTex.tga"@], 2);
    let l3 = l2.separate(singles, TYPE_HASHED, singles.len() as int);
    let order = listing(meta, Lead::Nothing);
    let rest = leftover(dir, meta, order, l3.clusters, order.len() as int);
    l3.shared(rest, TYPE_HASHED)
}

/// The layout after the remaining files of `code/`.
pub open spec fn with_code(l: Layout, code: Seq<StagedEntry>) -> Layout {
    let order = listing(code, Lead::Programs);
    let rest = leftover("code/"@, code, order, l.clusters, order.len() as int);
    l.separate(rest, TYPE_NONHASHED, rest.len() as int)
}

/// The files of a directory and below it, from position `i` of its listing on: each directory's
/// files stand where the directory is listed.
pub open spec fn files_from(
    prefix: Seq<char>,
    entries: Seq<StagedEntry>,
    order: Seq<usize>,
    i: int,
) -> Seq<(Seq<char>, u64)>
    decreases entries, order.len() - i,
{
    if i < 0 || i >= order.len() || order[i] >= entries.len() {
        Seq::empty()
    } else {
        let entry = entries[order[i] as int];
        let here = match entry {
            StagedEntry::File { name, size, .. } => seq![(prefix + name@, size)],
            StagedEntry::Dir { name, entries: below } => files_from(
                prefix + name@ + "/"@,
                below@,
                listing(below@, Lead::DiscImages),
                0,
            ),
        };
        here + files_from(prefix, entries, order, i + 1)
    }
}

/// All files of a directory and below it.
pub open spec fn files_below(prefix: Seq<char>, entries: Seq<StagedEntry>) -> Seq<(Seq<char>, u64)> {
    files_from(prefix, entries, listing(entries, Lead::DiscImages), 0)
}

/// How far the game contents have been filled.
pub struct Packing {
    pub layout: Layout,
    /// The content being filled, if any.
    pub current: Option<u16>,
    /// Bytes already assigned to it.
    pub current_size: int,
}

impl Packing {
    /// A file joins the current content while it fits, and begins a new one otherwise.
    pub open spec fn packed(self, path: Seq<char>, size: u64) -> Packing {
        let placed = rounded_up(size as int, 0x20);
        match self.current {
            Some(index) if self.current_size + placed <= MAX_GAME_CONTENT_BYTES => Packing {
                layout: Layout {
                    contents: self.layout.contents,
                    clusters: self.layout.clusters.insert(path, index),
                },
                current: self.current,
                current_size: self.current_size + placed,
            },
            _ => {
                let layout = self.layout.grown(TYPE_HASHED, true).filed(path);
                Packing {
                    layout,
                    current: Some(layout.contents.last().index),
                    current_size: placed,
                }
            },
        }
    }

    /// The first `n` of `files` are packed.
    pub open spec fn packed_all(self, files: Seq<(Seq<char>, u64)>, n: int) -> Packing
        decreases n,
    {
        if n <= 0 {
            self
        } else {
            self.packed_all(files, n - 1).packed(files[n - 1].0, files[n - 1].1)
        }
    }
}

/// The layout after the game data.
pub open spec fn with_game(l: Layout, content: Seq<StagedEntry>) -> Layout {
    let files = files_below("content/"@, content);
    Packing { layout: l, current: None, current_size: 0 }.packed_all(
        files,
        files.len() as int,
    ).layout
}

/// The layout of a staged build up to the game data.
pub open spec fn layout_before_game(build: StagedBuild) -> Layout {
    let l0 = Layout::start();
    let l1 = match build.code {
        Some(code) => with_code_heads(l0, code@),
        None => l0,
    };
    let l2 = match build.meta {
        Some(meta) => with_meta(l1, meta@),
        None => l1,
    };
    match build.code {
        Some(code) => with_code(l2, code@),
        None => l2,
    }
}

/// The layout of a staged build.
pub open spec fn layout_of(build: StagedBuild) -> Layout {
    match build.content {
        Some(content) => with_game(layout_before_game(build), content@),
        None => layout_before_game(build),
    }
}

/// The map that a list of assignments stands for; later ones win.
pub open spec fn assigned(list: Seq<(String, u16)>, n: int) -> Map<Seq<char>, u16>
    decreases n,
{
    if n <= 0 {
        Map::empty()
    } else {
        assigned(list, n - 1).insert(list[n - 1].0@, list[n - 1].1)
    }
}

/// Which content each staged path belongs to.
pub struct Clusters {
    list: Vec<(String, u16)>,
}

impl View for Clusters {
    type V = Map<Seq<char>, u16>;

    closed spec fn view(&self) -> Map<Seq<char>, u16> {
        assigned(self.list@, self.list@.len() as int)
    }
}

impl Clusters {
    /// No assignment yet.
    pub fn new() -> (r: Self)
        ensures
            r@ == Map::<Seq<char>, u16>::empty(),
    {
        Clusters { list: Vec::new() }
    }

    /// Assign `path` to a content.
    pub fn insert(&mut self, path: String, index: u16)
        ensures
            final(self)@ == old(self)@.insert(path@, index),
    {
        let ghost before = self.list@;
        self.list.push((path, index));
        proof {
            lemma_assigned_prefix(before, self.list@, before.len() as int);
        }
    }

    /// The content of `path`, if it has one.
    pub fn get(&self, path: &str) -> (r: Option<u16>)
        ensures
            r == if self@.contains_key(path@) {
                Some(self@[path@])
            } else {
                None
            },
    {
        let mut n: usize = self.list.len();
        while n > 0
            invariant
                n <= self.list@.len(),
                self@.contains_key(path@) == assigned(self.list@, n as int).contains_key(path@),
                self@.contains_key(path@) ==> self@[path@] == assigned(
                    self.list@,
                    n as int,
                )[path@],
            decreases n,
        {
            if text_equal(self.list[n - 1].0.as_str(), path) {
                return Some(self.list[n - 1].1);
            }
            n -= 1;
        }
        None
    }
}

proof fn lemma_assigned_prefix(a: Seq<(String, u16)>, b: Seq<(String, u16)>, n: int)
    requires
        0 <= n <= a.len() <= b.len(),
        forall|i: int| 0 <= i < n ==> a[i] == b[i],
    ensures
        assigned(a, n) == assigned(b, n),
    decreases n,
{
    if n > 0 {
        lemma_assigned_prefix(a, b, n - 1);
    }
}

/// The layout that contents and assignments stand for.
pub open spec fn layout_view(contents: Seq<PlannedContent>, clusters: Map<Seq<char>, u16>) -> Layout {
    Layout { contents: content_views(contents), clusters }
}

/// The views of a list of paths.
pub open spec fn path_views(paths: Seq<String>) -> Seq<Seq<char>> {
    Seq::new(paths.len(), |i: int| paths[i]@)
}

/// Add an empty content; the result is its index.
fn grow(contents: &mut Vec<PlannedContent>, content_type: u16, is_game: bool) -> (index: u16)
    ensures
        content_views(final(contents)@) == content_views(old(contents)@).push(
            new_content(old(contents)@.len() as int, content_type, is_game),
        ),
        index == new_content(old(contents)@.len() as int, content_type, is_game).index,
{
    let index: u16 = (contents.len() % 0x1_0000) as u16;
    let content = PlannedContent {
        index,
        content_type,
        files: Vec::new(),
        data_len: 0,
        is_game,
    };
    assert(content@.files =~= Seq::<PlacedView>::empty());
    contents.push(content);
    assert(content_views(contents@) =~= content_views(old(contents)@).push(
        new_content(old(contents)@.len() as int, content_type, is_game),
    ));
    index
}

/// Put all of `paths` into one new content; without paths there is none.
fn share(
    contents: &mut Vec<PlannedContent>,
    clusters: &mut Clusters,
    paths: Vec<String>,
    content_type: u16,
)
    ensures
        layout_view(final(contents)@, final(clusters)@) == layout_view(
            old(contents)@,
            old(clusters)@,
        ).shared(path_views(paths@), content_type),
{
    if paths.len() == 0 {
        return;
    }
    let ghost l0 = layout_view(contents@, clusters@).grown(content_type, false);
    let ghost views = path_views(paths@);
    let index: u16 = grow(contents, content_type, false);
    let mut i: usize = 0;
    while i < paths.len()
        invariant
            i <= paths@.len(),
            views == path_views(paths@),
            l0.contents.len() > 0,
            l0.contents.last().index == index,
            layout_view(contents@, clusters@) == l0.filed_all(views, i as int),
            l0.filed_all(views, i as int).contents == l0.contents,
        decreases paths@.len() - i,
    {
        clusters.insert(paths[i].clone(), index);
        i += 1;
    }
}

/// Put each of `paths` into a new content of its own.
fn separate(
    contents: &mut Vec<PlannedContent>,
    clusters: &mut Clusters,
    paths: Vec<String>,
    content_type: u16,
)
    ensures
        layout_view(final(contents)@, final(clusters)@) == layout_view(
            old(contents)@,
            old(clusters)@,
        ).separate(path_views(paths@), content_type, paths@.len() as int),
{
    let ghost l0 = layout_view(contents@, clusters@);
    let ghost views = path_views(paths@);
    let mut i: usize = 0;
    while i < paths.len()
        invariant
            i <= paths@.len(),
            views == path_views(paths@),
            layout_view(contents@, clusters@) == l0.separate(views, content_type, i as int),
        decreases paths@.len() - i,
    {
        let index: u16 = grow(contents, content_type, false);
        clusters.insert(paths[i].clone(), index);
        i += 1;
    }
}

/// Whether the directory holds a regular file of that name.
fn holds_file(entries: &Vec<StagedEntry>, name: &str) -> (r: bool)
    ensures
        r == has_file(entries@, name@),
{
    let mut i: usize = 0;
    while i < entries.len()
        invariant
            i <= entries@.len(),
            forall|j: int|
                0 <= j < i ==> !((#[trigger] entries@[j]).is_regular() && entries@[j].name_view()
                    == name@),
        decreases entries@.len() - i,
    {
        if entries[i].regular() && text_equal(entries[i].name().as_str(), name) {
            return true;
        }
        i += 1;
    }
    false
}

/// The views of a list of names.
pub open spec fn name_views(names: Seq<&str>) -> Seq<Seq<char>> {
    Seq::new(names.len(), |i: int| names[i]@)
}

/// The paths of those of `names` that the directory holds as regular files.
fn present_paths(dir: &str, entries: &Vec<StagedEntry>, names: &[&str]) -> (paths: Vec<String>)
    ensures
        path_views(paths@) == present(dir@, entries@, name_views(names@), names@.len() as int),
{
    let ghost views = name_views(names@);
    let mut paths: Vec<String> = Vec::new();
    let mut i: usize = 0;
    assert(path_views(paths@) =~= present(dir@, entries@, views, 0));
    while i < names.len()
        invariant
            i <= names@.len(),
            views == name_views(names@),
            path_views(paths@) == present(dir@, entries@, views, i as int),
        decreases names@.len() - i,
    {
        let ghost before = paths@;
        if holds_file(entries, names[i]) {
            paths.push(text_join(dir, names[i]));
            assert(path_views(paths@) =~= path_views(before).push(dir@ + views[i as int]));
        }
        i += 1;
    }
    paths
}

/// The paths of the regular files without a content, in listing order.
fn leftover_paths(
    dir: &str,
    entries: &Vec<StagedEntry>,
    lead: Lead,
    taken: &Clusters,
) -> (paths: Vec<String>)
    ensures
        path_views(paths@) == leftover(
            dir@,
            entries@,
            listing(entries@, lead),
            taken@,
            listing(entries@, lead).len() as int,
        ),
        paths@.len() <= entries@.len(),
{
    let order: Vec<usize> = list_order(entries, lead);
    let mut paths: Vec<String> = Vec::new();
    let mut i: usize = 0;
    assert(path_views(paths@) =~= leftover(dir@, entries@, order@, taken@, 0));
    while i < order.len()
        invariant
            i <= order@.len(),
            forall|j: int| 0 <= j < order@.len() ==> (#[trigger] order@[j]) < entries@.len(),
            path_views(paths@) == leftover(dir@, entries@, order@, taken@, i as int),
            paths@.len() <= i,
        decreases order@.len() - i,
    {
        let ghost before = paths@;
        let entry: &StagedEntry = &entries[order[i]];
        let path: String = text_join(dir, entry.name().as_str());
        if entry.regular() && taken.get(path.as_str()).is_none() {
            let ghost text = path@;
            paths.push(path);
            assert(path_views(paths@) =~= path_views(before).push(text));
        }
        i += 1;
    }
    paths
}

/// The views of a list of files.
pub open spec fn file_views(files: Seq<(String, u64)>) -> Seq<(Seq<char>, u64)> {
    Seq::new(files.len(), |i: int| (files[i].0@, files[i].1))
}

/// All files of a directory and below it, in the order of the file system table.
fn collect_files(prefix: &str, entries: &Vec<StagedEntry>) -> (files: Vec<(String, u64)>)
    ensures
        file_views(files@) == files_below(prefix@, entries@),
    decreases entries,
{
    let order: Vec<usize> = list_order(entries, Lead::DiscImages);
    let ghost all = files_below(prefix@, entries@);
    let mut files: Vec<(String, u64)> = Vec::new();
    let mut i: usize = 0;
    assert(file_views(files@) + files_from(prefix@, entries@, order@, 0) =~= all);
    while i < order.len()
        invariant
            i <= order@.len(),
            order@.len() == entries@.len(),
            forall|j: int| 0 <= j < order@.len() ==> (#[trigger] order@[j]) < entries@.len(),
            file_views(files@) + files_from(prefix@, entries@, order@, i as int) == all,
        decreases order@.len() - i,
    {
        let ghost before = file_views(files@);
        let ghost rest = files_from(prefix@, entries@, order@, i + 1);
        let entry: &StagedEntry = &entries[order[i]];
        match entry {
            StagedEntry::File { name, size, .. } => {
                files.push((text_join(prefix, name.as_str()), *size));
                assert(file_views(files@) + rest =~= before + (seq![(prefix@ + name@, *size)]
                    + rest));
            },
            StagedEntry::Dir { name, entries: below } => {
                let dir: String = text_join(prefix, name.as_str());
                let deeper: String = text_join(dir.as_str(), "/");
                let mut found: Vec<(String, u64)> = collect_files(deeper.as_str(), below);
                let ghost here = file_views(found@);
                files.append(&mut found);
                assert(file_views(files@) =~= before + here);
                assert(file_views(files@) + rest =~= before + (here + rest));
            },
        }
        i += 1;
    }
    assert(file_views(files@) =~= all);
    files
}

/// What a package can weigh: as many sectors as 32 bits can number, but for the few that stand
/// apart. Within it no offset, size or count overflows its field.
pub const WEIGHT_LIMIT: u64 = 0x7FFF_FFE0_0000;

/// The files that a listing yields from `i` on weigh no more than what is listed there.
proof fn lemma_files_weight(
    prefix: Seq<char>,
    entries: Seq<StagedEntry>,
    order: Seq<usize>,
    i: int,
)
    requires
        0 <= i <= order.len(),
        forall|j: int| 0 <= j < order.len() ==> (#[trigger] order[j]) < entries.len(),
        entries.len() <= usize::MAX,
    ensures
        files_from(prefix, entries, order, i).len() * 0x8020 <= listed_weight(entries, order)
            - listed_weight(entries, order.subrange(0, i)),
        forall|k: int|
            0 <= k < files_from(prefix, entries, order, i).len() ==> (#[trigger] files_from(
                prefix,
                entries,
                order,
                i,
            )[k]).1 <= listed_weight(entries, order) - listed_weight(entries, order.subrange(0, i)),
    decreases entries, order.len() - i,
{
    lemma_listed_prefix(entries, order, i);
    if i < order.len() {
        let entry = entries[order[i] as int];
        let rest = files_from(prefix, entries, order, i + 1);
        let all = files_from(prefix, entries, order, i);
        lemma_files_weight(prefix, entries, order, i + 1);
        lemma_listed_step(entries, order, i);
        lemma_listed_prefix(entries, order, i + 1);
        lemma_weight_of(entry);
        match entry {
            StagedEntry::File { name, size, .. } => {
                assert(all =~= seq![(prefix + name@, size)] + rest);
            },
            StagedEntry::Dir { name, entries: below } => {
                let deeper = prefix + name@ + "/"@;
                let sub = listing(below@, Lead::DiscImages);
                lemma_vec_len(&below);
                lemma_order_bounds(below@, Lead::DiscImages, below@.len() as int);
                lemma_listing_weight(below@, Lead::DiscImages, below@.len() as int);
                lemma_files_weight(deeper, below@, sub, 0);
                assert(sub.subrange(0, 0) =~= Seq::<usize>::empty());
                let here = files_from(deeper, below@, sub, 0);
                assert(all =~= here + rest);
            },
        }
    }
}

/// A vector's length fits the machine.
pub proof fn lemma_vec_len<T>(v: &Vec<T>)
    ensures
        v@.len() <= usize::MAX,
{
    assert(v.len() == v@.len());
}

/// Whether a file of `size` bytes joins the content being filled.
pub open spec fn joins(current: Option<u16>, current_size: int, size: u64) -> bool {
    current is Some && current_size + rounded_up(size as int, 0x20) <= MAX_GAME_CONTENT_BYTES
}

/// How far the game contents have been filled.
pub struct GameGrouping {
    /// The content being filled, if any.
    pub current: Option<u16>,
    /// Bytes already assigned to it.
    pub current_size: u64,
}

impl GameGrouping {
    /// Nothing filled yet.
    pub fn new() -> (r: Self)
        ensures
            r.current is None,
            r.current_size == 0,
    {
        GameGrouping { current: None, current_size: 0 }
    }

    /// The content that a game file of `size` bytes joins; a new one where the current one is
    /// full or there is none.
    pub fn content_for(&mut self, size: u64, contents: &mut Vec<PlannedContent>) -> (index: u16)
        requires
            size <= WEIGHT_LIMIT,
            old(self).current_size <= WEIGHT_LIMIT + 0x20,
        ensures
            final(self).current == Some(index),
            final(self).current_size <= WEIGHT_LIMIT + 0x20,
            if joins(old(self).current, old(self).current_size as int, size) {
                &&& old(self).current == Some(index)
                &&& final(self).current_size == old(self).current_size + rounded_up(
                    size as int,
                    0x20,
                )
                &&& content_views(final(contents)@) == content_views(old(contents)@)
            } else {
                &&& index == new_content(old(contents)@.len() as int, TYPE_HASHED, true).index
                &&& final(self).current_size == rounded_up(size as int, 0x20)
                &&& content_views(final(contents)@) == content_views(old(contents)@).push(
                    new_content(old(contents)@.len() as int, TYPE_HASHED, true),
                )
            },
    {
        proof {
            lemma_rounded_up(size as int, 0x20);
        }
        let placed: u64 = align_up(size, OFFSET_FACTOR as u64);
        match self.current {
            Some(index) => {
                if self.current_size + placed <= MAX_GAME_CONTENT_BYTES {
                    self.current_size = self.current_size + placed;
                    return index;
                }
            },
            None => {},
        }
        let index: u16 = grow(contents, TYPE_HASHED, true);
        self.current = Some(index);
        self.current_size = placed;
        index
    }
}

/// Put the game files into their contents.
fn pack_game(
    contents: &mut Vec<PlannedContent>,
    clusters: &mut Clusters,
    content: &Vec<StagedEntry>,
)
    requires
        weight(content@) <= WEIGHT_LIMIT,
    ensures
        layout_view(final(contents)@, final(clusters)@) == with_game(
            layout_view(old(contents)@, old(clusters)@),
            content@,
        ),
{
    let files: Vec<(String, u64)> = collect_files("content/", content);
    let ghost views = file_views(files@);
    proof {
        let order = listing(content@, Lead::DiscImages);
        lemma_vec_len(content);
        lemma_order_bounds(content@, Lead::DiscImages, content@.len() as int);
        lemma_listing_weight(content@, Lead::DiscImages, content@.len() as int);
        lemma_files_weight("content/"@, content@, order, 0);
        assert(order.subrange(0, 0) =~= Seq::<usize>::empty());
        assert forall|k: int| 0 <= k < files@.len() implies (#[trigger] files@[k]).1
            <= WEIGHT_LIMIT by {
            assert(views[k].1 == files@[k].1);
        }
    }
    let ghost start = Packing {
        layout: layout_view(contents@, clusters@),
        current: None,
        current_size: 0,
    };
    let mut game = GameGrouping::new();
    let mut i: usize = 0;
    while i < files.len()
        invariant
            i <= files@.len(),
            views == file_views(files@),
            forall|k: int| 0 <= k < files@.len() ==> (#[trigger] files@[k]).1 <= WEIGHT_LIMIT,
            game.current_size <= WEIGHT_LIMIT + 0x20,
            start.packed_all(views, i as int) == (Packing {
                layout: layout_view(contents@, clusters@),
                current: game.current,
                current_size: game.current_size as int,
            }),
        decreases files@.len() - i,
    {
        let ghost before = layout_view(contents@, clusters@);
        let size: u64 = files[i].1;
        let index: u16 = game.content_for(size, contents);
        clusters.insert(files[i].0.clone(), index);
        i += 1;
        assert(views[i - 1].0 == files@[i - 1].0@ && views[i - 1].1 == size);
    }
}

/// The entries of the table and the contents with the files placed so far.
#[verifier::ext_equal]
pub struct Flat {
    pub nodes: Seq<NodeView>,
    pub contents: Seq<ContentView>,
}

/// A content with one more file behind the others, its offset aligned to 0x20.
pub open spec fn with_file(c: ContentView, path: Seq<char>, size: u64) -> ContentView {
    let offset = rounded_up(c.data_len as int, 0x20) as u64;
    ContentView {
        index: c.index,
        content_type: c.content_type,
        files: c.files.push(PlacedView { path, offset, size }),
        data_len: (offset + size) as u64,
        is_game: c.is_game,
    }
}

/// The entry of a directory.
pub open spec fn dir_node(name: Seq<char>, flags: u16, parent: u32, end: u32, cluster: u16) -> NodeView {
    NodeView {
        name,
        kind: FstNodeKind::Dir { parent_index: parent, end_index: end },
        type_flags: 0,
        flags,
        cluster,
    }
}

impl Flat {
    /// A file is placed in its content and gets an entry.
    pub open spec fn filed(
        self,
        name: Seq<char>,
        path: Seq<char>,
        size: u64,
        cluster: u16,
        flags: u16,
    ) -> Flat {
        let c = self.contents[cluster as int];
        Flat {
            nodes: self.nodes.push(
                NodeView {
                    name,
                    kind: FstNodeKind::File {
                        offset: rounded_up(c.data_len as int, 0x20) as u64,
                        size,
                    },
                    type_flags: if hif_name(name) {
                        0x02
                    } else {
                        0x00
                    },
                    flags,
                    cluster,
                },
            ),
            contents: self.contents.update(cluster as int, with_file(c, path, size)),
        }
    }

    /// A directory is opened; its end and its cluster are not known yet.
    pub open spec fn opened(self, name: Seq<char>, flags: u16, parent: u32) -> Flat {
        Flat { nodes: self.nodes.push(dir_node(name, flags, parent, 0, 0)), contents: self.contents }
    }

    /// The directory at `at` is closed: it ends here, and its cluster is that of its first child.
    pub open spec fn closed(self, at: int, name: Seq<char>, flags: u16, parent: u32) -> Flat {
        Flat {
            nodes: self.nodes.update(
                at,
                dir_node(
                    name,
                    flags,
                    parent,
                    self.nodes.len() as u32,
                    if at + 1 < self.nodes.len() {
                        self.nodes[at + 1].cluster
                    } else {
                        0
                    },
                ),
            ),
            contents: self.contents,
        }
    }
}

/// The entries of a directory laid out from position `i` of its listing on, depth first. A file
/// without a content stops it; its path is the error.
pub open spec fn flattened(
    entries: Seq<StagedEntry>,
    order: Seq<usize>,
    i: int,
    prefix: Seq<char>,
    flags: u16,
    parent: u32,
    clusters: Map<Seq<char>, u16>,
    st: Flat,
) -> core::result::Result<Flat, Seq<char>>
    decreases entries, order.len() - i,
{
    if i < 0 || i >= order.len() || order[i] >= entries.len() {
        Ok(st)
    } else {
        match entries[order[i] as int] {
            StagedEntry::File { name, size, .. } => {
                let path = prefix + name@;
                if clusters.contains_key(path) {
                    flattened(
                        entries,
                        order,
                        i + 1,
                        prefix,
                        flags,
                        parent,
                        clusters,
                        st.filed(name@, path, size, clusters[path], flags),
                    )
                } else {
                    Err(path)
                }
            },
            StagedEntry::Dir { name, entries: below } => {
                let at = st.nodes.len() as int;
                match flattened(
                    below@,
                    listing(below@, Lead::DiscImages),
                    0,
                    prefix + name@ + "/"@,
                    flags,
                    at as u32,
                    clusters,
                    st.opened(name@, flags, parent),
                ) {
                    Err(path) => Err(path),
                    Ok(inner) => flattened(
                        entries,
                        order,
                        i + 1,
                        prefix,
                        flags,
                        parent,
                        clusters,
                        inner.closed(at, name@, flags, parent),
                    ),
                }
            },
        }
    }
}

/// One of the top directories laid out below the root; an empty one is left out.
pub open spec fn top_flattened(
    name: Seq<char>,
    entries: Option<Vec<StagedEntry>>,
    flags: u16,
    clusters: Map<Seq<char>, u16>,
    st: core::result::Result<Flat, Seq<char>>,
) -> core::result::Result<Flat, Seq<char>> {
    match (st, entries) {
        (Ok(flat), Some(list)) => if list@.len() == 0 {
            st
        } else {
            let at = flat.nodes.len() as int;
            match flattened(
                list@,
                listing(list@, Lead::DiscImages),
                0,
                name + "/"@,
                flags,
                at as u32,
                clusters,
                flat.opened(name, flags, 0),
            ) {
                Ok(inner) => Ok(inner.closed(at, name, flags, 0)),
                Err(path) => Err(path),
            }
        },
        _ => st,
    }
}

/// The whole tree laid out: the root, then `code`, `content` and `meta`.
pub open spec fn tree_of(build: StagedBuild) -> core::result::Result<Flat, Seq<char>> {
    let layout = layout_of(build);
    let root = Flat {
        nodes: seq![dir_node(Seq::empty(), 0, 0, 0, 0)],
        contents: layout.contents,
    };
    let code = top_flattened("code"@, build.code, 0x0000, layout.clusters, Ok(root));
    let content = top_flattened("content"@, build.content, 0x0400, layout.clusters, code);
    match top_flattened("meta"@, build.meta, 0x0040, layout.clusters, content) {
        Ok(flat) => Ok(
            Flat {
                nodes: flat.nodes.update(
                    0,
                    dir_node(Seq::empty(), 0, 0, flat.nodes.len() as u32, 0),
                ),
                contents: flat.contents,
            },
        ),
        Err(path) => Err(path),
    }
}

/// The sectors that a content takes, at least one.
pub open spec fn sectors_of(c: ContentView) -> int {
    rounded_up(
        if c.data_len == 0 {
            1
        } else {
            c.data_len as int
        },
        0x8000,
    ) / 0x8000
}

/// The sectors of the first `n` contents.
pub open spec fn sectors_upto(contents: Seq<ContentView>, n: int) -> int
    decreases n,
{
    if n <= 0 {
        0
    } else {
        sectors_upto(contents, n - 1) + sectors_of(contents[n - 1])
    }
}

/// The descriptor of content `i`: game contents belong to the title's disc and carry its group
/// id, the others have no owner.
pub open spec fn descriptor(contents: Seq<ContentView>, title_id: u64, i: int) -> FstContent {
    let c = contents[i];
    FstContent {
        offset_sectors: low32(sectors_upto(contents, i)),
        size_sectors: low32(sectors_of(c)),
        owner_title_id: if c.is_game {
            (0x0005_0000_0000_0000 + title_id % 0x1_0000_0000) as u64
        } else {
            0
        },
        group_id: if c.is_game {
            (title_id % 0x1_0000) as u32
        } else if c.content_type == TYPE_HASHED {
            0x0400
        } else {
            0
        },
        flags: if c.is_game || c.content_type == TYPE_HASHED {
            0x0200
        } else {
            0x0100
        },
    }
}

/// The title owns its game contents, and no others: an installer hangs on game data without an
/// owner.
pub proof fn law_game_contents_are_owned(contents: Seq<ContentView>, title_id: u64, i: int)
    requires
        0 <= i < contents.len(),
    ensures
        descriptor(contents, title_id, i).owner_title_id != 0 <==> contents[i].is_game,
        contents[i].is_game ==> descriptor(contents, title_id, i).group_id == title_id % 0x1_0000,
{
}

/// The length of the file system table of a laid-out tree.
pub open spec fn table_len(flat: Flat) -> nat {
    0x20 + flat.contents.len() * 0x20 + flat.nodes.len() * 0x10 + names_bytes(
        flat.nodes,
        flat.nodes.len() as int,
    ).len()
}

/// The contents of a laid-out tree, content 0 as long as the table that it is to hold.
pub open spec fn sized(flat: Flat) -> Seq<ContentView> {
    flat.contents.update(
        0,
        ContentView { data_len: table_len(flat) as u64, ..flat.contents[0] },
    )
}

/// The file system table of a laid-out tree.
pub open spec fn table_of(flat: Flat, title_id: u64) -> FstView {
    FstView {
        offset_factor: OFFSET_FACTOR,
        contents: Seq::new(
            flat.contents.len(),
            |i: int| descriptor(sized(flat), title_id, i),
        ),
        nodes: flat.nodes,
    }
}

/// The planned contents: those of the tree, content 0 holding the table.
pub open spec fn planned(flat: Flat, title_id: u64) -> Seq<ContentView> {
    flat.contents.update(
        0,
        ContentView {
            data_len: fst_bytes(table_of(flat, title_id)).len() as u64,
            ..flat.contents[0]
        },
    )
}

/// Every content's descriptor states the sectors that the content takes, the table's own
/// counted, and those of all contents in front of it. Content 0 is as long as the table.
pub proof fn law_descriptors_state_the_sectors(flat: Flat, title_id: u64, i: int)
    requires
        0 <= i < flat.contents.len(),
        sectors_upto(planned(flat, title_id), i + 1) <= u32::MAX,
    ensures
        ({
            let contents = planned(flat, title_id);
            let table = table_of(flat, title_id);
            &&& table.contents.len() == contents.len()
            &&& table.contents[i].size_sectors == sectors_of(contents[i])
            &&& table.contents[i].offset_sectors == sectors_upto(contents, i)
            &&& fst_bytes(table).len() == table_len(flat)
        }),
{
    let contents = planned(flat, title_id);
    lemma_fst_len(table_of(flat, title_id));
    assert(contents == sized(flat));
    lemma_sectors(contents, i, i + 1);
    lemma_sectors(contents, 0, i);
}

/// Whether a descriptor says of a content what it has to: who owns it, its group, how it is
/// stored, and how many sectors it takes, at least one. The number is stored in 32 bits.
pub open spec fn describes(d: FstContent, c: ContentView, title_id: u64) -> bool {
    &&& if c.is_game {
        &&& d.owner_title_id == 0x0005_0000_0000_0000u64 | (title_id & 0xFFFF_FFFFu64)
        &&& d.group_id == title_id & 0xFFFFu64
        &&& d.flags == 0x0200
    } else if c.content_type == TYPE_HASHED {
        d.owner_title_id == 0 && d.group_id == 0x0400 && d.flags == 0x0200
    } else {
        d.owner_title_id == 0 && d.group_id == 0 && d.flags == 0x0100
    }
    &&& d.size_sectors == low32(sectors_of(c))
    &&& sectors_of(c) <= u32::MAX ==> d.size_sectors == sectors_of(c)
}

/// Whether content `i` is said to begin where the one before it ends. The sector is stored in 32
/// bits.
pub open spec fn begins_behind(
    read: Seq<FstContent>,
    contents: Seq<ContentView>,
    i: int,
) -> bool {
    let end = read[i - 1].offset_sectors + read[i - 1].size_sectors;
    &&& read[i].offset_sectors == low32(end)
    &&& sectors_upto(contents, i) <= u32::MAX ==> read[i].offset_sectors == end
}

proof fn lemma_described(
    contents: Seq<ContentView>,
    read: Seq<FstContent>,
    title_id: u64,
    i: int,
)
    requires
        0 <= i < contents.len(),
        read[i] == descriptor(contents, title_id, i),
        i > 0 ==> read[i - 1] == descriptor(contents, title_id, i - 1),
    ensures
        describes(read[i], contents[i], title_id),
        i > 0 ==> begins_behind(read, contents, i),
{
    lemma_owner(title_id);
    lemma_sectors(contents, i, i + 1);
    lemma_sectors(contents, 0, i);
    if i > 0 {
        lemma_sectors(contents, i - 1, i);
        lemma_sectors(contents, 0, i - 1);
    }
}

/// The table of a plan, read back, has a descriptor for every content, in order. The contents
/// follow one another, the first at sector 0.
pub proof fn law_table_describes_the_contents(flat: Flat, title_id: u64)
    requires
        0 < flat.contents.len() <= u32::MAX,
    ensures
        ({
            let contents = planned(flat, title_id);
            let read = parsed_fst(fst_bytes(table_of(flat, title_id))).contents;
            &&& read.len() == contents.len()
            &&& forall|i: int|
                0 <= i < contents.len() ==> describes(#[trigger] read[i], contents[i], title_id)
            &&& read[0].offset_sectors == 0
            &&& forall|i: int|
                0 < i < contents.len() ==> #[trigger] begins_behind(read, contents, i)
        }),
{
    let contents = planned(flat, title_id);
    let table = table_of(flat, title_id);
    let read = parsed_fst(fst_bytes(table)).contents;
    lemma_fst_len(table);
    assert(contents =~= sized(flat));
    law_descriptors_read_back(table, Seq::empty());
    assert(fst_bytes(table) + Seq::<u8>::empty() =~= fst_bytes(table));
    assert(read == table.contents);
    assert forall|i: int| 0 <= i < contents.len() implies describes(
        #[trigger] read[i],
        contents[i],
        title_id,
    ) by {
        lemma_described(contents, read, title_id, i);
    }
    assert forall|i: int| 0 < i < contents.len() implies #[trigger] begins_behind(
        read,
        contents,
        i,
    ) by {
        lemma_described(contents, read, title_id, i);
    }
    assert(read[0] == descriptor(contents, title_id, 0));
}

/// The owner and the group of game data, put together bit by bit.
proof fn lemma_owner(title_id: u64)
    ensures
        0x0005_0000_0000_0000u64 | (title_id & 0xFFFF_FFFFu64) == 0x0005_0000_0000_0000 + title_id
            % 0x1_0000_0000,
        title_id & 0xFFFFu64 == title_id % 0x1_0000,
{
    assert(0x0005_0000_0000_0000u64 | (title_id & 0xFFFF_FFFFu64) == 0x0005_0000_0000_0000u64
        + title_id % 0x1_0000_0000u64) by (bit_vector);
    assert(title_id & 0xFFFFu64 == title_id % 0x1_0000u64) by (bit_vector);
}

/// The bytes in all contents.
pub open spec fn total_len(contents: Seq<ContentView>, n: int) -> int
    decreases n,
{
    if n <= 0 {
        0
    } else {
        total_len(contents, n - 1) + contents[n - 1].data_len
    }
}

pub proof fn lemma_total_len_update(contents: Seq<ContentView>, n: int, at: int, c: ContentView)
    requires
        0 <= n <= contents.len(),
        0 <= at < contents.len(),
    ensures
        total_len(contents.update(at, c), n) == total_len(contents, n) + if at < n {
            c.data_len - contents[at].data_len
        } else {
            0
        },
        at < n ==> 0 <= contents[at].data_len <= total_len(contents, n),
        0 <= total_len(contents, n),
    decreases n,
{
    if n > 0 {
        lemma_total_len_update(contents, n - 1, at, c);
    }
}

/// Whether every assigned content exists, and none of them is that of the table as long as all
/// contents can be told apart.
pub open spec fn clustered(clusters: Map<Seq<char>, u16>, count: int) -> bool {
    forall|p: Seq<char>| #[trigger]
        clusters.contains_key(p) ==> clusters[p] < count && (count <= 0x1_0000 ==> 0 < clusters[p])
}

/// Place a file in its content and give it an entry.
fn place_file(
    nodes: &mut Vec<FstNode>,
    contents: &mut Vec<PlannedContent>,
    name: &String,
    path: String,
    size: u64,
    cluster: u16,
    flags: u16,
)
    requires
        cluster < old(contents)@.len(),
        old(contents)@[cluster as int].data_len + 0x40 + size <= u64::MAX,
    ensures
        (Flat { nodes: node_views(final(nodes)@), contents: content_views(final(contents)@) })
            == (Flat {
            nodes: node_views(old(nodes)@),
            contents: content_views(old(contents)@),
        }).filed(name@, path@, size, cluster, flags),
        final(nodes)@.len() == old(nodes)@.len() + 1,
        final(contents)@.len() == old(contents)@.len(),
{
    let ghost st = Flat { nodes: node_views(nodes@), contents: content_views(contents@) };
    let ghost text = path@;
    let at: usize = cluster as usize;
    let before: u64 = contents[at].data_len;
    proof {
        lemma_rounded_up(before as int, 0x20);
    }
    let offset: u64 = align_up(before, OFFSET_FACTOR as u64);
    let c = &mut contents[at];
    c.files.push(PlacedFile { path, offset, size });
    c.data_len = offset + size;
    let node = FstNode {
        name: name.clone(),
        kind: FstNodeKind::File { offset, size },
        type_flags: if is_hif(name.as_str()) {
            0x02
        } else {
            0x00
        },
        flags,
        cluster,
    };
    nodes.push(node);
    proof {
        let want = st.filed(name@, text, size, cluster, flags);
        assert(content_views(contents@)[at as int].files =~= want.contents[at as int].files);
        assert(content_views(contents@) =~= want.contents);
        assert(node_views(nodes@) =~= want.nodes);
    }
}

/// Open a directory's entry.
fn open_dir(nodes: &mut Vec<FstNode>, name: &str, flags: u16, parent: u32)
    ensures
        node_views(final(nodes)@) == node_views(old(nodes)@).push(
            dir_node(name@, flags, parent, 0, 0),
        ),
{
    let node = FstNode {
        name: String::from_str(name),
        kind: FstNodeKind::Dir { parent_index: parent, end_index: 0 },
        type_flags: 0,
        flags,
        cluster: 0,
    };
    nodes.push(node);
    assert(node_views(nodes@) =~= node_views(old(nodes)@).push(
        dir_node(name@, flags, parent, 0, 0),
    ));
}

/// Close the directory entry at `at`.
fn close_dir(nodes: &mut Vec<FstNode>, at: usize, name: &str, flags: u16, parent: u32)
    requires
        at < old(nodes)@.len() <= u32::MAX,
    ensures
        node_views(final(nodes)@) == node_views(old(nodes)@).update(
            at as int,
            dir_node(
                name@,
                flags,
                parent,
                old(nodes)@.len() as u32,
                if at + 1 < old(nodes)@.len() {
                    old(nodes)@[at + 1].cluster
                } else {
                    0
                },
            ),
        ),
{
    let end: u32 = nodes.len() as u32;
    let cluster: u16 = if at + 1 < nodes.len() {
        nodes[at + 1].cluster
    } else {
        0
    };
    let node = FstNode {
        name: String::from_str(name),
        kind: FstNodeKind::Dir { parent_index: parent, end_index: end },
        type_flags: 0,
        flags,
        cluster,
    };
    let ghost before = node_views(nodes@);
    nodes.set(at, node);
    assert(node_views(nodes@) =~= before.update(
        at as int,
        dir_node(name@, flags, parent, end, cluster),
    ));
}

/// The state of laying out, as a mathematical value.
pub open spec fn flat_view(nodes: Seq<FstNode>, contents: Seq<PlannedContent>) -> Flat {
    Flat { nodes: node_views(nodes), contents: content_views(contents) }
}

/// The bytes in all contents of a layout state.
pub open spec fn flat_len(contents: Seq<PlannedContent>) -> int {
    total_len(content_views(contents), contents.len() as int)
}

/// Lay out the entries of a directory, depth first, placing each file in its content. `used`
/// bounds what has been laid out so far.
fn flatten(
    entries: &Vec<StagedEntry>,
    prefix: &str,
    flags: u16,
    parent: u32,
    clusters: &Clusters,
    nodes: &mut Vec<FstNode>,
    contents: &mut Vec<PlannedContent>,
    Ghost(used): Ghost<int>,
) -> (r: Result<()>)
    requires
        clustered(clusters@, old(contents)@.len() as int),
        flat_len(old(contents)@) <= used,
        old(nodes)@.len() * 0x8000 <= used,
        used + weight(entries@) <= WEIGHT_LIMIT + 0x10_0000,
    ensures
        ({
            let done = flattened(
                entries@,
                listing(entries@, Lead::DiscImages),
                0,
                prefix@,
                flags,
                parent,
                clusters@,
                flat_view(old(nodes)@, old(contents)@),
            );
            match r {
                Ok(_) => {
                    &&& done == Ok::<Flat, Seq<char>>(flat_view(final(nodes)@, final(contents)@))
                    &&& final(contents)@.len() == old(contents)@.len()
                    &&& final(nodes)@.len() >= old(nodes)@.len()
                    &&& flat_len(final(contents)@) <= used + weight(entries@)
                    &&& final(nodes)@.len() * 0x8000 <= used + weight(entries@)
                },
                Err(e) => {
                    &&& done is Err
                    &&& e matches Error::UnsupportedDisc(DiscFault::Unassigned(path)) && path@
                        == done->Err_0
                },
            }
        }),
    decreases entries,
{
    let order: Vec<usize> = list_order(entries, Lead::DiscImages);
    let ghost count = contents@.len();
    let ghost done = flattened(
        entries@,
        order@,
        0,
        prefix@,
        flags,
        parent,
        clusters@,
        flat_view(nodes@, contents@),
    );
    proof {
        lemma_vec_len(entries);
        lemma_listing_weight(entries@, Lead::DiscImages, entries@.len() as int);
        assert(order@.subrange(0, 0) =~= Seq::<usize>::empty());
    }
    let mut i: usize = 0;
    while i < order.len()
        invariant
            i <= order@.len(),
            order@ == listing(entries@, Lead::DiscImages),
            forall|j: int| 0 <= j < order@.len() ==> (#[trigger] order@[j]) < entries@.len(),
            count == contents@.len(),
            count == old(contents)@.len(),
            nodes@.len() >= old(nodes)@.len(),
            clustered(clusters@, count as int),
            listed_weight(entries@, order@) == weight(entries@),
            used + weight(entries@) <= WEIGHT_LIMIT + 0x10_0000,
            flat_len(contents@) <= used + listed_weight(
                entries@,
                order@.subrange(0, i as int),
            ),
            nodes@.len() * 0x8000 <= used + listed_weight(
                entries@,
                order@.subrange(0, i as int),
            ),
            done == flattened(
                entries@,
                order@,
                i as int,
                prefix@,
                flags,
                parent,
                clusters@,
                flat_view(nodes@, contents@),
            ),
            done == flattened(
                entries@,
                listing(entries@, Lead::DiscImages),
                0,
                prefix@,
                flags,
                parent,
                clusters@,
                flat_view(old(nodes)@, old(contents)@),
            ),
        decreases order@.len() - i,
    {
        let entry: &StagedEntry = &entries[order[i]];
        let ghost sofar = used + listed_weight(entries@, order@.subrange(0, i as int));
        proof {
            lemma_listed_step(entries@, order@, i as int);
            lemma_listed_prefix(entries@, order@, i as int);
            lemma_listed_prefix(entries@, order@, i + 1);
            lemma_weight_of(*entry);
        }
        match entry {
            StagedEntry::File { name, size, .. } => {
                let path: String = text_join(prefix, name.as_str());
                match clusters.get(path.as_str()) {
                    None => return Err(Error::UnsupportedDisc(DiscFault::Unassigned(path))),
                    Some(cluster) => {
                        proof {
                            let c = with_file(
                                content_views(contents@)[cluster as int],
                                path@,
                                *size,
                            );
                            lemma_total_len_update(
                                content_views(contents@),
                                count as int,
                                cluster as int,
                                c,
                            );
                            lemma_rounded_up(contents@[cluster as int].data_len as int, 0x20);
                        }
                        place_file(nodes, contents, name, path, *size, cluster, flags);
                    },
                }
            },
            StagedEntry::Dir { name, entries: below } => {
                let at: usize = nodes.len();
                let ghost st = flat_view(nodes@, contents@);
                let dir: String = text_join(prefix, name.as_str());
                let deeper: String = text_join(dir.as_str(), "/");
                open_dir(nodes, name.as_str(), flags, parent);
                assert(flat_view(nodes@, contents@) =~= st.opened(name@, flags, parent));
                assert(node_views(nodes@).len() == at + 1);
                match flatten(
                    below,
                    deeper.as_str(),
                    flags,
                    at as u32,
                    clusters,
                    nodes,
                    contents,
                    Ghost(sofar + 0x8020),
                ) {
                    Ok(_) => {},
                    Err(e) => return Err(e),
                }
                let ghost inner = flat_view(nodes@, contents@);
                close_dir(nodes, at, name.as_str(), flags, parent);
                assert(flat_view(nodes@, contents@) =~= inner.closed(
                    at as int,
                    name@,
                    flags,
                    parent,
                ));
            },
        }
        i += 1;
    }
    assert(order@.subrange(0, i as int) =~= order@);
    Ok(())
}

/// Whether every assigned content exists, the contents are numbered and hold nothing yet, and the
/// first of them is that of the table.
pub open spec fn sound(l: Layout) -> bool {
    &&& l.contents.len() > 0
    &&& l.contents[0].content_type == TYPE_NONHASHED
    &&& clustered(l.clusters, l.contents.len() as int)
    &&& forall|i: int|
        0 <= i < l.contents.len() ==> {
            &&& (#[trigger] l.contents[i]).index == i % 0x1_0000
            &&& l.contents[i].data_len == 0
            &&& l.contents[i].files.len() == 0
        }
}

/// Whether no content holds game data.
pub open spec fn gameless(l: Layout) -> bool {
    forall|i: int| 0 <= i < l.contents.len() ==> !(#[trigger] l.contents[i]).is_game
}

proof fn lemma_filed_all(l: Layout, paths: Seq<Seq<char>>, n: int)
    requires
        sound(l),
        l.contents.len() >= 2,
    ensures
        sound(l.filed_all(paths, n)),
        l.filed_all(paths, n).contents == l.contents,
    decreases n,
{
    if n > 0 {
        lemma_filed_all(l, paths, n - 1);
    }
}

pub proof fn lemma_shared(l: Layout, paths: Seq<Seq<char>>, content_type: u16)
    requires
        sound(l),
    ensures
        sound(l.shared(paths, content_type)),
        gameless(l) ==> gameless(l.shared(paths, content_type)),
        l.shared(paths, content_type).contents.len() <= l.contents.len() + 1,
{
    lemma_filed_all(l.grown(content_type, false), paths, paths.len() as int);
}

pub proof fn lemma_separate(l: Layout, paths: Seq<Seq<char>>, content_type: u16, n: int)
    requires
        sound(l),
        0 <= n,
    ensures
        sound(l.separate(paths, content_type, n)),
        gameless(l) ==> gameless(l.separate(paths, content_type, n)),
        l.separate(paths, content_type, n).contents.len() == l.contents.len() + n,
    decreases n,
{
    if n > 0 {
        lemma_separate(l, paths, content_type, n - 1);
    }
}

proof fn lemma_packed_all(p: Packing, files: Seq<(Seq<char>, u64)>, n: int)
    requires
        sound(p.layout),
        p.current matches Some(index) ==> index < p.layout.contents.len() && (
        p.layout.contents.len() <= 0x1_0000 ==> 0 < index),
        0 <= n,
    ensures
        sound(p.packed_all(files, n).layout),
        p.packed_all(files, n).current matches Some(index) ==> index < p.packed_all(
            files,
            n,
        ).layout.contents.len() && (p.packed_all(files, n).layout.contents.len() <= 0x1_0000 ==> 0
            < index),
        p.packed_all(files, n).layout.contents.len() <= p.layout.contents.len() + n,
    decreases n,
{
    if n > 0 {
        lemma_packed_all(p, files, n - 1);
    }
}

proof fn lemma_present_len(dir: Seq<char>, entries: Seq<StagedEntry>, names: Seq<Seq<char>>, n: int)
    requires
        0 <= n,
    ensures
        present(dir, entries, names, n).len() <= n,
    decreases n,
{
    if n > 0 {
        lemma_present_len(dir, entries, names, n - 1);
    }
}

proof fn lemma_leftover_len(
    dir: Seq<char>,
    entries: Seq<StagedEntry>,
    order: Seq<usize>,
    taken: Map<Seq<char>, u16>,
    n: int,
)
    requires
        0 <= n,
    ensures
        leftover(dir, entries, order, taken, n).len() <= n,
    decreases n,
{
    if n > 0 {
        lemma_leftover_len(dir, entries, order, taken, n - 1);
    }
}

/// Up to the game data no content holds any, and the contents are no more than the weight of
/// the build allows.
pub proof fn lemma_layout_before_game(build: StagedBuild)
    ensures
        sound(layout_before_game(build)),
        gameless(layout_before_game(build)),
        layout_before_game(build).contents.len() * 0x8000 <= dir_weight(build.code) + dir_weight(
            build.meta,
        ) + 8 * 0x8000,
{
    let l0 = Layout::start();
    assert(sound(l0));
    let l1 = match build.code {
        Some(code) => with_code_heads(l0, code@),
        None => l0,
    };
    if let Some(code) = build.code {
        let names = seq!["app.xml"@, "cos.xml"@];
        lemma_present_len("code/"@, code@, names, 2);
        let paths = present("code/"@, code@, names, 2);
        lemma_separate(l0, paths, TYPE_NONHASHED, paths.len() as int);
        lemma_weight_bounds(code@, code@.len() as int);
    }
    let l2 = match build.meta {
        Some(meta) => with_meta(l1, meta@),
        None => l1,
    };
    if let Some(meta) = build.meta {
        lemma_meta(l1, meta@);
        lemma_weight_bounds(meta@, meta@.len() as int);
    }
    if let Some(code) = build.code {
        let order = listing(code@, Lead::Programs);
        lemma_vec_len(&code);
        lemma_order_bounds(code@, Lead::Programs, code@.len() as int);
        lemma_leftover_len("code/"@, code@, order, l2.clusters, order.len() as int);
        let rest = leftover("code/"@, code@, order, l2.clusters, order.len() as int);
        lemma_separate(l2, rest, TYPE_NONHASHED, rest.len() as int);
    }
}

/// The contents of a layout are no more than the weight of the build allows.
pub proof fn lemma_layout(build: StagedBuild)
    ensures
        sound(layout_of(build)),
        layout_of(build).contents.len() * 0x8000 <= build.total_weight() + 8 * 0x8000,
{
    lemma_layout_before_game(build);
    if let Some(content) = build.content {
        let files = files_below("content/"@, content@);
        let order = listing(content@, Lead::DiscImages);
        lemma_vec_len(&content);
        lemma_order_bounds(content@, Lead::DiscImages, content@.len() as int);
        lemma_listing_weight(content@, Lead::DiscImages, content@.len() as int);
        lemma_files_weight("content/"@, content@, order, 0);
        assert(order.subrange(0, 0) =~= Seq::<usize>::empty());
        lemma_packed_all(
            Packing { layout: layout_before_game(build), current: None, current_size: 0 },
            files,
            files.len() as int,
        );
    }
}

pub proof fn lemma_meta(l: Layout, meta: Seq<StagedEntry>)
    requires
        sound(l),
    ensures
        sound(with_meta(l, meta)),
        gameless(l) ==> gameless(with_meta(l, meta)),
        with_meta(l, meta).contents.len() <= l.contents.len() + 5,
{
    let dir = "meta/"@;
    let alone = present(dir, meta, seq!["meta.xml"@], 1);
    let l1 = l.shared(alone, TYPE_HASHED);
    lemma_shared(l, alone, TYPE_HASHED);
    let boot = present(
        dir,
        meta,
        seq!["iconTex.tga"@, "bootTvTex.tga"@, "bootDrcTex.tga"@, "bootSound.btsnd"@],
        4,
    );
    let l2 = l1.shared(boot, TYPE_HASHED);
    lemma_shared(l1, boot, TYPE_HASHED);
    let names = seq!["bootMovie.h264"@, "bootLogoTex.tga"@];
    let singles = present(dir, meta, names, 2);
    lemma_present_len(dir, meta, names, 2);
    let l3 = l2.separate(singles, TYPE_HASHED, singles.len() as int);
    lemma_separate(l2, singles, TYPE_HASHED, singles.len() as int);
    let order = listing(meta, Lead::Nothing);
    let rest = leftover(dir, meta, order, l3.clusters, order.len() as int);
    lemma_shared(l3, rest, TYPE_HASHED);
}

/// Lay out one of the top directories below the root; an empty one is left out.
fn flatten_top(
    name: &str,
    entries: &Option<Vec<StagedEntry>>,
    flags: u16,
    clusters: &Clusters,
    nodes: &mut Vec<FstNode>,
    contents: &mut Vec<PlannedContent>,
    Ghost(used): Ghost<int>,
) -> (r: Result<()>)
    requires
        clustered(clusters@, old(contents)@.len() as int),
        flat_len(old(contents)@) <= used,
        old(nodes)@.len() * 0x8000 <= used,
        used + 0x8000 + dir_weight(*entries) <= WEIGHT_LIMIT + 0x10_0000,
    ensures
        ({
            let done = top_flattened(
                name@,
                *entries,
                flags,
                clusters@,
                Ok(flat_view(old(nodes)@, old(contents)@)),
            );
            let extra = 0x8000 + dir_weight(*entries);
            match r {
                Ok(_) => {
                    &&& done == Ok::<Flat, Seq<char>>(flat_view(final(nodes)@, final(contents)@))
                    &&& final(contents)@.len() == old(contents)@.len()
                    &&& final(nodes)@.len() >= old(nodes)@.len()
                    &&& flat_len(final(contents)@) <= used + extra
                    &&& final(nodes)@.len() * 0x8000 <= used + extra
                },
                Err(e) => {
                    &&& done is Err
                    &&& e matches Error::UnsupportedDisc(DiscFault::Unassigned(path)) && path@
                        == done->Err_0
                },
            }
        }),
{
    match entries {
        None => Ok(()),
        Some(list) => {
            proof {
                lemma_weight_bounds(list@, list@.len() as int);
            }
            if list.len() == 0 {
                return Ok(());
            }
            let at: usize = nodes.len();
            let ghost st = flat_view(nodes@, contents@);
            let prefix: String = text_join(name, "/");
            open_dir(nodes, name, flags, 0);
            assert(flat_view(nodes@, contents@) =~= st.opened(name@, flags, 0));
            assert(node_views(nodes@).len() == at + 1);
            match flatten(
                list,
                prefix.as_str(),
                flags,
                at as u32,
                clusters,
                nodes,
                contents,
                Ghost(used + 0x8000),
            ) {
                Ok(_) => {},
                Err(e) => return Err(e),
            }
            let ghost inner = flat_view(nodes@, contents@);
            close_dir(nodes, at, name, flags, 0);
            assert(flat_view(nodes@, contents@) =~= inner.closed(at as int, name@, flags, 0));
            assert(node_views(nodes@).len() == inner.nodes.len());
            Ok(())
        },
    }
}

proof fn lemma_sectors(contents: Seq<ContentView>, n: int, m: int)
    requires
        0 <= n <= m <= contents.len(),
    ensures
        n <= sectors_upto(contents, n) <= sectors_upto(contents, m),
        sectors_upto(contents, m) * 0x8000 <= total_len(contents, m) + m * 0x8000,
    decreases m,
{
    if m > 0 {
        let c = contents[m - 1];
        lemma_rounded_up(
            if c.data_len == 0 {
                1
            } else {
                c.data_len as int
            },
            0x8000,
        );
        lemma_sectors(contents, if n < m {
            n
        } else {
            m - 1
        }, m - 1);
    }
}

proof fn lemma_total_len_zero(contents: Seq<ContentView>, n: int)
    requires
        0 <= n <= contents.len(),
        forall|i: int| 0 <= i < contents.len() ==> (#[trigger] contents[i]).data_len == 0,
    ensures
        total_len(contents, n) == 0,
    decreases n,
{
    if n > 0 {
        lemma_total_len_zero(contents, n - 1);
    }
}

/// The content descriptors of the table.
fn describe(contents: &Vec<PlannedContent>, title_id: u64) -> (out: Vec<FstContent>)
    ensures
        out@ == Seq::new(
            contents@.len(),
            |i: int| descriptor(content_views(contents@), title_id, i),
        ),
{
    let ghost views = content_views(contents@);
    let owner: u64 = 0x0005_0000_0000_0000 + title_id % 0x1_0000_0000;
    let group: u32 = (title_id % 0x1_0000) as u32;
    let mut out: Vec<FstContent> = Vec::with_capacity(contents.len());
    let mut cursor: u32 = 0;
    let mut i: usize = 0;
    while i < contents.len()
        invariant
            i <= contents@.len(),
            views == content_views(contents@),
            owner == 0x0005_0000_0000_0000 + title_id % 0x1_0000_0000,
            group == title_id % 0x1_0000,
            cursor == low32(sectors_upto(views, i as int)),
            out@.len() == i,
            forall|j: int| 0 <= j < i ==> out@[j] == #[trigger] descriptor(views, title_id, j),
        decreases contents@.len() - i,
    {
        let c: &PlannedContent = &contents[i];
        let len: u64 = if c.data_len == 0 {
            1
        } else {
            c.data_len
        };
        let sectors: u64 = (len - 1) / SECTOR + 1;
        proof {
            lemma_rounded_up(len as int, 0x8000);
        }
        assert(sectors == sectors_of(views[i as int]));
        let size: u32 = (sectors % 0x1_0000_0000) as u32;
        let hashed: bool = c.content_type == TYPE_HASHED;
        out.push(
            FstContent {
                offset_sectors: cursor,
                size_sectors: size,
                owner_title_id: if c.is_game {
                    owner
                } else {
                    0
                },
                group_id: if c.is_game {
                    group
                } else if hashed {
                    0x0400
                } else {
                    0
                },
                flags: if c.is_game || hashed {
                    0x0200
                } else {
                    0x0100
                },
            },
        );
        assert(out@[i as int] == descriptor(views, title_id, i as int));
        cursor = cursor.wrapping_add(size);
        i += 1;
    }
    assert(out@ =~= Seq::new(contents@.len(), |i: int| descriptor(views, title_id, i)));
    out
}

/// Decide the contents and which one each staged file belongs to.
fn lay_out(build: &StagedBuild) -> (r: (Vec<PlannedContent>, Clusters))
    requires
        build.total_weight() <= WEIGHT_LIMIT,
    ensures
        layout_view(r.0@, r.1@) == layout_of(*build),
{
    proof {
        lemma_dir_weight(build.code);
        lemma_dir_weight(build.content);
        lemma_dir_weight(build.meta);
    }
    let mut contents: Vec<PlannedContent> = Vec::new();
    let mut clusters: Clusters = Clusters::new();
    grow(&mut contents, TYPE_NONHASHED, false);
    assert(layout_view(contents@, clusters@).contents =~= Layout::start().contents);
    if let Some(code) = &build.code {
        let paths: Vec<String> = present_paths("code/", code, &["app.xml", "cos.xml"]);
        assert(name_views(["app.xml", "cos.xml"]@) =~= seq!["app.xml"@, "cos.xml"@]);
        separate(&mut contents, &mut clusters, paths, TYPE_NONHASHED);
    }
    if let Some(meta) = &build.meta {
        plan_meta(&mut contents, &mut clusters, meta);
    }
    if let Some(code) = &build.code {
        let rest: Vec<String> = leftover_paths("code/", code, Lead::Programs, &clusters);
        separate(&mut contents, &mut clusters, rest, TYPE_NONHASHED);
    }
    if let Some(content) = &build.content {
        pack_game(&mut contents, &mut clusters, content);
    }
    (contents, clusters)
}

/// Lay out the whole tree over the contents of its layout.
fn lay_out_tree(
    build: &StagedBuild,
    clusters: &Clusters,
    contents: &mut Vec<PlannedContent>,
) -> (r: Result<Vec<FstNode>>)
    requires
        build.total_weight() <= WEIGHT_LIMIT,
        layout_view(old(contents)@, clusters@) == layout_of(*build),
    ensures
        match r {
            Ok(nodes) => {
                &&& tree_of(*build) == Ok::<Flat, Seq<char>>(flat_view(nodes@, final(contents)@))
                &&& final(contents)@.len() == old(contents)@.len()
            },
            Err(e) => {
                &&& tree_of(*build) matches Err(lost)
                &&& e matches Error::UnsupportedDisc(DiscFault::Unassigned(path)) && path@ == lost
            },
        },
{
    proof {
        lemma_layout(*build);
        lemma_dir_weight(build.code);
        lemma_dir_weight(build.content);
        lemma_dir_weight(build.meta);
        assert(content_views(contents@).len() == contents@.len());
        lemma_total_len_zero(content_views(contents@), contents@.len() as int);
    }
    let mut nodes: Vec<FstNode> = Vec::new();
    open_dir(&mut nodes, "", 0, 0);
    proof {
        reveal_strlit("");
        assert(node_views(nodes@).len() == 1);
        assert(""@ =~= Seq::<char>::empty());
        assert(node_views(nodes@) =~= seq![dir_node(Seq::empty(), 0, 0, 0, 0)]);
    }
    let ghost used1: int = 0x8000;
    match flatten_top("code", &build.code, 0x0000, clusters, &mut nodes, contents, Ghost(used1)) {
        Ok(_) => {},
        Err(e) => return Err(e),
    }
    let ghost used2: int = used1 + 0x8000 + dir_weight(build.code);
    match flatten_top(
        "content",
        &build.content,
        0x0400,
        clusters,
        &mut nodes,
        contents,
        Ghost(used2),
    ) {
        Ok(_) => {},
        Err(e) => return Err(e),
    }
    let ghost used3: int = used2 + 0x8000 + dir_weight(build.content);
    match flatten_top("meta", &build.meta, 0x0040, clusters, &mut nodes, contents, Ghost(used3)) {
        Ok(_) => {},
        Err(e) => return Err(e),
    }
    let ghost before = flat_view(nodes@, contents@);
    let total: u32 = nodes.len() as u32;
    let root = FstNode {
        name: String::new(),
        kind: FstNodeKind::Dir { parent_index: 0, end_index: total },
        type_flags: 0,
        flags: 0,
        cluster: 0,
    };
    nodes.set(0, root);
    assert(node_views(nodes@) =~= before.nodes.update(
        0,
        dir_node(Seq::empty(), 0, 0, before.nodes.len() as u32, 0),
    ));
    Ok(nodes)
}

/// Plan the package of a staged build. The title id gives the owner and the group of the game
/// contents. A file that no content takes, such as one below a directory in `code/` or `meta/`,
/// is an error.
pub fn plan(build: &StagedBuild, title_id: u64) -> (r: Result<PackagePlan>)
    requires
        build.total_weight() <= WEIGHT_LIMIT,
    ensures
        match r {
            Ok(p) => {
                &&& tree_of(*build) matches Ok(flat)
                &&& p.fst@ == fst_bytes(table_of(flat, title_id))
                &&& content_views(p.contents@) == planned(flat, title_id)
            },
            Err(e) => {
                &&& tree_of(*build) matches Err(lost)
                &&& e matches Error::UnsupportedDisc(DiscFault::Unassigned(path)) && path@ == lost
            },
        },
{
    let (mut contents, clusters): (Vec<PlannedContent>, Clusters) = lay_out(build);
    proof {
        lemma_layout(*build);
        assert(content_views(contents@).len() == contents@.len());
    }
    let nodes: Vec<FstNode> = match lay_out_tree(build, &clusters, &mut contents) {
        Ok(nodes) => nodes,
        Err(e) => return Err(e),
    };
    let ghost flat = flat_view(nodes@, contents@);
    // The length of the table does not depend on the sectors that it states, its own among them.
    let draft = Fst { offset_factor: OFFSET_FACTOR, contents: describe(&contents, title_id), nodes };
    let len: usize = draft.serialize().len();
    proof {
        assert(draft@.nodes == flat.nodes);
        lemma_fst_len(draft@);
        lemma_fst_len(table_of(flat, title_id));
    }
    let head = &mut contents[0];
    head.data_len = len as u64;
    assert(content_views(contents@) =~= sized(flat));
    let table = Fst {
        offset_factor: OFFSET_FACTOR,
        contents: describe(&contents, title_id),
        nodes: draft.nodes,
    };
    assert(table@ =~= table_of(flat, title_id));
    let fst: Vec<u8> = table.serialize();
    assert(content_views(contents@) =~= planned(flat, title_id));
    Ok(PackagePlan { fst, contents })
}

/// Put the files of `meta/` into their contents.
fn plan_meta(contents: &mut Vec<PlannedContent>, clusters: &mut Clusters, meta: &Vec<StagedEntry>)
    ensures
        layout_view(final(contents)@, final(clusters)@) == with_meta(
            layout_view(old(contents)@, old(clusters)@),
            meta@,
        ),
{
    let alone: Vec<String> = present_paths("meta/", meta, &["meta.xml"]);
    assert(name_views(["meta.xml"]@) =~= seq!["meta.xml"@]);
    share(contents, clusters, alone, TYPE_HASHED);
    let boot: Vec<String> = present_paths(
        "meta/",
        meta,
        &["iconTex.tga", "bootTvTex.tga", "bootDrcTex.tga", "bootSound.btsnd"],
    );
    assert(name_views(["iconTex.tga", "bootTvTex.tga", "bootDrcTex.tga", "bootSound.btsnd"]@)
        =~= seq!["iconTex.tga"@, "bootTvTex.tga"@, "bootDrcTex.tga"@, "bootSound.btsnd"@]);
    share(contents, clusters, boot, TYPE_HASHED);
    let singles: Vec<String> = present_paths("meta/", meta, &["bootMovie.h264", "bootLogoTex.tga"]);
    assert(name_views(["bootMovie.h264", "bootLogoTex.tga"]@) =~= seq![
        "bootMovie.h264"@,
        "bootLogoTex.tga"@,
    ]);
    separate(contents, clusters, singles, TYPE_HASHED);
    let rest: Vec<String> = leftover_paths("meta/", meta, Lead::Nothing, clusters);
    share(contents, clusters, rest, TYPE_HASHED);
}

/// The table counts the offsets of files in units of 32 bytes.
pub proof fn law_offsets_are_counted_in_units(flat: Flat, title_id: u64)
    ensures
        table_of(flat, title_id).offset_factor == 32,
        table_of(flat, title_id).nodes == flat.nodes,
        table_of(flat, title_id).contents.len() == flat.contents.len(),
{
}

/// A content takes as many sectors of 0x8000 bytes as hold it, and no more, but at least one. The
/// sectors of several contents add up.
pub proof fn law_sectors_hold_the_content(contents: Seq<ContentView>, i: int)
    requires
        0 <= i < contents.len(),
    ensures
        ({
            let c = contents[i];
            let n = sectors_of(c);
            &&& n >= 1
            &&& c.data_len <= n * 0x8000
            &&& n > 1 ==> (n - 1) * 0x8000 < c.data_len
            &&& sectors_upto(contents, i + 1) == sectors_upto(contents, i) + n
            &&& sectors_upto(contents, 0) == 0
        }),
{
    let c = contents[i];
    lemma_rounded_up(
        if c.data_len == 0 {
            1
        } else {
            c.data_len as int
        },
        0x8000,
    );
}

/// A plan has the contents of the tree; the first of them, and no other, gets the length of the
/// table.
pub proof fn law_plan_has_the_contents_of_the_tree(flat: Flat, title_id: u64, i: int)
    requires
        0 <= i < flat.contents.len(),
        fst_bytes(table_of(flat, title_id)).len() <= u64::MAX,
    ensures
        ({
            let c = planned(flat, title_id)[i];
            &&& planned(flat, title_id).len() == flat.contents.len()
            &&& i > 0 ==> c == flat.contents[i]
            &&& i == 0 ==> {
                &&& c.data_len == fst_bytes(table_of(flat, title_id)).len()
                &&& c.index == flat.contents[0].index
                &&& c.content_type == flat.contents[0].content_type
                &&& c.files == flat.contents[0].files
                &&& c.is_game == flat.contents[0].is_game
            }
        }),
{
}

} // verus!

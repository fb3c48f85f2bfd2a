//! What packaging and extracting keep: the files of a staged build come out of its package as
//! they went in.

use vstd::prelude::*;

use crate::base::escapes;
use crate::package::content::{
    clustered, dir_node, flattened, layout_of, lemma_layout, lemma_total_len_update, lemma_vec_len,
    planned, table_of, top_flattened, total_len, tree_of, with_file, ContentView, Flat, PlacedView,
    TYPE_HASHED, WEIGHT_LIMIT,
};
use crate::package::content_crypto::{law_decoded_content_keeps_its_h3, padded};
use crate::package::extract::{
    below, closed_before, content_at, content_fault, dir_end, extracts, given,
    node_gives, node_path, open_after, parents_of, plain_of, record_of, record_upto,
    ExtractedView, Stop, TitleView,
};
use crate::package::fst::{
    fst_bytes, fst_readable, fst_storable, law_fst_round_trip, parsed_fst, FstNodeKind, FstView,
    NodeView,
};
use crate::package::plaintext::{
    apart, assembled, content_stream, end_of, law_files_stand_at_their_offsets,
    law_stream_matches_assembly, lemma_apart, sizes_hold,
};
use crate::package::staging::{
    dir_weight, lemma_dir_weight, lemma_listed_prefix, lemma_listed_step, lemma_listing_weight,
    lemma_order_bounds, lemma_weight_of, listed_weight, listing, weight_of, Lead, StagedBuild,
    StagedEntry,
};
use crate::package::tmd::ContentRecord;
use crate::package::{content_plain, content_written, padding_of};
use crate::util::{lemma_rounded_up, rounded_up};

verus! {

/// Whether the nodes from `a` up to `b` are nested: every directory among them ends among them,
/// and what lies in it is nested too.
pub open spec fn forest(nodes: Seq<NodeView>, a: int, b: int) -> bool
    decreases b - a,
{
    if a >= b {
        a == b
    } else {
        match nodes[a].kind {
            FstNodeKind::File { .. } => forest(nodes, a + 1, b),
            FstNodeKind::Dir { end_index, .. } => a < end_index <= b && forest(
                nodes,
                a + 1,
                end_index as int,
            ) && forest(nodes, end_index as int, b),
        }
    }
}

/// The path of node `k` of the nested nodes from `a` up to `b`, which lie in `dir`.
pub open spec fn path_in(nodes: Seq<NodeView>, a: int, b: int, dir: Seq<char>, k: int) -> Seq<char>
    decreases b - a,
{
    if a >= b || k < a {
        Seq::empty()
    } else if k == a {
        below(dir, nodes[a].name)
    } else {
        match nodes[a].kind {
            FstNodeKind::Dir { end_index, .. } if a < end_index <= b => if k < end_index {
                path_in(nodes, a + 1, end_index as int, below(dir, nodes[a].name), k)
            } else {
                path_in(nodes, end_index as int, b, dir, k)
            },
            _ => path_in(nodes, a + 1, b, dir, k),
        }
    }
}

/// Nestedness and paths depend only on the nodes in question.
proof fn lemma_agree(m: Seq<NodeView>, n: Seq<NodeView>, a: int, b: int, dir: Seq<char>, k: int)
    requires
        forall|i: int| a <= i < b ==> m[i] == n[i],
    ensures
        forest(m, a, b) == forest(n, a, b),
        path_in(m, a, b, dir, k) == path_in(n, a, b, dir, k),
    decreases b - a,
{
    if a < b {
        assert(m[a] == n[a]);
        match m[a].kind {
            FstNodeKind::File { .. } => {
                lemma_agree(m, n, a + 1, b, dir, k);
            },
            FstNodeKind::Dir { end_index, .. } => {
                if a < end_index <= b {
                    lemma_agree(m, n, a + 1, end_index as int, below(dir, m[a].name), k);
                    lemma_agree(m, n, end_index as int, b, dir, k);
                } else {
                    lemma_agree(m, n, a + 1, b, dir, k);
                }
            },
        }
    }
}

/// Nested nodes followed by nested nodes are nested.
proof fn lemma_forest_concat(nodes: Seq<NodeView>, a: int, m: int, b: int, dir: Seq<char>, k: int)
    requires
        a <= m <= b,
        forest(nodes, a, m),
        forest(nodes, m, b),
    ensures
        forest(nodes, a, b),
        a <= k < m ==> path_in(nodes, a, b, dir, k) == path_in(nodes, a, m, dir, k),
        m <= k < b ==> path_in(nodes, a, b, dir, k) == path_in(nodes, m, b, dir, k),
    decreases m - a,
{
    if a < m {
        match nodes[a].kind {
            FstNodeKind::File { .. } => {
                lemma_forest_concat(nodes, a + 1, m, b, dir, k);
            },
            FstNodeKind::Dir { end_index, .. } => {
                lemma_forest_concat(nodes, end_index as int, m, b, dir, k);
            },
        }
    }
}

proof fn lemma_closed_twice(nodes: Seq<NodeView>, stack: Seq<int>, i: int)
    ensures
        closed_before(nodes, closed_before(nodes, stack, i), i) == closed_before(nodes, stack, i),
    decreases stack.len(),
{
    if stack.len() > 0 && dir_end(nodes, stack.last()) <= i % 0x1_0000_0000 {
        lemma_closed_twice(nodes, stack.drop_last(), i);
    }
}

/// What an extraction takes for the path of a node is its path in the nest.
#[verifier::rlimit(40)]
proof fn lemma_nested_paths(nodes: Seq<NodeView>, a: int, b: int, stack: Seq<int>, dir: Seq<char>)
    requires
        forest(nodes, a, b),
        1 <= a <= b <= nodes.len() <= u32::MAX,
        parents_of(nodes, a) == stack,
        forall|i: int| 0 <= i < stack.len() ==> 0 <= #[trigger] stack[i] < a && dir_end(
            nodes,
            stack[i],
        ) >= b,
        dir == if stack.len() == 0 {
            Seq::<char>::empty()
        } else {
            node_path(nodes, stack.last())
        },
    ensures
        forall|k: int| a <= k < b ==> #[trigger] node_path(nodes, k) == path_in(nodes, a, b, dir, k),
        parents_of(nodes, b) == closed_before(nodes, stack, b),
    decreases b - a,
{
    if a == b {
        lemma_closed_twice(nodes, open_after(nodes, a - 1), a);
    } else {
        let name = nodes[a].name;
        assert(node_path(nodes, a) == below(dir, name)) by {
            if stack.len() > 0 {
                assert(stack.last() == stack[stack.len() - 1]);
            } else {
                assert(below(dir, name) == name);
            }
        }
        match nodes[a].kind {
            FstNodeKind::File { .. } => {
                assert(open_after(nodes, a) == stack);
                if a + 1 < b {
                    assert(parents_of(nodes, a + 1) == stack) by {
                        if stack.len() > 0 {
                            assert(stack.last() == stack[stack.len() - 1]);
                        }
                    }
                    lemma_nested_paths(nodes, a + 1, b, stack, dir);
                }
                assert forall|k: int| a <= k < b implies #[trigger] node_path(nodes, k) == path_in(
                    nodes,
                    a,
                    b,
                    dir,
                    k,
                ) by {}
            },
            FstNodeKind::Dir { end_index, .. } => {
                let e = end_index as int;
                let inner = stack.push(a);
                assert(open_after(nodes, a) == inner);
                assert(dir_end(nodes, a) == e);
                assert(inner.last() == a);
                assert(inner.drop_last() =~= stack);
                if a + 1 < e {
                    assert(parents_of(nodes, a + 1) == inner);
                    assert forall|i: int| 0 <= i < inner.len() implies 0 <= #[trigger] inner[i] < a
                        + 1 && dir_end(nodes, inner[i]) >= e by {
                        if i < stack.len() {
                            assert(inner[i] == stack[i]);
                        }
                    }
                    lemma_nested_paths(nodes, a + 1, e, inner, below(dir, name));
                }
                assert(parents_of(nodes, e) == closed_before(nodes, inner, e));
                assert(closed_before(nodes, inner, e) == closed_before(nodes, stack, e));
                if e < b {
                    assert(parents_of(nodes, e) == stack) by {
                        if stack.len() > 0 {
                            assert(stack.last() == stack[stack.len() - 1]);
                        }
                    }
                    lemma_nested_paths(nodes, e, b, stack, dir);
                }
                assert forall|k: int| a <= k < b implies #[trigger] node_path(nodes, k) == path_in(
                    nodes,
                    a,
                    b,
                    dir,
                    k,
                ) by {}
            },
        }
    }
}

/// Something that a staged directory holds.
#[verifier::ext_equal]
pub enum StagedItem {
    /// A directory, by its path.
    Dir(Seq<char>),
    /// A file, by its path and its name.
    File { path: Seq<char>, name: Seq<char> },
}

/// The path of an item.
pub open spec fn item_path(item: StagedItem) -> Seq<char> {
    match item {
        StagedItem::Dir(path) => path,
        StagedItem::File { path, .. } => path,
    }
}

/// What a directory holds from position `i` of its listing on, every directory followed by what
/// it holds.
pub open spec fn items_from(
    entries: Seq<StagedEntry>,
    order: Seq<usize>,
    i: int,
    prefix: Seq<char>,
) -> Seq<StagedItem>
    decreases entries, order.len() - i,
{
    if i < 0 || i >= order.len() || order[i] >= entries.len() {
        Seq::empty()
    } else {
        let here = match entries[order[i] as int] {
            StagedEntry::File { name, .. } => seq![
                StagedItem::File { path: prefix + name@, name: name@ },
            ],
            StagedEntry::Dir { name, entries: inside } => seq![StagedItem::Dir(prefix + name@)]
                + items_from(
                inside@,
                listing(inside@, Lead::DiscImages),
                0,
                prefix + name@ + "/"@,
            ),
        };
        here + items_from(entries, order, i + 1, prefix)
    }
}

/// What one of the top directories holds, that directory first; nothing where it is missing or
/// empty.
pub open spec fn top_items(name: Seq<char>, entries: Option<Vec<StagedEntry>>) -> Seq<StagedItem> {
    match entries {
        Some(list) => if list@.len() == 0 {
            Seq::empty()
        } else {
            seq![StagedItem::Dir(name)] + items_from(
                list@,
                listing(list@, Lead::DiscImages),
                0,
                name + "/"@,
            )
        },
        None => Seq::empty(),
    }
}

/// What a staged build holds.
pub open spec fn build_items(build: StagedBuild) -> Seq<StagedItem> {
    top_items("code"@, build.code) + top_items("content"@, build.content) + top_items(
        "meta"@,
        build.meta,
    )
}

/// Whether the files of a content stand apart, aligned, from its start to no further than its
/// end.
pub open spec fn tidy(c: ContentView) -> bool {
    &&& apart(c.files)
    &&& forall|j: int| 0 <= j < c.files.len() ==> end_of(#[trigger] c.files[j]) <= c.data_len
    &&& forall|j: int| 0 <= j < c.files.len() ==> (#[trigger] c.files[j]).offset % 0x20 == 0
    &&& c.files.len() == 0 ==> c.data_len == 0
    &&& c.files.len() > 0 ==> c.files[0].offset == 0
}

/// Whether all contents are tidy.
pub open spec fn all_tidy(contents: Seq<ContentView>) -> bool {
    forall|c: int| 0 <= c < contents.len() ==> tidy(#[trigger] contents[c])
}

/// Whether `after` holds at least what `before` holds, in the same places.
pub open spec fn grew(before: Seq<ContentView>, after: Seq<ContentView>) -> bool {
    &&& before.len() == after.len()
    &&& forall|c: int|
        0 <= c < before.len() ==> {
            &&& (#[trigger] before[c]).index == after[c].index
            &&& before[c].content_type == after[c].content_type
            &&& before[c].is_game == after[c].is_game
            &&& before[c].files.len() <= after[c].files.len()
            &&& forall|j: int|
                0 <= j < before[c].files.len() ==> after[c].files[j] == #[trigger] before[c].files[j]
        }
}

/// Whether a content holds a file.
pub open spec fn holds_file(c: ContentView, f: PlacedView) -> bool {
    exists|j: int| 0 <= j < c.files.len() && #[trigger] c.files[j] == f
}

/// Whether a node is the entry of an item, and its content holds the item's file.
pub open spec fn stands_for(node: NodeView, contents: Seq<ContentView>, item: StagedItem) -> bool {
    match item {
        StagedItem::Dir(_) => node.kind is Dir,
        StagedItem::File { path, name } => {
            &&& node.kind matches FstNodeKind::File { offset, size } && node.cluster
                < contents.len() && holds_file(
                contents[node.cluster as int],
                PlacedView { path, offset, size },
            ) && (contents.len() <= 0x1_0000 ==> 0 < node.cluster)
            &&& node.name == name
        },
    }
}

proof fn lemma_grew_twice(a: Seq<ContentView>, b: Seq<ContentView>, c: Seq<ContentView>)
    requires
        grew(a, b),
        grew(b, c),
    ensures
        grew(a, c),
{
    assert forall|i: int| 0 <= i < a.len() implies {
        &&& (#[trigger] a[i]).index == c[i].index
        &&& a[i].content_type == c[i].content_type
        &&& a[i].is_game == c[i].is_game
        &&& a[i].files.len() <= c[i].files.len()
        &&& forall|j: int| 0 <= j < a[i].files.len() ==> c[i].files[j] == #[trigger] a[i].files[j]
    } by {
        assert(a[i].index == b[i].index);
        assert(b[i].index == c[i].index);
        assert forall|j: int| 0 <= j < a[i].files.len() implies c[i].files[j]
            == #[trigger] a[i].files[j] by {
            assert(b[i].files[j] == a[i].files[j]);
        }
    }
}

/// What a node stands for does not change as contents grow.
proof fn lemma_still_stands(
    node: NodeView,
    before: Seq<ContentView>,
    after: Seq<ContentView>,
    item: StagedItem,
)
    requires
        grew(before, after),
        stands_for(node, before, item),
    ensures
        stands_for(node, after, item),
{
    if let StagedItem::File { path, name } = item {
        let c = node.cluster as int;
        let f = PlacedView {
            path,
            offset: node.kind->File_offset,
            size: node.kind->File_size,
        };
        let j = choose|j: int| 0 <= j < before[c].files.len() && #[trigger] before[c].files[j] == f;
        assert(before[c].index == after[c].index);
        assert(after[c].files[j] == before[c].files[j]);
    }
}

/// Placing a file keeps the contents tidy.
pub proof fn lemma_filed(
    st: Flat,
    name: Seq<char>,
    path: Seq<char>,
    size: u64,
    cluster: u16,
    flags: u16,
    used: int,
)
    requires
        all_tidy(st.contents),
        cluster < st.contents.len(),
        st.contents.len() <= 0x1_0000 ==> 0 < cluster,
        total_len(st.contents, st.contents.len() as int) <= used,
        used + size + 0x40 <= u64::MAX,
    ensures
        ({
            let next = st.filed(name, path, size, cluster, flags);
            &&& all_tidy(next.contents)
            &&& grew(st.contents, next.contents)
            &&& total_len(next.contents, next.contents.len() as int) <= used + size + 0x20
            &&& stands_for(
                next.nodes.last(),
                next.contents,
                StagedItem::File { path, name },
            )
        }),
{
    let next = st.filed(name, path, size, cluster, flags);
    let c = st.contents[cluster as int];
    let d = with_file(c, path, size);
    assert(tidy(c));
    lemma_total_len_update(st.contents, st.contents.len() as int, cluster as int, d);
    lemma_rounded_up(c.data_len as int, 0x20);
    let offset = rounded_up(c.data_len as int, 0x20);
    assert(d.files.last().offset == offset);
    assert(tidy(d)) by {
        assert forall|i: int, j: int| 0 <= i < j < d.files.len() implies end_of(
            #[trigger] d.files[i],
        ) <= (#[trigger] d.files[j]).offset by {
            if j < c.files.len() {
                assert(end_of(c.files[i]) <= c.files[j].offset);
            } else {
                assert(end_of(c.files[i]) <= c.data_len);
            }
        }
        assert forall|j: int| 0 <= j < d.files.len() implies end_of(#[trigger] d.files[j])
            <= d.data_len by {
            if j < c.files.len() {
                assert(end_of(c.files[j]) <= c.data_len);
            }
        }
        assert forall|j: int| 0 <= j < d.files.len() implies (#[trigger] d.files[j]).offset % 0x20
            == 0 by {
            if j < c.files.len() {
                assert(c.files[j].offset % 0x20 == 0);
            }
        }
    }
    assert(all_tidy(next.contents)) by {
        assert forall|k: int| 0 <= k < next.contents.len() implies tidy(
            #[trigger] next.contents[k],
        ) by {
            if k != cluster {
                assert(next.contents[k] == st.contents[k]);
            }
        }
    }
    assert(d.files[c.files.len() as int] == (PlacedView { path, offset: offset as u64, size }));
}

/// Whether a tree can be laid out further: the contents exist and are tidy, and what was laid out
/// so far is within `used`.
pub open spec fn ready(st: Flat, clusters: Map<Seq<char>, u16>, used: int) -> bool {
    &&& clustered(clusters, st.contents.len() as int)
    &&& all_tidy(st.contents)
    &&& total_len(st.contents, st.contents.len() as int) <= used
    &&& st.nodes.len() * 0x8000 <= used
}

/// Whether laying out items that lie in `dir` leads from one state to the other: there is one
/// node per item, nested as the directories are, and every file's content holds it.
pub open spec fn laid_out(
    st: Flat,
    r: Flat,
    items: Seq<StagedItem>,
    dir: Seq<char>,
    used: int,
) -> bool {
    let at = st.nodes.len() as int;
    let end = r.nodes.len() as int;
    &&& grew(st.contents, r.contents)
    &&& all_tidy(r.contents)
    &&& total_len(r.contents, r.contents.len() as int) <= used
    &&& end * 0x8000 <= used
    &&& end == at + items.len()
    &&& forall|k: int| 0 <= k < at ==> r.nodes[k] == #[trigger] st.nodes[k]
    &&& forall|k: int|
        0 <= k < items.len() ==> stands_for(r.nodes[at + k], r.contents, #[trigger] items[k])
    &&& forest(r.nodes, at, end)
    &&& forall|k: int|
        0 <= k < items.len() ==> path_in(r.nodes, at, end, dir, at + k) == item_path(
            #[trigger] items[k],
        )
}

/// One item after another.
proof fn lemma_laid_out_twice(
    a: Flat,
    b: Flat,
    c: Flat,
    first: Seq<StagedItem>,
    second: Seq<StagedItem>,
    dir: Seq<char>,
    used: int,
    more: int,
)
    requires
        laid_out(a, b, first, dir, used),
        laid_out(b, c, second, dir, more),
    ensures
        laid_out(a, c, first + second, dir, more),
{
    let items = first + second;
    let at = a.nodes.len() as int;
    let mid = b.nodes.len() as int;
    let end = c.nodes.len() as int;
    lemma_grew_twice(a.contents, b.contents, c.contents);
    assert forall|k: int| 0 <= k < at implies c.nodes[k] == #[trigger] a.nodes[k] by {
        assert(b.nodes[k] == a.nodes[k]);
        assert(c.nodes[k] == b.nodes[k]);
    }
    assert forall|k: int| at <= k < mid implies c.nodes[k] == b.nodes[k] by {
        assert(c.nodes[k] == b.nodes[k]);
    }
    lemma_agree(c.nodes, b.nodes, at, mid, dir, 0);
    lemma_forest_concat(c.nodes, at, mid, end, dir, 0);
    assert forall|k: int| 0 <= k < items.len() implies stands_for(
        c.nodes[at + k],
        c.contents,
        #[trigger] items[k],
    ) by {
        if k < first.len() {
            assert(items[k] == first[k]);
            assert(c.nodes[at + k] == b.nodes[at + k]);
            lemma_still_stands(b.nodes[at + k], b.contents, c.contents, first[k]);
        } else {
            assert(items[k] == second[k - first.len()]);
        }
    }
    assert forall|k: int| 0 <= k < items.len() implies path_in(c.nodes, at, end, dir, at + k)
        == item_path(#[trigger] items[k]) by {
        lemma_forest_concat(c.nodes, at, mid, end, dir, at + k);
        if k < first.len() {
            assert(items[k] == first[k]);
            lemma_agree(c.nodes, b.nodes, at, mid, dir, at + k);
        } else {
            assert(items[k] == second[k - first.len()]);
        }
    }
}

/// Opening a directory, laying out what it holds and closing it lays out the directory.
pub proof fn lemma_dir_laid_out(
    st: Flat,
    inner: Flat,
    name: Seq<char>,
    flags: u16,
    parent: u32,
    inside: Seq<StagedItem>,
    dir: Seq<char>,
    used: int,
)
    requires
        laid_out(st.opened(name, flags, parent), inner, inside, below(dir, name), used),
        inner.nodes.len() <= u32::MAX,
    ensures
        laid_out(
            st,
            inner.closed(st.nodes.len() as int, name, flags, parent),
            seq![StagedItem::Dir(below(dir, name))] + inside,
            dir,
            used,
        ),
{
    let at = st.nodes.len() as int;
    let open = st.opened(name, flags, parent);
    let r = inner.closed(at, name, flags, parent);
    let end = r.nodes.len() as int;
    let here = StagedItem::Dir(below(dir, name));
    let items = seq![here] + inside;
    assert(open.nodes.len() == at + 1);
    assert forall|k: int| 0 <= k < at implies r.nodes[k] == #[trigger] st.nodes[k] by {
        assert(open.nodes[k] == st.nodes[k]);
        assert(inner.nodes[k] == open.nodes[k]);
    }
    assert forall|k: int| at + 1 <= k < end implies r.nodes[k] == inner.nodes[k] by {}
    lemma_agree(r.nodes, inner.nodes, at + 1, end, below(dir, name), 0);
    assert(forest(r.nodes, end, end));
    assert(forest(r.nodes, at, end));
    assert forall|k: int| 0 <= k < items.len() implies stands_for(
        r.nodes[at + k],
        r.contents,
        #[trigger] items[k],
    ) && path_in(r.nodes, at, end, dir, at + k) == item_path(items[k]) by {
        if k > 0 {
            assert(items[k] == inside[k - 1]);
            assert(at + k == at + 1 + (k - 1));
            lemma_agree(r.nodes, inner.nodes, at + 1, end, below(dir, name), at + k);
        }
    }
}

/// Laying out the entries of a directory lays out its items.
#[verifier::rlimit(40)]
pub proof fn lemma_flattened(
    entries: Seq<StagedEntry>,
    order: Seq<usize>,
    i: int,
    prefix: Seq<char>,
    dir: Seq<char>,
    flags: u16,
    parent: u32,
    clusters: Map<Seq<char>, u16>,
    st: Flat,
    used: int,
)
    requires
        flattened(entries, order, i, prefix, flags, parent, clusters, st) is Ok,
        0 <= i <= order.len(),
        forall|j: int| 0 <= j < order.len() ==> (#[trigger] order[j]) < entries.len(),
        prefix == dir + "/"@,
        dir.len() > 0,
        ready(st, clusters, used),
        used + listed_weight(entries, order) - listed_weight(entries, order.subrange(0, i))
            <= WEIGHT_LIMIT + 0x10_0000,
    ensures
        laid_out(
            st,
            flattened(entries, order, i, prefix, flags, parent, clusters, st)->Ok_0,
            items_from(entries, order, i, prefix),
            dir,
            used + listed_weight(entries, order) - listed_weight(entries, order.subrange(0, i)),
        ),
    decreases entries, order.len() - i,
{
    let items = items_from(entries, order, i, prefix);
    if i == order.len() {
        assert(order.subrange(0, i) =~= order);
    } else {
        assert(order[i] < entries.len());
        let entry = entries[order[i] as int];
        let rest = items_from(entries, order, i + 1, prefix);
        let total = used + listed_weight(entries, order) - listed_weight(
            entries,
            order.subrange(0, i),
        );
        let spent = used + weight_of(entry);
        lemma_listed_step(entries, order, i);
        lemma_listed_prefix(entries, order, i);
        lemma_listed_prefix(entries, order, i + 1);
        lemma_weight_of(entry);
        match entry {
            StagedEntry::File { name, size, .. } => {
                let path = prefix + name@;
                let cluster = clusters[path];
                let next = st.filed(name@, path, size, cluster, flags);
                let item = StagedItem::File { path, name: name@ };
                assert(clusters.contains_key(path));
                lemma_filed(st, name@, path, size, cluster, flags, used);
                assert(laid_out(st, next, seq![item], dir, spent)) by {
                    let at = st.nodes.len() as int;
                    assert(next.nodes[at] == next.nodes.last());
                    assert(below(dir, name@) =~= path);
                    assert(forest(next.nodes, at + 1, at + 1));
                }
                lemma_flattened(
                    entries,
                    order,
                    i + 1,
                    prefix,
                    dir,
                    flags,
                    parent,
                    clusters,
                    next,
                    spent,
                );
                let r = flattened(entries, order, i + 1, prefix, flags, parent, clusters, next)->Ok_0;
                lemma_laid_out_twice(st, next, r, seq![item], rest, dir, spent, total);
                assert(items =~= seq![item] + rest);
            },
            StagedEntry::Dir { name, entries: inside } => {
                let at = st.nodes.len() as int;
                let list = listing(inside@, Lead::DiscImages);
                let path = prefix + name@;
                let deeper = path + "/"@;
                let open = st.opened(name@, flags, parent);
                let inner = flattened(
                    inside@,
                    list,
                    0,
                    deeper,
                    flags,
                    at as u32,
                    clusters,
                    open,
                )->Ok_0;
                let held = items_from(inside@, list, 0, deeper);
                lemma_vec_len(&inside);
                lemma_order_bounds(inside@, Lead::DiscImages, inside@.len() as int);
                lemma_listing_weight(inside@, Lead::DiscImages, inside@.len() as int);
                assert(list.subrange(0, 0) =~= Seq::<usize>::empty());
                assert(below(dir, name@) =~= path);
                lemma_flattened(
                    inside@,
                    list,
                    0,
                    deeper,
                    path,
                    flags,
                    at as u32,
                    clusters,
                    open,
                    used + 0x8020,
                );
                let next = inner.closed(at, name@, flags, parent);
                lemma_dir_laid_out(st, inner, name@, flags, parent, held, dir, spent);
                let first = seq![StagedItem::Dir(path)] + held;
                lemma_flattened(
                    entries,
                    order,
                    i + 1,
                    prefix,
                    dir,
                    flags,
                    parent,
                    clusters,
                    next,
                    spent,
                );
                let r = flattened(entries, order, i + 1, prefix, flags, parent, clusters, next)->Ok_0;
                lemma_laid_out_twice(st, next, r, first, rest, dir, spent, total);
                assert(items =~= first + rest);
            },
        }
    }
}

/// Nothing to lay out changes nothing.
proof fn lemma_nothing_laid_out(st: Flat, clusters: Map<Seq<char>, u16>, dir: Seq<char>, used: int)
    requires
        ready(st, clusters, used),
    ensures
        laid_out(st, st, Seq::empty(), dir, used),
{
}

/// Laying out one of the top directories lays out its items.
pub proof fn lemma_top(
    name: Seq<char>,
    entries: Option<Vec<StagedEntry>>,
    flags: u16,
    clusters: Map<Seq<char>, u16>,
    st: Flat,
    used: int,
)
    requires
        top_flattened(name, entries, flags, clusters, Ok(st)) is Ok,
        name.len() > 0,
        ready(st, clusters, used),
        used + 0x8000 + dir_weight(entries) <= WEIGHT_LIMIT + 0x10_0000,
    ensures
        laid_out(
            st,
            top_flattened(name, entries, flags, clusters, Ok(st))->Ok_0,
            top_items(name, entries),
            Seq::empty(),
            used + 0x8000 + dir_weight(entries),
        ),
{
    lemma_dir_weight(entries);
    match entries {
        None => {
            lemma_nothing_laid_out(st, clusters, Seq::empty(), used + 0x8000);
        },
        Some(list) => {
            if list@.len() == 0 {
                lemma_nothing_laid_out(
                    st,
                    clusters,
                    Seq::empty(),
                    used + 0x8000 + dir_weight(entries),
                );
            } else {
                let at = st.nodes.len() as int;
                let order = listing(list@, Lead::DiscImages);
                let open = st.opened(name, flags, 0);
                let prefix = name + "/"@;
                let inner = flattened(
                    list@,
                    order,
                    0,
                    prefix,
                    flags,
                    at as u32,
                    clusters,
                    open,
                )->Ok_0;
                lemma_vec_len(&list);
                lemma_order_bounds(list@, Lead::DiscImages, list@.len() as int);
                lemma_listing_weight(list@, Lead::DiscImages, list@.len() as int);
                assert(order.subrange(0, 0) =~= Seq::<usize>::empty());
                lemma_flattened(
                    list@,
                    order,
                    0,
                    prefix,
                    name,
                    flags,
                    at as u32,
                    clusters,
                    open,
                    used + 0x8000,
                );
                assert(below(Seq::empty(), name) == name);
                lemma_dir_laid_out(
                    st,
                    inner,
                    name,
                    flags,
                    0,
                    items_from(list@, order, 0, prefix),
                    Seq::empty(),
                    used + 0x8000 + dir_weight(entries),
                );
            }
        },
    }
}

/// Whether a laid-out tree is that of a build: behind the root there is one node per item, whose
/// path is that of the item, and every file's content holds it.
pub open spec fn tree_holds(flat: Flat, items: Seq<StagedItem>) -> bool {
    &&& flat.nodes.len() == 1 + items.len()
    &&& flat.nodes[0].kind matches FstNodeKind::Dir { end_index, .. } && end_index
        == flat.nodes.len()
    &&& all_tidy(flat.contents)
    &&& forall|k: int|
        0 <= k < items.len() ==> stands_for(flat.nodes[1 + k], flat.contents, #[trigger] items[k])
    &&& forall|k: int|
        0 <= k < items.len() ==> node_path(flat.nodes, 1 + k) == item_path(#[trigger] items[k])
}

/// The tree of a build holds the build's directories and files, each under its path.
pub proof fn law_tree_holds_the_build(build: StagedBuild)
    requires
        build.total_weight() <= WEIGHT_LIMIT,
        tree_of(build) is Ok,
    ensures
        tree_holds(tree_of(build)->Ok_0, build_items(build)),
        grew(layout_of(build).contents, tree_of(build)->Ok_0.contents),
        total_len(tree_of(build)->Ok_0.contents, tree_of(build)->Ok_0.contents.len() as int)
            <= build.total_weight() + 0x2_0000,
{
    let layout = layout_of(build);
    let clusters = layout.clusters;
    let root = Flat {
        nodes: seq![dir_node(Seq::empty(), 0, 0, 0, 0)],
        contents: layout.contents,
    };
    lemma_layout(build);
    lemma_empty_len(layout.contents, layout.contents.len() as int);
    lemma_dir_weight(build.code);
    lemma_dir_weight(build.content);
    lemma_dir_weight(build.meta);
    let u0 = 0x8000int;
    assert(ready(root, clusters, u0)) by {
        assert forall|c: int| 0 <= c < root.contents.len() implies tidy(
            #[trigger] root.contents[c],
        ) by {
            assert(layout.contents[c].files.len() == 0);
        }
    }
    reveal_strlit("code");
    reveal_strlit("content");
    reveal_strlit("meta");
    let a = top_flattened("code"@, build.code, 0x0000, clusters, Ok(root));
    let b = top_flattened("content"@, build.content, 0x0400, clusters, a);
    let c = top_flattened("meta"@, build.meta, 0x0040, clusters, b);
    assert(a is Ok && b is Ok && c is Ok);
    let u1 = u0 + 0x8000 + dir_weight(build.code);
    let u2 = u1 + 0x8000 + dir_weight(build.content);
    let u3 = u2 + 0x8000 + dir_weight(build.meta);
    let none = Seq::<char>::empty();
    lemma_top("code"@, build.code, 0x0000, clusters, root, u0);
    lemma_top("content"@, build.content, 0x0400, clusters, a->Ok_0, u1);
    lemma_top("meta"@, build.meta, 0x0040, clusters, b->Ok_0, u2);
    lemma_laid_out_twice(
        root,
        a->Ok_0,
        b->Ok_0,
        top_items("code"@, build.code),
        top_items("content"@, build.content),
        none,
        u1,
        u2,
    );
    lemma_laid_out_twice(
        root,
        b->Ok_0,
        c->Ok_0,
        top_items("code"@, build.code) + top_items("content"@, build.content),
        top_items("meta"@, build.meta),
        none,
        u2,
        u3,
    );
    let items = build_items(build);
    let last = c->Ok_0;
    let flat = tree_of(build)->Ok_0;
    let end = flat.nodes.len() as int;
    assert(laid_out(root, last, items, none, u3));
    assert(end == 1 + items.len());
    assert(end <= u32::MAX);
    assert forall|k: int| 1 <= k < end implies flat.nodes[k] == last.nodes[k] by {}
    lemma_agree(flat.nodes, last.nodes, 1, end, none, 0);
    assert forall|k: int| 0 <= k < items.len() implies stands_for(
        flat.nodes[1 + k],
        flat.contents,
        #[trigger] items[k],
    ) by {
        assert(root.nodes.len() + k == 1 + k);
    }
    if items.len() > 0 {
        let stack = seq![0int];
        assert(open_after(flat.nodes, 0) =~= stack);
        assert(dir_end(flat.nodes, 0) == end);
        assert(parents_of(flat.nodes, 1) == stack);
        assert(node_path(flat.nodes, 0) == none);
        lemma_nested_paths(flat.nodes, 1, end, stack, none);
    }
    assert forall|k: int| 0 <= k < items.len() implies node_path(flat.nodes, 1 + k) == item_path(
        #[trigger] items[k],
    ) by {
        lemma_agree(flat.nodes, last.nodes, 1, end, none, 1 + k);
        assert(root.nodes.len() + k == 1 + k);
    }
}

pub proof fn lemma_empty_len(contents: Seq<ContentView>, n: int)
    requires
        0 <= n <= contents.len(),
        forall|c: int| 0 <= c < contents.len() ==> (#[trigger] contents[c]).data_len == 0,
    ensures
        total_len(contents, n) == 0,
    decreases n,
{
    if n > 0 {
        lemma_empty_len(contents, n - 1);
    }
}

/// Padding keeps what is padded in front, and fills up to whole units.
proof fn lemma_padded(plain: Seq<u8>, unit: int)
    requires
        0 < unit,
    ensures
        padded(plain, unit).len() > 0,
        padded(plain, unit).len() >= plain.len(),
        padded(plain, unit).len() as int % unit == 0,
        forall|o: int, e: int|
            0 <= o <= e <= plain.len() ==> #[trigger] padded(plain, unit).subrange(o, e)
                == plain.subrange(o, e),
{
    lemma_rounded_up(plain.len() as int, unit);
    if plain.len() == 0 {
        assert(unit % unit == 0) by (nonlinear_arith)
            requires
                0 < unit,
        ;
    }
    assert forall|o: int, e: int| 0 <= o <= e <= plain.len() implies #[trigger] padded(
        plain,
        unit,
    ).subrange(o, e) == plain.subrange(o, e) by {
        assert(padded(plain, unit).subrange(o, e) =~= plain.subrange(o, e));
    }
}

/// Every written content decrypts to its padded plaintext and matches the hash of its record.
pub proof fn law_written_content_decodes(
    key: Seq<u8>,
    c: ContentView,
    plain: Seq<u8>,
    cipher: Seq<u8>,
    record: ContentRecord,
)
    requires
        content_written(key, c, plain, cipher, record),
    ensures
        content_fault(record, key, cipher) is None,
        plain_of(record, key, cipher) == padded(plain, padding_of(c.content_type)),
{
    if c.content_type == TYPE_HASHED {
        law_decoded_content_keeps_its_h3(plain);
        assert(cipher.len() as int % 0x10000 == 0);
    } else {
        lemma_padded(plain, 0x8000);
        assert(cipher.len() as int % 0x8000 == 0);
        assert(cipher.len() as int % 16 == 0);
    }
}

/// The record of a content is found by its index.
proof fn lemma_record_found(records: Seq<ContentRecord>, c: int, n: int)
    requires
        0 <= c < n <= records.len() <= 0x1_0000,
        forall|i: int| 0 <= i < records.len() ==> (#[trigger] records[i]).index == i,
    ensures
        record_upto(records, c as u16, n) == Some(records[c]),
    decreases n,
{
    assert(records[n - 1].index == n - 1);
    if c < n - 1 {
        lemma_record_found(records, c, n - 1);
    }
}

/// A package as it lies before an extraction: the contents of a plan, written under the title
/// key, with their records.
pub open spec fn package_written(
    plan: Seq<ContentView>,
    fst: Seq<u8>,
    source: Map<Seq<char>, Seq<u8>>,
    key: Seq<u8>,
    records: Seq<ContentRecord>,
    ciphers: Map<u32, Seq<u8>>,
) -> bool {
    &&& records.len() == plan.len()
    &&& forall|c: int|
        0 <= c < plan.len() ==> {
            &&& ciphers.contains_key((#[trigger] plan[c]).index as u32)
            &&& content_written(
                key,
                plan[c],
                content_plain(plan[c], fst, source),
                ciphers[plan[c].index as u32],
                records[c],
            )
        }
}

/// What an extraction should find of the first `n` items of a build.
pub open spec fn wanted(
    items: Seq<StagedItem>,
    source: Map<Seq<char>, Seq<u8>>,
    skip: spec_fn(Seq<char>) -> bool,
    n: int,
) -> Seq<ExtractedView>
    decreases n,
{
    if n <= 0 {
        Seq::empty()
    } else {
        match items[n - 1] {
            StagedItem::Dir(path) => wanted(items, source, skip, n - 1).push(
                ExtractedView::Dir(path),
            ),
            StagedItem::File { path, name } => if skip(name) {
                wanted(items, source, skip, n - 1)
            } else {
                wanted(items, source, skip, n - 1).push(
                    ExtractedView::File { path, data: source[path] },
                )
            },
        }
    }
}

/// Whether the staged files are there, as long as they were when the build was planned, and none
/// of their paths leads out of the directory they are extracted to.
pub open spec fn build_stands(
    contents: Seq<ContentView>,
    items: Seq<StagedItem>,
    source: Map<Seq<char>, Seq<u8>>,
) -> bool {
    &&& forall|c: int| 0 <= c < contents.len() ==> sizes_hold((#[trigger] contents[c]).files, source)
    &&& forall|k: int| 0 <= k < items.len() ==> !escapes(item_path(#[trigger] items[k]))
}

/// A file's bytes come out of its content.
proof fn lemma_file_comes_out(
    t: TitleView,
    c: ContentView,
    fst: Seq<u8>,
    source: Map<Seq<char>, Seq<u8>>,
    record: ContentRecord,
    f: PlacedView,
)
    requires
        record_of(t.records, c.index) == Some(record),
        t.contents.contains_key(c.index as u32),
        c.index != 0,
        content_written(
            t.key,
            c,
            content_plain(c, fst, source),
            t.contents[c.index as u32],
            record,
        ),
        tidy(c),
        sizes_hold(c.files, source),
        holds_file(c, f),
    ensures
        content_at(t, c.index) matches Ok(data) && end_of(f) <= data.len() && data.subrange(
            f.offset as int,
            end_of(f),
        ) == source[f.path],
{
    let plain = content_plain(c, fst, source);
    let len = c.data_len as int;
    let all = assembled(c.files, source, len, c.files.len() as int);
    let j = choose|j: int| 0 <= j < c.files.len() && #[trigger] c.files[j] == f;
    lemma_apart(c.files);
    law_stream_matches_assembly(c.files, source, len);
    assert(plain == all);
    law_files_stand_at_their_offsets(c.files, source, len, j);
    law_written_content_decodes(t.key, c, plain, t.contents[c.index as u32], record);
    lemma_padded(plain, padding_of(c.content_type));
    assert(end_of(c.files[j]) <= c.data_len);
    assert(content_stream(c.files, source, len).len() == len);
}

proof fn lemma_items_named(
    entries: Seq<StagedEntry>,
    order: Seq<usize>,
    i: int,
    prefix: Seq<char>,
)
    requires
        prefix.len() > 0,
    ensures
        forall|k: int|
            0 <= k < items_from(entries, order, i, prefix).len() ==> item_path(
                #[trigger] items_from(entries, order, i, prefix)[k],
            ).len() > 0,
    decreases entries, order.len() - i,
{
    if 0 <= i < order.len() && order[i] < entries.len() {
        let all = items_from(entries, order, i, prefix);
        let rest = items_from(entries, order, i + 1, prefix);
        lemma_items_named(entries, order, i + 1, prefix);
        match entries[order[i] as int] {
            StagedEntry::File { name, .. } => {
                assert forall|k: int| 0 <= k < all.len() implies item_path(
                    #[trigger] all[k],
                ).len() > 0 by {
                    if k > 0 {
                        assert(all[k] == rest[k - 1]);
                    }
                }
            },
            StagedEntry::Dir { name, entries: inside } => {
                let list = listing(inside@, Lead::DiscImages);
                let deeper = prefix + name@ + "/"@;
                let held = items_from(inside@, list, 0, deeper);
                lemma_items_named(inside@, list, 0, deeper);
                assert forall|k: int| 0 <= k < all.len() implies item_path(
                    #[trigger] all[k],
                ).len() > 0 by {
                    if 0 < k <= held.len() {
                        assert(all[k] == held[k - 1]);
                    } else if k > held.len() {
                        assert(all[k] == rest[k - 1 - held.len()]);
                    }
                }
            },
        }
    }
}

proof fn lemma_top_named(name: Seq<char>, entries: Option<Vec<StagedEntry>>)
    requires
        name.len() > 0,
    ensures
        forall|k: int|
            0 <= k < top_items(name, entries).len() ==> item_path(
                #[trigger] top_items(name, entries)[k],
            ).len() > 0,
{
    if let Some(list) = entries {
        let order = listing(list@, Lead::DiscImages);
        lemma_items_named(list@, order, 0, name + "/"@);
        let held = items_from(list@, order, 0, name + "/"@);
        let all = top_items(name, entries);
        assert forall|k: int| 0 <= k < all.len() implies item_path(#[trigger] all[k]).len() > 0 by {
            if k > 0 {
                assert(all[k] == held[k - 1]);
            }
        }
    }
}

/// Everything that a build holds has a path.
proof fn lemma_build_named(build: StagedBuild)
    ensures
        forall|k: int|
            0 <= k < build_items(build).len() ==> item_path(
                #[trigger] build_items(build)[k],
            ).len() > 0,
{
    reveal_strlit("code");
    reveal_strlit("content");
    reveal_strlit("meta");
    lemma_top_named("code"@, build.code);
    lemma_top_named("content"@, build.content);
    lemma_top_named("meta"@, build.meta);
    let a = top_items("code"@, build.code);
    let b = top_items("content"@, build.content);
    let c = top_items("meta"@, build.meta);
    let all = build_items(build);
    assert forall|k: int| 0 <= k < all.len() implies item_path(#[trigger] all[k]).len() > 0 by {
        if k < a.len() {
            assert(all[k] == a[k]);
        } else if k < a.len() + b.len() {
            assert(all[k] == b[k - a.len()]);
        } else {
            assert(all[k] == c[k - a.len() - b.len()]);
        }
    }
}

/// The planned contents are numbered, the first is not hashed, and the others are those of the
/// tree.
pub proof fn lemma_plan_numbered(build: StagedBuild, title_id: u64)
    requires
        build.total_weight() <= WEIGHT_LIMIT,
        tree_of(build) is Ok,
        tree_of(build)->Ok_0.contents.len() <= 0x1_0000,
    ensures
        ({
            let flat = tree_of(build)->Ok_0;
            let plan = planned(flat, title_id);
            &&& 0 < plan.len() == flat.contents.len()
            &&& forall|c: int| 0 <= c < plan.len() ==> (#[trigger] plan[c]).index == c
            &&& forall|c: int| 0 < c < plan.len() ==> #[trigger] plan[c] == flat.contents[c]
            &&& plan[0].content_type != TYPE_HASHED
        }),
{
    let flat = tree_of(build)->Ok_0;
    let plan = planned(flat, title_id);
    let layout = layout_of(build);
    law_tree_holds_the_build(build);
    lemma_layout(build);
    assert forall|c: int| 0 <= c < plan.len() implies (#[trigger] plan[c]).index == c by {
        assert(layout.contents[c].index == flat.contents[c].index);
        assert(layout.contents[c].index == c % 0x1_0000);
    }
    assert(layout.contents[0].index == flat.contents[0].index);
}

/// The records of a package are found by the indices of its contents.
proof fn lemma_records_found(
    plan: Seq<ContentView>,
    fst: Seq<u8>,
    source: Map<Seq<char>, Seq<u8>>,
    t: TitleView,
)
    requires
        package_written(plan, fst, source, t.key, t.records, t.contents),
        plan.len() <= 0x1_0000,
        forall|c: int| 0 <= c < plan.len() ==> (#[trigger] plan[c]).index == c,
    ensures
        forall|c: int|
            0 <= c < plan.len() ==> record_of(t.records, c as u16) == Some(#[trigger] t.records[c]),
{
    assert forall|i: int| 0 <= i < t.records.len() implies (#[trigger] t.records[i]).index == i by {
        assert(plan[i].index == i);
    }
    assert forall|c: int| 0 <= c < plan.len() implies record_of(t.records, c as u16) == Some(
        #[trigger] t.records[c],
    ) by {
        lemma_record_found(t.records, c, t.records.len() as int);
    }
}

/// Content 0 gives the file system table.
proof fn lemma_table_comes_out(
    plan: Seq<ContentView>,
    table: FstView,
    source: Map<Seq<char>, Seq<u8>>,
    t: TitleView,
)
    requires
        package_written(plan, fst_bytes(table), source, t.key, t.records, t.contents),
        fst_storable(table),
        0 < plan.len() <= 0x1_0000,
        plan[0].index == 0,
        plan[0].content_type != TYPE_HASHED,
        record_of(t.records, 0) == Some(t.records[0]),
    ensures
        content_at(t, 0) matches Ok(data) && fst_readable(data) && parsed_fst(data) == table,
{
    let fst = fst_bytes(table);
    let data = padded(fst, 0x8000);
    law_written_content_decodes(t.key, plan[0], fst, t.contents[0u32], t.records[0]);
    assert(content_at(t, 0) == Ok::<Seq<u8>, Stop>(data));
    let padding = data.subrange(fst.len() as int, data.len() as int);
    lemma_padded(fst, 0x8000);
    assert(data =~= fst + padding) by {
        assert(data.subrange(0, fst.len() as int) == fst.subrange(0, fst.len() as int));
        assert(fst.subrange(0, fst.len() as int) =~= fst);
        assert(data =~= data.subrange(0, fst.len() as int) + padding);
    }
    law_fst_round_trip(table, padding);
}

/// Extracting a package gives back the build that it was made of: every directory, and every file
/// with what it held, under its path and in the order of the build's listing. Files that are
/// skipped are left out. The build has to fit the file system table, with no more contents than
/// their indices can tell apart.
pub proof fn law_extraction_gives_back_the_build(
    build: StagedBuild,
    title_id: u64,
    source: Map<Seq<char>, Seq<u8>>,
    t: TitleView,
    made: Seq<ExtractedView>,
    result: crate::error::Result<()>,
)
    requires
        build.total_weight() <= WEIGHT_LIMIT,
        tree_of(build) is Ok,
        fst_storable(table_of(tree_of(build)->Ok_0, title_id)),
        tree_of(build)->Ok_0.contents.len() <= 0x1_0000,
        build_stands(tree_of(build)->Ok_0.contents, build_items(build), source),
        package_written(
            planned(tree_of(build)->Ok_0, title_id),
            fst_bytes(table_of(tree_of(build)->Ok_0, title_id)),
            source,
            t.key,
            t.records,
            t.contents,
        ),
        extracts(t, made, result),
    ensures
        result is Ok,
        made == wanted(
            build_items(build),
            source,
            t.skip,
            build_items(build).len() as int,
        ),
{
    let flat = tree_of(build)->Ok_0;
    let items = build_items(build);
    let table = table_of(flat, title_id);
    let fst = fst_bytes(table);
    let plan = planned(flat, title_id);
    let nodes = flat.nodes;
    law_tree_holds_the_build(build);
    lemma_build_named(build);
    lemma_plan_numbered(build, title_id);
    lemma_records_found(plan, fst, source, t);
    assert(plan[0].index == 0);
    assert(record_of(t.records, 0) == Some(t.records[0]));
    lemma_table_comes_out(plan, table, source, t);
    lemma_all_given(flat, plan, fst, source, t, items, items.len() as int);
    lemma_root_gives(t, nodes, items);
    assert forall|i: int| 0 <= i < nodes.len() implies #[trigger] node_gives(t, nodes, i) is Ok by {
        if i > 0 {
            assert(item_path(items[i - 1]).len() > 0);
            lemma_node_gives(flat, plan, fst, source, t, items, i - 1);
        }
    }
}

/// The root gives nothing.
proof fn lemma_root_gives(t: TitleView, nodes: Seq<NodeView>, items: Seq<StagedItem>)
    requires
        nodes.len() > 0,
        nodes[0].kind is Dir,
    ensures
        node_gives(t, nodes, 0) == Ok::<Option<ExtractedView>, Stop>(None),
{
}

/// What one node gives is what its item stands for.
proof fn lemma_node_gives(
    flat: Flat,
    plan: Seq<ContentView>,
    fst: Seq<u8>,
    source: Map<Seq<char>, Seq<u8>>,
    t: TitleView,
    items: Seq<StagedItem>,
    k: int,
)
    requires
        tree_holds(flat, items),
        build_stands(flat.contents, items, source),
        package_written(plan, fst, source, t.key, t.records, t.contents),
        0 < plan.len() == flat.contents.len() <= 0x1_0000,
        forall|c: int| 0 < c < plan.len() ==> #[trigger] plan[c] == flat.contents[c],
        forall|c: int| 0 <= c < plan.len() ==> (#[trigger] plan[c]).index == c,
        forall|c: int|
            0 <= c < plan.len() ==> record_of(t.records, c as u16) == Some(#[trigger] t.records[c]),
        0 <= k < items.len(),
        item_path(items[k]).len() > 0,
    ensures
        node_gives(t, flat.nodes, 1 + k) == Ok::<Option<ExtractedView>, Stop>(
            match items[k] {
                StagedItem::Dir(path) => Some(ExtractedView::Dir(path)),
                StagedItem::File { path, name } => if (t.skip)(name) {
                    None
                } else {
                    Some(ExtractedView::File { path, data: source[path] })
                },
            },
        ),
{
    let node = flat.nodes[1 + k];
    assert(stands_for(node, flat.contents, items[k]));
    assert(node_path(flat.nodes, 1 + k) == item_path(items[k]));
    assert(!escapes(item_path(items[k])));
    if let StagedItem::File { path, name } = items[k] {
        let c = node.cluster as int;
        let f = PlacedView {
            path,
            offset: node.kind->File_offset,
            size: node.kind->File_size,
        };
        assert(plan[c] == flat.contents[c]);
        assert(plan[c].index == c);
        assert(t.records[c] == t.records[c]);
        assert(tidy(flat.contents[c]));
        assert(sizes_hold(flat.contents[c].files, source));
        lemma_file_comes_out(t, plan[c], fst, source, t.records[c], f);
    }
}

/// What the nodes behind the root give is what the items stand for.
proof fn lemma_all_given(
    flat: Flat,
    plan: Seq<ContentView>,
    fst: Seq<u8>,
    source: Map<Seq<char>, Seq<u8>>,
    t: TitleView,
    items: Seq<StagedItem>,
    n: int,
)
    requires
        tree_holds(flat, items),
        build_stands(flat.contents, items, source),
        package_written(plan, fst, source, t.key, t.records, t.contents),
        0 < plan.len() == flat.contents.len() <= 0x1_0000,
        forall|c: int| 0 < c < plan.len() ==> #[trigger] plan[c] == flat.contents[c],
        forall|c: int| 0 <= c < plan.len() ==> (#[trigger] plan[c]).index == c,
        forall|c: int|
            0 <= c < plan.len() ==> record_of(t.records, c as u16) == Some(#[trigger] t.records[c]),
        forall|k: int| 0 <= k < items.len() ==> item_path(#[trigger] items[k]).len() > 0,
        0 <= n <= items.len(),
    ensures
        given(t, flat.nodes, 1 + n) == wanted(items, source, t.skip, n),
    decreases n,
{
    if n == 0 {
        lemma_root_gives(t, flat.nodes, items);
        assert(given(t, flat.nodes, 0) =~= Seq::<ExtractedView>::empty());
    } else {
        lemma_all_given(flat, plan, fst, source, t, items, n - 1);
        assert(item_path(items[n - 1]).len() > 0);
        lemma_node_gives(flat, plan, fst, source, t, items, n - 1);
    }
}

} // verus!

//! How the entries of the file system table nest.
//!
//! The laws here state what the entry of a directory says of the entries below it, and how the
//! entries of the top directories are marked.

use vstd::prelude::*;

use crate::package::content::{
    dir_node, flattened, layout_of, top_flattened, tree_of, Flat,
};
use crate::package::fst::{FstNodeKind, NodeView};
use crate::package::staging::{hif_name, listing, Lead, StagedBuild, StagedEntry};

verus! {

/// Whether all directories among the entries from `a` to `b` have ended by `b`.
pub open spec fn ended(nodes: Seq<NodeView>, a: int, b: int) -> bool {
    forall|m: int|
        a <= m < b ==> ((#[trigger] nodes[m]).kind matches FstNodeKind::Dir { end_index, .. }
            ==> end_index <= b)
}

/// Whether `p` is the innermost directory around entry `k`.
pub open spec fn innermost(nodes: Seq<NodeView>, p: int, k: int) -> bool {
    &&& 0 <= p < k
    &&& nodes[p].kind matches FstNodeKind::Dir { end_index, .. } && k < end_index
    &&& ended(nodes, p + 1, k)
}

/// Whether entry `k`, one of those from `lo` on that lie in `parent`, is as it should be.
spec fn proper(nodes: Seq<NodeView>, k: int, lo: int, parent: int) -> bool {
    match nodes[k].kind {
        FstNodeKind::File { .. } => nodes[k].type_flags == (if hif_name(nodes[k].name) {
            0x02u8
        } else {
            0x00u8
        }),
        FstNodeKind::Dir { parent_index, end_index } => {
            &&& nodes[k].type_flags == 0
            &&& k < end_index <= nodes.len()
            &&& nodes[k].cluster == (if k + 1 < end_index {
                nodes[k + 1].cluster
            } else {
                0u16
            })
            &&& {
                ||| parent_index == parent && ended(nodes, lo, k)
                ||| lo <= parent_index && innermost(nodes, parent_index as int, k)
            }
        },
    }
}

/// Whether the entries from `lo` on are as those in `parent` should be.
spec fn level(nodes: Seq<NodeView>, lo: int, parent: int) -> bool {
    forall|k: int| lo <= k < nodes.len() ==> #[trigger] proper(nodes, k, lo, parent)
}

/// Whether `after` goes on from `before`, all that is new marked with `flags`.
spec fn went_on(before: Seq<NodeView>, after: Seq<NodeView>, flags: u16) -> bool {
    &&& before.len() <= after.len()
    &&& forall|k: int| 0 <= k < before.len() ==> #[trigger] after[k] == before[k]
    &&& forall|k: int| before.len() <= k < after.len() ==> (#[trigger] after[k]).flags == flags
}

proof fn lemma_ended(a: Seq<NodeView>, b: Seq<NodeView>, from: int, to: int)
    requires
        0 <= from,
        to <= a.len(),
        to <= b.len(),
        forall|k: int| 0 <= k < to ==> #[trigger] a[k] == b[k],
    ensures
        ended(a, from, to) == ended(b, from, to),
{
    assert forall|m: int| from <= m < to implies #[trigger] a[m] == b[m] by {}
    if ended(a, from, to) {
        assert forall|m: int| from <= m < to implies (
        (#[trigger] b[m]).kind matches FstNodeKind::Dir { end_index, .. } ==> end_index <= to) by {
            assert(a[m] == b[m]);
        }
    }
    if ended(b, from, to) {
        assert forall|m: int| from <= m < to implies (
        (#[trigger] a[m]).kind matches FstNodeKind::Dir { end_index, .. } ==> end_index <= to) by {
            assert(a[m] == b[m]);
        }
    }
}

/// An entry stays as it should be while others are put behind it.
proof fn lemma_proper(a: Seq<NodeView>, b: Seq<NodeView>, k: int, lo: int, parent: int)
    requires
        0 <= lo <= k < a.len() <= b.len(),
        forall|m: int| 0 <= m < a.len() ==> #[trigger] a[m] == b[m],
        proper(a, k, lo, parent),
    ensures
        proper(b, k, lo, parent),
{
    assert(a[k] == b[k]);
    if let FstNodeKind::Dir { parent_index, end_index } = a[k].kind {
        let p = parent_index as int;
        lemma_ended(a, b, lo, k);
        if k + 1 < end_index {
            assert(a[k + 1] == b[k + 1]);
        }
        if 0 <= p < k {
            assert(a[p] == b[p]);
            lemma_ended(a, b, p + 1, k);
        }
    }
}

/// A directory that has been laid out is closed behind its entries.
proof fn lemma_closed(
    before: Seq<NodeView>,
    opened: Seq<NodeView>,
    inner: Seq<NodeView>,
    after: Seq<NodeView>,
    lo: int,
    parent: u32,
    flags: u16,
)
    requires
        0 <= lo <= before.len(),
        level(before, lo, parent as int),
        opened.len() == before.len() + 1,
        forall|k: int| 0 <= k < before.len() ==> #[trigger] opened[k] == before[k],
        went_on(opened, inner, flags),
        level(inner, (before.len() + 1) as int, before.len() as int),
        inner.len() <= u32::MAX,
        after.len() == inner.len(),
        forall|k: int| 0 <= k < inner.len() && k != before.len() ==> #[trigger] after[k] == inner[k],
        after[before.len() as int].flags == flags,
        after[before.len() as int].type_flags == 0,
        after[before.len() as int].kind == (FstNodeKind::Dir {
            parent_index: parent,
            end_index: inner.len() as u32,
        }),
        after[before.len() as int].cluster == (if before.len() + 1 < inner.len() {
            inner[(before.len() + 1) as int].cluster
        } else {
            0u16
        }),
    ensures
        level(after, lo, parent as int),
        went_on(before, after, flags),
{
    let at = before.len() as int;
    assert forall|k: int| 0 <= k < at implies #[trigger] after[k] == before[k] by {
        assert(inner[k] == opened[k]);
    }
    assert forall|k: int| at <= k < after.len() implies (#[trigger] after[k]).flags == flags by {
        if k > at {
            assert(after[k] == inner[k]);
        }
    }
    assert forall|k: int| lo <= k < after.len() implies #[trigger] proper(
        after,
        k,
        lo,
        parent as int,
    ) by {
        if k < at {
            assert(proper(before, k, lo, parent as int));
            lemma_proper(before, after, k, lo, parent as int);
        } else if k == at {
            assert(ended(after, lo, at)) by {
                assert forall|m: int| lo <= m < at implies (
                (#[trigger] after[m]).kind matches FstNodeKind::Dir { end_index, .. } ==> end_index
                    <= at) by {
                    assert(proper(before, m, lo, parent as int));
                }
            }
            if at + 1 < inner.len() {
                assert(after[at + 1] == inner[at + 1]);
            }
        } else {
            assert(after[k] == inner[k]);
            assert(proper(inner, k, at + 1, at));
            if let FstNodeKind::Dir { parent_index, end_index } = inner[k].kind {
                if k + 1 < end_index {
                    assert(after[k + 1] == inner[k + 1]);
                }
                let p = parent_index as int;
                assert(ended(after, p + 1, k)) by {
                    assert forall|m: int| p + 1 <= m < k implies (
                    (#[trigger] after[m]).kind matches FstNodeKind::Dir { end_index, .. }
                        ==> end_index <= k) by {
                        assert(after[m] == inner[m]);
                    }
                }
                if p > at {
                    assert(after[p] == inner[p]);
                }
                assert(innermost(after, p, k));
            }
        }
    }
}

/// Laying out the entries of a directory goes on as it should.
proof fn lemma_level(
    entries: Seq<StagedEntry>,
    order: Seq<usize>,
    i: int,
    prefix: Seq<char>,
    flags: u16,
    parent: u32,
    clusters: Map<Seq<char>, u16>,
    st: Flat,
    lo: int,
)
    requires
        flattened(entries, order, i, prefix, flags, parent, clusters, st) is Ok,
        flattened(entries, order, i, prefix, flags, parent, clusters, st)->Ok_0.nodes.len()
            <= u32::MAX,
        0 <= lo <= st.nodes.len(),
        level(st.nodes, lo, parent as int),
    ensures
        ({
            let done = flattened(entries, order, i, prefix, flags, parent, clusters, st)->Ok_0;
            level(done.nodes, lo, parent as int) && went_on(st.nodes, done.nodes, flags)
        }),
    decreases entries, order.len() - i,
{
    let done = flattened(entries, order, i, prefix, flags, parent, clusters, st)->Ok_0;
    if !(i < 0 || i >= order.len() || order[i] >= entries.len()) {
        match entries[order[i] as int] {
            StagedEntry::File { name, size, .. } => {
                let path = prefix + name@;
                let next = st.filed(name@, path, size, clusters[path], flags);
                assert forall|k: int| lo <= k < next.nodes.len() implies #[trigger] proper(
                    next.nodes,
                    k,
                    lo,
                    parent as int,
                ) by {
                    if k < st.nodes.len() {
                        assert(proper(st.nodes, k, lo, parent as int));
                        lemma_proper(st.nodes, next.nodes, k, lo, parent as int);
                    }
                }
                lemma_level(entries, order, i + 1, prefix, flags, parent, clusters, next, lo);
                assert forall|k: int| 0 <= k < st.nodes.len() implies #[trigger] done.nodes[k]
                    == st.nodes[k] by {
                    assert(done.nodes[k] == next.nodes[k]);
                }
                assert(done.nodes[st.nodes.len() as int] == next.nodes[st.nodes.len() as int]);
            },
            StagedEntry::Dir { name, entries: below } => {
                let at = st.nodes.len() as int;
                let order2 = listing(below@, Lead::DiscImages);
                let prefix2 = prefix + name@ + "/"@;
                let opened = st.opened(name@, flags, parent);
                let inner = flattened(
                    below@,
                    order2,
                    0,
                    prefix2,
                    flags,
                    at as u32,
                    clusters,
                    opened,
                )->Ok_0;
                let next = inner.closed(at, name@, flags, parent);
                lemma_grows(entries, order, i + 1, prefix, flags, parent, clusters, next);
                lemma_grows(below@, order2, 0, prefix2, flags, at as u32, clusters, opened);
                assert(at as u32 == at);
                lemma_level(
                    below@,
                    order2,
                    0,
                    prefix2,
                    flags,
                    at as u32,
                    clusters,
                    opened,
                    at + 1,
                );
                lemma_closed(
                    st.nodes,
                    opened.nodes,
                    inner.nodes,
                    next.nodes,
                    lo,
                    parent,
                    flags,
                );
                lemma_level(entries, order, i + 1, prefix, flags, parent, clusters, next, lo);
                assert forall|k: int| 0 <= k < st.nodes.len() implies #[trigger] done.nodes[k]
                    == st.nodes[k] by {
                    assert(done.nodes[k] == next.nodes[k]);
                }
                assert forall|k: int| at <= k < done.nodes.len() implies (
                #[trigger] done.nodes[k]).flags == flags by {
                    if k < next.nodes.len() {
                        assert(done.nodes[k] == next.nodes[k]);
                    }
                }
            },
        }
    }
}

/// Laying out takes no entry away.
proof fn lemma_grows(
    entries: Seq<StagedEntry>,
    order: Seq<usize>,
    i: int,
    prefix: Seq<char>,
    flags: u16,
    parent: u32,
    clusters: Map<Seq<char>, u16>,
    st: Flat,
)
    requires
        flattened(entries, order, i, prefix, flags, parent, clusters, st) is Ok,
    ensures
        st.nodes.len() <= flattened(
            entries,
            order,
            i,
            prefix,
            flags,
            parent,
            clusters,
            st,
        )->Ok_0.nodes.len(),
    decreases entries, order.len() - i,
{
    if !(i < 0 || i >= order.len() || order[i] >= entries.len()) {
        match entries[order[i] as int] {
            StagedEntry::File { name, size, .. } => {
                let path = prefix + name@;
                let next = st.filed(name@, path, size, clusters[path], flags);
                lemma_grows(entries, order, i + 1, prefix, flags, parent, clusters, next);
            },
            StagedEntry::Dir { name, entries: below } => {
                let at = st.nodes.len() as int;
                let order2 = listing(below@, Lead::DiscImages);
                let prefix2 = prefix + name@ + "/"@;
                let opened = st.opened(name@, flags, parent);
                let inner = flattened(
                    below@,
                    order2,
                    0,
                    prefix2,
                    flags,
                    at as u32,
                    clusters,
                    opened,
                )->Ok_0;
                let next = inner.closed(at, name@, flags, parent);
                lemma_grows(below@, order2, 0, prefix2, flags, at as u32, clusters, opened);
                lemma_grows(entries, order, i + 1, prefix, flags, parent, clusters, next);
            },
        }
    }
}

/// Whether the entries from `a` to `b` are those of one top directory: the first is the directory,
/// which ends at `b`, and all are marked with `flags`. An empty directory has none.
pub open spec fn top_entries(
    nodes: Seq<NodeView>,
    a: int,
    b: int,
    name: Seq<char>,
    given: Option<Vec<StagedEntry>>,
    flags: u16,
) -> bool {
    if given is Some && given->0@.len() > 0 {
        &&& a < b
        &&& nodes[a].name == name
        &&& nodes[a].kind == (FstNodeKind::Dir { parent_index: 0, end_index: b as u32 })
        &&& forall|k: int| a <= k < b ==> (#[trigger] nodes[k]).flags == flags
    } else {
        a == b
    }
}

proof fn lemma_top_level(
    name: Seq<char>,
    entries: Option<Vec<StagedEntry>>,
    flags: u16,
    clusters: Map<Seq<char>, u16>,
    st: Flat,
)
    requires
        top_flattened(name, entries, flags, clusters, Ok(st)) is Ok,
        top_flattened(name, entries, flags, clusters, Ok(st))->Ok_0.nodes.len() <= u32::MAX,
        1 <= st.nodes.len(),
        level(st.nodes, 1, 0),
    ensures
        ({
            let done = top_flattened(name, entries, flags, clusters, Ok(st))->Ok_0;
            &&& level(done.nodes, 1, 0)
            &&& went_on(st.nodes, done.nodes, flags)
            &&& top_entries(
                done.nodes,
                st.nodes.len() as int,
                done.nodes.len() as int,
                name,
                entries,
                flags,
            )
        }),
{
    if let Some(list) = entries {
        if list@.len() > 0 {
            let at = st.nodes.len() as int;
            let order = listing(list@, Lead::DiscImages);
            let opened = st.opened(name, flags, 0);
            let inner = flattened(
                list@,
                order,
                0,
                name + "/"@,
                flags,
                at as u32,
                clusters,
                opened,
            )->Ok_0;
            lemma_grows(list@, order, 0, name + "/"@, flags, at as u32, clusters, opened);
            assert(at as u32 == at);
            lemma_level(
                list@,
                order,
                0,
                name + "/"@,
                flags,
                at as u32,
                clusters,
                opened,
                at + 1,
            );
            let next = inner.closed(at, name, flags, 0);
            lemma_closed(st.nodes, opened.nodes, inner.nodes, next.nodes, 1, 0, flags);
        }
    }
}

proof fn lemma_top_grows(
    name: Seq<char>,
    entries: Option<Vec<StagedEntry>>,
    flags: u16,
    clusters: Map<Seq<char>, u16>,
    st: Flat,
)
    requires
        top_flattened(name, entries, flags, clusters, Ok(st)) is Ok,
    ensures
        st.nodes.len() <= top_flattened(name, entries, flags, clusters, Ok(st))->Ok_0.nodes.len(),
{
    if let Some(list) = entries {
        if list@.len() > 0 {
            lemma_grows(
                list@,
                listing(list@, Lead::DiscImages),
                0,
                name + "/"@,
                flags,
                st.nodes.len() as u32,
                clusters,
                st.opened(name, flags, 0),
            );
        }
    }
}

/// The root comes first and ends with the table; behind it stand the entries of `code`, then
/// those of `content`, marked 0x0400, then those of `meta`, marked 0x0040. Says where `code` and
/// `content` end.
pub proof fn law_top_directories_follow_the_root(build: StagedBuild) -> (ends: (int, int))
    requires
        tree_of(build) is Ok,
        tree_of(build)->Ok_0.nodes.len() <= u32::MAX,
    ensures
        ({
            let nodes = tree_of(build)->Ok_0.nodes;
            let n = nodes.len() as int;
            &&& nodes[0].name.len() == 0
            &&& nodes[0].kind == (FstNodeKind::Dir { parent_index: 0, end_index: n as u32 })
            &&& nodes[0].flags == 0 && nodes[0].type_flags == 0 && nodes[0].cluster == 0
            &&& 1 <= ends.0 <= ends.1 <= n
            &&& top_entries(nodes, 1, ends.0, "code"@, build.code, 0x0000)
            &&& top_entries(nodes, ends.0, ends.1, "content"@, build.content, 0x0400)
            &&& top_entries(nodes, ends.1, n, "meta"@, build.meta, 0x0040)
        }),
{
    lemma_tree_level(build)
}

/// The entry of a directory names the innermost directory around it, ends behind what lies in
/// it, and carries the content of its first entry. The entry of a file is marked 0x02 where it
/// is a disc image.
pub proof fn law_entries_nest(build: StagedBuild, k: int)
    requires
        tree_of(build) is Ok,
        tree_of(build)->Ok_0.nodes.len() <= u32::MAX,
        1 <= k < tree_of(build)->Ok_0.nodes.len(),
    ensures
        ({
            let nodes = tree_of(build)->Ok_0.nodes;
            match nodes[k].kind {
                FstNodeKind::File { .. } => nodes[k].type_flags == (if hif_name(nodes[k].name) {
                    0x02u8
                } else {
                    0x00u8
                }),
                FstNodeKind::Dir { parent_index, end_index } => {
                    &&& nodes[k].type_flags == 0
                    &&& k < end_index <= nodes.len()
                    &&& nodes[k].cluster == (if k + 1 < end_index {
                        nodes[k + 1].cluster
                    } else {
                        0u16
                    })
                    &&& innermost(nodes, parent_index as int, k)
                },
            }
        }),
{
    let ends = lemma_tree_level(build);
    let nodes = tree_of(build)->Ok_0.nodes;
    assert(proper(nodes, k, 1, 0));
}

proof fn lemma_tree_level(build: StagedBuild) -> (ends: (int, int))
    requires
        tree_of(build) is Ok,
        tree_of(build)->Ok_0.nodes.len() <= u32::MAX,
    ensures
        ({
            let nodes = tree_of(build)->Ok_0.nodes;
            let n = nodes.len() as int;
            &&& level(nodes, 1, 0)
            &&& nodes[0].name.len() == 0
            &&& nodes[0].kind == (FstNodeKind::Dir { parent_index: 0, end_index: n as u32 })
            &&& nodes[0].flags == 0 && nodes[0].type_flags == 0 && nodes[0].cluster == 0
            &&& 1 <= ends.0 <= ends.1 <= n
            &&& top_entries(nodes, 1, ends.0, "code"@, build.code, 0x0000)
            &&& top_entries(nodes, ends.0, ends.1, "content"@, build.content, 0x0400)
            &&& top_entries(nodes, ends.1, n, "meta"@, build.meta, 0x0040)
        }),
{
    let clusters = layout_of(build).clusters;
    let root = Flat {
        nodes: seq![dir_node(Seq::empty(), 0, 0, 0, 0)],
        contents: layout_of(build).contents,
    };
    let code = top_flattened("code"@, build.code, 0x0000, clusters, Ok(root));
    let content = top_flattened("content"@, build.content, 0x0400, clusters, code);
    let meta = top_flattened("meta"@, build.meta, 0x0040, clusters, content);
    let a = code->Ok_0;
    let b = content->Ok_0;
    let c = meta->Ok_0;
    let nodes = tree_of(build)->Ok_0.nodes;
    lemma_top_grows("code"@, build.code, 0x0000, clusters, root);
    lemma_top_grows("content"@, build.content, 0x0400, clusters, a);
    lemma_top_grows("meta"@, build.meta, 0x0040, clusters, b);
    assert(level(root.nodes, 1, 0));
    lemma_top_level("code"@, build.code, 0x0000, clusters, root);
    lemma_top_level("content"@, build.content, 0x0400, clusters, a);
    lemma_top_level("meta"@, build.meta, 0x0040, clusters, b);
    assert forall|k: int| 1 <= k < c.nodes.len() implies #[trigger] nodes[k] == c.nodes[k] by {}
    lemma_rooted(c.nodes, nodes);
    assert forall|k: int| 0 <= k < a.nodes.len() implies #[trigger] c.nodes[k] == a.nodes[k] by {
        assert(b.nodes[k] == a.nodes[k]);
    }
    (a.nodes.len() as int, b.nodes.len() as int)
}

/// The root is given its end once all other entries stand.
proof fn lemma_rooted(before: Seq<NodeView>, after: Seq<NodeView>)
    requires
        level(before, 1, 0),
        before.len() == after.len(),
        forall|k: int| 1 <= k < before.len() ==> #[trigger] after[k] == before[k],
    ensures
        level(after, 1, 0),
{
    assert forall|k: int| 1 <= k < after.len() implies #[trigger] proper(after, k, 1, 0) by {
        assert(proper(before, k, 1, 0));
        assert(after[k] == before[k]);
        lemma_rooted_entry(before, after, k);
    }
}

proof fn lemma_rooted_entry(before: Seq<NodeView>, after: Seq<NodeView>, k: int)
    requires
        1 <= k < before.len(),
        before.len() == after.len(),
        proper(before, k, 1, 0),
        forall|m: int| 1 <= m < before.len() ==> #[trigger] after[m] == before[m],
    ensures
        proper(after, k, 1, 0),
{
    assert(after[k] == before[k]);
    if let FstNodeKind::Dir { parent_index, end_index } = before[k].kind {
        let p = parent_index as int;
        if k + 1 < end_index {
            assert(after[k + 1] == before[k + 1]);
        }
        if p > 0 && p < k {
            assert(after[p] == before[p]);
        }
        assert(ended(before, p + 1, k) ==> ended(after, p + 1, k)) by {
            if ended(before, p + 1, k) {
                assert forall|m: int| p + 1 <= m < k implies ((
                #[trigger] after[m]).kind matches FstNodeKind::Dir { end_index, .. } ==> end_index
                    <= k) by {
                    assert(after[m] == before[m]);
                }
            }
        }
        assert(ended(before, 1, k) ==> ended(after, 1, k)) by {
            if ended(before, 1, k) {
                assert forall|m: int| 1 <= m < k implies ((
                #[trigger] after[m]).kind matches FstNodeKind::Dir { end_index, .. } ==> end_index
                    <= k) by {
                    assert(after[m] == before[m]);
                }
            }
        }
    }
}

} // verus!

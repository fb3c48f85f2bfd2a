//! Where the files of a build end up.
//!
//! The laws here speak of the contents of a planned package as a whole: every staged file is
//! placed once, the files of a content follow one another, and the game data comes last.

use vstd::prelude::*;

use crate::package::content::{
    dir_node, files_below, files_from, flattened, layout_before_game, layout_of, leftover,
    lemma_layout, lemma_layout_before_game, lemma_meta, lemma_separate, lemma_shared, planned,
    present, sound, table_of, top_flattened, tree_of, with_code_heads, with_meta, ContentView, Flat,
    Layout, MAX_GAME_CONTENT_BYTES, TYPE_HASHED, TYPE_NONHASHED, WEIGHT_LIMIT,
};
use crate::package::fst::fst_bytes;
use crate::package::game_contents::{
    begins, belonging, belongs, chained, distinct_paths, held, law_game_contents_keep_the_limit,
    lemma_others_stay_out, lemma_packed_small, lemma_prefixed, lemma_share_concat, lemma_tree_loads,
    load, packing_from, packing_stands, share, took_in, top_files, was_full,
};
use crate::package::plaintext::end_of;
use crate::package::round_trip::law_tree_holds_the_build;
use crate::package::staging::{
    law_listing_is_stable_sort, lemma_order_bounds, listing, Lead, StagedBuild, StagedEntry,
};
use crate::util::rounded_up;

verus! {

/// All files of a build, by path and size.
pub open spec fn all_files(build: StagedBuild) -> Seq<(Seq<char>, u64)> {
    top_files("code"@, build.code) + top_files("content"@, build.content) + top_files(
        "meta"@,
        build.meta,
    )
}

/// Whether `file` is one of the first `n` files, and belongs to content `at`.
pub open spec fn comes_from(
    files: Seq<(Seq<char>, u64)>,
    clusters: Map<Seq<char>, u16>,
    at: int,
    n: int,
    file: (Seq<char>, u64),
) -> bool {
    exists|k: int| 0 <= k < n && #[trigger] belongs(files, clusters, at, k) && files[k] == file
}

/// What belongs to a content is one of the files, and every file that belongs to it is there.
proof fn lemma_belonging(
    files: Seq<(Seq<char>, u64)>,
    clusters: Map<Seq<char>, u16>,
    at: int,
    n: int,
)
    requires
        0 <= n <= files.len(),
    ensures
        forall|j: int|
            0 <= j < belonging(files, clusters, at, n).len() ==> comes_from(
                files,
                clusters,
                at,
                n,
                #[trigger] belonging(files, clusters, at, n)[j],
            ),
        forall|k: int|
            0 <= k < n && #[trigger] belongs(files, clusters, at, k) ==> belonging(
                files,
                clusters,
                at,
                n,
            ).contains(files[k]),
    decreases n,
{
    if n > 0 {
        lemma_belonging(files, clusters, at, n - 1);
        let before = belonging(files, clusters, at, n - 1);
        let all = belonging(files, clusters, at, n);
        assert forall|j: int| 0 <= j < all.len() implies comes_from(
            files,
            clusters,
            at,
            n,
            #[trigger] all[j],
        ) by {
            if j < before.len() {
                assert(all[j] == before[j]);
                assert(comes_from(files, clusters, at, n - 1, before[j]));
                let k = choose|k: int|
                    0 <= k < n - 1 && #[trigger] belongs(files, clusters, at, k) && files[k]
                        == before[j];
                assert(belongs(files, clusters, at, k) && files[k] == all[j]);
            } else {
                assert(belongs(files, clusters, at, n - 1) && files[n - 1] == all[j]);
            }
        }
        assert forall|k: int| 0 <= k < n && #[trigger] belongs(
            files,
            clusters,
            at,
            k,
        ) implies all.contains(files[k]) by {
            if k < n - 1 {
                assert(before.contains(files[k]));
                let j = choose|j: int| 0 <= j < before.len() && before[j] == files[k];
                assert(all[j] == files[k]);
            } else {
                assert(all[all.len() - 1] == files[k]);
            }
        }
    }
}

/// Files of distinct paths belong to a content once.
proof fn lemma_belonging_distinct(
    files: Seq<(Seq<char>, u64)>,
    clusters: Map<Seq<char>, u16>,
    at: int,
    n: int,
)
    requires
        0 <= n <= files.len(),
        distinct_paths(files),
    ensures
        distinct_paths(belonging(files, clusters, at, n)),
    decreases n,
{
    if n > 0 {
        lemma_belonging_distinct(files, clusters, at, n - 1);
        lemma_belonging(files, clusters, at, n - 1);
        let before = belonging(files, clusters, at, n - 1);
        let all = belonging(files, clusters, at, n);
        assert forall|i: int, j: int| 0 <= i < j < all.len() implies (#[trigger] all[i]).0 != (
        #[trigger] all[j]).0 by {
            if j < before.len() {
                assert(before[i].0 != before[j].0);
            } else {
                assert(all[i] == before[i]);
                assert(comes_from(files, clusters, at, n - 1, before[i]));
                let k = choose|k: int|
                    0 <= k < n - 1 && #[trigger] belongs(files, clusters, at, k) && files[k]
                        == before[i];
                assert(files[k].0 != files[n - 1].0);
            }
        }
    }
}

/// Whatever is laid out has a content.
proof fn lemma_all_assigned(
    entries: Seq<StagedEntry>,
    order: Seq<usize>,
    i: int,
    prefix: Seq<char>,
    flags: u16,
    parent: u32,
    clusters: Map<Seq<char>, u16>,
    st: Flat,
)
    requires
        flattened(entries, order, i, prefix, flags, parent, clusters, st) is Ok,
    ensures
        forall|k: int|
            0 <= k < files_from(prefix, entries, order, i).len() ==> clusters.contains_key(
                (#[trigger] files_from(prefix, entries, order, i)[k]).0,
            ),
    decreases entries, order.len() - i,
{
    if 0 <= i < order.len() && order[i] < entries.len() {
        let all = files_from(prefix, entries, order, i);
        let rest = files_from(prefix, entries, order, i + 1);
        match entries[order[i] as int] {
            StagedEntry::File { name, size, .. } => {
                let path = prefix + name@;
                assert(clusters.contains_key(path));
                let next = st.filed(name@, path, size, clusters[path], flags);
                lemma_all_assigned(entries, order, i + 1, prefix, flags, parent, clusters, next);
                assert forall|k: int| 0 <= k < all.len() implies clusters.contains_key(
                    (#[trigger] all[k]).0,
                ) by {
                    if k == 0 {
                        assert(all[0].0 == path);
                    } else {
                        assert(all[k] == rest[k - 1]);
                    }
                }
            },
            StagedEntry::Dir { name, entries: inside } => {
                let at = st.nodes.len() as int;
                let list = listing(inside@, Lead::DiscImages);
                let deeper = prefix + name@ + "/"@;
                let open = st.opened(name@, flags, parent);
                let inner = flattened(
                    inside@,
                    list,
                    0,
                    deeper,
                    flags,
                    at as u32,
                    clusters,
                    open,
                )->Ok_0;
                let here = files_from(deeper, inside@, list, 0);
                lemma_all_assigned(inside@, list, 0, deeper, flags, at as u32, clusters, open);
                let next = inner.closed(at, name@, flags, parent);
                lemma_all_assigned(entries, order, i + 1, prefix, flags, parent, clusters, next);
                assert forall|k: int| 0 <= k < all.len() implies clusters.contains_key(
                    (#[trigger] all[k]).0,
                ) by {
                    if k < here.len() {
                        assert(all[k] == here[k]);
                    } else {
                        assert(all[k] == rest[k - here.len()]);
                    }
                }
            },
        }
    }
}

proof fn lemma_top_assigned(
    name: Seq<char>,
    entries: Option<Vec<StagedEntry>>,
    flags: u16,
    clusters: Map<Seq<char>, u16>,
    st: Flat,
)
    requires
        top_flattened(name, entries, flags, clusters, Ok(st)) is Ok,
    ensures
        forall|k: int|
            0 <= k < top_files(name, entries).len() ==> clusters.contains_key(
                (#[trigger] top_files(name, entries)[k]).0,
            ),
{
    if let Some(list) = entries {
        let order = listing(list@, Lead::DiscImages);
        assert(list@.len() == list.len());
        lemma_order_bounds(list@, Lead::DiscImages, list@.len() as int);
        if list@.len() > 0 {
            lemma_all_assigned(
                list@,
                order,
                0,
                name + "/"@,
                flags,
                st.nodes.len() as u32,
                clusters,
                st.opened(name, flags, 0),
            );
        } else {
            assert(order.len() == 0);
        }
    }
}

/// Every file of a laid-out build has a content.
proof fn lemma_tree_assigned(build: StagedBuild)
    requires
        tree_of(build) is Ok,
    ensures
        forall|k: int|
            0 <= k < all_files(build).len() ==> layout_of(build).clusters.contains_key(
                (#[trigger] all_files(build)[k]).0,
            ),
{
    let layout = layout_of(build);
    let clusters = layout.clusters;
    let root = Flat {
        nodes: seq![dir_node(Seq::empty(), 0, 0, 0, 0)],
        contents: layout.contents,
    };
    let a = top_flattened("code"@, build.code, 0x0000, clusters, Ok(root));
    let b = top_flattened("content"@, build.content, 0x0400, clusters, a);
    lemma_top_assigned("code"@, build.code, 0x0000, clusters, root);
    lemma_top_assigned("content"@, build.content, 0x0400, clusters, a->Ok_0);
    lemma_top_assigned("meta"@, build.meta, 0x0040, clusters, b->Ok_0);
    let code = top_files("code"@, build.code);
    let content = top_files("content"@, build.content);
    let meta = top_files("meta"@, build.meta);
    let all = all_files(build);
    assert forall|k: int| 0 <= k < all.len() implies clusters.contains_key(
        (#[trigger] all[k]).0,
    ) by {
        if k < code.len() {
            assert(all[k] == code[k]);
        } else if k < code.len() + content.len() {
            assert(all[k] == content[k - code.len()]);
        } else {
            assert(all[k] == meta[k - code.len() - content.len()]);
        }
    }
}

/// A content of a build's tree holds the files that belong to it, in order.
proof fn lemma_tree_held(build: StagedBuild, at: int)
    requires
        build.total_weight() <= WEIGHT_LIMIT,
        tree_of(build) is Ok,
        0 <= at < tree_of(build)->Ok_0.contents.len(),
    ensures
        held(tree_of(build)->Ok_0.contents[at]) == belonging(
            all_files(build),
            layout_of(build).clusters,
            at,
            all_files(build).len() as int,
        ),
        chained(tree_of(build)->Ok_0.contents[at]),
        load(tree_of(build)->Ok_0.contents[at]) == share(
            all_files(build),
            layout_of(build).clusters,
            at,
            all_files(build).len() as int,
        ),
        layout_of(build).contents.len() == tree_of(build)->Ok_0.contents.len(),
{
    let layout = layout_of(build);
    let c = tree_of(build)->Ok_0.contents[at];
    let empty = layout.contents[at];
    let all = all_files(build);
    lemma_layout(build);
    lemma_tree_loads(build);
    assert(took_in(empty, c, all, layout.clusters, at));
    assert(empty.files.len() == 0 && empty.data_len == 0);
    assert(held(empty) =~= Seq::empty());
    assert(chained(empty));
    assert(held(empty) + belonging(all, layout.clusters, at, all.len() as int) =~= belonging(
        all,
        layout.clusters,
        at,
        all.len() as int,
    ));
    assert(load(empty) == 0);
}

/// Whether one of the contents holds a file of this path and size.
pub open spec fn placed(contents: Seq<ContentView>, file: (Seq<char>, u64)) -> bool {
    exists|at: int|
        0 <= at < contents.len() && (#[trigger] held(contents[at])).contains(file)
}

/// Whether no path stands in the contents twice.
pub open spec fn placed_once(contents: Seq<ContentView>) -> bool {
    forall|a: int, i: int, b: int, j: int|
        #![trigger contents[a].files[i], contents[b].files[j]]
        0 <= a < contents.len() && 0 <= i < contents[a].files.len() && 0 <= b < contents.len()
            && 0 <= j < contents[b].files.len() && contents[a].files[i].path
            == contents[b].files[j].path ==> a == b && i == j
}

/// A file belongs to one content, and stands in it once.
proof fn lemma_placed_once(build: StagedBuild, a: int, i: int, b: int, j: int)
    requires
        build.total_weight() <= WEIGHT_LIMIT,
        tree_of(build) is Ok,
        distinct_paths(all_files(build)),
        ({
            let contents = tree_of(build)->Ok_0.contents;
            &&& 0 <= a < contents.len()
            &&& 0 <= i < contents[a].files.len()
            &&& 0 <= b < contents.len()
            &&& 0 <= j < contents[b].files.len()
            &&& contents[a].files[i].path == contents[b].files[j].path
        }),
    ensures
        a == b,
        i == j,
{
    let contents = tree_of(build)->Ok_0.contents;
    let all = all_files(build);
    let clusters = layout_of(build).clusters;
    let n = all.len() as int;
    lemma_tree_held(build, a);
    lemma_tree_held(build, b);
    lemma_belonging(all, clusters, a, n);
    lemma_belonging(all, clusters, b, n);
    lemma_belonging_distinct(all, clusters, a, n);
    let first = belonging(all, clusters, a, n);
    let second = belonging(all, clusters, b, n);
    assert(held(contents[a])[i] == first[i] && held(contents[b])[j] == second[j]);
    assert(comes_from(all, clusters, a, n, first[i]));
    assert(comes_from(all, clusters, b, n, second[j]));
    assert(a == clusters[first[i].0] && b == clusters[second[j].0]);
    if i < j {
        assert(first[i].0 != first[j].0);
    } else if j < i {
        assert(first[j].0 != first[i].0);
    }
}

/// What stands in a content is a staged file that belongs to it.
pub proof fn lemma_placed_is_staged(build: StagedBuild, at: int, j: int)
    requires
        build.total_weight() <= WEIGHT_LIMIT,
        tree_of(build) is Ok,
        0 <= at < tree_of(build)->Ok_0.contents.len(),
        0 <= j < tree_of(build)->Ok_0.contents[at].files.len(),
    ensures
        all_files(build).contains(held(tree_of(build)->Ok_0.contents[at])[j]),
        layout_of(build).clusters.contains_key(tree_of(build)->Ok_0.contents[at].files[j].path),
        layout_of(build).clusters[tree_of(build)->Ok_0.contents[at].files[j].path] == at,
{
    let all = all_files(build);
    let clusters = layout_of(build).clusters;
    let n = all.len() as int;
    let file = held(tree_of(build)->Ok_0.contents[at])[j];
    lemma_tree_held(build, at);
    lemma_belonging(all, clusters, at, n);
    assert(comes_from(all, clusters, at, n, belonging(all, clusters, at, n)[j]));
    let k = choose|k: int|
        0 <= k < n && #[trigger] belongs(all, clusters, at, k) && all[k] == file;
    assert(all[k] == file);
}

/// A staged file stands in the content that it belongs to.
proof fn lemma_staged_is_placed(build: StagedBuild, k: int)
    requires
        build.total_weight() <= WEIGHT_LIMIT,
        tree_of(build) is Ok,
        0 <= k < all_files(build).len(),
    ensures
        placed(tree_of(build)->Ok_0.contents, all_files(build)[k]),
{
    let contents = tree_of(build)->Ok_0.contents;
    let all = all_files(build);
    let layout = layout_of(build);
    let at = layout.clusters[all[k].0] as int;
    lemma_layout(build);
    law_tree_holds_the_build(build);
    lemma_tree_assigned(build);
    assert(layout.clusters.contains_key(all[k].0));
    lemma_tree_held(build, at);
    lemma_belonging(all, layout.clusters, at, all.len() as int);
    assert(belongs(all, layout.clusters, at, k));
    assert(held(contents[at]).contains(all[k]));
}

/// Every staged file stands in the contents once, with its size, and nothing else does. The
/// contents are numbered; content 0 has no files and is as long as the table. No two files of
/// the build may have the same path, and there may be no more contents than their indices can
/// tell apart.
pub proof fn law_every_file_is_placed_once(build: StagedBuild, title_id: u64)
    requires
        build.total_weight() <= WEIGHT_LIMIT,
        tree_of(build) is Ok,
        tree_of(build)->Ok_0.contents.len() <= 0x1_0000,
        distinct_paths(all_files(build)),
    ensures
        ({
            let contents = planned(tree_of(build)->Ok_0, title_id);
            &&& forall|k: int|
                0 <= k < all_files(build).len() ==> placed(
                    contents,
                    #[trigger] all_files(build)[k],
                )
            &&& forall|at: int, j: int|
                0 <= at < contents.len() && 0 <= j < contents[at].files.len() ==> all_files(
                    build,
                ).contains(
                    ((#[trigger] contents[at].files[j]).path, contents[at].files[j].size),
                )
            &&& placed_once(contents)
            &&& forall|at: int| 0 <= at < contents.len() ==> (#[trigger] contents[at]).index == at
            &&& contents.len() > 0
            &&& contents[0].files.len() == 0
            &&& contents[0].content_type == TYPE_NONHASHED
            &&& contents[0].data_len == fst_bytes(
                table_of(tree_of(build)->Ok_0, title_id),
            ).len() as u64
        }),
{
    let tree = tree_of(build)->Ok_0;
    let contents = planned(tree, title_id);
    let all = all_files(build);
    let layout = layout_of(build);
    lemma_layout(build);
    law_tree_holds_the_build(build);
    assert forall|at: int| 0 <= at < contents.len() implies (#[trigger] contents[at]).files
        == tree.contents[at].files && contents[at].index == at by {
        assert(layout.contents[at].index == tree.contents[at].index);
    }
    assert forall|k: int| 0 <= k < all.len() implies placed(contents, #[trigger] all[k]) by {
        lemma_staged_is_placed(build, k);
        let at = choose|at: int|
            0 <= at < tree.contents.len() && (#[trigger] held(tree.contents[at])).contains(all[k]);
        assert(held(contents[at]) =~= held(tree.contents[at]));
    }
    assert forall|at: int, j: int|
        0 <= at < contents.len() && 0 <= j < contents[at].files.len() implies all.contains(
        ((#[trigger] contents[at].files[j]).path, contents[at].files[j].size),
    ) by {
        assert(contents[at].files == tree.contents[at].files);
        lemma_placed_is_staged(build, at, j);
    }
    assert forall|a: int, i: int, b: int, j: int|
        #![trigger contents[a].files[i], contents[b].files[j]]
        0 <= a < contents.len() && 0 <= i < contents[a].files.len() && 0 <= b < contents.len()
            && 0 <= j < contents[b].files.len() && contents[a].files[i].path
            == contents[b].files[j].path implies a == b && i == j by {
        assert(contents[a].files == tree.contents[a].files);
        assert(contents[b].files == tree.contents[b].files);
        lemma_placed_once(build, a, i, b, j);
    }
    if contents[0].files.len() > 0 {
        lemma_placed_is_staged(build, 0, 0);
        assert(layout.clusters.contains_key(tree.contents[0].files[0].path));
    }
    assert(layout.contents[0].content_type == tree.contents[0].content_type);
}

/// The files from a later position of a listing on are the last of those from an earlier one on.
proof fn lemma_suffix(
    prefix: Seq<char>,
    entries: Seq<StagedEntry>,
    order: Seq<usize>,
    i: int,
    p: int,
)
    requires
        0 <= i <= p <= order.len(),
        forall|j: int| 0 <= j < order.len() ==> (#[trigger] order[j]) < entries.len(),
    ensures
        ({
            let all = files_from(prefix, entries, order, i);
            let rest = files_from(prefix, entries, order, p);
            &&& rest.len() <= all.len()
            &&& all.subrange(all.len() - rest.len(), all.len() as int) == rest
        }),
    decreases p - i,
{
    let all = files_from(prefix, entries, order, i);
    let rest = files_from(prefix, entries, order, p);
    if i < p {
        lemma_suffix(prefix, entries, order, i + 1, p);
        let next = files_from(prefix, entries, order, i + 1);
        assert(order[i] < entries.len());
        assert(all.subrange(all.len() - next.len(), all.len() as int) =~= next);
        assert(all.subrange(all.len() - rest.len(), all.len() as int) =~= next.subrange(
            next.len() - rest.len(),
            next.len() as int,
        ));
    } else {
        assert(all.subrange(0, all.len() as int) =~= all);
    }
}

/// Where the file at position `p` of a listing stands among the files.
spec fn place(prefix: Seq<char>, entries: Seq<StagedEntry>, order: Seq<usize>, p: int) -> int {
    files_from(prefix, entries, order, 0).len() - files_from(prefix, entries, order, p).len()
}

proof fn lemma_place(
    prefix: Seq<char>,
    entries: Seq<StagedEntry>,
    order: Seq<usize>,
    p: int,
    q: int,
)
    requires
        0 <= p < order.len(),
        forall|j: int| 0 <= j < order.len() ==> (#[trigger] order[j]) < entries.len(),
        entries[order[p] as int] is File,
    ensures
        0 <= place(prefix, entries, order, p) < files_from(prefix, entries, order, 0).len(),
        files_from(prefix, entries, order, 0)[place(prefix, entries, order, p)].0 == prefix
            + entries[order[p] as int].name_view(),
        p < q <= order.len() ==> place(prefix, entries, order, p) < place(
            prefix,
            entries,
            order,
            q,
        ),
{
    let all = files_from(prefix, entries, order, 0);
    let rest = files_from(prefix, entries, order, p);
    lemma_suffix(prefix, entries, order, 0, p);
    assert(order[p] < entries.len());
    assert(rest.len() > 0);
    assert(all.subrange(all.len() - rest.len(), all.len() as int)[0] == all[all.len()
        - rest.len()]);
    if p < q <= order.len() {
        lemma_suffix(prefix, entries, order, p + 1, q);
    }
}

/// Whether `path` is that of a file in the directory itself.
pub open spec fn lists(dir: Seq<char>, entries: Seq<StagedEntry>, path: Seq<char>) -> bool {
    exists|e: int|
        0 <= e < entries.len() && (#[trigger] entries[e]) is File && path == dir
            + entries[e].name_view()
}

/// Whether no two files in the directory itself have the same name.
pub open spec fn names_apart(entries: Seq<StagedEntry>) -> bool {
    forall|a: int, b: int|
        0 <= a < b < entries.len() && (#[trigger] entries[a]) is File && (#[trigger] entries[b])
            is File ==> entries[a].name_view() != entries[b].name_view()
}

/// A file in one of the top directories is among that directory's files; distinct paths have
/// distinct names.
proof fn lemma_top_lists(name: Seq<char>, list: Vec<StagedEntry>)
    ensures
        forall|path: Seq<char>| #[trigger]
            lists(name + "/"@, list@, path) ==> exists|k: int|
                0 <= k < top_files(name, Some(list)).len() && (#[trigger] top_files(
                    name,
                    Some(list),
                )[k]).0 == path,
        distinct_paths(top_files(name, Some(list))) ==> names_apart(list@),
{
    let prefix = name + "/"@;
    let order = listing(list@, Lead::DiscImages);
    let n = list@.len() as int;
    let files = top_files(name, Some(list));
    assert(list@.len() == list.len());
    lemma_order_bounds(list@, Lead::DiscImages, n);
    law_listing_is_stable_sort(list@, Lead::DiscImages, n);
    assert forall|path: Seq<char>| #[trigger] lists(prefix, list@, path) implies exists|k: int|
        0 <= k < files.len() && (#[trigger] files[k]).0 == path by {
        let e = choose|e: int|
            0 <= e < list@.len() && (#[trigger] list@[e]) is File && path == prefix
                + list@[e].name_view();
        assert(order.contains(e as usize));
        let p = choose|p: int| 0 <= p < order.len() && order[p] == e as usize;
        lemma_place(prefix, list@, order, p, p);
        assert(files[place(prefix, list@, order, p)].0 == path);
    }
    if distinct_paths(files) {
        assert forall|a: int, b: int|
            0 <= a < b < list@.len() && (#[trigger] list@[a]) is File && (#[trigger] list@[b])
                is File implies list@[a].name_view() != list@[b].name_view() by {
            assert(order.contains(a as usize) && order.contains(b as usize));
            let p = choose|p: int| 0 <= p < order.len() && order[p] == a as usize;
            let q = choose|q: int| 0 <= q < order.len() && order[q] == b as usize;
            lemma_place(prefix, list@, order, p, q);
            lemma_place(prefix, list@, order, q, p);
            let i = place(prefix, list@, order, p);
            let j = place(prefix, list@, order, q);
            assert(i != j);
            assert(files[i].0 != files[j].0);
        }
    }
}

/// Two names below one directory are distinct where their paths are.
proof fn lemma_same_name(dir: Seq<char>, a: Seq<char>, b: Seq<char>)
    requires
        dir + a == dir + b,
    ensures
        a == b,
{
    assert((dir + a).subrange(dir.len() as int, (dir + a).len() as int) =~= a);
    assert((dir + b).subrange(dir.len() as int, (dir + b).len() as int) =~= b);
}

/// Whether `path` is one of the first `n` names below the directory.
spec fn named(dir: Seq<char>, names: Seq<Seq<char>>, n: int, path: Seq<char>) -> bool {
    exists|m: int| 0 <= m < n && path == dir + #[trigger] names[m]
}

proof fn lemma_present(
    dir: Seq<char>,
    entries: Seq<StagedEntry>,
    names: Seq<Seq<char>>,
    n: int,
)
    requires
        0 <= n <= names.len(),
        names.no_duplicates(),
    ensures
        present(dir, entries, names, n).no_duplicates(),
        forall|i: int|
            0 <= i < present(dir, entries, names, n).len() ==> {
                let path = #[trigger] present(dir, entries, names, n)[i];
                named(dir, names, n, path) && lists(dir, entries, path)
            },
    decreases n,
{
    if n > 0 {
        lemma_present(dir, entries, names, n - 1);
        let before = present(dir, entries, names, n - 1);
        let all = present(dir, entries, names, n);
        let last = dir + names[n - 1];
        assert forall|i: int| 0 <= i < all.len() implies {
            let path = #[trigger] all[i];
            named(dir, names, n, path) && lists(dir, entries, path)
        } by {
            if i < before.len() {
                assert(all[i] == before[i]);
                assert(named(dir, names, n - 1, before[i]));
                let m = choose|m: int| 0 <= m < n - 1 && before[i] == dir + #[trigger] names[m];
                assert(all[i] == dir + names[m]);
            } else {
                assert(all[i] == dir + names[n - 1]);
                let e = choose|e: int|
                    0 <= e < entries.len() && (#[trigger] entries[e]).is_regular()
                        && entries[e].name_view() == names[n - 1];
                assert(entries[e] is File);
            }
        }
        assert forall|i: int, j: int| 0 <= i < all.len() && 0 <= j < all.len() && i
            != j implies all[i] != all[j] by {
            if i < before.len() && j < before.len() {
                assert(before[i] != before[j]);
            } else if i < before.len() || j < before.len() {
                let k = if i < before.len() {
                    i
                } else {
                    j
                };
                assert(named(dir, names, n - 1, before[k]));
                let m = choose|m: int| 0 <= m < n - 1 && before[k] == dir + #[trigger] names[m];
                if before[k] == last {
                    lemma_same_name(dir, names[m], names[n - 1]);
                }
            }
        }
    }
}

/// Whether `path` is that of one of the first `n` entries of a listing, a file.
spec fn ordered(
    dir: Seq<char>,
    entries: Seq<StagedEntry>,
    order: Seq<usize>,
    n: int,
    path: Seq<char>,
) -> bool {
    exists|q: int|
        0 <= q < n && path == dir + entries[#[trigger] order[q] as int].name_view()
            && entries[order[q] as int] is File
}

proof fn lemma_leftover(
    dir: Seq<char>,
    entries: Seq<StagedEntry>,
    order: Seq<usize>,
    taken: Map<Seq<char>, u16>,
    n: int,
)
    requires
        0 <= n <= order.len(),
        names_apart(entries),
        forall|j: int| 0 <= j < order.len() ==> (#[trigger] order[j]) < entries.len(),
        forall|i: int, j: int| 0 <= i < j < order.len() ==> order[i] != order[j],
    ensures
        leftover(dir, entries, order, taken, n).no_duplicates(),
        forall|i: int|
            0 <= i < leftover(dir, entries, order, taken, n).len() ==> {
                let path = #[trigger] leftover(dir, entries, order, taken, n)[i];
                &&& ordered(dir, entries, order, n, path)
                &&& lists(dir, entries, path)
                &&& !taken.contains_key(path)
            },
    decreases n,
{
    if n > 0 {
        lemma_leftover(dir, entries, order, taken, n - 1);
        let before = leftover(dir, entries, order, taken, n - 1);
        let all = leftover(dir, entries, order, taken, n);
        let e = order[n - 1] as int;
        assert(order[n - 1] < entries.len());
        let last = dir + entries[e].name_view();
        assert forall|i: int| 0 <= i < all.len() implies {
            let path = #[trigger] all[i];
            &&& ordered(dir, entries, order, n, path)
            &&& lists(dir, entries, path)
            &&& !taken.contains_key(path)
        } by {
            if i < before.len() {
                assert(all[i] == before[i]);
                assert(ordered(dir, entries, order, n - 1, before[i]));
                let q = choose|q: int|
                    0 <= q < n - 1 && before[i] == dir + entries[#[trigger] order[q] as int].name_view()
                        && entries[order[q] as int] is File;
                assert(all[i] == dir + entries[order[q] as int].name_view());
            } else {
                assert(all[i] == last);
                assert(entries[e] is File);
                assert(all[i] == dir + entries[order[n - 1] as int].name_view());
            }
        }
        assert forall|i: int, j: int| 0 <= i < all.len() && 0 <= j < all.len() && i
            != j implies all[i] != all[j] by {
            if i < before.len() && j < before.len() {
                assert(before[i] != before[j]);
            } else if i < before.len() || j < before.len() {
                let k = if i < before.len() {
                    i
                } else {
                    j
                };
                assert(ordered(dir, entries, order, n - 1, before[k]));
                let q = choose|q: int|
                    0 <= q < n - 1 && before[k] == dir + entries[#[trigger] order[q] as int].name_view()
                        && entries[order[q] as int] is File;
                if before[k] == last {
                    lemma_same_name(
                        dir,
                        entries[order[q] as int].name_view(),
                        entries[e].name_view(),
                    );
                    assert(order[q] != order[n - 1]);
                    let d = order[q] as int;
                    assert(order[q] < entries.len());
                    if d < e {
                        assert(entries[d].name_view() != entries[e].name_view());
                    } else {
                        assert(entries[e].name_view() != entries[d].name_view());
                    }
                }
            }
        }
    }
}

/// Whether some path belongs to content `at`.
pub open spec fn has_member(clusters: Map<Seq<char>, u16>, at: int) -> bool {
    exists|path: Seq<char>| #[trigger] clusters.contains_key(path) && clusters[path] == at
}

/// Whether every content but the table's has a member.
pub open spec fn occupied(l: Layout) -> bool {
    forall|at: int| 1 <= at < l.contents.len() ==> #[trigger] has_member(l.clusters, at)
}

/// Whether a layout's paths are those of another one and the first `n` of `paths`.
spec fn grew_by(after: Layout, before: Layout, paths: Seq<Seq<char>>, n: int) -> bool {
    forall|p: Seq<char>| #[trigger]
        after.clusters.contains_key(p) ==> before.clusters.contains_key(p) || exists|i: int|
            0 <= i < n && #[trigger] paths[i] == p
}

/// Whether none of the paths belongs to a content yet.
spec fn fresh(l: Layout, paths: Seq<Seq<char>>) -> bool {
    &&& paths.no_duplicates()
    &&& forall|i: int| 0 <= i < paths.len() ==> !l.clusters.contains_key(#[trigger] paths[i])
}

proof fn lemma_filed_fresh(l: Layout, path: Seq<char>)
    requires
        sound(l),
        l.contents.len() <= 0x1_0000,
        l.contents.len() >= 2,
        !l.clusters.contains_key(path),
        forall|at: int| 1 <= at < l.contents.len() - 1 ==> #[trigger] has_member(l.clusters, at),
    ensures
        occupied(l.filed(path)),
{
    let next = l.filed(path);
    assert(l.contents.last().index == l.contents.len() - 1);
    assert forall|at: int| 1 <= at < next.contents.len() implies #[trigger] has_member(
        next.clusters,
        at,
    ) by {
        if at < next.contents.len() - 1 {
            assert(has_member(l.clusters, at));
            let p = choose|p: Seq<char>| #[trigger]
                l.clusters.contains_key(p) && l.clusters[p] == at;
            assert(next.clusters.contains_key(p) && next.clusters[p] == at);
        } else {
            assert(next.clusters.contains_key(path) && next.clusters[path] == at);
        }
    }
}

proof fn lemma_separate_occupied(l: Layout, paths: Seq<Seq<char>>, content_type: u16, n: int)
    requires
        sound(l),
        occupied(l),
        fresh(l, paths),
        0 <= n <= paths.len(),
        l.separate(paths, content_type, n).contents.len() <= 0x1_0000,
    ensures
        occupied(l.separate(paths, content_type, n)),
        sound(l.separate(paths, content_type, n)),
        grew_by(l.separate(paths, content_type, n), l, paths, n),
    decreases n,
{
    if n > 0 {
        let before = l.separate(paths, content_type, n - 1);
        lemma_separate_occupied(l, paths, content_type, n - 1);
        let grown = before.grown(content_type, false);
        let path = paths[n - 1];
        if before.clusters.contains_key(path) {
            assert(!l.clusters.contains_key(path));
            let i = choose|i: int| 0 <= i < n - 1 && #[trigger] paths[i] == path;
            assert(paths[i] != paths[n - 1]);
        }
        assert forall|at: int| 1 <= at < grown.contents.len() - 1 implies #[trigger] has_member(
            grown.clusters,
            at,
        ) by {
            assert(has_member(before.clusters, at));
        }
        assert(sound(grown));
        lemma_filed_fresh(grown, path);
        let after = l.separate(paths, content_type, n);
        assert forall|p: Seq<char>| #[trigger]
            after.clusters.contains_key(p) implies l.clusters.contains_key(p) || exists|i: int|
            0 <= i < n && #[trigger] paths[i] == p by {
            if p == path {
                assert(paths[n - 1] == p);
            } else {
                assert(before.clusters.contains_key(p));
                if !l.clusters.contains_key(p) {
                    let i = choose|i: int| 0 <= i < n - 1 && #[trigger] paths[i] == p;
                    assert(paths[i] == p);
                }
            }
        }
    }
}

proof fn lemma_filed_all_occupied(l: Layout, paths: Seq<Seq<char>>, n: int)
    requires
        sound(l),
        l.contents.len() <= 0x1_0000,
        l.contents.len() >= 2,
        fresh(l, paths),
        forall|at: int| 1 <= at < l.contents.len() - 1 ==> #[trigger] has_member(l.clusters, at),
        1 <= n <= paths.len(),
    ensures
        occupied(l.filed_all(paths, n)),
        sound(l.filed_all(paths, n)),
        l.filed_all(paths, n).contents == l.contents,
        grew_by(l.filed_all(paths, n), l, paths, n),
    decreases n,
{
    let path = paths[n - 1];
    let after = l.filed_all(paths, n);
    if n > 1 {
        lemma_filed_all_occupied(l, paths, n - 1);
        let before = l.filed_all(paths, n - 1);
        if before.clusters.contains_key(path) {
            assert(!l.clusters.contains_key(path));
            let i = choose|i: int| 0 <= i < n - 1 && #[trigger] paths[i] == path;
            assert(paths[i] != paths[n - 1]);
        }
        lemma_filed_fresh(before, path);
        assert forall|p: Seq<char>| #[trigger]
            after.clusters.contains_key(p) implies l.clusters.contains_key(p) || exists|i: int|
            0 <= i < n && #[trigger] paths[i] == p by {
            if p == path {
                assert(paths[n - 1] == p);
            } else {
                assert(before.clusters.contains_key(p));
                if !l.clusters.contains_key(p) {
                    let i = choose|i: int| 0 <= i < n - 1 && #[trigger] paths[i] == p;
                    assert(paths[i] == p);
                }
            }
        }
    } else {
        assert(l.filed_all(paths, 0) == l);
        assert(after == l.filed(path));
        assert(!l.clusters.contains_key(paths[0]));
        lemma_filed_fresh(l, path);
        assert forall|p: Seq<char>| #[trigger]
            after.clusters.contains_key(p) implies l.clusters.contains_key(p) || exists|i: int|
            0 <= i < n && #[trigger] paths[i] == p by {
            if p == path {
                assert(paths[0] == p);
            }
        }
    }
}

proof fn lemma_shared_occupied(l: Layout, paths: Seq<Seq<char>>, content_type: u16)
    requires
        sound(l),
        occupied(l),
        fresh(l, paths),
        l.shared(paths, content_type).contents.len() <= 0x1_0000,
    ensures
        occupied(l.shared(paths, content_type)),
        sound(l.shared(paths, content_type)),
        grew_by(l.shared(paths, content_type), l, paths, paths.len() as int),
{
    if paths.len() > 0 {
        let grown = l.grown(content_type, false);
        assert(sound(grown));
        assert forall|at: int| 1 <= at < grown.contents.len() - 1 implies #[trigger] has_member(
            grown.clusters,
            at,
        ) by {
            assert(has_member(l.clusters, at));
        }
        lemma_filed_all_len(grown, paths, paths.len() as int);
        lemma_filed_all_occupied(grown, paths, paths.len() as int);
    }
}

proof fn lemma_filed_all_len(l: Layout, paths: Seq<Seq<char>>, n: int)
    ensures
        l.filed_all(paths, n).contents == l.contents,
    decreases n,
{
    if n > 0 {
        lemma_filed_all_len(l, paths, n - 1);
    }
}

/// Whether a layout's paths are below `code/` or among these names below `dir`.
spec fn keyed(l: Layout, dir: Seq<char>, names: Seq<Seq<char>>) -> bool {
    forall|p: Seq<char>| #[trigger]
        l.clusters.contains_key(p) ==> begins(p, "code/"@) || named(
            dir,
            names,
            names.len() as int,
            p,
        )
}

/// Whether no name stands in both lists.
spec fn disjoint(names: Seq<Seq<char>>, more: Seq<Seq<char>>) -> bool {
    forall|i: int, j: int|
        0 <= i < names.len() && 0 <= j < more.len() ==> #[trigger] names[i] != #[trigger] more[j]
}

/// Files of `meta/` under further names belong to no content yet.
proof fn lemma_names_fresh(
    l: Layout,
    meta: Seq<StagedEntry>,
    names: Seq<Seq<char>>,
    more: Seq<Seq<char>>,
)
    requires
        keyed(l, "meta/"@, names),
        disjoint(names, more),
        more.no_duplicates(),
    ensures
        fresh(l, present("meta/"@, meta, more, more.len() as int)),
{
    let dir = "meta/"@;
    let n = more.len() as int;
    let paths = present(dir, meta, more, n);
    lemma_present(dir, meta, more, n);
    reveal_strlit("meta/");
    reveal_strlit("code/");
    assert forall|i: int| 0 <= i < paths.len() implies !l.clusters.contains_key(
        #[trigger] paths[i],
    ) by {
        let p = paths[i];
        assert(named(dir, more, n, p));
        let m = choose|m: int| 0 <= m < n && p == dir + #[trigger] more[m];
        assert(p[0] == 'm');
        if l.clusters.contains_key(p) {
            if begins(p, "code/"@) {
                assert(p.subrange(0, 5)[0] == p[0]);
                assert("code/"@[0] == 'c');
            } else {
                assert(named(dir, names, names.len() as int, p));
                let k = choose|k: int| 0 <= k < names.len() && p == dir + #[trigger] names[k];
                lemma_same_name(dir, names[k], more[m]);
            }
        }
    }
}

proof fn lemma_names_keyed(
    after: Layout,
    before: Layout,
    meta: Seq<StagedEntry>,
    names: Seq<Seq<char>>,
    more: Seq<Seq<char>>,
)
    requires
        keyed(before, "meta/"@, names),
        more.no_duplicates(),
        ({
            let paths = present("meta/"@, meta, more, more.len() as int);
            grew_by(after, before, paths, paths.len() as int)
        }),
    ensures
        keyed(after, "meta/"@, names + more),
{
    let dir = "meta/"@;
    let n = more.len() as int;
    let paths = present(dir, meta, more, n);
    let all = names + more;
    lemma_present(dir, meta, more, n);
    assert forall|p: Seq<char>| #[trigger] after.clusters.contains_key(p) implies begins(
        p,
        "code/"@,
    ) || named(dir, all, all.len() as int, p) by {
        if before.clusters.contains_key(p) {
            if !begins(p, "code/"@) {
                assert(named(dir, names, names.len() as int, p));
                let k = choose|k: int| 0 <= k < names.len() && p == dir + #[trigger] names[k];
                assert(all[k] == names[k]);
            }
        } else {
            let i = choose|i: int| 0 <= i < paths.len() && #[trigger] paths[i] == p;
            assert(named(dir, more, n, paths[i]));
            let m = choose|m: int| 0 <= m < n && p == dir + #[trigger] more[m];
            assert(all[names.len() + m] == more[m]);
        }
    }
}

/// Whether every path of a layout is one of another layout or a file of this directory.
spec fn grew_from(
    after: Layout,
    before: Layout,
    dir: Seq<char>,
    entries: Seq<StagedEntry>,
) -> bool {
    forall|p: Seq<char>| #[trigger]
        after.clusters.contains_key(p) ==> before.clusters.contains_key(p) || lists(dir, entries, p)
}

proof fn lemma_grew_from(
    after: Layout,
    before: Layout,
    paths: Seq<Seq<char>>,
    dir: Seq<char>,
    entries: Seq<StagedEntry>,
)
    requires
        grew_by(after, before, paths, paths.len() as int),
        forall|i: int| 0 <= i < paths.len() ==> lists(dir, entries, #[trigger] paths[i]),
    ensures
        grew_from(after, before, dir, entries),
{
    assert forall|p: Seq<char>| #[trigger]
        after.clusters.contains_key(p) implies before.clusters.contains_key(p) || lists(
        dir,
        entries,
        p,
    ) by {
        if !before.clusters.contains_key(p) {
            let i = choose|i: int| 0 <= i < paths.len() && #[trigger] paths[i] == p;
            assert(lists(dir, entries, paths[i]));
        }
    }
}

/// Sharing out the files of `meta/` leaves no content empty.
proof fn lemma_meta_occupied(l: Layout, meta: Vec<StagedEntry>)
    requires
        sound(l),
        occupied(l),
        keyed(l, "meta/"@, Seq::empty()),
        names_apart(meta@),
        with_meta(l, meta@).contents.len() <= 0x1_0000,
    ensures
        sound(with_meta(l, meta@)),
        occupied(with_meta(l, meta@)),
        grew_from(with_meta(l, meta@), l, "meta/"@, meta@),
{
    let dir = "meta/"@;
    let none = Seq::<Seq<char>>::empty();
    let one = seq!["meta.xml"@];
    let four = seq!["iconTex.tga"@, "bootTvTex.tga"@, "bootDrcTex.tga"@, "bootSound.btsnd"@];
    let two = seq!["bootMovie.h264"@, "bootLogoTex.tga"@];
    reveal_strlit("meta.xml");
    reveal_strlit("iconTex.tga");
    reveal_strlit("bootTvTex.tga");
    reveal_strlit("bootDrcTex.tga");
    reveal_strlit("bootSound.btsnd");
    reveal_strlit("bootMovie.h264");
    reveal_strlit("bootLogoTex.tga");
    assert("bootDrcTex.tga"@[4] != "bootMovie.h264"@[4]);
    assert("bootSound.btsnd"@[4] != "bootLogoTex.tga"@[4]);
    assert(four[0].len() == 11 && four[1].len() == 13 && four[2].len() == 14 && four[3].len()
        == 15);
    assert(four.no_duplicates()) by {
        assert forall|i: int, j: int| 0 <= i < 4 && 0 <= j < 4 && i != j implies four[i]
            != four[j] by {
            assert(four[i].len() != four[j].len());
        }
    }
    let alone = present(dir, meta@, one, 1);
    let l1 = l.shared(alone, TYPE_HASHED);
    let boot = present(dir, meta@, four, 4);
    let l2 = l1.shared(boot, TYPE_HASHED);
    let singles = present(dir, meta@, two, 2);
    let l3 = l2.separate(singles, TYPE_HASHED, singles.len() as int);
    let order = listing(meta@, Lead::Nothing);
    let rest = leftover(dir, meta@, order, l3.clusters, order.len() as int);
    let l4 = l3.shared(rest, TYPE_HASHED);
    assert(l4 == with_meta(l, meta@));
    lemma_shared_len(l, alone, TYPE_HASHED);
    lemma_shared_len(l1, boot, TYPE_HASHED);
    lemma_shared(l, alone, TYPE_HASHED);
    lemma_shared(l1, boot, TYPE_HASHED);
    lemma_separate(l2, singles, TYPE_HASHED, singles.len() as int);
    lemma_shared_len(l3, rest, TYPE_HASHED);

    lemma_names_fresh(l, meta@, none, one);
    lemma_shared_occupied(l, alone, TYPE_HASHED);
    lemma_names_keyed(l1, l, meta@, none, one);
    lemma_present(dir, meta@, one, 1);
    lemma_grew_from(l1, l, alone, dir, meta@);

    lemma_names_fresh(l1, meta@, none + one, four);
    lemma_shared_occupied(l1, boot, TYPE_HASHED);
    lemma_names_keyed(l2, l1, meta@, none + one, four);
    lemma_present(dir, meta@, four, 4);
    lemma_grew_from(l2, l1, boot, dir, meta@);

    lemma_names_fresh(l2, meta@, none + one + four, two);
    lemma_separate_occupied(l2, singles, TYPE_HASHED, singles.len() as int);
    lemma_present(dir, meta@, two, 2);
    lemma_grew_from(l3, l2, singles, dir, meta@);

    assert(meta@.len() == meta.len());
    lemma_order_bounds(meta@, Lead::Nothing, meta@.len() as int);
    law_listing_is_stable_sort(meta@, Lead::Nothing, meta@.len() as int);
    lemma_leftover(dir, meta@, order, l3.clusters, order.len() as int);
    lemma_shared_occupied(l3, rest, TYPE_HASHED);
    lemma_grew_from(l4, l3, rest, dir, meta@);
}

proof fn lemma_shared_len(l: Layout, paths: Seq<Seq<char>>, content_type: u16)
    ensures
        l.contents.len() <= l.shared(paths, content_type).contents.len(),
{
    lemma_filed_all_len(l.grown(content_type, false), paths, paths.len() as int);
}

/// No content of `code/` and `meta/` is left without a file, and what belongs to one is a file
/// of these directories.
proof fn lemma_before_game_occupied(build: StagedBuild)
    requires
        layout_before_game(build).contents.len() <= 0x1_0000,
        build.code is Some ==> names_apart(build.code->0@),
        build.meta is Some ==> names_apart(build.meta->0@),
    ensures
        occupied(layout_before_game(build)),
        forall|p: Seq<char>| #[trigger]
            layout_before_game(build).clusters.contains_key(p) ==> {
                ||| build.code is Some && lists("code/"@, build.code->0@, p)
                ||| build.meta is Some && lists("meta/"@, build.meta->0@, p)
            },
{
    let l0 = Layout::start();
    assert(sound(l0));
    assert(occupied(l0));
    let l1 = match build.code {
        Some(code) => with_code_heads(l0, code@),
        None => l0,
    };
    let l2 = match build.meta {
        Some(meta) => with_meta(l1, meta@),
        None => l1,
    };
    let l3 = layout_before_game(build);
    let names = seq!["app.xml"@, "cos.xml"@];
    reveal_strlit("app.xml");
    reveal_strlit("cos.xml");
    assert("app.xml"@[0] != "cos.xml"@[0]);
    if let Some(code) = build.code {
        let heads = present("code/"@, code@, names, 2);
        lemma_separate(l0, heads, TYPE_NONHASHED, heads.len() as int);
    }
    if let Some(meta) = build.meta {
        lemma_meta(l1, meta@);
        lemma_meta_len(l1, meta@);
    }
    if let Some(code) = build.code {
        let order = listing(code@, Lead::Programs);
        let rest = leftover("code/"@, code@, order, l2.clusters, order.len() as int);
        lemma_separate(l2, rest, TYPE_NONHASHED, rest.len() as int);
    }
    if let Some(code) = build.code {
        let heads = present("code/"@, code@, names, 2);
        lemma_present("code/"@, code@, names, 2);
        lemma_separate_occupied(l0, heads, TYPE_NONHASHED, heads.len() as int);
        lemma_grew_from(l1, l0, heads, "code/"@, code@);
    }
    assert(keyed(l1, "meta/"@, Seq::empty())) by {
        assert forall|p: Seq<char>| #[trigger] l1.clusters.contains_key(p) implies begins(
            p,
            "code/"@,
        ) by {
            if let Some(code) = build.code {
                assert(lists("code/"@, code@, p));
                let e = choose|e: int|
                    0 <= e < code@.len() && (#[trigger] code@[e]) is File && p == "code/"@
                        + code@[e].name_view();
                reveal_strlit("code/");
                assert(p.subrange(0, 5) =~= "code/"@);
            }
        }
    }
    if let Some(meta) = build.meta {
        lemma_meta_occupied(l1, meta);
    }
    if let Some(code) = build.code {
        let order = listing(code@, Lead::Programs);
        let rest = leftover("code/"@, code@, order, l2.clusters, order.len() as int);
        assert(code@.len() == code.len());
        lemma_order_bounds(code@, Lead::Programs, code@.len() as int);
        law_listing_is_stable_sort(code@, Lead::Programs, code@.len() as int);
        lemma_leftover("code/"@, code@, order, l2.clusters, order.len() as int);
        lemma_separate_occupied(l2, rest, TYPE_NONHASHED, rest.len() as int);
        lemma_grew_from(l3, l2, rest, "code/"@, code@);
    }
}

proof fn lemma_meta_len(l: Layout, meta: Seq<StagedEntry>)
    requires
        sound(l),
    ensures
        l.contents.len() <= with_meta(l, meta).contents.len(),
{
    let dir = "meta/"@;
    let alone = present(dir, meta, seq!["meta.xml"@], 1);
    let l1 = l.shared(alone, TYPE_HASHED);
    let boot = present(
        dir,
        meta,
        seq!["iconTex.tga"@, "bootTvTex.tga"@, "bootDrcTex.tga"@, "bootSound.btsnd"@],
        4,
    );
    let l2 = l1.shared(boot, TYPE_HASHED);
    let singles = present(dir, meta, seq!["bootMovie.h264"@, "bootLogoTex.tga"@], 2);
    let l3 = l2.separate(singles, TYPE_HASHED, singles.len() as int);
    let order = listing(meta, Lead::Nothing);
    lemma_shared_len(l, alone, TYPE_HASHED);
    lemma_shared(l, alone, TYPE_HASHED);
    lemma_shared_len(l1, boot, TYPE_HASHED);
    lemma_shared(l1, boot, TYPE_HASHED);
    lemma_separate(l2, singles, TYPE_HASHED, singles.len() as int);
    lemma_shared_len(
        l3,
        leftover(dir, meta, order, l3.clusters, order.len() as int),
        TYPE_HASHED,
    );
}

/// Distinct paths in a build are distinct in each directory.
proof fn lemma_parts_distinct(build: StagedBuild)
    requires
        distinct_paths(all_files(build)),
    ensures
        distinct_paths(top_files("code"@, build.code)),
        distinct_paths(top_files("content"@, build.content)),
        distinct_paths(top_files("meta"@, build.meta)),
        build.code is Some ==> names_apart(build.code->0@),
        build.meta is Some ==> names_apart(build.meta->0@),
{
    let code = top_files("code"@, build.code);
    let content = top_files("content"@, build.content);
    let meta = top_files("meta"@, build.meta);
    let all = all_files(build);
    assert(all == code + content + meta);
    assert forall|i: int, j: int| 0 <= i < j < code.len() implies (#[trigger] code[i]).0 != (
    #[trigger] code[j]).0 by {
        assert(all[i] == code[i] && all[j] == code[j]);
    }
    let a = code.len() as int;
    assert forall|i: int, j: int| 0 <= i < j < content.len() implies (#[trigger] content[i]).0 != (
    #[trigger] content[j]).0 by {
        assert(all[a + i] == content[i] && all[a + j] == content[j]);
    }
    let b = a + content.len();
    assert forall|i: int, j: int| 0 <= i < j < meta.len() implies (#[trigger] meta[i]).0 != (
    #[trigger] meta[j]).0 by {
        assert(all[b + i] == meta[i] && all[b + j] == meta[j]);
    }
    if let Some(list) = build.code {
        lemma_top_lists("code"@, list);
    }
    if let Some(list) = build.meta {
        lemma_top_lists("meta"@, list);
    }
}

/// What lies below `content/` comes from the game's files alone.
proof fn lemma_below_content(build: StagedBuild, k: int)
    requires
        0 <= k < all_files(build).len(),
    ensures
        begins(all_files(build)[k].0, "content/"@) <==> top_files("code"@, build.code).len() <= k
            < top_files("code"@, build.code).len() + top_files("content"@, build.content).len(),
{
    let code = top_files("code"@, build.code);
    let content = top_files("content"@, build.content);
    let meta = top_files("meta"@, build.meta);
    let all = all_files(build);
    reveal_strlit("code");
    reveal_strlit("content");
    reveal_strlit("meta");
    reveal_strlit("/");
    reveal_strlit("content/");
    assert("content"@ + "/"@ =~= "content/"@);
    let path = all[k].0;
    if k < code.len() {
        if let Some(list) = build.code {
            lemma_prefixed("code"@ + "/"@, list@, listing(list@, Lead::DiscImages), 0);
            assert(begins(code[k].0, "code"@ + "/"@));
            assert(path[2] == ("code"@ + "/"@)[2]);
            assert(path[2] == 'd');
            assert("content/"@[2] == 'n');
        }
    } else if k < code.len() + content.len() {
        if let Some(list) = build.content {
            lemma_prefixed("content/"@, list@, listing(list@, Lead::DiscImages), 0);
            assert(begins(content[k - code.len()].0, "content/"@));
        }
    } else {
        if let Some(list) = build.meta {
            lemma_prefixed("meta"@ + "/"@, list@, listing(list@, Lead::DiscImages), 0);
            assert(begins(meta[k - code.len() - content.len()].0, "meta"@ + "/"@));
            assert(path[0] == ("meta"@ + "/"@)[0]);
            assert(path[0] == 'm');
            assert("content/"@[0] == 'c');
        }
    }
}

/// What the packing of the game files leaves behind.
proof fn lemma_game_layout(build: StagedBuild)
    requires
        layout_of(build).contents.len() <= 0x1_0000,
        distinct_paths(all_files(build)),
    ensures
        layout_before_game(build).contents.len() <= layout_of(build).contents.len(),
        match build.content {
            Some(list) => {
                let start = layout_before_game(build);
                let games = top_files("content"@, build.content);
                let p = packing_from(start).packed_all(games, games.len() as int);
                &&& p.layout == layout_of(build)
                &&& packing_stands(start, games, p, games.len() as int)
            },
            None => layout_of(build) == layout_before_game(build) && top_files(
                "content"@,
                build.content,
            ).len() == 0,
        },
{
    lemma_parts_distinct(build);
    if let Some(list) = build.content {
        let start = layout_before_game(build);
        let games = top_files("content"@, build.content);
        reveal_strlit("content");
        reveal_strlit("/");
        reveal_strlit("content/");
        assert("content"@ + "/"@ =~= "content/"@);
        assert(games == files_below("content/"@, list@));
        lemma_packed_small(start, games, games.len() as int);
    }
}

/// A content of the game holds the game files that belong to it.
proof fn lemma_game_held(build: StagedBuild, at: int)
    requires
        build.total_weight() <= WEIGHT_LIMIT,
        tree_of(build) is Ok,
        tree_of(build)->Ok_0.contents.len() <= 0x1_0000,
        distinct_paths(all_files(build)),
        layout_before_game(build).contents.len() <= at < tree_of(build)->Ok_0.contents.len(),
    ensures
        build.content is Some,
        held(tree_of(build)->Ok_0.contents[at]) == belonging(
            top_files("content"@, build.content),
            layout_of(build).clusters,
            at,
            top_files("content"@, build.content).len() as int,
        ),
        load(tree_of(build)->Ok_0.contents[at]) == share(
            top_files("content"@, build.content),
            layout_of(build).clusters,
            at,
            top_files("content"@, build.content).len() as int,
        ),
        tree_of(build)->Ok_0.contents[at].files.len() > 0,
{
    let code = top_files("code"@, build.code);
    let games = top_files("content"@, build.content);
    let meta = top_files("meta"@, build.meta);
    let clusters = layout_of(build).clusters;
    lemma_tree_held(build, at);
    lemma_parts_distinct(build);
    lemma_game_layout(build);
    lemma_others_stay_out(build, "code"@, build.code, at);
    lemma_others_stay_out(build, "meta"@, build.meta, at);
    lemma_share_concat(code, games, clusters, at, games.len() as int);
    lemma_share_concat(code + games, meta, clusters, at, meta.len() as int);
    let own = belonging(games, clusters, at, games.len() as int);
    assert(all_files(build) == code + games + meta);
    assert(Seq::<(Seq<char>, u64)>::empty() + own =~= own);
    assert(own + Seq::<(Seq<char>, u64)>::empty() =~= own);
    assert(own.len() > 0);
    assert(held(tree_of(build)->Ok_0.contents[at]).len() > 0);
}

/// A content of `code/` or `meta/` holds a file, and none of its files lies below `content/`.
proof fn lemma_other_held(build: StagedBuild, at: int)
    requires
        build.total_weight() <= WEIGHT_LIMIT,
        tree_of(build) is Ok,
        tree_of(build)->Ok_0.contents.len() <= 0x1_0000,
        distinct_paths(all_files(build)),
        1 <= at < layout_before_game(build).contents.len(),
    ensures
        at < tree_of(build)->Ok_0.contents.len(),
        tree_of(build)->Ok_0.contents[at].files.len() > 0,
        forall|j: int|
            0 <= j < tree_of(build)->Ok_0.contents[at].files.len() ==> !begins(
                (#[trigger] tree_of(build)->Ok_0.contents[at].files[j]).path,
                "content/"@,
            ),
{
    let start = layout_before_game(build);
    let all = all_files(build);
    let n = all.len() as int;
    let code = top_files("code"@, build.code);
    let games = top_files("content"@, build.content);
    let meta = top_files("meta"@, build.meta);
    let clusters = layout_of(build).clusters;
    lemma_layout(build);
    law_tree_holds_the_build(build);
    lemma_parts_distinct(build);
    lemma_game_layout(build);
    lemma_before_game_occupied(build);
    lemma_tree_held(build, at);
    let c = tree_of(build)->Ok_0.contents[at];
    assert(has_member(start.clusters, at));
    let path = choose|p: Seq<char>| #[trigger]
        start.clusters.contains_key(p) && start.clusters[p] == at;
    let k = lemma_listed(build, path);
    lemma_below_content(build, k);
    assert(clusters.contains_key(path) && clusters[path] == at) by {
        if build.content is Some {
            assert forall|g: int| 0 <= g < games.len() implies (#[trigger] games[g]).0 != path by {
                assert(all[code.len() + g] == games[g]);
                lemma_below_content(build, code.len() + g);
            }
        }
    }
    lemma_belonging(all, clusters, at, n);
    assert(belongs(all, clusters, at, k));
    assert(held(c).contains(all[k]));
    assert(held(c).len() > 0);
    assert forall|j: int| 0 <= j < c.files.len() implies !begins(
        (#[trigger] c.files[j]).path,
        "content/"@,
    ) by {
        lemma_placed_is_staged(build, at, j);
        let m = choose|m: int| 0 <= m < n && all[m] == held(c)[j];
        lemma_below_content(build, m);
        if begins(all[m].0, "content/"@) {
            assert(games[m - code.len()] == all[m]);
            assert(clusters[games[m - code.len()].0] >= start.contents.len());
        }
    }
}

/// Where a path of the layout before the game stands among the files; it is not below `content/`.
proof fn lemma_listed(build: StagedBuild, path: Seq<char>) -> (k: int)
    requires
        layout_before_game(build).contents.len() <= 0x1_0000,
        build.code is Some ==> names_apart(build.code->0@),
        build.meta is Some ==> names_apart(build.meta->0@),
        layout_before_game(build).clusters.contains_key(path),
    ensures
        0 <= k < all_files(build).len(),
        all_files(build)[k].0 == path,
        !begins(path, "content/"@),
{
    let all = all_files(build);
    let code = top_files("code"@, build.code);
    let games = top_files("content"@, build.content);
    let meta = top_files("meta"@, build.meta);
    lemma_before_game_occupied(build);
    reveal_strlit("code");
    reveal_strlit("meta");
    reveal_strlit("/");
    reveal_strlit("code/");
    reveal_strlit("meta/");
    assert("code"@ + "/"@ =~= "code/"@);
    assert("meta"@ + "/"@ =~= "meta/"@);
    if build.code is Some && lists("code/"@, build.code->0@, path) {
        lemma_top_lists("code"@, build.code->0);
        let k = choose|k: int| 0 <= k < code.len() && (#[trigger] code[k]).0 == path;
        assert(all[k] == code[k]);
        lemma_below_content(build, k);
        k
    } else {
        lemma_top_lists("meta"@, build.meta->0);
        let m = choose|m: int| 0 <= m < meta.len() && (#[trigger] meta[m]).0 == path;
        let k = code.len() + games.len() + m;
        assert(all[k] == meta[m]);
        lemma_below_content(build, k);
        k
    }
}

/// Every content but the table's holds a file. Its files follow one another: the first begins at
/// 0, each of the others at the next multiple of 0x20 behind the one before, and the content ends
/// where its last file does.
pub proof fn law_files_follow_one_another(build: StagedBuild, title_id: u64)
    requires
        build.total_weight() <= WEIGHT_LIMIT,
        tree_of(build) is Ok,
        tree_of(build)->Ok_0.contents.len() <= 0x1_0000,
        distinct_paths(all_files(build)),
    ensures
        ({
            let contents = planned(tree_of(build)->Ok_0, title_id);
            forall|at: int|
                0 < at < contents.len() ==> {
                    let c = #[trigger] contents[at];
                    &&& c.files.len() > 0
                    &&& c.files[0].offset == 0
                    &&& c.data_len == end_of(c.files.last())
                    &&& forall|j: int|
                        0 < j < c.files.len() ==> (#[trigger] c.files[j]).offset == rounded_up(
                            end_of(c.files[j - 1]),
                            0x20,
                        )
                }
        }),
{
    let tree = tree_of(build)->Ok_0;
    let contents = planned(tree, title_id);
    lemma_layout(build);
    law_tree_holds_the_build(build);
    assert forall|at: int| 0 < at < contents.len() implies (#[trigger] contents[at]).files.len() > 0
        && chained(contents[at]) by {
        assert(contents[at] == tree.contents[at]);
        lemma_tree_held(build, at);
        if at < layout_before_game(build).contents.len() {
            lemma_other_held(build, at);
        } else {
            lemma_game_held(build, at);
        }
    }
}

/// The contents of the game come last. They are the ones that hold what lies below `content/`,
/// and that alone; all are hashed. None is longer than the limit where no game file is. A
/// further one begins only with a file that no longer fitted into the one before.
pub proof fn law_game_contents_come_last(build: StagedBuild, title_id: u64)
    requires
        build.total_weight() <= WEIGHT_LIMIT,
        tree_of(build) is Ok,
        tree_of(build)->Ok_0.contents.len() <= 0x1_0000,
        distinct_paths(all_files(build)),
    ensures
        ({
            let contents = planned(tree_of(build)->Ok_0, title_id);
            let games = top_files("content"@, build.content);
            &&& forall|a: int, b: int|
                0 <= a < b < contents.len() && (#[trigger] contents[a]).is_game ==> (
                #[trigger] contents[b]).is_game
            &&& !contents[0].is_game
            &&& forall|at: int|
                0 < at < contents.len() ==> ((#[trigger] contents[at]).is_game <==> forall|j: int|
                    0 <= j < contents[at].files.len() ==> begins(
                        (#[trigger] contents[at].files[j]).path,
                        "content/"@,
                    ))
            &&& forall|at: int|
                0 < at < contents.len() && !(#[trigger] contents[at]).is_game ==> forall|j: int|
                    0 <= j < contents[at].files.len() ==> !begins(
                        (#[trigger] contents[at].files[j]).path,
                        "content/"@,
                    )
            &&& forall|at: int|
                0 <= at < contents.len() && (#[trigger] contents[at]).is_game
                    ==> contents[at].content_type == TYPE_HASHED
            &&& (forall|k: int| 0 <= k < games.len() ==> (#[trigger] games[k]).1
                <= MAX_GAME_CONTENT_BYTES) ==> forall|at: int|
                0 <= at < contents.len() && (#[trigger] contents[at]).is_game
                    ==> contents[at].data_len <= MAX_GAME_CONTENT_BYTES
            &&& forall|at: int, next: int|
                0 <= at && next == at + 1 && next < contents.len() && (#[trigger] contents[at]).is_game
                    && (#[trigger] contents[next]).is_game ==> rounded_up(
                    contents[at].data_len as int,
                    0x20,
                ) + rounded_up(contents[next].files[0].size as int, 0x20) > MAX_GAME_CONTENT_BYTES
        }),
{
    let tree = tree_of(build)->Ok_0;
    let layout = layout_of(build);
    let contents = planned(tree, title_id);
    let games = top_files("content"@, build.content);
    let n = games.len() as int;
    let base = layout_before_game(build).contents.len() as int;
    lemma_layout(build);
    lemma_layout_before_game(build);
    law_tree_holds_the_build(build);
    lemma_game_layout(build);
    lemma_parts_distinct(build);
    assert forall|at: int| 0 <= at < contents.len() implies ((#[trigger] contents[at]).is_game
        <==> at >= base) && (contents[at].is_game ==> contents[at].content_type == TYPE_HASHED) by {
        assert(layout.contents[at].is_game == tree.contents[at].is_game);
        assert(layout.contents[at].content_type == tree.contents[at].content_type);
        if at < base {
            assert(layout.contents[at] == layout_before_game(build).contents[at]);
        }
    }
    assert forall|at: int| base <= at < contents.len() implies (#[trigger] contents[at]).files.len()
        > 0 && forall|j: int|
        0 <= j < contents[at].files.len() ==> begins(
            (#[trigger] contents[at].files[j]).path,
            "content/"@,
        ) by {
        assert(contents[at] == tree.contents[at]);
        lemma_game_held(build, at);
        lemma_game_files_below(build, at);
    }
    assert forall|at: int| 0 < at < base implies (#[trigger] contents[at]).files.len() > 0
        && forall|j: int|
        0 <= j < contents[at].files.len() ==> !begins(
            (#[trigger] contents[at].files[j]).path,
            "content/"@,
        ) by {
        lemma_other_held(build, at);
        assert(contents[at] == tree.contents[at]);
    }
    assert forall|at: int| 0 < at < contents.len() implies ((#[trigger] contents[at]).is_game
        <==> forall|j: int|
        0 <= j < contents[at].files.len() ==> begins(
            (#[trigger] contents[at].files[j]).path,
            "content/"@,
        )) by {
        if at < base {
            assert(!begins(contents[at].files[0].path, "content/"@));
        }
    }
    if forall|k: int| 0 <= k < n ==> (#[trigger] games[k]).1 <= MAX_GAME_CONTENT_BYTES {
        assert forall|at: int| 0 <= at < contents.len() && (#[trigger] contents[at]).is_game implies
            contents[at].data_len <= MAX_GAME_CONTENT_BYTES by {
            assert(contents[at] == tree.contents[at]);
            law_game_contents_keep_the_limit(build, at);
            if contents[at].files.len() == 1 {
                lemma_tree_held(build, at);
                lemma_game_held(build, at);
                lemma_belonging(games, layout.clusters, at, n);
                assert(comes_from(
                    games,
                    layout.clusters,
                    at,
                    n,
                    belonging(games, layout.clusters, at, n)[0],
                ));
                let k = choose|k: int|
                    0 <= k < n && #[trigger] belongs(games, layout.clusters, at, k) && games[k]
                        == held(contents[at])[0];
                assert(games[k].1 == contents[at].files[0].size);
            }
        }
    }
    assert forall|at: int, next: int|
        0 <= at && next == at + 1 && next < contents.len() && (#[trigger] contents[at]).is_game && (
        #[trigger] contents[next]).is_game implies rounded_up(
        contents[at].data_len as int,
        0x20,
    ) + rounded_up(contents[next].files[0].size as int, 0x20) > MAX_GAME_CONTENT_BYTES by {
        assert(contents[at] == tree.contents[at]);
        assert(contents[next] == tree.contents[next]);
        lemma_game_held(build, at);
        lemma_game_held(build, next);
        assert(was_full(games, layout.clusters, at, n));
        assert(held(contents[next])[0] == belonging(games, layout.clusters, next, n)[0]);
    }
}

/// The files of a content of the game lie below `content/`.
proof fn lemma_game_files_below(build: StagedBuild, at: int)
    requires
        build.total_weight() <= WEIGHT_LIMIT,
        tree_of(build) is Ok,
        tree_of(build)->Ok_0.contents.len() <= 0x1_0000,
        distinct_paths(all_files(build)),
        layout_before_game(build).contents.len() <= at < tree_of(build)->Ok_0.contents.len(),
    ensures
        forall|j: int|
            0 <= j < tree_of(build)->Ok_0.contents[at].files.len() ==> begins(
                (#[trigger] tree_of(build)->Ok_0.contents[at].files[j]).path,
                "content/"@,
            ),
{
    let c = tree_of(build)->Ok_0.contents[at];
    let code = top_files("code"@, build.code);
    let games = top_files("content"@, build.content);
    let clusters = layout_of(build).clusters;
    let n = games.len() as int;
    lemma_game_held(build, at);
    lemma_belonging(games, clusters, at, n);
    assert forall|j: int| 0 <= j < c.files.len() implies begins(
        (#[trigger] c.files[j]).path,
        "content/"@,
    ) by {
        assert(held(c)[j] == belonging(games, clusters, at, n)[j]);
        assert(comes_from(games, clusters, at, n, belonging(games, clusters, at, n)[j]));
        let k = choose|k: int|
            0 <= k < n && #[trigger] belongs(games, clusters, at, k) && games[k] == held(c)[j];
        assert(all_files(build)[code.len() + k] == games[k]);
        lemma_below_content(build, code.len() + k);
    }
}

} // verus!

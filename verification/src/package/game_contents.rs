//! How large the game contents get.
//!
//! The files below `content/` are packed into contents in listing order, each into the content
//! being filled while it fits under [`MAX_GAME_CONTENT_BYTES`]. So no game content is larger,
//! unless a single file is.

use vstd::prelude::*;

use crate::package::content::{
    dir_node, files_from, flattened, layout_before_game, layout_of, lemma_layout,
    lemma_layout_before_game, lemma_total_len_update, lemma_vec_len, top_flattened, total_len,
    tree_of, with_file, ContentView, Flat, Layout, MAX_GAME_CONTENT_BYTES, Packing, TYPE_HASHED,
    WEIGHT_LIMIT,
};
use crate::package::content_crypto::block_count;
use crate::package::plaintext::end_of;
use crate::package::round_trip::{
    law_tree_holds_the_build, lemma_empty_len, lemma_filed, lemma_flattened, lemma_top, ready, tidy,
};
use crate::package::staging::{
    dir_weight, lemma_dir_weight, lemma_listed_prefix, lemma_listed_step, lemma_listing_weight,
    lemma_order_bounds, lemma_weight_of, listed_weight, listing, weight_of, Lead, StagedBuild,
    StagedEntry,
};
use crate::util::{lemma_rounded_up, rounded_up};

verus! {

/// The room that a content takes, its end aligned as the next file's offset would be.
pub open spec fn load(c: ContentView) -> int {
    rounded_up(c.data_len as int, 0x20)
}

/// Whether file `k` belongs to content `at`.
pub open spec fn belongs(
    files: Seq<(Seq<char>, u64)>,
    clusters: Map<Seq<char>, u16>,
    at: int,
    k: int,
) -> bool {
    clusters.contains_key(files[k].0) && clusters[files[k].0] == at
}

/// The room that those of the first `n` files take which belong to content `at`.
pub open spec fn share(
    files: Seq<(Seq<char>, u64)>,
    clusters: Map<Seq<char>, u16>,
    at: int,
    n: int,
) -> int
    decreases n,
{
    if n <= 0 {
        0
    } else if belongs(files, clusters, at, n - 1) {
        share(files, clusters, at, n - 1) + rounded_up(files[n - 1].1 as int, 0x20)
    } else {
        share(files, clusters, at, n - 1)
    }
}

/// How many of the first `n` files belong to content `at`.
pub open spec fn members(
    files: Seq<(Seq<char>, u64)>,
    clusters: Map<Seq<char>, u16>,
    at: int,
    n: int,
) -> int
    decreases n,
{
    if n <= 0 {
        0
    } else if belongs(files, clusters, at, n - 1) {
        members(files, clusters, at, n - 1) + 1
    } else {
        members(files, clusters, at, n - 1)
    }
}

/// Those of the first `n` files that belong to content `at`, in order.
pub open spec fn belonging(
    files: Seq<(Seq<char>, u64)>,
    clusters: Map<Seq<char>, u16>,
    at: int,
    n: int,
) -> Seq<(Seq<char>, u64)>
    decreases n,
{
    if n <= 0 {
        Seq::empty()
    } else if belongs(files, clusters, at, n - 1) {
        belonging(files, clusters, at, n - 1).push(files[n - 1])
    } else {
        belonging(files, clusters, at, n - 1)
    }
}

/// The files that a content holds, by path and size.
pub open spec fn held(c: ContentView) -> Seq<(Seq<char>, u64)> {
    Seq::new(c.files.len(), |j: int| (c.files[j].path, c.files[j].size))
}

/// Whether the files of a content follow one another: the first stands at its start, each other
/// one at the end of the one before, rounded up to 0x20, and the content ends with the last.
pub open spec fn chained(c: ContentView) -> bool {
    &&& c.files.len() == 0 ==> c.data_len == 0
    &&& c.files.len() > 0 ==> c.files[0].offset == 0 && c.data_len == end_of(c.files.last())
    &&& forall|j: int|
        0 < j < c.files.len() ==> (#[trigger] c.files[j]).offset == rounded_up(
            end_of(c.files[j - 1]),
            0x20,
        )
}

proof fn lemma_share_prefix(
    a: Seq<(Seq<char>, u64)>,
    b: Seq<(Seq<char>, u64)>,
    clusters: Map<Seq<char>, u16>,
    at: int,
    n: int,
)
    requires
        n <= a.len(),
        n <= b.len(),
        forall|k: int| 0 <= k < n ==> a[k] == b[k],
    ensures
        share(a, clusters, at, n) == share(b, clusters, at, n),
        members(a, clusters, at, n) == members(b, clusters, at, n),
        belonging(a, clusters, at, n) == belonging(b, clusters, at, n),
    decreases n,
{
    if n > 0 {
        lemma_share_prefix(a, b, clusters, at, n - 1);
        assert(a[n - 1] == b[n - 1]);
    }
}

pub proof fn lemma_share_concat(
    a: Seq<(Seq<char>, u64)>,
    b: Seq<(Seq<char>, u64)>,
    clusters: Map<Seq<char>, u16>,
    at: int,
    n: int,
)
    requires
        0 <= n <= b.len(),
    ensures
        share(a + b, clusters, at, a.len() + n) == share(a, clusters, at, a.len() as int) + share(
            b,
            clusters,
            at,
            n,
        ),
        members(a + b, clusters, at, a.len() + n) == members(a, clusters, at, a.len() as int)
            + members(b, clusters, at, n),
        belonging(a + b, clusters, at, a.len() + n) == belonging(
            a,
            clusters,
            at,
            a.len() as int,
        ) + belonging(b, clusters, at, n),
    decreases n,
{
    if n > 0 {
        lemma_share_concat(a, b, clusters, at, n - 1);
        assert((a + b)[a.len() + n - 1] == b[n - 1]);
    } else {
        lemma_share_prefix(a + b, a, clusters, at, a.len() as int);
    }
}

/// Whether content `at` took in the files that belong to it.
pub open spec fn took_in(
    before: ContentView,
    after: ContentView,
    files: Seq<(Seq<char>, u64)>,
    clusters: Map<Seq<char>, u16>,
    at: int,
) -> bool {
    &&& load(after) == load(before) + share(files, clusters, at, files.len() as int)
    &&& after.files.len() == before.files.len() + members(files, clusters, at, files.len() as int)
    &&& held(after) == held(before) + belonging(files, clusters, at, files.len() as int)
    &&& chained(before) ==> chained(after)
}

/// Whether every content took in the files that belong to it.
pub open spec fn all_took_in(
    before: Seq<ContentView>,
    after: Seq<ContentView>,
    files: Seq<(Seq<char>, u64)>,
    clusters: Map<Seq<char>, u16>,
) -> bool {
    &&& before.len() == after.len()
    &&& forall|at: int|
        0 <= at < before.len() ==> took_in(#[trigger] before[at], after[at], files, clusters, at)
}

proof fn lemma_took_in_twice(
    a: Seq<ContentView>,
    b: Seq<ContentView>,
    c: Seq<ContentView>,
    first: Seq<(Seq<char>, u64)>,
    second: Seq<(Seq<char>, u64)>,
    clusters: Map<Seq<char>, u16>,
)
    requires
        all_took_in(a, b, first, clusters),
        all_took_in(b, c, second, clusters),
    ensures
        all_took_in(a, c, first + second, clusters),
{
    assert forall|at: int| 0 <= at < a.len() implies took_in(
        #[trigger] a[at],
        c[at],
        first + second,
        clusters,
        at,
    ) by {
        assert(took_in(b[at], c[at], second, clusters, at));
        lemma_share_concat(first, second, clusters, at, second.len() as int);
        assert(held(a[at]) + belonging(first, clusters, at, first.len() as int) + belonging(
            second,
            clusters,
            at,
            second.len() as int,
        ) =~= held(a[at]) + (belonging(first, clusters, at, first.len() as int) + belonging(
            second,
            clusters,
            at,
            second.len() as int,
        )));
    }
}

proof fn lemma_file_taken_in(
    st: Flat,
    name: Seq<char>,
    path: Seq<char>,
    size: u64,
    clusters: Map<Seq<char>, u16>,
    flags: u16,
    used: int,
)
    requires
        clusters.contains_key(path),
        clusters[path] < st.contents.len(),
        total_len(st.contents, st.contents.len() as int) <= used,
        used + size + 0x40 <= u64::MAX,
    ensures
        all_took_in(
            st.contents,
            st.filed(name, path, size, clusters[path], flags).contents,
            seq![(path, size)],
            clusters,
        ),
{
    let cluster = clusters[path] as int;
    let files = seq![(path, size)];
    let next = st.filed(name, path, size, clusters[path], flags);
    assert forall|at: int| 0 <= at < st.contents.len() implies took_in(
        #[trigger] st.contents[at],
        next.contents[at],
        files,
        clusters,
        at,
    ) by {
        reveal_with_fuel(share, 2);
        reveal_with_fuel(members, 2);
        reveal_with_fuel(belonging, 2);
        assert(files[0] == (path, size));
        if at == cluster {
            let c = st.contents[at];
            lemma_total_len_update(
                st.contents,
                st.contents.len() as int,
                at,
                c,
            );
            lemma_rounded_up(c.data_len as int, 0x20);
            let offset = load(c);
            assert(next.contents[at] == with_file(c, path, size));
            assert(next.contents[at].data_len == offset + size);
            assert(offset % 0x20 == 0);
            assert(rounded_up(offset + size, 0x20) == offset + rounded_up(size as int, 0x20));
            assert(held(next.contents[at]) =~= held(c) + belonging(files, clusters, at, 1));
        } else {
            assert(held(next.contents[at]) =~= held(st.contents[at]) + belonging(
                files,
                clusters,
                at,
                1,
            ));
        }
    }
}

/// Laying out the entries of a directory puts every file below it into its content.
proof fn lemma_loads(
    entries: Seq<StagedEntry>,
    order: Seq<usize>,
    i: int,
    prefix: Seq<char>,
    dir: Seq<char>,
    flags: u16,
    parent: u32,
    clusters: Map<Seq<char>, u16>,
    st: Flat,
    used: int,
)
    requires
        flattened(entries, order, i, prefix, flags, parent, clusters, st) is Ok,
        0 <= i <= order.len(),
        forall|j: int| 0 <= j < order.len() ==> (#[trigger] order[j]) < entries.len(),
        prefix == dir + "/"@,
        dir.len() > 0,
        ready(st, clusters, used),
        used + listed_weight(entries, order) - listed_weight(entries, order.subrange(0, i))
            <= WEIGHT_LIMIT + 0x10_0000,
    ensures
        all_took_in(
            st.contents,
            flattened(entries, order, i, prefix, flags, parent, clusters, st)->Ok_0.contents,
            files_from(prefix, entries, order, i),
            clusters,
        ),
    decreases entries, order.len() - i,
{
    let files = files_from(prefix, entries, order, i);
    if i < order.len() {
        assert(order[i] < entries.len());
        let entry = entries[order[i] as int];
        let rest = files_from(prefix, entries, order, i + 1);
        let spent = used + weight_of(entry);
        lemma_listed_step(entries, order, i);
        lemma_listed_prefix(entries, order, i);
        lemma_listed_prefix(entries, order, i + 1);
        lemma_weight_of(entry);
        match entry {
            StagedEntry::File { name, size, .. } => {
                let path = prefix + name@;
                let cluster = clusters[path];
                let next = st.filed(name@, path, size, cluster, flags);
                let here = seq![(path, size)];
                assert(clusters.contains_key(path));
                lemma_filed(st, name@, path, size, cluster, flags, used);
                lemma_file_taken_in(st, name@, path, size, clusters, flags, used);
                assert(ready(next, clusters, spent));
                lemma_loads(
                    entries,
                    order,
                    i + 1,
                    prefix,
                    dir,
                    flags,
                    parent,
                    clusters,
                    next,
                    spent,
                );
                let r = flattened(entries, order, i + 1, prefix, flags, parent, clusters, next)->Ok_0;
                lemma_took_in_twice(st.contents, next.contents, r.contents, here, rest, clusters);
                assert(files =~= here + rest);
            },
            StagedEntry::Dir { name, entries: inside } => {
                let at = st.nodes.len() as int;
                let list = listing(inside@, Lead::DiscImages);
                let path = prefix + name@;
                let deeper = path + "/"@;
                let open = st.opened(name@, flags, parent);
                let inner = flattened(
                    inside@,
                    list,
                    0,
                    deeper,
                    flags,
                    at as u32,
                    clusters,
                    open,
                )->Ok_0;
                let here = files_from(deeper, inside@, list, 0);
                lemma_vec_len(&inside);
                lemma_order_bounds(inside@, Lead::DiscImages, inside@.len() as int);
                lemma_listing_weight(inside@, Lead::DiscImages, inside@.len() as int);
                assert(list.subrange(0, 0) =~= Seq::<usize>::empty());
                assert(ready(open, clusters, used + 0x8020));
                lemma_flattened(
                    inside@,
                    list,
                    0,
                    deeper,
                    path,
                    flags,
                    at as u32,
                    clusters,
                    open,
                    used + 0x8020,
                );
                lemma_loads(
                    inside@,
                    list,
                    0,
                    deeper,
                    path,
                    flags,
                    at as u32,
                    clusters,
                    open,
                    used + 0x8020,
                );
                let next = inner.closed(at, name@, flags, parent);
                assert(ready(next, clusters, spent));
                lemma_loads(
                    entries,
                    order,
                    i + 1,
                    prefix,
                    dir,
                    flags,
                    parent,
                    clusters,
                    next,
                    spent,
                );
                let r = flattened(entries, order, i + 1, prefix, flags, parent, clusters, next)->Ok_0;
                lemma_took_in_twice(st.contents, next.contents, r.contents, here, rest, clusters);
                assert(files =~= here + rest);
            },
        }
    } else {
        assert(files =~= Seq::empty());
        lemma_nothing_taken_in(st.contents, clusters);
    }
}

/// Contents that take in nothing stay as they are.
proof fn lemma_nothing_taken_in(contents: Seq<ContentView>, clusters: Map<Seq<char>, u16>)
    ensures
        all_took_in(contents, contents, Seq::empty(), clusters),
{
    assert forall|at: int| 0 <= at < contents.len() implies took_in(
        #[trigger] contents[at],
        contents[at],
        Seq::empty(),
        clusters,
        at,
    ) by {
        assert(held(contents[at]) =~= held(contents[at]) + belonging(
            Seq::empty(),
            clusters,
            at,
            0,
        ));
    }
}

/// The files of one of the top directories and below it.
pub open spec fn top_files(name: Seq<char>, entries: Option<Vec<StagedEntry>>) -> Seq<
    (Seq<char>, u64),
> {
    match entries {
        Some(list) => files_from(name + "/"@, list@, listing(list@, Lead::DiscImages), 0),
        None => Seq::empty(),
    }
}

/// Laying out one of the top directories puts every file below it into its content.
proof fn lemma_top_loads(
    name: Seq<char>,
    entries: Option<Vec<StagedEntry>>,
    flags: u16,
    clusters: Map<Seq<char>, u16>,
    st: Flat,
    used: int,
)
    requires
        top_flattened(name, entries, flags, clusters, Ok(st)) is Ok,
        name.len() > 0,
        ready(st, clusters, used),
        used + 0x8000 + dir_weight(entries) <= WEIGHT_LIMIT + 0x10_0000,
    ensures
        all_took_in(
            st.contents,
            top_flattened(name, entries, flags, clusters, Ok(st))->Ok_0.contents,
            top_files(name, entries),
            clusters,
        ),
{
    lemma_dir_weight(entries);
    if let Some(list) = entries {
        let order = listing(list@, Lead::DiscImages);
        lemma_vec_len(&list);
        lemma_order_bounds(list@, Lead::DiscImages, list@.len() as int);
        lemma_listing_weight(list@, Lead::DiscImages, list@.len() as int);
        if list@.len() > 0 {
            let at = st.nodes.len() as int;
            let open = st.opened(name, flags, 0);
            assert(order.subrange(0, 0) =~= Seq::<usize>::empty());
            assert(ready(open, clusters, used + 0x8000));
            lemma_loads(
                list@,
                order,
                0,
                name + "/"@,
                name,
                flags,
                at as u32,
                clusters,
                open,
                used + 0x8000,
            );
        } else {
            assert(order.len() == 0);
            assert(top_files(name, entries) =~= Seq::empty());
            lemma_nothing_taken_in(st.contents, clusters);
        }
    } else {
        lemma_nothing_taken_in(st.contents, clusters);
    }
}

/// Every content of a build's tree holds the files that belong to it, and no others.
pub proof fn lemma_tree_loads(build: StagedBuild)
    requires
        build.total_weight() <= WEIGHT_LIMIT,
        tree_of(build) is Ok,
    ensures
        all_took_in(
            layout_of(build).contents,
            tree_of(build)->Ok_0.contents,
            top_files("code"@, build.code) + top_files("content"@, build.content) + top_files(
                "meta"@,
                build.meta,
            ),
            layout_of(build).clusters,
        ),
{
    let layout = layout_of(build);
    let clusters = layout.clusters;
    let root = Flat {
        nodes: seq![dir_node(Seq::empty(), 0, 0, 0, 0)],
        contents: layout.contents,
    };
    lemma_layout(build);
    lemma_empty_len(layout.contents, layout.contents.len() as int);
    lemma_dir_weight(build.code);
    lemma_dir_weight(build.content);
    lemma_dir_weight(build.meta);
    let u0 = 0x8000int;
    assert(ready(root, clusters, u0)) by {
        assert forall|c: int| 0 <= c < root.contents.len() implies tidy(
            #[trigger] root.contents[c],
        ) by {
            assert(layout.contents[c].files.len() == 0);
        }
    }
    reveal_strlit("code");
    reveal_strlit("content");
    reveal_strlit("meta");
    let a = top_flattened("code"@, build.code, 0x0000, clusters, Ok(root));
    let b = top_flattened("content"@, build.content, 0x0400, clusters, a);
    let c = top_flattened("meta"@, build.meta, 0x0040, clusters, b);
    assert(a is Ok && b is Ok && c is Ok);
    let u1 = u0 + 0x8000 + dir_weight(build.code);
    let u2 = u1 + 0x8000 + dir_weight(build.content);
    lemma_top("code"@, build.code, 0x0000, clusters, root, u0);
    lemma_top("content"@, build.content, 0x0400, clusters, a->Ok_0, u1);
    lemma_top_loads("code"@, build.code, 0x0000, clusters, root, u0);
    lemma_top_loads("content"@, build.content, 0x0400, clusters, a->Ok_0, u1);
    lemma_top_loads("meta"@, build.meta, 0x0040, clusters, b->Ok_0, u2);
    let code = top_files("code"@, build.code);
    let content = top_files("content"@, build.content);
    let meta = top_files("meta"@, build.meta);
    lemma_took_in_twice(
        root.contents,
        a->Ok_0.contents,
        b->Ok_0.contents,
        code,
        content,
        clusters,
    );
    lemma_took_in_twice(
        root.contents,
        b->Ok_0.contents,
        c->Ok_0.contents,
        code + content,
        meta,
        clusters,
    );
}

/// Whether a path begins with `prefix`.
pub open spec fn begins(path: Seq<char>, prefix: Seq<char>) -> bool {
    &&& path.len() >= prefix.len()
    &&& forall|j: int| 0 <= j < prefix.len() ==> #[trigger] path[j] == prefix[j]
}

/// The paths of the files below a directory begin with the directory's.
pub proof fn lemma_prefixed(prefix: Seq<char>, entries: Seq<StagedEntry>, order: Seq<usize>, i: int)
    ensures
        forall|k: int|
            0 <= k < files_from(prefix, entries, order, i).len() ==> begins(
                (#[trigger] files_from(prefix, entries, order, i)[k]).0,
                prefix,
            ),
    decreases entries, order.len() - i,
{
    if 0 <= i < order.len() && order[i] < entries.len() {
        let all = files_from(prefix, entries, order, i);
        let rest = files_from(prefix, entries, order, i + 1);
        lemma_prefixed(prefix, entries, order, i + 1);
        match entries[order[i] as int] {
            StagedEntry::File { name, size, .. } => {
                assert forall|k: int| 0 <= k < all.len() implies begins(
                    (#[trigger] all[k]).0,
                    prefix,
                ) by {
                    if k == 0 {
                        assert(all[0].0 == prefix + name@);
                    } else {
                        assert(all[k] == rest[k - 1]);
                    }
                }
            },
            StagedEntry::Dir { name, entries: inside } => {
                let deeper = prefix + name@ + "/"@;
                let list = listing(inside@, Lead::DiscImages);
                let here = files_from(deeper, inside@, list, 0);
                lemma_prefixed(deeper, inside@, list, 0);
                assert forall|k: int| 0 <= k < all.len() implies begins(
                    (#[trigger] all[k]).0,
                    prefix,
                ) by {
                    if k < here.len() {
                        assert(all[k] == here[k]);
                        let path = here[k].0;
                        assert(begins(path, deeper));
                        assert forall|j: int| 0 <= j < prefix.len() implies #[trigger] path[j]
                            == prefix[j] by {
                            assert(path[j] == deeper[j]);
                        }
                    } else {
                        assert(all[k] == rest[k - here.len()]);
                    }
                }
            },
        }
    }
}

/// Whether no two files have the same path.
pub open spec fn distinct_paths(files: Seq<(Seq<char>, u64)>) -> bool {
    forall|i: int, j: int|
        0 <= i < j < files.len() ==> (#[trigger] files[i]).0 != (#[trigger] files[j]).0
}

/// A path that is none of the first `n` files' has no say in what they share.
proof fn lemma_share_insert(
    files: Seq<(Seq<char>, u64)>,
    clusters: Map<Seq<char>, u16>,
    path: Seq<char>,
    index: u16,
    at: int,
    n: int,
)
    requires
        n <= files.len(),
        forall|k: int| 0 <= k < n ==> (#[trigger] files[k]).0 != path,
    ensures
        share(files, clusters.insert(path, index), at, n) == share(files, clusters, at, n),
        members(files, clusters.insert(path, index), at, n) == members(files, clusters, at, n),
        belonging(files, clusters.insert(path, index), at, n) == belonging(files, clusters, at, n),
    decreases n,
{
    if n > 0 {
        lemma_share_insert(files, clusters, path, index, at, n - 1);
        assert(files[n - 1].0 != path);
    }
}

/// Files that belong to other contents share nothing.
pub proof fn lemma_nothing_shared(
    files: Seq<(Seq<char>, u64)>,
    clusters: Map<Seq<char>, u16>,
    at: int,
    n: int,
)
    requires
        n <= files.len(),
        forall|k: int| 0 <= k < n ==> !#[trigger] belongs(files, clusters, at, k),
    ensures
        share(files, clusters, at, n) == 0,
        members(files, clusters, at, n) == 0,
        belonging(files, clusters, at, n) == Seq::<(Seq<char>, u64)>::empty(),
    decreases n,
{
    if n > 0 {
        lemma_nothing_shared(files, clusters, at, n - 1);
        assert(!belongs(files, clusters, at, n - 1));
    }
}

/// Whether content `at` keeps under the limit, unless one file alone fills it.
pub open spec fn kept_small(
    files: Seq<(Seq<char>, u64)>,
    clusters: Map<Seq<char>, u16>,
    at: int,
    n: int,
) -> bool {
    share(files, clusters, at, n) <= MAX_GAME_CONTENT_BYTES || members(files, clusters, at, n) == 1
}

/// Whether content `at` was left for the next one because the first file of that no longer fit.
pub open spec fn was_full(
    files: Seq<(Seq<char>, u64)>,
    clusters: Map<Seq<char>, u16>,
    at: int,
    n: int,
) -> bool {
    share(files, clusters, at, n) + rounded_up(
        belonging(files, clusters, at + 1, n)[0].1 as int,
        0x20,
    ) > MAX_GAME_CONTENT_BYTES
}

/// How the packing stands once `n` files are packed behind `start`.
pub open spec fn packing_stands(
    start: Layout,
    files: Seq<(Seq<char>, u64)>,
    p: Packing,
    n: int,
) -> bool {
    let base = start.contents.len() as int;
    let count = p.layout.contents.len() as int;
    let clusters = p.layout.clusters;
    &&& base <= count
    &&& forall|i: int| 0 <= i < base ==> #[trigger] p.layout.contents[i] == start.contents[i]
    &&& match p.current {
        Some(index) => {
            &&& base < count
            &&& index == count - 1
            &&& share(files, clusters, count - 1, n) == p.current_size
        },
        None => base == count,
    }
    &&& forall|path: Seq<char>|
        #![trigger clusters.contains_key(path)]
        (forall|k: int| 0 <= k < n ==> (#[trigger] files[k]).0 != path) ==> clusters.contains_key(
            path,
        ) == start.clusters.contains_key(path) && clusters[path] == start.clusters[path]
    &&& forall|k: int|
        0 <= k < n ==> clusters.contains_key((#[trigger] files[k]).0) && base
            <= clusters[files[k].0] < count
    &&& forall|at: int| base <= at < count ==> #[trigger] kept_small(files, clusters, at, n)
    &&& forall|at: int|
        base <= at < count ==> (#[trigger] belonging(files, clusters, at, n)).len() > 0
    &&& forall|at: int| base <= at < count - 1 ==> #[trigger] was_full(files, clusters, at, n)
    &&& forall|at: int|
        base <= at < count ==> (#[trigger] p.layout.contents[at]).is_game
            && p.layout.contents[at].content_type == TYPE_HASHED
}

/// A packing behind a layout, with nothing packed yet.
pub open spec fn packing_from(start: Layout) -> Packing {
    Packing { layout: start, current: None, current_size: 0 }
}

pub proof fn lemma_packed_small(start: Layout, files: Seq<(Seq<char>, u64)>, n: int)
    requires
        distinct_paths(files),
        0 <= n <= files.len(),
        packing_from(start).packed_all(files, n).layout.contents.len() <= 0x1_0000,
    ensures
        packing_stands(start, files, packing_from(start).packed_all(files, n), n),
    decreases n,
{
    let first = packing_from(start);
    if n > 0 {
        let p = first.packed_all(files, n - 1);
        let q = first.packed_all(files, n);
        lemma_packed_small(start, files, n - 1);
        let path = files[n - 1].0;
        let size = files[n - 1].1;
        let placed = rounded_up(size as int, 0x20);
        let base = start.contents.len() as int;
        let count = p.layout.contents.len() as int;
        let index: u16 = q.layout.clusters[path];
        let old_clusters = p.layout.clusters;
        let clusters = q.layout.clusters;
        assert(q == p.packed(path, size));
        assert(clusters == old_clusters.insert(path, index));
        assert forall|k: int| 0 <= k < n - 1 implies (#[trigger] files[k]).0 != path by {
            assert(files[k].0 != files[n - 1].0);
        }
        assert(files[n - 1].0 == path);
        let joined = p.current is Some && p.current_size + placed <= MAX_GAME_CONTENT_BYTES;
        if joined {
            assert(index == count - 1);
            assert(q.layout.contents == p.layout.contents);
        } else {
            assert(index == count);
            assert(q.layout.contents.len() == count + 1);
            assert forall|k: int| 0 <= k < n - 1 implies !#[trigger] belongs(
                files,
                old_clusters,
                count,
                k,
            ) by {
                assert(old_clusters[files[k].0] < count);
            }
            lemma_nothing_shared(files, old_clusters, count, n - 1);
        }
        assert forall|at: int| base <= at < q.layout.contents.len() implies #[trigger] kept_small(
            files,
            clusters,
            at,
            n,
        ) by {
            lemma_share_insert(files, old_clusters, path, index, at, n - 1);
            if at < count {
                assert(kept_small(files, old_clusters, at, n - 1));
            }
        }
        lemma_share_insert(files, old_clusters, path, index, index as int, n - 1);
        assert forall|at: int| base <= at < q.layout.contents.len() implies (#[trigger] belonging(
            files,
            clusters,
            at,
            n,
        )).len() > 0 by {
            lemma_share_insert(files, old_clusters, path, index, at, n - 1);
            if at < count {
                assert(belonging(files, old_clusters, at, n - 1).len() > 0);
            }
        }
        assert forall|at: int| base <= at < q.layout.contents.len() - 1 implies #[trigger] was_full(
            files,
            clusters,
            at,
            n,
        ) by {
            lemma_share_insert(files, old_clusters, path, index, at, n - 1);
            lemma_share_insert(files, old_clusters, path, index, at + 1, n - 1);
            if at < count - 1 {
                assert(was_full(files, old_clusters, at, n - 1));
                assert(belonging(files, old_clusters, at + 1, n - 1).len() > 0);
            } else {
                assert(belonging(files, clusters, at + 1, n) =~= seq![(path, size)]);
            }
        }
        assert forall|at: int| base <= at < q.layout.contents.len() implies (
        #[trigger] q.layout.contents[at]).is_game && q.layout.contents[at].content_type
            == TYPE_HASHED by {
            if at < count {
                assert(q.layout.contents[at] == p.layout.contents[at]);
            }
        }
        assert forall|i: int| 0 <= i < base implies #[trigger] q.layout.contents[i]
            == start.contents[i] by {
            assert(p.layout.contents[i] == start.contents[i]);
        }
        assert forall|other: Seq<char>|
            #![trigger clusters.contains_key(other)]
            (forall|k: int| 0 <= k < n ==> (#[trigger] files[k]).0 != other) implies clusters.contains_key(
            other,
        ) == start.clusters.contains_key(other) && clusters[other] == start.clusters[other] by {
            assert(files[n - 1].0 != other);
            assert(old_clusters.contains_key(other) == start.clusters.contains_key(other));
        }
        assert forall|k: int| 0 <= k < n implies clusters.contains_key((#[trigger] files[k]).0)
            && base <= clusters[files[k].0] < q.layout.contents.len() by {
            if k < n - 1 {
                assert(files[k].0 != path);
                assert(old_clusters.contains_key(files[k].0));
            }
        }
    }
}

/// The files of `code/` and `meta/` belong to no game content.
pub proof fn lemma_others_stay_out(
    build: StagedBuild,
    name: Seq<char>,
    entries: Option<Vec<StagedEntry>>,
    at: int,
)
    requires
        build.content is Some,
        layout_of(build).contents.len() <= 0x1_0000,
        distinct_paths(top_files("content"@, build.content)),
        name == "code"@ || name == "meta"@,
        layout_before_game(build).contents.len() <= at,
    ensures
        share(
            top_files(name, entries),
            layout_of(build).clusters,
            at,
            top_files(name, entries).len() as int,
        ) == 0,
        members(
            top_files(name, entries),
            layout_of(build).clusters,
            at,
            top_files(name, entries).len() as int,
        ) == 0,
        belonging(
            top_files(name, entries),
            layout_of(build).clusters,
            at,
            top_files(name, entries).len() as int,
        ) == Seq::<(Seq<char>, u64)>::empty(),
{
    let start = layout_before_game(build);
    let clusters = layout_of(build).clusters;
    let games = top_files("content"@, build.content);
    let files = top_files(name, entries);
    reveal_strlit("code");
    reveal_strlit("content");
    reveal_strlit("meta");
    reveal_strlit("/");
    reveal_strlit("content/");
    assert("content"@ + "/"@ =~= "content/"@);
    lemma_layout_before_game(build);
    lemma_packed_small(start, games, games.len() as int);
    if let Some(list) = build.content {
        lemma_prefixed("content"@ + "/"@, list@, listing(list@, Lead::DiscImages), 0);
    }
    if let Some(list) = entries {
        lemma_prefixed(name + "/"@, list@, listing(list@, Lead::DiscImages), 0);
    }
    assert forall|k: int| 0 <= k < files.len() implies !#[trigger] belongs(
        files,
        clusters,
        at,
        k,
    ) by {
        let path = files[k].0;
        assert(begins(files[k].0, name + "/"@));
        assert(path[0] == (name + "/"@)[0] && path[2] == (name + "/"@)[2]);
        assert forall|g: int| 0 <= g < games.len() implies (#[trigger] games[g]).0 != path by {
            assert(begins(games[g].0, "content"@ + "/"@));
            assert(games[g].0[0] == ("content"@ + "/"@)[0]);
            assert(games[g].0[2] == ("content"@ + "/"@)[2]);
        }
        if clusters.contains_key(path) {
            assert(start.clusters.contains_key(path));
            assert(clusters[path] < start.contents.len());
        }
    }
    lemma_nothing_shared(files, clusters, at, files.len() as int);
}

/// No game content is larger than [`MAX_GAME_CONTENT_BYTES`], and none of their files reaches
/// 2 GiB, unless a single file fills the content. No two files of the build may have the same
/// path, and there may be no more contents than their indices can tell apart.
pub proof fn law_game_contents_keep_the_limit(build: StagedBuild, at: int)
    requires
        build.total_weight() <= WEIGHT_LIMIT,
        tree_of(build) is Ok,
        distinct_paths(top_files("content"@, build.content)),
        tree_of(build)->Ok_0.contents.len() <= 0x1_0000,
        0 <= at < tree_of(build)->Ok_0.contents.len(),
        tree_of(build)->Ok_0.contents[at].is_game,
    ensures
        ({
            let c = tree_of(build)->Ok_0.contents[at];
            ||| c.files.len() == 1
            ||| c.data_len <= MAX_GAME_CONTENT_BYTES && block_count(c.data_len as int) * 0x1_0000
                < 0x8000_0000
        }),
{
    let start = layout_before_game(build);
    let layout = layout_of(build);
    let flat = tree_of(build)->Ok_0;
    let c = flat.contents[at];
    let code = top_files("code"@, build.code);
    let games = top_files("content"@, build.content);
    let meta = top_files("meta"@, build.meta);
    law_tree_holds_the_build(build);
    lemma_tree_loads(build);
    lemma_layout(build);
    lemma_layout_before_game(build);
    assert(layout.contents[at].is_game == c.is_game);
    assert(took_in(layout.contents[at], c, code + games + meta, layout.clusters, at));
    if build.content is None {
        assert(!start.contents[at].is_game);
    } else {
        reveal_strlit("content");
        reveal_strlit("/");
        reveal_strlit("content/");
        assert("content"@ + "/"@ =~= "content/"@);
        lemma_packed_small(start, games, games.len() as int);
        if at < start.contents.len() {
            assert(layout.contents[at] == start.contents[at]);
            assert(!start.contents[at].is_game);
        }
        lemma_others_stay_out(build, "code"@, build.code, at);
        lemma_others_stay_out(build, "meta"@, build.meta, at);
        lemma_share_concat(code, games, layout.clusters, at, games.len() as int);
        lemma_share_concat(code + games, meta, layout.clusters, at, meta.len() as int);
        assert(kept_small(games, layout.clusters, at, games.len() as int));
        lemma_rounded_up(c.data_len as int, 0x20);
        assert(layout.contents[at].data_len == 0);
        assert(load(layout.contents[at]) == 0);
    }
}

} // verus!

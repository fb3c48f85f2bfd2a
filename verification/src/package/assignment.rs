//! Which content a staged file goes to.
//!
//! The laws here state the layout of a package file by file: what has a content of its own, what
//! shares one, and of which kind it is.

use vstd::prelude::*;
use vstd::utf8::encode_utf8;

use crate::package::content::{
    files_below, has_file, layout_before_game, layout_of, leftover, lemma_vec_len, new_content,
    present, with_code, with_code_heads, with_meta, Layout, Packing, TYPE_HASHED, TYPE_NONHASHED,
};
use crate::package::game_contents::{begins, lemma_prefixed, packing_from};
use crate::package::staging::{
    bytes_le, entry_rank, law_byte_order_is_that_of_a_dictionary, law_leading_names,
    law_listing_is_stable_sort, lemma_order_bounds, listing, program_name, rank_le, Lead,
    StagedBuild, StagedEntry,
};
use crate::text::lowercase;
use crate::util::{lemma_rounded_up, rounded_up};

verus! {

/// Whether `after` goes on from `before`: its contents and assignments are kept, and what is new
/// is assigned to new contents.
spec fn goes_on(before: Layout, after: Layout) -> bool {
    &&& before.contents.len() <= after.contents.len()
    &&& forall|k: int|
        0 <= k < before.contents.len() ==> #[trigger] after.contents[k] == before.contents[k]
    &&& forall|p: Seq<char>| #[trigger]
        before.clusters.contains_key(p) ==> after.clusters.contains_key(p) && after.clusters[p]
            == before.clusters[p]
    &&& forall|p: Seq<char>| #[trigger]
        after.clusters.contains_key(p) && !before.clusters.contains_key(p)
            ==> before.contents.len() <= after.clusters[p] < after.contents.len()
}

/// Whether none of the paths is assigned yet.
spec fn unassigned(l: Layout, paths: Seq<Seq<char>>) -> bool {
    forall|k: int| 0 <= k < paths.len() ==> !l.clusters.contains_key(#[trigger] paths[k])
}

proof fn lemma_filed_all(l: Layout, paths: Seq<Seq<char>>, n: int)
    requires
        0 <= n <= paths.len(),
    ensures
        l.filed_all(paths, n).contents == l.contents,
        forall|p: Seq<char>| #[trigger]
            l.filed_all(paths, n).clusters.contains_key(p) <==> l.clusters.contains_key(p)
                || paths.subrange(0, n).contains(p),
        forall|p: Seq<char>|
            paths.subrange(0, n).contains(p) ==> #[trigger] l.filed_all(paths, n).clusters[p]
                == l.contents.last().index,
        forall|p: Seq<char>|
            !paths.subrange(0, n).contains(p) && l.clusters.contains_key(p)
                ==> #[trigger] l.filed_all(paths, n).clusters[p] == l.clusters[p],
    decreases n,
{
    let cut = paths.subrange(0, n);
    if n > 0 {
        lemma_filed_all(l, paths, n - 1);
        let less = paths.subrange(0, n - 1);
        assert forall|p: Seq<char>| cut.contains(p) <==> less.contains(p) || p == paths[n - 1] by {
            if cut.contains(p) {
                let k = choose|k: int| 0 <= k < cut.len() && cut[k] == p;
                if k < n - 1 {
                    assert(less[k] == p);
                }
            }
            if less.contains(p) {
                let k = choose|k: int| 0 <= k < less.len() && less[k] == p;
                assert(cut[k] == p);
            }
            assert(cut[n - 1] == paths[n - 1]);
        }
    } else {
        assert(forall|p: Seq<char>| !cut.contains(p));
    }
}

/// Files that share a content: there is one more, and they are assigned to it.
proof fn lemma_shared(l: Layout, paths: Seq<Seq<char>>, content_type: u16)
    requires
        l.contents.len() < 0x1_0000,
        unassigned(l, paths),
    ensures
        ({
            let after = l.shared(paths, content_type);
            &&& goes_on(l, after)
            &&& after.contents.len() == l.contents.len() + (if paths.len() > 0 {
                1int
            } else {
                0
            })
            &&& paths.len() > 0 ==> after.contents[l.contents.len() as int] == new_content(
                l.contents.len() as int,
                content_type,
                false,
            )
            &&& forall|p: Seq<char>| #[trigger]
                after.clusters.contains_key(p) <==> l.clusters.contains_key(p) || paths.contains(p)
            &&& forall|p: Seq<char>|
                paths.contains(p) ==> #[trigger] after.clusters[p] == l.contents.len()
        }),
{
    let after = l.shared(paths, content_type);
    let n = paths.len() as int;
    if n > 0 {
        let grown = l.grown(content_type, false);
        lemma_filed_all(grown, paths, n);
        assert(paths.subrange(0, n) =~= paths);
        assert(grown.contents.last().index == l.contents.len());
        assert forall|p: Seq<char>| #[trigger] l.clusters.contains_key(p) implies
            after.clusters.contains_key(p) && after.clusters[p] == l.clusters[p] by {
            if paths.contains(p) {
                let k = choose|k: int| 0 <= k < paths.len() && paths[k] == p;
                assert(!l.clusters.contains_key(paths[k]));
            }
        }
    } else {
        assert(forall|p: Seq<char>| !paths.contains(p));
    }
}

/// Files that have contents of their own: there is one more for each, and each is assigned to one
/// that no other is.
proof fn lemma_separate(l: Layout, paths: Seq<Seq<char>>, content_type: u16, n: int)
    requires
        0 <= n <= paths.len(),
        l.contents.len() + n <= 0x1_0000,
        unassigned(l, paths),
    ensures
        ({
            let after = l.separate(paths, content_type, n);
            let cut = paths.subrange(0, n);
            let base = l.contents.len() as int;
            &&& goes_on(l, after)
            &&& after.contents.len() == base + n
            &&& forall|k: int|
                0 <= k < n ==> #[trigger] after.contents[base + k] == new_content(
                    base + k,
                    content_type,
                    false,
                )
            &&& forall|p: Seq<char>| #[trigger]
                after.clusters.contains_key(p) <==> l.clusters.contains_key(p) || cut.contains(p)
            &&& forall|p: Seq<char>| #[trigger]
                cut.contains(p) ==> base <= after.clusters[p] < base + n && paths[after.clusters[p]
                    - base] == p
        }),
    decreases n,
{
    let after = l.separate(paths, content_type, n);
    let cut = paths.subrange(0, n);
    let base = l.contents.len() as int;
    if n > 0 {
        lemma_separate(l, paths, content_type, n - 1);
        let before = l.separate(paths, content_type, n - 1);
        let less = paths.subrange(0, n - 1);
        let last = paths[n - 1];
        assert(!l.clusters.contains_key(last));
        assert(after.contents.len() == base + n);
        assert(after.clusters =~= before.clusters.insert(last, (base + n - 1) as u16));
        assert forall|p: Seq<char>| #[trigger] cut.contains(p) <==> less.contains(p) || p
            == last by {
            if cut.contains(p) {
                let k = choose|k: int| 0 <= k < cut.len() && cut[k] == p;
                if k < n - 1 {
                    assert(less[k] == p);
                }
            }
            if less.contains(p) {
                let k = choose|k: int| 0 <= k < less.len() && less[k] == p;
                assert(cut[k] == p);
            }
            assert(cut[n - 1] == last);
        }
        assert forall|k: int| 0 <= k < n implies #[trigger] after.contents[base + k]
            == new_content(base + k, content_type, false) by {
            if k < n - 1 {
                assert(after.contents[base + k] == before.contents[base + k]);
            }
        }
        assert forall|p: Seq<char>| #[trigger]
            after.clusters.contains_key(p) && !l.clusters.contains_key(p) implies base
            <= after.clusters[p] < after.contents.len() by {
            if p != last {
                assert(before.clusters.contains_key(p));
            }
        }
        assert forall|p: Seq<char>| #[trigger] cut.contains(p) implies base <= after.clusters[p]
            < base + n && paths[after.clusters[p] - base] == p by {
            if p != last {
                assert(less.contains(p));
            }
        }
    } else {
        assert(forall|p: Seq<char>| !cut.contains(p));
    }
}

/// The files that are present of a list of names, and no others.
proof fn lemma_present(
    dir: Seq<char>,
    entries: Seq<StagedEntry>,
    names: Seq<Seq<char>>,
    n: int,
    path: Seq<char>,
)
    requires
        0 <= n <= names.len(),
    ensures
        present(dir, entries, names, n).contains(path) <==> exists|k: int|
            0 <= k < n && path == dir + #[trigger] names[k] && has_file(entries, names[k]),
        present(dir, entries, names, n).len() <= n,
    decreases n,
{
    let all = present(dir, entries, names, n);
    if n > 0 {
        lemma_present(dir, entries, names, n - 1, path);
        let less = present(dir, entries, names, n - 1);
        if less.contains(path) {
            let k = choose|k: int| 0 <= k < less.len() && less[k] == path;
            assert(all[k] == path);
        }
        if has_file(entries, names[n - 1]) {
            assert(all[all.len() - 1] == dir + names[n - 1]);
        }
        if all.contains(path) {
            let k = choose|k: int| 0 <= k < all.len() && all[k] == path;
            if k < less.len() {
                assert(less[k] == path);
                assert(less.contains(path));
            } else {
                assert(path == dir + names[n - 1]);
            }
        }
    }
}

/// The files that are left over: all regular ones that have no content yet.
proof fn lemma_leftover(
    dir: Seq<char>,
    entries: Seq<StagedEntry>,
    order: Seq<usize>,
    taken: Map<Seq<char>, u16>,
    n: int,
    path: Seq<char>,
)
    requires
        0 <= n <= order.len(),
    ensures
        leftover(dir, entries, order, taken, n).contains(path) <==> !taken.contains_key(path)
            && exists|k: int|
            0 <= k < n && entries[(#[trigger] order[k]) as int].is_regular() && path == dir
                + entries[order[k] as int].name_view(),
        leftover(dir, entries, order, taken, n).len() <= n,
    decreases n,
{
    let all = leftover(dir, entries, order, taken, n);
    if n > 0 {
        lemma_leftover(dir, entries, order, taken, n - 1, path);
        let less = leftover(dir, entries, order, taken, n - 1);
        let entry = entries[order[n - 1] as int];
        let last = dir + entry.name_view();
        if less.contains(path) {
            let k = choose|k: int| 0 <= k < less.len() && less[k] == path;
            assert(all[k] == path);
        }
        if entry.is_regular() && !taken.contains_key(last) {
            assert(all[all.len() - 1] == last);
        }
        if all.contains(path) {
            let k = choose|k: int| 0 <= k < all.len() && all[k] == path;
            if k < less.len() {
                assert(less[k] == path);
                assert(less.contains(path));
            } else {
                assert(path == last);
                assert(entries[order[n - 1] as int].is_regular());
            }
        }
    }
}

/// A path lies below at most one of the three directories.
proof fn lemma_directories(path: Seq<char>)
    ensures
        !(begins(path, "code/"@) && begins(path, "meta/"@)),
        !(begins(path, "code/"@) && begins(path, "content/"@)),
        !(begins(path, "meta/"@) && begins(path, "content/"@)),
{
    reveal_strlit("code/");
    reveal_strlit("meta/");
    reveal_strlit("content/");
    if begins(path, "code/"@) {
        assert(path[0] == 'c' && path[2] == 'd');
    }
    if begins(path, "meta/"@) {
        assert(path[0] == 'm');
    }
    if begins(path, "content/"@) {
        assert(path[0] == 'c' && path[2] == 'n');
    }
}

/// The place of a staged path in the order of the contents: `code/app.xml`, `code/cos.xml`,
/// `meta/meta.xml`, the boot pictures and the boot sound, the boot movie, the boot logo, the rest
/// of `meta/`, the rest of `code/`, the game data.
pub open spec fn stage(path: Seq<char>) -> int {
    if path == "code/app.xml"@ {
        1
    } else if path == "code/cos.xml"@ {
        2
    } else if path == "meta/meta.xml"@ {
        3
    } else if path == "meta/iconTex.tga"@ || path == "meta/bootTvTex.tga"@ || path
        == "meta/bootDrcTex.tga"@ || path == "meta/bootSound.btsnd"@ {
        4
    } else if path == "meta/bootMovie.h264"@ {
        5
    } else if path == "meta/bootLogoTex.tga"@ {
        6
    } else if begins(path, "meta/"@) {
        7
    } else if begins(path, "code/"@) {
        8
    } else {
        9
    }
}

/// Whether the paths up to stage `last`, and no others, have been assigned as their stages ask:
/// contents follow one another by stage, paths of one stage share a content up to the rest of
/// `meta/`, and each path of the rest of `code/` has a content of its own. The contents of
/// `code/` are non-hashed, all others hashed, and those of the game data are the title's.
pub open spec fn in_stages(l: Layout, last: int) -> bool {
    &&& l.contents.len() > 0
    &&& forall|p: Seq<char>| #[trigger]
        l.clusters.contains_key(p) ==> {
            &&& stage(p) <= last
            &&& 0 < l.clusters[p] < l.contents.len()
            &&& l.contents[l.clusters[p] as int].content_type == (if stage(p) <= 2 || stage(p) == 8 {
                0x2001u16
            } else {
                0x2003u16
            })
            &&& l.contents[l.clusters[p] as int].is_game == (stage(p) == 9)
        }
    &&& forall|p: Seq<char>, q: Seq<char>| #[trigger]
        l.clusters.contains_key(p) && #[trigger] l.clusters.contains_key(q) ==> {
            &&& stage(p) < stage(q) ==> l.clusters[p] < l.clusters[q]
            &&& stage(p) == stage(q) && stage(p) <= 7 ==> l.clusters[p] == l.clusters[q]
            &&& stage(p) == stage(q) && stage(p) == 8 && p != q ==> l.clusters[p] != l.clusters[q]
        }
}

proof fn lemma_one_in_stages(l: Layout, path: Seq<char>, content_type: u16, r: int)
    requires
        in_stages(l, r - 1),
        stage(path) == r,
        1 <= r <= 7,
        content_type == (if r <= 2 {
            0x2001u16
        } else {
            0x2003u16
        }),
        l.contents.len() < 0x1_0000,
    ensures
        in_stages(l.grown(content_type, false).filed(path), r),
{
    let after = l.grown(content_type, false).filed(path);
    assert forall|p: Seq<char>| #[trigger] after.clusters.contains_key(p) && p != path implies
        l.clusters.contains_key(p) && after.clusters[p] == l.clusters[p] by {}
    assert(after.clusters[path] == l.contents.len());
}

proof fn lemma_shared_in_stages(l: Layout, paths: Seq<Seq<char>>, r: int)
    requires
        in_stages(l, r - 1),
        forall|k: int| 0 <= k < paths.len() ==> stage(#[trigger] paths[k]) == r,
        3 <= r <= 7,
        l.contents.len() < 0x1_0000,
    ensures
        in_stages(l.shared(paths, TYPE_HASHED), r),
        forall|p: Seq<char>| #[trigger]
            l.clusters.contains_key(p) ==> l.shared(paths, TYPE_HASHED).clusters.contains_key(p),
        forall|p: Seq<char>| #[trigger]
            paths.contains(p) ==> l.shared(paths, TYPE_HASHED).clusters.contains_key(p),
        l.shared(paths, TYPE_HASHED).contents.len() <= l.contents.len() + 1,
{
    let after = l.shared(paths, TYPE_HASHED);
    assert forall|k: int| 0 <= k < paths.len() implies !l.clusters.contains_key(
        #[trigger] paths[k],
    ) by {
        assert(stage(paths[k]) == r);
    }
    lemma_shared(l, paths, TYPE_HASHED);
    assert forall|p: Seq<char>| paths.contains(p) implies stage(p) == r by {
        let k = choose|k: int| 0 <= k < paths.len() && paths[k] == p;
        assert(stage(paths[k]) == r);
    }
    assert forall|p: Seq<char>| #[trigger]
        l.clusters.contains_key(p) implies after.contents[l.clusters[p] as int]
        == l.contents[l.clusters[p] as int] by {}
}

proof fn lemma_separate_in_stages(l: Layout, paths: Seq<Seq<char>>)
    requires
        in_stages(l, 7),
        forall|k: int| 0 <= k < paths.len() ==> stage(#[trigger] paths[k]) == 8,
        l.contents.len() + paths.len() <= 0x1_0000,
    ensures
        in_stages(l.separate(paths, TYPE_NONHASHED, paths.len() as int), 8),
        forall|p: Seq<char>| #[trigger]
            l.clusters.contains_key(p) ==> l.separate(
                paths,
                TYPE_NONHASHED,
                paths.len() as int,
            ).clusters.contains_key(p),
        forall|p: Seq<char>| #[trigger]
            paths.contains(p) ==> l.separate(
                paths,
                TYPE_NONHASHED,
                paths.len() as int,
            ).clusters.contains_key(p),
{
    let n = paths.len() as int;
    let base = l.contents.len() as int;
    let after = l.separate(paths, TYPE_NONHASHED, n);
    assert forall|k: int| 0 <= k < paths.len() implies !l.clusters.contains_key(
        #[trigger] paths[k],
    ) by {
        assert(stage(paths[k]) == 8);
    }
    lemma_separate(l, paths, TYPE_NONHASHED, n);
    assert(paths.subrange(0, n) =~= paths);
    assert forall|p: Seq<char>| #[trigger] paths.contains(p) implies stage(p) == 8
        && after.contents[after.clusters[p] as int] == new_content(
        after.clusters[p] as int,
        TYPE_NONHASHED,
        false,
    ) by {
        let k = choose|k: int| 0 <= k < paths.len() && paths[k] == p;
        assert(stage(paths[k]) == 8);
        let at = after.clusters[p] - base;
        assert(after.contents[base + at] == new_content(base + at, TYPE_NONHASHED, false));
    }
    assert forall|p: Seq<char>| #[trigger]
        l.clusters.contains_key(p) implies after.contents[l.clusters[p] as int]
        == l.contents[l.clusters[p] as int] by {}
}

proof fn lemma_packed_grows(p: Packing, files: Seq<(Seq<char>, u64)>, n: int)
    requires
        0 <= n,
    ensures
        p.layout.contents.len() <= p.packed_all(files, n).layout.contents.len(),
    decreases n,
{
    if n > 0 {
        lemma_packed_grows(p, files, n - 1);
    }
}

proof fn lemma_game_in_stages(l: Layout, files: Seq<(Seq<char>, u64)>, n: int)
    requires
        in_stages(l, 8),
        0 <= n <= files.len(),
        forall|k: int| 0 <= k < files.len() ==> stage((#[trigger] files[k]).0) == 9,
        packing_from(l).packed_all(files, n).layout.contents.len() <= 0x1_0000,
    ensures
        ({
            let p = packing_from(l).packed_all(files, n);
            &&& in_stages(p.layout, 9)
            &&& l.contents.len() <= p.layout.contents.len()
            &&& p.current matches Some(index) ==> l.contents.len() <= index
                < p.layout.contents.len() && p.layout.contents[index as int].is_game
                && p.layout.contents[index as int].content_type == 0x2003
            &&& forall|path: Seq<char>| #[trigger]
                p.layout.clusters.contains_key(path) && stage(path) < 9 ==> p.layout.clusters[path]
                    < l.contents.len()
            &&& forall|path: Seq<char>| #[trigger]
                l.clusters.contains_key(path) ==> p.layout.clusters.contains_key(path)
                    && p.layout.clusters[path] == l.clusters[path]
            &&& forall|k: int|
                0 <= k < n ==> p.layout.clusters.contains_key((#[trigger] files[k]).0)
        }),
    decreases n,
{
    if n > 0 {
        let before = packing_from(l).packed_all(files, n - 1);
        let after = packing_from(l).packed_all(files, n);
        let path = files[n - 1].0;
        assert(stage(files[n - 1].0) == 9);
        lemma_game_in_stages(l, files, n - 1);
        assert(after == before.packed(path, files[n - 1].1));
        let index = after.layout.clusters[path];
        assert(after.layout.clusters == before.layout.clusters.insert(path, index));
        assert(l.contents.len() <= index < after.layout.contents.len());
        assert forall|q: Seq<char>| #[trigger]
            before.layout.clusters.contains_key(q) implies after.layout.contents[
        before.layout.clusters[q] as int] == before.layout.contents[
        before.layout.clusters[q] as int] by {}
        assert forall|q: Seq<char>| #[trigger]
            after.layout.clusters.contains_key(q) && q != path implies
            before.layout.clusters.contains_key(q) && after.layout.clusters[q]
            == before.layout.clusters[q] by {}
    }
}

/// The paths that have a place of their own.
proof fn lemma_named_paths()
    ensures
        "code/"@ + "app.xml"@ == "code/app.xml"@,
        "code/"@ + "cos.xml"@ == "code/cos.xml"@,
        "meta/"@ + "meta.xml"@ == "meta/meta.xml"@,
        "meta/"@ + "iconTex.tga"@ == "meta/iconTex.tga"@,
        "meta/"@ + "bootTvTex.tga"@ == "meta/bootTvTex.tga"@,
        "meta/"@ + "bootDrcTex.tga"@ == "meta/bootDrcTex.tga"@,
        "meta/"@ + "bootSound.btsnd"@ == "meta/bootSound.btsnd"@,
        "meta/"@ + "bootMovie.h264"@ == "meta/bootMovie.h264"@,
        "meta/"@ + "bootLogoTex.tga"@ == "meta/bootLogoTex.tga"@,
{
    reveal_strlit("code/");
    reveal_strlit("meta/");
    reveal_strlit("app.xml");
    reveal_strlit("cos.xml");
    reveal_strlit("meta.xml");
    reveal_strlit("iconTex.tga");
    reveal_strlit("bootTvTex.tga");
    reveal_strlit("bootDrcTex.tga");
    reveal_strlit("bootSound.btsnd");
    reveal_strlit("bootMovie.h264");
    reveal_strlit("bootLogoTex.tga");
    reveal_strlit("code/app.xml");
    reveal_strlit("code/cos.xml");
    reveal_strlit("meta/meta.xml");
    reveal_strlit("meta/iconTex.tga");
    reveal_strlit("meta/bootTvTex.tga");
    reveal_strlit("meta/bootDrcTex.tga");
    reveal_strlit("meta/bootSound.btsnd");
    reveal_strlit("meta/bootMovie.h264");
    reveal_strlit("meta/bootLogoTex.tga");
    assert("code/"@ + "app.xml"@ =~= "code/app.xml"@);
    assert("code/"@ + "cos.xml"@ =~= "code/cos.xml"@);
    assert("meta/"@ + "meta.xml"@ =~= "meta/meta.xml"@);
    assert("meta/"@ + "iconTex.tga"@ =~= "meta/iconTex.tga"@);
    assert("meta/"@ + "bootTvTex.tga"@ =~= "meta/bootTvTex.tga"@);
    assert("meta/"@ + "bootDrcTex.tga"@ =~= "meta/bootDrcTex.tga"@);
    assert("meta/"@ + "bootSound.btsnd"@ =~= "meta/bootSound.btsnd"@);
    assert("meta/"@ + "bootMovie.h264"@ =~= "meta/bootMovie.h264"@);
    assert("meta/"@ + "bootLogoTex.tga"@ =~= "meta/bootLogoTex.tga"@);
}

/// The stages of the paths that have a place of their own.
proof fn lemma_named_stages()
    ensures
        stage("code/app.xml"@) == 1,
        stage("code/cos.xml"@) == 2,
        stage("meta/meta.xml"@) == 3,
        stage("meta/iconTex.tga"@) == 4,
        stage("meta/bootTvTex.tga"@) == 4,
        stage("meta/bootDrcTex.tga"@) == 4,
        stage("meta/bootSound.btsnd"@) == 4,
        stage("meta/bootMovie.h264"@) == 5,
        stage("meta/bootLogoTex.tga"@) == 6,
{
    reveal_strlit("code/app.xml");
    reveal_strlit("code/cos.xml");
    reveal_strlit("meta/meta.xml");
    reveal_strlit("meta/iconTex.tga");
    reveal_strlit("meta/bootTvTex.tga");
    reveal_strlit("meta/bootDrcTex.tga");
    reveal_strlit("meta/bootSound.btsnd");
    reveal_strlit("meta/bootMovie.h264");
    reveal_strlit("meta/bootLogoTex.tga");
    assert("code/app.xml"@[5] == 'a' && "code/cos.xml"@[5] == 'c');
    assert("code/app.xml"@[0] == 'c' && "code/cos.xml"@[0] == 'c');
    assert("meta/meta.xml"@[0] == 'm' && "meta/meta.xml"@[5] == 'm');
    assert("meta/iconTex.tga"@[0] == 'm' && "meta/iconTex.tga"@[5] == 'i');
    assert("meta/bootTvTex.tga"@[0] == 'm' && "meta/bootTvTex.tga"@[9] == 'T');
    assert("meta/bootDrcTex.tga"@[0] == 'm' && "meta/bootDrcTex.tga"@[9] == 'D');
    assert("meta/bootSound.btsnd"@[0] == 'm' && "meta/bootSound.btsnd"@[9] == 'S');
    assert("meta/bootMovie.h264"@[0] == 'm' && "meta/bootMovie.h264"@[9] == 'M');
    assert("meta/bootLogoTex.tga"@[0] == 'm' && "meta/bootLogoTex.tga"@[9] == 'L');
    assert("meta/bootTvTex.tga"@[5] == 'b' && "meta/bootDrcTex.tga"@[5] == 'b');
    assert("meta/bootSound.btsnd"@[5] == 'b' && "meta/bootMovie.h264"@[5] == 'b');
    assert("meta/bootLogoTex.tga"@[5] == 'b');
}

/// The stages go by directory.
proof fn lemma_directory_stages(path: Seq<char>)
    ensures
        begins(path, "code/"@) ==> stage(path) <= 2 || stage(path) == 8,
        begins(path, "meta/"@) ==> 3 <= stage(path) <= 7,
        begins(path, "content/"@) ==> stage(path) == 9,
{
    lemma_directories(path);
    lemma_named_stages();
    assert(begins("code/app.xml"@, "code/"@) && begins("code/cos.xml"@, "code/"@)
        && begins("meta/meta.xml"@, "meta/"@) && begins("meta/iconTex.tga"@, "meta/"@) && begins(
        "meta/bootTvTex.tga"@,
        "meta/"@,
    ) && begins("meta/bootDrcTex.tga"@, "meta/"@) && begins("meta/bootSound.btsnd"@, "meta/"@)
        && begins("meta/bootMovie.h264"@, "meta/"@) && begins("meta/bootLogoTex.tga"@, "meta/"@))
        by {
        reveal_strlit("code/");
        reveal_strlit("meta/");
        reveal_strlit("code/app.xml");
        reveal_strlit("code/cos.xml");
        reveal_strlit("meta/meta.xml");
        reveal_strlit("meta/iconTex.tga");
        reveal_strlit("meta/bootTvTex.tga");
        reveal_strlit("meta/bootDrcTex.tga");
        reveal_strlit("meta/bootSound.btsnd");
        reveal_strlit("meta/bootMovie.h264");
        reveal_strlit("meta/bootLogoTex.tga");
    }
}

/// What stands in a directory begins with the directory's path, and its name is what follows.
proof fn lemma_in_directory(dir: Seq<char>, a: Seq<char>, b: Seq<char>)
    ensures
        begins(dir + a, dir),
        dir + a == dir + b ==> a == b,
{
    assert((dir + a).subrange(dir.len() as int, (dir + a).len() as int) =~= a);
    assert((dir + b).subrange(dir.len() as int, (dir + b).len() as int) =~= b);
}

proof fn lemma_heads_in_stages(code: Seq<StagedEntry>)
    ensures
        ({
            let l = with_code_heads(Layout::start(), code);
            &&& in_stages(l, 2)
            &&& l.contents.len() <= 3
            &&& has_file(code, "app.xml"@) ==> l.clusters.contains_key("code/app.xml"@)
            &&& has_file(code, "cos.xml"@) ==> l.clusters.contains_key("code/cos.xml"@)
        }),
{
    lemma_named_paths();
    lemma_named_stages();
    let names = seq!["app.xml"@, "cos.xml"@];
    let start = Layout::start();
    reveal_with_fuel(present, 3);
    let paths = present("code/"@, code, names, 2);
    let app = "code/app.xml"@;
    let cos = "code/cos.xml"@;
    let l1 = start.grown(TYPE_NONHASHED, false).filed(app);
    lemma_one_in_stages(start, app, TYPE_NONHASHED, 1);
    lemma_one_in_stages(l1, cos, TYPE_NONHASHED, 2);
    lemma_one_in_stages(start, cos, TYPE_NONHASHED, 2);
    reveal_with_fuel(Layout::separate, 3);
    if has_file(code, names[0]) {
        if has_file(code, names[1]) {
            assert(paths =~= seq![app, cos]);
            assert(start.separate(paths, TYPE_NONHASHED, 2) == l1.grown(
                TYPE_NONHASHED,
                false,
            ).filed(cos));
        } else {
            assert(paths =~= seq![app]);
        }
    } else if has_file(code, names[1]) {
        assert(paths =~= seq![cos]);
    } else {
        assert(paths =~= Seq::empty());
    }
}

/// Whether all regular files of a directory, or all but those that are left for later, have a
/// content.
spec fn all_filed(l: Layout, dir: Seq<char>, entries: Seq<StagedEntry>) -> bool {
    forall|i: int|
        0 <= i < entries.len() && (#[trigger] entries[i]).is_regular() ==> l.clusters.contains_key(
            dir + entries[i].name_view(),
        )
}

/// What is left over of a directory are its regular files that have no content yet.
proof fn lemma_rest(
    dir: Seq<char>,
    entries: Seq<StagedEntry>,
    lead: Lead,
    l: Layout,
    path: Seq<char>,
)
    requires
        entries.len() <= usize::MAX,
    ensures
        ({
            let order = listing(entries, lead);
            let rest = leftover(dir, entries, order, l.clusters, order.len() as int);
            rest.contains(path) <==> !l.clusters.contains_key(path) && exists|i: int|
                0 <= i < entries.len() && (#[trigger] entries[i]).is_regular() && path == dir
                    + entries[i].name_view()
        }),
{
    let n = entries.len() as int;
    let order = listing(entries, lead);
    let rest = leftover(dir, entries, order, l.clusters, order.len() as int);
    law_listing_is_stable_sort(entries, lead, n);
    lemma_order_bounds(entries, lead, n);
    lemma_leftover(dir, entries, order, l.clusters, order.len() as int, path);
    if rest.contains(path) {
        let k = choose|k: int|
            0 <= k < order.len() && entries[(#[trigger] order[k]) as int].is_regular() && path
                == dir + entries[order[k] as int].name_view();
        assert(entries[order[k] as int].is_regular());
    }
    if !l.clusters.contains_key(path) && exists|i: int|
        0 <= i < n && (#[trigger] entries[i]).is_regular() && path == dir + entries[i].name_view() {
        let i = choose|i: int|
            0 <= i < n && (#[trigger] entries[i]).is_regular() && path == dir
                + entries[i].name_view();
        assert(order.contains(i as usize));
        let k = choose|k: int| 0 <= k < order.len() && order[k] == i as usize;
        assert(entries[order[k] as int].is_regular());
    }
}

#[verifier::rlimit(60)]
proof fn lemma_meta_in_stages(l: Layout, meta: Seq<StagedEntry>)
    requires
        in_stages(l, 2),
        l.contents.len() <= 3,
        meta.len() <= usize::MAX,
    ensures
        in_stages(with_meta(l, meta), 7),
        with_meta(l, meta).contents.len() <= 8,
        forall|p: Seq<char>| #[trigger]
            l.clusters.contains_key(p) ==> with_meta(l, meta).clusters.contains_key(p),
        all_filed(with_meta(l, meta), "meta/"@, meta),
{
    lemma_named_paths();
    lemma_named_stages();
    let dir = "meta/"@;
    let first = seq!["meta.xml"@];
    let alone = present(dir, meta, first, 1);
    let l1 = l.shared(alone, TYPE_HASHED);
    assert forall|k: int| 0 <= k < alone.len() implies stage(#[trigger] alone[k]) == 3 by {
        assert(alone.contains(alone[k]));
        lemma_present(dir, meta, first, 1, alone[k]);
    }
    lemma_shared_in_stages(l, alone, 3);
    lemma_present(dir, meta, first, 1, "meta/meta.xml"@);
    assert(first[0] == "meta.xml"@);

    let second = seq!["iconTex.tga"@, "bootTvTex.tga"@, "bootDrcTex.tga"@, "bootSound.btsnd"@];
    let boot = present(dir, meta, second, 4);
    let l2 = l1.shared(boot, TYPE_HASHED);
    assert forall|k: int| 0 <= k < boot.len() implies stage(#[trigger] boot[k]) == 4 by {
        assert(boot.contains(boot[k]));
        lemma_present(dir, meta, second, 4, boot[k]);
    }
    lemma_shared_in_stages(l1, boot, 4);
    assert(second[0] == "iconTex.tga"@ && second[1] == "bootTvTex.tga"@ && second[2]
        == "bootDrcTex.tga"@ && second[3] == "bootSound.btsnd"@);
    lemma_present(dir, meta, second, 4, "meta/iconTex.tga"@);
    lemma_present(dir, meta, second, 4, "meta/bootTvTex.tga"@);
    lemma_present(dir, meta, second, 4, "meta/bootDrcTex.tga"@);
    lemma_present(dir, meta, second, 4, "meta/bootSound.btsnd"@);

    let l3 = lemma_singles_in_stages(l2, meta);
    assert(has_file(meta, second[0]) ==> l3.clusters.contains_key("meta/iconTex.tga"@));
    assert(has_file(meta, second[1]) ==> l3.clusters.contains_key("meta/bootTvTex.tga"@));
    assert(has_file(meta, second[2]) ==> l3.clusters.contains_key("meta/bootDrcTex.tga"@));
    assert(has_file(meta, second[3]) ==> l3.clusters.contains_key("meta/bootSound.btsnd"@));
    assert(has_file(meta, first[0]) ==> l3.clusters.contains_key("meta/meta.xml"@));
    let order = listing(meta, Lead::Nothing);
    let rest = leftover(dir, meta, order, l3.clusters, order.len() as int);
    assert forall|k: int| 0 <= k < rest.len() implies stage(#[trigger] rest[k]) == 7 by {
        let path = rest[k];
        assert(rest.contains(path));
        lemma_rest(dir, meta, Lead::Nothing, l3, path);
        let i = choose|i: int|
            0 <= i < meta.len() && (#[trigger] meta[i]).is_regular() && path == dir
                + meta[i].name_view();
        let name = meta[i].name_view();
        assert(has_file(meta, name));
        lemma_directory_stages(path);
        lemma_in_directory(dir, name, "meta.xml"@);
        lemma_in_directory(dir, name, "iconTex.tga"@);
        lemma_in_directory(dir, name, "bootTvTex.tga"@);
        lemma_in_directory(dir, name, "bootDrcTex.tga"@);
        lemma_in_directory(dir, name, "bootSound.btsnd"@);
        lemma_in_directory(dir, name, "bootMovie.h264"@);
        lemma_in_directory(dir, name, "bootLogoTex.tga"@);
    }
    lemma_shared_in_stages(l3, rest, 7);
    let after = with_meta(l, meta);
    assert(after == l3.shared(rest, TYPE_HASHED));
    assert forall|i: int|
        0 <= i < meta.len() && (#[trigger] meta[i]).is_regular() implies after.clusters.contains_key(
        dir + meta[i].name_view(),
    ) by {
        lemma_rest(dir, meta, Lead::Nothing, l3, dir + meta[i].name_view());
    }
}

/// The boot movie and the boot logo.
proof fn lemma_singles_in_stages(l: Layout, meta: Seq<StagedEntry>) -> (after: Layout)
    requires
        in_stages(l, 4),
        l.contents.len() <= 5,
    ensures
        ({
            let singles = present("meta/"@, meta, seq!["bootMovie.h264"@, "bootLogoTex.tga"@], 2);
            after == l.separate(singles, TYPE_HASHED, singles.len() as int)
        }),
        in_stages(after, 6),
        after.contents.len() <= l.contents.len() + 2,
        forall|p: Seq<char>| #[trigger]
            l.clusters.contains_key(p) ==> after.clusters.contains_key(p),
        has_file(meta, "bootMovie.h264"@) ==> after.clusters.contains_key("meta/bootMovie.h264"@),
        has_file(meta, "bootLogoTex.tga"@) ==> after.clusters.contains_key("meta/bootLogoTex.tga"@),
{
    lemma_named_paths();
    lemma_named_stages();
    let names = seq!["bootMovie.h264"@, "bootLogoTex.tga"@];
    reveal_with_fuel(present, 3);
    reveal_with_fuel(Layout::separate, 3);
    let paths = present("meta/"@, meta, names, 2);
    let movie = "meta/bootMovie.h264"@;
    let logo = "meta/bootLogoTex.tga"@;
    let l1 = l.grown(TYPE_HASHED, false).filed(movie);
    lemma_one_in_stages(l, movie, TYPE_HASHED, 5);
    lemma_one_in_stages(l1, logo, TYPE_HASHED, 6);
    assert(in_stages(l, 5));
    lemma_one_in_stages(l, logo, TYPE_HASHED, 6);
    if has_file(meta, names[0]) {
        if has_file(meta, names[1]) {
            assert(paths =~= seq![movie, logo]);
            assert(l.separate(paths, TYPE_HASHED, 2) == l1.grown(TYPE_HASHED, false).filed(logo));
        } else {
            assert(paths =~= seq![movie]);
        }
    } else if has_file(meta, names[1]) {
        assert(paths =~= seq![logo]);
    } else {
        assert(paths =~= Seq::empty());
    }
    l.separate(paths, TYPE_HASHED, paths.len() as int)
}

proof fn lemma_code_in_stages(l: Layout, code: Seq<StagedEntry>)
    requires
        in_stages(l, 7),
        code.len() <= usize::MAX,
        has_file(code, "app.xml"@) ==> l.clusters.contains_key("code/app.xml"@),
        has_file(code, "cos.xml"@) ==> l.clusters.contains_key("code/cos.xml"@),
        with_code(l, code).contents.len() <= 0x1_0000,
    ensures
        in_stages(with_code(l, code), 8),
        forall|p: Seq<char>| #[trigger]
            l.clusters.contains_key(p) ==> with_code(l, code).clusters.contains_key(p),
        all_filed(with_code(l, code), "code/"@, code),
{
    lemma_named_paths();
    lemma_named_stages();
    let dir = "code/"@;
    let order = listing(code, Lead::Programs);
    let rest = leftover(dir, code, order, l.clusters, order.len() as int);
    assert forall|k: int| 0 <= k < rest.len() implies stage(#[trigger] rest[k]) == 8 by {
        let path = rest[k];
        assert(rest.contains(path));
        lemma_rest(dir, code, Lead::Programs, l, path);
        let i = choose|i: int|
            0 <= i < code.len() && (#[trigger] code[i]).is_regular() && path == dir
                + code[i].name_view();
        let name = code[i].name_view();
        assert(has_file(code, name));
        lemma_directory_stages(path);
        lemma_in_directory(dir, name, "app.xml"@);
        lemma_in_directory(dir, name, "cos.xml"@);
    }
    lemma_separate_len(l, rest, TYPE_NONHASHED, rest.len() as int);
    lemma_separate_in_stages(l, rest);
    let after = with_code(l, code);
    assert forall|i: int|
        0 <= i < code.len() && (#[trigger] code[i]).is_regular() implies after.clusters.contains_key(
        dir + code[i].name_view(),
    ) by {
        lemma_rest(dir, code, Lead::Programs, l, dir + code[i].name_view());
    }
}

proof fn lemma_separate_len(l: Layout, paths: Seq<Seq<char>>, content_type: u16, n: int)
    requires
        0 <= n,
    ensures
        l.separate(paths, content_type, n).contents.len() == l.contents.len() + n,
    decreases n,
{
    if n > 0 {
        lemma_separate_len(l, paths, content_type, n - 1);
    }
}

/// The layout of a build up to the game data.
proof fn lemma_before_game_in_stages(build: StagedBuild)
    requires
        layout_before_game(build).contents.len() <= 0x1_0000,
    ensures
        in_stages(layout_before_game(build), 8),
        build.code matches Some(code) ==> all_filed(
            layout_before_game(build),
            "code/"@,
            code@,
        ),
        build.meta matches Some(meta) ==> all_filed(
            layout_before_game(build),
            "meta/"@,
            meta@,
        ),
{
    let l0 = Layout::start();
    let l1 = match build.code {
        Some(code) => with_code_heads(l0, code@),
        None => l0,
    };
    if let Some(code) = build.code {
        lemma_heads_in_stages(code@);
        lemma_vec_len(&code);
    }
    assert(in_stages(l1, 2) && l1.contents.len() <= 3);
    let l2 = match build.meta {
        Some(meta) => with_meta(l1, meta@),
        None => l1,
    };
    if let Some(meta) = build.meta {
        lemma_vec_len(&meta);
        lemma_meta_in_stages(l1, meta@);
    }
    assert(in_stages(l2, 7));
    if let Some(code) = build.code {
        lemma_code_in_stages(l2, code@);
    }
}

/// The contents of a package follow the order in which a retail package has them. See
/// [`in_stages`]: which files share a content, which have one of their own, and of which kind each
/// content is. There may be no more contents than their indices can tell apart.
pub proof fn law_contents_come_in_order(build: StagedBuild)
    requires
        layout_of(build).contents.len() <= 0x1_0000,
    ensures
        in_stages(layout_of(build), 9),
{
    lemma_all_in_stages(build);
}

/// Every regular file of `code/` and `meta/` has a content, and so has every file below
/// `content/`.
pub proof fn law_every_staged_file_has_a_content(build: StagedBuild, i: int)
    requires
        layout_of(build).contents.len() <= 0x1_0000,
    ensures
        build.code matches Some(code) ==> 0 <= i < code@.len() && code@[i].is_regular()
            ==> layout_of(build).clusters.contains_key("code/"@ + code@[i].name_view()),
        build.meta matches Some(meta) ==> 0 <= i < meta@.len() && meta@[i].is_regular()
            ==> layout_of(build).clusters.contains_key("meta/"@ + meta@[i].name_view()),
        build.content matches Some(content) ==> {
            let files = files_below("content/"@, content@);
            0 <= i < files.len() ==> layout_of(build).clusters.contains_key(files[i].0)
        },
{
    lemma_all_in_stages(build);
}

proof fn lemma_all_in_stages(build: StagedBuild)
    requires
        layout_of(build).contents.len() <= 0x1_0000,
    ensures
        in_stages(layout_of(build), 9),
        layout_before_game(build).contents.len() <= 0x1_0000,
        forall|p: Seq<char>| #[trigger]
            layout_before_game(build).clusters.contains_key(p) ==> layout_of(
                build,
            ).clusters.contains_key(p) && layout_of(build).clusters[p] == layout_before_game(
                build,
            ).clusters[p],
        build.code matches Some(code) ==> all_filed(layout_of(build), "code/"@, code@),
        build.meta matches Some(meta) ==> all_filed(layout_of(build), "meta/"@, meta@),
        build.content matches Some(content) ==> forall|k: int|
            0 <= k < files_below("content/"@, content@).len()
                ==> layout_of(build).clusters.contains_key(
                (#[trigger] files_below("content/"@, content@)[k]).0,
            ),
{
    let start = layout_before_game(build);
    match build.content {
        Some(content) => {
            let files = files_below("content/"@, content@);
            lemma_packed_grows(packing_from(start), files, files.len() as int);
            lemma_before_game_in_stages(build);
            lemma_prefixed("content/"@, content@, listing(content@, Lead::DiscImages), 0);
            assert forall|k: int| 0 <= k < files.len() implies stage((#[trigger] files[k]).0)
                == 9 by {
                assert(begins(files[k].0, "content/"@));
                lemma_directory_stages(files[k].0);
            }
            lemma_game_in_stages(start, files, files.len() as int);
        },
        None => {
            lemma_before_game_in_stages(build);
        },
    }
}

/// A game file joins the content being filled while the file, rounded up to 32 bytes, still fits
/// under 0x7000_0000 bytes with what is there; else it begins a hashed content of its own.
pub proof fn law_game_file_joins_while_it_fits(p: Packing, path: Seq<char>, size: u64, room: int)
    requires
        p.layout.contents.len() < 0x1_0000,
        p.current matches Some(index) ==> index == p.layout.contents.len() - 1,
        room % 0x20 == 0,
        size <= room < size + 0x20,
    ensures
        ({
            let q = p.packed(path, size);
            let joins = p.current is Some && p.current_size + room <= 0x7000_0000;
            let count = p.layout.contents.len() as int;
            &&& q.layout.clusters == p.layout.clusters.insert(
                path,
                (q.layout.contents.len() - 1) as u16,
            )
            &&& q.current == Some((q.layout.contents.len() - 1) as u16)
            &&& joins ==> q.layout.contents == p.layout.contents && q.current_size
                == p.current_size + room
            &&& !joins ==> {
                &&& q.layout.contents.len() == count + 1
                &&& q.layout.contents.subrange(0, count) == p.layout.contents
                &&& q.layout.contents[count].index == count
                &&& q.layout.contents[count].content_type == 0x2003
                &&& q.layout.contents[count].is_game
                &&& q.current_size == room
            }
        }),
{
    lemma_rounded_up(size as int, 0x20);
    let q = p.packed(path, size);
    let count = p.layout.contents.len() as int;
    assert(rounded_up(size as int, 0x20) == room);
    if !(p.current is Some && p.current_size + room <= 0x7000_0000) {
        assert(q.layout.contents.subrange(0, count) =~= p.layout.contents);
    }
}

/// Where a file that is left over stands among those.
proof fn lemma_leftover_at(
    dir: Seq<char>,
    entries: Seq<StagedEntry>,
    order: Seq<usize>,
    taken: Map<Seq<char>, u16>,
    k: int,
    n: int,
)
    requires
        0 <= k < n <= order.len(),
        entries[order[k] as int].is_regular(),
        !taken.contains_key(dir + entries[order[k] as int].name_view()),
    ensures
        ({
            let at = leftover(dir, entries, order, taken, k).len() as int;
            let rest = leftover(dir, entries, order, taken, n);
            at < rest.len() && rest[at] == dir + entries[order[k] as int].name_view()
        }),
    decreases n,
{
    if k < n - 1 {
        lemma_leftover_at(dir, entries, order, taken, k, n - 1);
    }
}

/// Whether no two entries of a directory have the same name.
pub open spec fn distinct_names(entries: Seq<StagedEntry>) -> bool {
    forall|a: int, b: int|
        0 <= a < b < entries.len() ==> (#[trigger] entries[a]).name_view() != (
        #[trigger] entries[b]).name_view()
}

/// No file is left over twice.
proof fn lemma_leftover_distinct(
    dir: Seq<char>,
    entries: Seq<StagedEntry>,
    lead: Lead,
    taken: Map<Seq<char>, u16>,
    n: int,
    a: int,
    b: int,
)
    requires
        distinct_names(entries),
        entries.len() <= usize::MAX,
        0 <= n <= entries.len(),
        0 <= a < b < leftover(dir, entries, listing(entries, lead), taken, n).len(),
    ensures
        leftover(dir, entries, listing(entries, lead), taken, n)[a] != leftover(
            dir,
            entries,
            listing(entries, lead),
            taken,
            n,
        )[b],
    decreases n,
{
    let order = listing(entries, lead);
    let rest = leftover(dir, entries, order, taken, n);
    let count = entries.len() as int;
    law_listing_is_stable_sort(entries, lead, count);
    lemma_order_bounds(entries, lead, count);
    if n > 0 {
        let less = leftover(dir, entries, order, taken, n - 1);
        if b < less.len() {
            lemma_leftover_distinct(dir, entries, lead, taken, n - 1, a, b);
        } else {
            let path = rest[a];
            assert(less[a] == path);
            assert(less.contains(path));
            lemma_leftover(dir, entries, order, taken, n - 1, path);
            let k = choose|k: int|
                0 <= k < n - 1 && entries[(#[trigger] order[k]) as int].is_regular() && path == dir
                    + entries[order[k] as int].name_view();
            let x = order[k] as int;
            let y = order[n - 1] as int;
            assert(x != y);
            lemma_in_directory(dir, entries[x].name_view(), entries[y].name_view());
            assert(entries[x].name_view() != entries[y].name_view());
        }
    }
}

/// Whether one name of `code/` comes before another: programs come first, and among programs or
/// other files the lower-case names are in byte order.
pub open spec fn listed_before(a: Seq<char>, b: Seq<char>) -> bool {
    let x = lowercase(a);
    let y = lowercase(b);
    if program_name(x) != program_name(y) {
        program_name(x)
    } else {
        !bytes_le(encode_utf8(y), encode_utf8(x))
    }
}

/// The remaining files of `code/` have their contents in order: programs first, then by name.
pub proof fn law_programs_come_first(build: StagedBuild, code: Seq<StagedEntry>, i: int, j: int)
    requires
        layout_of(build).contents.len() <= 0x1_0000,
        build.code matches Some(list) && list@ == code,
        distinct_names(code),
        0 <= i < code.len(),
        0 <= j < code.len(),
        code[i].is_regular(),
        code[j].is_regular(),
        stage("code/"@ + code[i].name_view()) == 8,
        stage("code/"@ + code[j].name_view()) == 8,
        listed_before(code[i].name_view(), code[j].name_view()),
    ensures
        layout_of(build).clusters["code/"@ + code[i].name_view()] < layout_of(
            build,
        ).clusters["code/"@ + code[j].name_view()],
{
    let dir = "code/"@;
    let p = dir + code[i].name_view();
    let q = dir + code[j].name_view();
    let count = code.len() as int;
    lemma_vec_len(&build.code->0);
    lemma_all_in_stages(build);
    let l = lemma_before_code(build);
    let start = layout_before_game(build);
    let order = listing(code, Lead::Programs);
    let rest = leftover(dir, code, order, l.clusters, order.len() as int);
    law_listing_is_stable_sort(code, Lead::Programs, count);
    lemma_order_bounds(code, Lead::Programs, count);
    assert(order.contains(i as usize) && order.contains(j as usize));
    let ki = choose|k: int| 0 <= k < order.len() && order[k] == i as usize;
    let kj = choose|k: int| 0 <= k < order.len() && order[k] == j as usize;
    assert(!rank_le(
        entry_rank(code, Lead::Programs, j),
        entry_rank(code, Lead::Programs, i),
    )) by {
        law_leading_names(Lead::Programs, code[i].name_view());
        law_leading_names(Lead::Programs, code[j].name_view());
    }
    if ki == kj {
        lemma_bytes_le_reflexive(encode_utf8(lowercase(code[i].name_view())));
        assert(false);
    }
    assert(ki < kj) by {
        if kj < ki {
            assert(order[kj] as int == j && order[ki] as int == i);
        }
    }
    assert(!l.clusters.contains_key(p) && !l.clusters.contains_key(q));
    lemma_leftover_at(dir, code, order, l.clusters, ki, kj);
    lemma_leftover_at(dir, code, order, l.clusters, ki, count);
    lemma_leftover_at(dir, code, order, l.clusters, kj, count);
    let a = leftover(dir, code, order, l.clusters, ki).len() as int;
    let b = leftover(dir, code, order, l.clusters, kj).len() as int;
    assert(a < b);
    assert(rest[a] == p && rest[b] == q);
    assert(rest.contains(p) && rest.contains(q));
    assert forall|k: int| 0 <= k < rest.len() implies !l.clusters.contains_key(
        #[trigger] rest[k],
    ) by {
        assert(rest.contains(rest[k]));
        lemma_leftover(dir, code, order, l.clusters, count, rest[k]);
    }
    lemma_separate_len(l, rest, TYPE_NONHASHED, rest.len() as int);
    lemma_separate(l, rest, TYPE_NONHASHED, rest.len() as int);
    assert(rest.subrange(0, rest.len() as int) =~= rest);
    let base = l.contents.len() as int;
    assert(start.clusters.contains_key(p) && start.clusters.contains_key(q));
    let x = start.clusters[p] - base;
    let y = start.clusters[q] - base;
    assert(rest[x] == p && rest[y] == q);
    if x < a {
        lemma_leftover_distinct(dir, code, Lead::Programs, l.clusters, count, x, a);
    } else if a < x {
        lemma_leftover_distinct(dir, code, Lead::Programs, l.clusters, count, a, x);
    }
    if y < b {
        lemma_leftover_distinct(dir, code, Lead::Programs, l.clusters, count, y, b);
    } else if b < y {
        lemma_leftover_distinct(dir, code, Lead::Programs, l.clusters, count, b, y);
    }
}

proof fn lemma_bytes_le_reflexive(a: Seq<u8>)
    ensures
        bytes_le(a, a),
{
    law_byte_order_is_that_of_a_dictionary(a, a, a.len() as int);
}

/// The layout before the remaining files of `code/`.
proof fn lemma_before_code(build: StagedBuild) -> (l: Layout)
    requires
        build.code is Some,
        layout_before_game(build).contents.len() <= 0x1_0000,
    ensures
        layout_before_game(build) == with_code(l, build.code->0@),
        in_stages(l, 7),
{
    let code = build.code->0;
    let l1 = with_code_heads(Layout::start(), code@);
    lemma_heads_in_stages(code@);
    match build.meta {
        Some(meta) => {
            lemma_vec_len(&meta);
            lemma_meta_in_stages(l1, meta@);
            with_meta(l1, meta@)
        },
        None => l1,
    }
}

} // verus!

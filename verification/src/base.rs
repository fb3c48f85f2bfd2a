//! The base title that an injection is built on.
//!
//! The base supplies the framework binaries in `code/`. The user brings it as a Cemu `.wua`
//! archive, as an extracted directory or as a download; it is staged without its own
//! `hif_*.nfs` files, which the injected game replaces.

use vstd::prelude::*;

use crate::aes_cbc::{key_from, Key};
use crate::error::{DiscFault, Error, KeyFault, Result};
use crate::package::staging::{hif_name, is_hif};
use crate::text::{chars_of, equal_ignoring_case, same_ignoring_case, text_equal, text_join};
use crate::util::bytes_equal;

verus! {

/// Files that a base title's `code/` directory must hold.
pub const REQUIRED_CODE_FILES: [&'static str; 6] = [
    "cos.xml",
    "frisbiiU.rpx",
    "fw.img",
    "fw.tmd",
    "htk.bin",
    "nn_hai_user.rpl",
];

/// A base title staged into a build directory.
#[derive(Debug)]
pub struct StagedBase {
    /// The NFS key read from `code/htk.bin`.
    pub htk: Key,
    /// The staged `code/` directory.
    pub code_dir: String,
    /// The staged `content/` directory.
    pub content_dir: String,
    /// The staged `meta/` directory.
    pub meta_dir: String,
}

/// Whether `name` is that of the base's own game data, which is not staged.
pub fn is_base_game_nfs(name: &str) -> (r: bool)
    ensures
        r == hif_name(name@),
{
    is_hif(name)
}

/// Whether a list of names holds `name`.
pub open spec fn lists(names: Seq<String>, name: Seq<char>) -> bool {
    exists|i: int| 0 <= i < names.len() && (#[trigger] names[i])@ == name
}

/// Whether a list of names holds `name`.
fn listed(names: &Vec<String>, name: &str) -> (r: bool)
    ensures
        r == lists(names@, name@),
{
    let mut i: usize = 0;
    while i < names.len()
        invariant
            i <= names@.len(),
            forall|j: int| 0 <= j < i ==> (#[trigger] names@[j])@ != name@,
        decreases names@.len() - i,
    {
        if text_equal(names[i].as_str(), name) {
            return true;
        }
        i += 1;
    }
    false
}

/// The first required file from `i` on that is not present.
pub open spec fn missing_from(present: Seq<String>, i: int) -> Option<Seq<char>>
    decreases 6 - i,
{
    if i < 0 || i >= 6 {
        None
    } else if !lists(present, REQUIRED_CODE_FILES@[i]@) {
        Some(REQUIRED_CODE_FILES@[i]@)
    } else {
        missing_from(present, i + 1)
    }
}

/// Check what was staged into `build_dir`: `present` lists the files of its `code/` directory,
/// and `htk` is what `htk.bin` holds. Every required file has to be there, and the key has to be
/// 16 bytes long.
pub fn finalize_stage(build_dir: &str, present: &Vec<String>, htk: &[u8]) -> (r: Result<StagedBase>)
    ensures
        match r {
            Ok(staged) => {
                &&& missing_from(present@, 0) is None
                &&& staged.htk@ == htk@
                &&& staged.code_dir@ == build_dir@ + "/code"@
                &&& staged.content_dir@ == build_dir@ + "/content"@
                &&& staged.meta_dir@ == build_dir@ + "/meta"@
            },
            Err(e) => match missing_from(present@, 0) {
                Some(name) => e matches Error::MissingFile(path) && path@ == build_dir@ + "/code"@
                    + "/"@ + name,
                None => htk@.len() != 16 && e == (Error::InvalidKey {
                    name: "htk.bin",
                    reason: KeyFault::RawLength(htk@.len() as usize),
                }),
            },
        },
{
    let code_dir: String = text_join(build_dir, "/code");
    let required: &[&'static str] = REQUIRED_CODE_FILES.as_slice();
    let mut i: usize = 0;
    while i < 6
        invariant
            i <= 6,
            required@ == REQUIRED_CODE_FILES@,
            code_dir@ == build_dir@ + "/code"@,
            missing_from(present@, 0) == missing_from(present@, i as int),
        decreases 6 - i,
    {
        if !listed(present, required[i]) {
            let mut path: String = text_join(code_dir.as_str(), "/");
            path.append(required[i]);
            return Err(Error::MissingFile(path));
        }
        i += 1;
    }
    if htk.len() != 16 {
        return Err(
            Error::InvalidKey { name: "htk.bin", reason: KeyFault::RawLength(htk.len()) },
        );
    }
    Ok(
        StagedBase {
            htk: key_from(htk),
            code_dir,
            content_dir: text_join(build_dir, "/content"),
            meta_dir: text_join(build_dir, "/meta"),
        },
    )
}

/// An entry below a candidate for a title's root directory.
pub struct ChildEntry {
    /// Its name.
    pub name: Vec<u8>,
    /// Whether it is a directory.
    pub is_dir: bool,
}

/// The name of the directory that marks a title's root: `code`.
pub open spec fn code_name() -> Seq<u8> {
    seq![0x63u8, 0x6fu8, 0x64u8, 0x65u8]
}

/// Whether a directory with these entries is a title's root.
pub open spec fn is_title_root(children: Seq<ChildEntry>) -> bool {
    exists|i: int|
        0 <= i < children.len() && (#[trigger] children[i]).is_dir && children[i].name@
            == code_name()
}

/// Whether a directory with these entries is a title's root: one with a `code/` directory.
pub fn title_root(children: &Vec<ChildEntry>) -> (r: bool)
    ensures
        r == is_title_root(children@),
{
    let code: [u8; 4] = [0x63, 0x6f, 0x64, 0x65];
    assert(code@ =~= code_name());
    let mut i: usize = 0;
    while i < children.len()
        invariant
            i <= children@.len(),
            code@ == code_name(),
            forall|j: int|
                0 <= j < i ==> !((#[trigger] children@[j]).is_dir && children@[j].name@
                    == code_name()),
        decreases children@.len() - i,
    {
        if children[i].is_dir && bytes_equal(children[i].name.as_slice(), code.as_slice()) {
            return true;
        }
        i += 1;
    }
    false
}

/// The first candidate that is a title's root. A candidate is `None` where it is no directory or
/// its entries cannot be read.
pub fn pick_title_root(candidates: &Vec<Option<Vec<ChildEntry>>>) -> (r: Option<usize>)
    ensures
        match r {
            Some(at) => {
                &&& at < candidates@.len()
                &&& candidates@[at as int] matches Some(children) && is_title_root(children@)
                &&& forall|i: int|
                    0 <= i < at ==> !(#[trigger] candidates@[i] matches Some(children)
                        && is_title_root(children@))
            },
            None => forall|i: int|
                0 <= i < candidates@.len() ==> !(#[trigger] candidates@[i] matches Some(children)
                    && is_title_root(children@)),
        },
{
    let mut at: usize = 0;
    while at < candidates.len()
        invariant
            at <= candidates@.len(),
            forall|i: int|
                0 <= i < at ==> !(#[trigger] candidates@[i] matches Some(children)
                    && is_title_root(children@)),
        decreases candidates@.len() - at,
    {
        if let Some(children) = &candidates[at] {
            if title_root(children) {
                return Some(at);
            }
        }
        at += 1;
    }
    None
}

/// Where a base title comes from.
#[derive(Clone, Copy, Debug, PartialEq, Eq, Structural)]
pub enum BaseKind {
    /// An extracted directory.
    Directory,
    /// A Cemu archive.
    Archive,
}

/// What the base title at `path` is: a directory, or an archive by its extension.
pub fn base_kind(path: &String, is_dir: bool, extension: Option<&str>) -> (r: Result<BaseKind>)
    ensures
        match r {
            Ok(kind) => if is_dir {
                kind == BaseKind::Directory
            } else {
                &&& kind == BaseKind::Archive
                &&& extension matches Some(ext) && same_ignoring_case(ext@, "wua"@)
            },
            Err(e) => {
                &&& !is_dir
                &&& !(extension matches Some(ext) && same_ignoring_case(ext@, "wua"@))
                &&& e matches Error::UnsupportedDisc(DiscFault::BadBase(p)) && p@ == path@
            },
        },
{
    if is_dir {
        return Ok(BaseKind::Directory);
    }
    if let Some(ext) = extension {
        if equal_ignoring_case(&chars_of(ext), &chars_of("wua")) {
            return Ok(BaseKind::Archive);
        }
    }
    Err(Error::UnsupportedDisc(DiscFault::BadBase(path.clone())))
}

/// The first `/` from `i` on; the length where there is none.
pub open spec fn slash_from(path: Seq<char>, i: int) -> int
    decreases path.len() - i,
{
    if 0 <= i < path.len() && path[i] != '/' {
        slash_from(path, i + 1)
    } else {
        i
    }
}

/// Whether one of the parts of `path` from `i` on is `..`.
pub open spec fn climbs_from(path: Seq<char>, i: int) -> bool
    decreases path.len() - i,
{
    if i < 0 || i >= path.len() {
        false
    } else {
        let end = slash_from(path, i);
        path.subrange(i, end) == seq!['.', '.'] || (i <= end < path.len() && climbs_from(path, end + 1))
    }
}

/// Whether a path leaves the directory that it is joined to: it is absolute, or one of its parts
/// is `..`.
pub open spec fn escapes(path: Seq<char>) -> bool {
    (path.len() > 0 && path[0] == '/') || climbs_from(path, 0)
}

/// Whether a path may be joined to a directory without leaving it.
pub fn safe_to_join(rel: &str) -> (r: bool)
    ensures
        r == !escapes(rel@),
{
    let path: Vec<char> = chars_of(rel);
    if path.len() > 0 && path[0] == '/' {
        return false;
    }
    let mut i: usize = 0;
    while i < path.len()
        invariant
            path@ == rel@,
            !(path@.len() > 0 && path@[0] == '/'),
            climbs_from(path@, 0) == climbs_from(path@, i as int),
        decreases path@.len() - i,
    {
        let mut end: usize = i;
        while end < path.len() && path[end] != '/'
            invariant
                i <= end <= path@.len(),
                slash_from(path@, i as int) == slash_from(path@, end as int),
            ensures
                i <= end <= path@.len(),
                slash_from(path@, i as int) == end,
            decreases path@.len() - end,
        {
            end += 1;
        }
        let ghost part = path@.subrange(i as int, end as int);
        if end - i == 2 && path[i] == '.' && path[i + 1] == '.' {
            assert(part =~= seq!['.', '.']);
            return false;
        }
        proof {
            if part == seq!['.', '.'] {
                assert(part.len() == seq!['.', '.'].len());
                assert(part[0] == path@[i as int]);
                assert(part[1] == path@[i + 1]);
                assert(seq!['.', '.'][0] == '.' && seq!['.', '.'][1] == '.');
            }
        }
        if end == path.len() {
            return true;
        }
        i = end + 1;
    }
    true
}

/// A base is complete exactly when all six framework files are present: none is dispensable, and
/// no other is asked for.
pub proof fn law_every_required_file_is_asked_for(present: Seq<String>)
    ensures
        missing_from(present, 0) is None <==> {
            &&& exists|i: int| 0 <= i < present.len() && (#[trigger] present[i])@ == "cos.xml"@
            &&& exists|i: int| 0 <= i < present.len() && (#[trigger] present[i])@ == "frisbiiU.rpx"@
            &&& exists|i: int| 0 <= i < present.len() && (#[trigger] present[i])@ == "fw.img"@
            &&& exists|i: int| 0 <= i < present.len() && (#[trigger] present[i])@ == "fw.tmd"@
            &&& exists|i: int| 0 <= i < present.len() && (#[trigger] present[i])@ == "htk.bin"@
            &&& exists|i: int| 0 <= i < present.len() && (#[trigger] present[i])@ == "nn_hai_user.rpl"@
        },
{
    lemma_required(present);
}

/// What is reported missing is a required file that is not present.
pub proof fn law_missing_file_is_missing(present: Seq<String>, i: int)
    requires
        missing_from(present, 0) is Some,
        0 <= i < present.len(),
    ensures
        present[i]@ != missing_from(present, 0)->0,
        ({
            let name = missing_from(present, 0)->0;
            name == "cos.xml"@ || name == "frisbiiU.rpx"@ || name == "fw.img"@ || name == "fw.tmd"@ || name == "htk.bin"@ || name == "nn_hai_user.rpl"@
        }),
{
    lemma_required(present);
    if present[i]@ == missing_from(present, 0)->0 {
        assert(lists(present, missing_from(present, 0)->0));
    }
}

proof fn lemma_required(present: Seq<String>)
    ensures
        missing_from(present, 0) == if !lists(present, "cos.xml"@) {
            Some("cos.xml"@)
        } else if !lists(present, "frisbiiU.rpx"@) {
            Some("frisbiiU.rpx"@)
        } else if !lists(present, "fw.img"@) {
            Some("fw.img"@)
        } else if !lists(present, "fw.tmd"@) {
            Some("fw.tmd"@)
        } else if !lists(present, "htk.bin"@) {
            Some("htk.bin"@)
        } else if !lists(present, "nn_hai_user.rpl"@) {
            Some("nn_hai_user.rpl"@)
        } else {
            None
        },
{
    assert(REQUIRED_CODE_FILES@[0]@ == "cos.xml"@);
    assert(REQUIRED_CODE_FILES@[1]@ == "frisbiiU.rpx"@);
    assert(REQUIRED_CODE_FILES@[2]@ == "fw.img"@);
    assert(REQUIRED_CODE_FILES@[3]@ == "fw.tmd"@);
    assert(REQUIRED_CODE_FILES@[4]@ == "htk.bin"@);
    assert(REQUIRED_CODE_FILES@[5]@ == "nn_hai_user.rpl"@);
    reveal_with_fuel(missing_from, 7);
}

/// A title's root is told by a directory named `code`, and by nothing else: a file of that name
/// does not do.
pub proof fn law_title_root_holds_a_code_directory(children: Seq<ChildEntry>)
    ensures
        is_title_root(children) <==> exists|i: int|
            0 <= i < children.len() && (#[trigger] children[i]).is_dir && children[i].name@.len()
                == 4 && children[i].name@[0] == 'c' as u8 && children[i].name@[1] == 'o' as u8
                && children[i].name@[2] == 'd' as u8 && children[i].name@[3] == 'e' as u8,
{
    assert forall|i: int| 0 <= i < children.len() implies ((#[trigger] children[i]).name@
        == code_name() <==> {
        &&& children[i].name@.len() == 4
        &&& children[i].name@[0] == 'c' as u8
        &&& children[i].name@[1] == 'o' as u8
        &&& children[i].name@[2] == 'd' as u8
        &&& children[i].name@[3] == 'e' as u8
    }) by {
        let name = children[i].name@;
        if name.len() == 4 && name[0] == 'c' as u8 && name[1] == 'o' as u8 && name[2] == 'd' as u8
            && name[3] == 'e' as u8 {
            assert(name =~= code_name());
        }
    }
}

/// Whether the part of a path that begins at `k` is `..`.
pub open spec fn climbs_at(path: Seq<char>, k: int) -> bool {
    &&& 0 <= k
    &&& k + 2 <= path.len()
    &&& path[k] == '.' && path[k + 1] == '.'
    &&& k == 0 || path[k - 1] == '/'
    &&& k + 2 == path.len() || path[k + 2] == '/'
}

proof fn lemma_slash_from(path: Seq<char>, i: int)
    requires
        0 <= i <= path.len(),
    ensures
        i <= slash_from(path, i) <= path.len(),
        forall|k: int| i <= k < slash_from(path, i) ==> #[trigger] path[k] != '/',
        slash_from(path, i) < path.len() ==> path[slash_from(path, i)] == '/',
    decreases path.len() - i,
{
    if i < path.len() && path[i] != '/' {
        lemma_slash_from(path, i + 1);
    }
}

proof fn lemma_climbs(path: Seq<char>, i: int)
    requires
        0 <= i,
        i == 0 || i > path.len() || path[i - 1] == '/',
    ensures
        climbs_from(path, i) <==> exists|k: int| i <= k && climbs_at(path, k),
    decreases path.len() - i,
{
    if i < path.len() {
        let end = slash_from(path, i);
        lemma_slash_from(path, i);
        let part = path.subrange(i, end);
        assert(part == seq!['.', '.'] <==> climbs_at(path, i)) by {
            if part == seq!['.', '.'] {
                assert(part.len() == 2);
                assert(part[0] == path[i] && part[1] == path[i + 1]);
            }
            if climbs_at(path, i) {
                if end < i + 2 {
                    assert(path[end] == '/');
                }
                if i + 2 < end {
                    assert(path[i + 2] != '/');
                }
                assert(part =~= seq!['.', '.']);
            }
        }
        if end < path.len() {
            lemma_climbs(path, end + 1);
        }
        assert forall|k: int| i < k && climbs_at(path, k) implies end < k by {
            if k <= end {
                assert(path[k - 1] != '/');
            }
        }
    }
}

/// A path leaves its directory exactly when it starts with a slash or one of its parts is two
/// dots, wherever in the path that part stands; a name that merely holds two dots does no harm.
pub proof fn law_escaping_paths(path: Seq<char>)
    ensures
        escapes(path) <==> {
            ||| path.len() > 0 && path[0] == '/'
            ||| exists|k: int| climbs_at(path, k)
        },
{
    lemma_climbs(path, 0);
    if exists|k: int| climbs_at(path, k) {
        let k = choose|k: int| climbs_at(path, k);
        assert(0 <= k && climbs_at(path, k));
    }
}

} // verus!

//! Byte-pattern patches for the base title's `fw.img`, the vWii firmware image.
//!
//! A fakesigned title needs the firmware's signature check disabled. A title that boots homebrew
//! needs AHBPROT and MEMPROT disabled too, so that the program gets full hardware access. Every
//! patch is a search for a signature and a replacement inside it. The bytes vary between bases
//! and firmware versions, so a patch whose signature is absent leaves the image as it is.

use vstd::prelude::*;

use crate::util::{spliced, write_at};

verus! {

/// A search-and-replace patch.
#[derive(Debug)]
pub struct BytePatch {
    /// Name of the patch.
    pub name: &'static str,
    /// Signature to look for.
    pub find: Vec<u8>,
    /// Where in a match the replacement goes.
    pub at: usize,
    /// The replacement.
    pub write: Vec<u8>,
    /// Whether every match is patched or only the first.
    pub all: bool,
}

/// A patch as a mathematical value.
pub struct PatchView {
    pub name: &'static str,
    pub find: Seq<u8>,
    pub at: int,
    pub write: Seq<u8>,
    pub all: bool,
}

impl View for BytePatch {
    type V = PatchView;

    open spec fn view(&self) -> PatchView {
        PatchView {
            name: self.name,
            find: self.find@,
            at: self.at as int,
            write: self.write@,
            all: self.all,
        }
    }
}

/// The views of a list of patches.
pub open spec fn patch_list(patches: Seq<BytePatch>) -> Seq<PatchView> {
    Seq::new(patches.len(), |i: int| patches[i]@)
}

/// The first signature check: `20 07 23 A2`, of which the second byte becomes 0.
pub open spec fn fakesign_a_view() -> PatchView {
    PatchView {
        name: "fakesign",
        find: seq![0x20u8, 0x07u8, 0x23u8, 0xA2u8],
        at: 1,
        write: seq![0x00u8],
        all: true,
    }
}

/// The other signature check: `20 07 4B 0B`, of which the second byte becomes 0.
pub open spec fn fakesign_b_view() -> PatchView {
    PatchView {
        name: "fakesign(alt)",
        find: seq![0x20u8, 0x07u8, 0x4Bu8, 0x0Bu8],
        at: 1,
        write: seq![0x00u8],
        all: true,
    }
}

/// AHBPROT: `D0 0B 23 08 43 13 60 0B`, of which the first two bytes become `46 C0`.
pub open spec fn ahbprot_view() -> PatchView {
    PatchView {
        name: "AHBPROT-disable",
        find: seq![0xD0u8, 0x0Bu8, 0x23u8, 0x08u8, 0x43u8, 0x13u8, 0x60u8, 0x0Bu8],
        at: 0,
        write: seq![0x46u8, 0xC0u8],
        all: false,
    }
}

/// MEMPROT: `01 94 B5 00 4B 08 22 01`, of which the last two bytes become `22 00`.
pub open spec fn memprot_view() -> PatchView {
    PatchView {
        name: "MEMPROT-disable",
        find: seq![0x01u8, 0x94u8, 0xB5u8, 0x00u8, 0x4Bu8, 0x08u8, 0x22u8, 0x01u8],
        at: 6,
        write: seq![0x22u8, 0x00u8],
        all: false,
    }
}

/// Disable the first signature check, wherever it stands.
pub fn fakesign_a() -> (p: BytePatch)
    ensures
        p@ == fakesign_a_view(),
{
    let p = BytePatch {
        name: "fakesign",
        find: vec![0x20u8, 0x07u8, 0x23u8, 0xA2u8],
        at: 1,
        write: vec![0x00u8],
        all: true,
    };
    assert(p.find@ =~= fakesign_a_view().find);
    assert(p.write@ =~= fakesign_a_view().write);
    p
}

/// Disable the other signature check, wherever it stands.
pub fn fakesign_b() -> (p: BytePatch)
    ensures
        p@ == fakesign_b_view(),
{
    let p = BytePatch {
        name: "fakesign(alt)",
        find: vec![0x20u8, 0x07u8, 0x4Bu8, 0x0Bu8],
        at: 1,
        write: vec![0x00u8],
        all: true,
    };
    assert(p.find@ =~= fakesign_b_view().find);
    assert(p.write@ =~= fakesign_b_view().write);
    p
}

/// Disable AHBPROT.
pub fn ahbprot() -> (p: BytePatch)
    ensures
        p@ == ahbprot_view(),
{
    let p = BytePatch {
        name: "AHBPROT-disable",
        find: vec![0xD0u8, 0x0Bu8, 0x23u8, 0x08u8, 0x43u8, 0x13u8, 0x60u8, 0x0Bu8],
        at: 0,
        write: vec![0x46u8, 0xC0u8],
        all: false,
    };
    assert(p.find@ =~= ahbprot_view().find);
    assert(p.write@ =~= ahbprot_view().write);
    p
}

/// Disable MEMPROT.
pub fn memprot() -> (p: BytePatch)
    ensures
        p@ == memprot_view(),
{
    let p = BytePatch {
        name: "MEMPROT-disable",
        find: vec![0x01u8, 0x94u8, 0xB5u8, 0x00u8, 0x4Bu8, 0x08u8, 0x22u8, 0x01u8],
        at: 6,
        write: vec![0x22u8, 0x00u8],
        all: false,
    };
    assert(p.find@ =~= memprot_view().find);
    assert(p.write@ =~= memprot_view().write);
    p
}

/// The patches for an ordinary fakesigned title. Bases differ in which of the signature checks
/// they hold, so both are tried.
pub fn fakesign_patches() -> (r: Vec<BytePatch>)
    ensures
        patch_list(r@) == seq![fakesign_a_view(), fakesign_b_view()],
{
    let mut r: Vec<BytePatch> = Vec::new();
    r.push(fakesign_a());
    r.push(fakesign_b());
    assert(patch_list(r@) =~= seq![fakesign_a_view(), fakesign_b_view()]);
    r
}

/// The patches for a title that boots homebrew.
pub fn homebrew_patches() -> (r: Vec<BytePatch>)
    ensures
        patch_list(r@) == seq![
            fakesign_a_view(),
            fakesign_b_view(),
            ahbprot_view(),
            memprot_view(),
        ],
{
    let mut r: Vec<BytePatch> = fakesign_patches();
    let ghost two = r@;
    r.push(ahbprot());
    r.push(memprot());
    assert(patch_list(r@) =~= patch_list(two) + seq![ahbprot_view(), memprot_view()]);
    assert(patch_list(r@) =~= seq![
        fakesign_a_view(),
        fakesign_b_view(),
        ahbprot_view(),
        memprot_view(),
    ]);
    r
}

/// Whether a patch's signature stands at `i`.
pub open spec fn matches_at(data: Seq<u8>, p: PatchView, i: int) -> bool {
    0 <= i && i + p.find.len() <= data.len() && data.subrange(i, i + p.find.len()) == p.find
}

/// The data with the replacement written into the match at `i`.
pub open spec fn replaced(data: Seq<u8>, p: PatchView, i: int) -> Seq<u8> {
    spliced(data, i + p.at, p.write)
}

/// The data once a patch has been applied from `i` on. The search goes on behind a match where
/// every match is patched.
pub open spec fn swept(data: Seq<u8>, p: PatchView, i: int) -> Seq<u8>
    decreases data.len() + 1 - i,
{
    if i < 0 || i + p.find.len() > data.len() {
        data
    } else if !matches_at(data, p, i) {
        swept(data, p, i + 1)
    } else if !p.all {
        replaced(data, p, i)
    } else if p.find.len() > 0 && replaced(data, p, i).len() == data.len() {
        swept(replaced(data, p, i), p, i + p.find.len())
    } else {
        data
    }
}

/// Whether a patch's signature stands anywhere from `i` on.
pub open spec fn found_from(data: Seq<u8>, p: PatchView, i: int) -> bool {
    exists|k: int| i <= k && matches_at(data, p, k)
}

/// Whether every replacement of a patch falls inside the data, and its search comes to an end.
pub open spec fn sweep_fits(data: Seq<u8>, p: PatchView, i: int) -> bool
    decreases data.len() + 1 - i,
{
    if i < 0 || i + p.find.len() > data.len() {
        true
    } else if !matches_at(data, p, i) {
        sweep_fits(data, p, i + 1)
    } else {
        &&& 0 <= p.at
        &&& i + p.at + p.write.len() <= data.len()
        &&& p.all ==> p.find.len() > 0 && replaced(data, p, i).len() == data.len() && sweep_fits(
            replaced(data, p, i),
            p,
            i + p.find.len(),
        )
    }
}

/// The data once the first `n` patches have been applied.
pub open spec fn patched_upto(data: Seq<u8>, patches: Seq<PatchView>, n: int) -> Seq<u8>
    decreases n,
{
    if n <= 0 {
        data
    } else {
        swept(patched_upto(data, patches, n - 1), patches[n - 1], 0)
    }
}

/// The names of those of the first `n` patches that found their signature.
pub open spec fn applied_upto(data: Seq<u8>, patches: Seq<PatchView>, n: int) -> Seq<&'static str>
    decreases n,
{
    if n <= 0 {
        Seq::empty()
    } else if found_from(patched_upto(data, patches, n - 1), patches[n - 1], 0) {
        applied_upto(data, patches, n - 1).push(patches[n - 1].name)
    } else {
        applied_upto(data, patches, n - 1)
    }
}

/// Whether every replacement of a list of patches falls inside the data.
pub open spec fn patches_fit(data: Seq<u8>, patches: Seq<PatchView>) -> bool {
    forall|n: int|
        0 <= n < patches.len() ==> sweep_fits(
            #[trigger] patched_upto(data, patches, n),
            patches[n],
            0,
        )
}

/// Whether a signature stands at `i`.
fn stands(data: &Vec<u8>, p: &BytePatch, i: usize) -> (r: bool)
    requires
        i + p.find@.len() <= data@.len(),
    ensures
        r == matches_at(data@, p@, i as int),
{
    let ghost part = data@.subrange(i as int, i + p.find@.len());
    assert(data.len() == data@.len());
    let mut k: usize = 0;
    while k < p.find.len()
        invariant
            k <= p.find@.len(),
            i + p.find@.len() <= data@.len() <= usize::MAX,
            part == data@.subrange(i as int, i + p.find@.len()),
            forall|j: int| 0 <= j < k ==> part[j] == p.find@[j],
        decreases p.find@.len() - k,
    {
        assert(part[k as int] == data@[i + k]);
        if data[i + k] != p.find[k] {
            return false;
        }
        k += 1;
    }
    assert(part =~= p.find@);
    true
}

/// Apply one patch; the result says whether its signature was found.
fn apply_patch(data: &mut Vec<u8>, p: &BytePatch) -> (hit: bool)
    requires
        sweep_fits(old(data)@, p@, 0),
    ensures
        final(data)@ == swept(old(data)@, p@, 0),
        final(data)@.len() == old(data)@.len(),
        hit == found_from(old(data)@, p@, 0),
{
    let ghost start = data@;
    let ghost v = p@;
    let mut hit: bool = false;
    let mut i: usize = 0;
    while i <= data.len() && p.find.len() <= data.len() - i
        invariant_except_break
            !hit ==> data@ == start,
            !hit ==> forall|k: int| 0 <= k < i ==> !matches_at(start, v, k),
            sweep_fits(data@, v, i as int),
            swept(start, v, 0) == swept(data@, v, i as int),
        invariant
            v == p@,
            start == old(data)@,
            data@.len() == start.len(),
            hit ==> found_from(start, v, 0),
        ensures
            data@.len() == start.len(),
            hit == found_from(start, v, 0),
            swept(start, v, 0) == data@,
        decreases data@.len() + 1 - i,
    {
        if stands(data, p, i) {
            assert(!hit ==> matches_at(start, v, i as int));
            hit = true;
            let ghost next = replaced(data@, v, i as int);
            write_at(data, i + p.at, p.write.as_slice());
            assert(data@ == next);
            if !p.all {
                break;
            }
            i += p.find.len();
        } else {
            proof {
                if p.find@.len() == 0 {
                    assert(data@.subrange(i as int, i as int) =~= p.find@);
                }
            }
            i += 1;
        }
    }
    hit
}

/// Apply patches in order; the result names those whose signature was found. One whose signature
/// is absent changes nothing.
pub fn apply_patches(data: &mut Vec<u8>, patches: &Vec<BytePatch>) -> (applied: Vec<&'static str>)
    requires
        patches_fit(old(data)@, patch_list(patches@)),
    ensures
        final(data)@ == patched_upto(old(data)@, patch_list(patches@), patches@.len() as int),
        final(data)@.len() == old(data)@.len(),
        applied@ == applied_upto(old(data)@, patch_list(patches@), patches@.len() as int),
{
    let ghost start = data@;
    let ghost list = patch_list(patches@);
    let mut applied: Vec<&'static str> = Vec::new();
    let mut n: usize = 0;
    while n < patches.len()
        invariant
            n <= patches@.len(),
            list == patch_list(patches@),
            patches_fit(start, list),
            data@ == patched_upto(start, list, n as int),
            data@.len() == start.len(),
            applied@ == applied_upto(start, list, n as int),
        decreases patches@.len() - n,
    {
        assert(list[n as int] == patches@[n as int]@);
        assert(sweep_fits(patched_upto(start, list, n as int), list[n as int], 0));
        if apply_patch(data, &patches[n]) {
            applied.push(patches[n].name);
        }
        n += 1;
    }
    applied
}

/// Whether a patch writes inside its signature.
pub open spec fn stays_inside(p: PatchView) -> bool {
    0 < p.find.len() && 0 <= p.at && p.at + p.write.len() <= p.find.len()
}

proof fn lemma_inside_fits(data: Seq<u8>, p: PatchView, i: int)
    requires
        stays_inside(p),
        0 <= i,
    ensures
        sweep_fits(data, p, i),
        swept(data, p, i).len() == data.len(),
    decreases data.len() + 1 - i,
{
    if i + p.find.len() <= data.len() {
        if !matches_at(data, p, i) {
            lemma_inside_fits(data, p, i + 1);
        } else if p.all {
            assert(replaced(data, p, i).len() == data.len());
            lemma_inside_fits(replaced(data, p, i), p, i + p.find.len());
        }
    }
}

proof fn lemma_all_fit(data: Seq<u8>, patches: Seq<PatchView>)
    requires
        forall|i: int| 0 <= i < patches.len() ==> stays_inside(#[trigger] patches[i]),
    ensures
        patches_fit(data, patches),
{
    assert forall|n: int| 0 <= n < patches.len() implies sweep_fits(
        #[trigger] patched_upto(data, patches, n),
        patches[n],
        0,
    ) by {
        lemma_inside_fits(patched_upto(data, patches, n), patches[n], 0);
    }
}

/// Patch a firmware image for an ordinary title, or for one that boots homebrew.
pub fn patch_firmware(data: &mut Vec<u8>, homebrew: bool) -> (applied: Vec<&'static str>)
    ensures
        ({
            let patches = if homebrew {
                seq![fakesign_a_view(), fakesign_b_view(), ahbprot_view(), memprot_view()]
            } else {
                seq![fakesign_a_view(), fakesign_b_view()]
            };
            &&& final(data)@ == patched_upto(old(data)@, patches, patches.len() as int)
            &&& applied@ == applied_upto(old(data)@, patches, patches.len() as int)
        }),
        final(data)@.len() == old(data)@.len(),
        forall|i: int|
            0 <= i && i + 4 <= old(data)@.len() && (#[trigger] old(data)@.subrange(i, i + 4)
                == seq![0x20u8, 0x07u8, 0x23u8, 0xA2u8] || old(data)@.subrange(i, i + 4)
                == seq![0x20u8, 0x07u8, 0x4Bu8, 0x0Bu8]) ==> final(data)@[i + 1] == 0,
        forall|i: int|
            0 <= i && i + 4 <= old(data)@.len() ==> #[trigger] final(data)@.subrange(i, i + 4)
                != seq![0x20u8, 0x07u8, 0x23u8, 0xA2u8] && final(data)@.subrange(i, i + 4)
                != seq![0x20u8, 0x07u8, 0x4Bu8, 0x0Bu8],
{
    let patches: Vec<BytePatch> = if homebrew {
        homebrew_patches()
    } else {
        fakesign_patches()
    };
    proof {
        lemma_all_fit(data@, patch_list(patches@));
    }
    assert(patches@.len() == patch_list(patches@).len());
    let ghost before = data@;
    let applied: Vec<&'static str> = apply_patches(data, &patches);
    proof {
        let after = data@;
        assert forall|i: int|
            0 <= i && i + 4 <= before.len() && (#[trigger] before.subrange(i, i + 4)
                == seq![0x20u8, 0x07u8, 0x23u8, 0xA2u8] || before.subrange(i, i + 4)
                == seq![0x20u8, 0x07u8, 0x4Bu8, 0x0Bu8]) implies after[i + 1] == 0 by {
            law_signature_checks_are_disabled(before, homebrew, i);
        }
        assert forall|i: int| 0 <= i && i + 4 <= before.len() implies #[trigger] after.subrange(
            i,
            i + 4,
        ) != seq![0x20u8, 0x07u8, 0x23u8, 0xA2u8] && after.subrange(i, i + 4)
            != seq![0x20u8, 0x07u8, 0x4Bu8, 0x0Bu8] by {
            law_no_signature_check_is_left(before, homebrew, i);
        }
    }
    applied
}

proof fn lemma_untouched(data: Seq<u8>, p: PatchView, i: int)
    requires
        0 <= i,
        !found_from(data, p, i),
    ensures
        swept(data, p, i) == data,
    decreases data.len() + 1 - i,
{
    if i + p.find.len() <= data.len() {
        assert(!matches_at(data, p, i));
        assert(!found_from(data, p, i + 1));
        lemma_untouched(data, p, i + 1);
    }
}

/// An image that holds none of the signatures is left byte for byte as it is.
pub proof fn law_absent_signatures_change_nothing(data: Seq<u8>, patches: Seq<PatchView>, n: int)
    requires
        0 <= n <= patches.len(),
        forall|i: int| 0 <= i < patches.len() ==> !found_from(data, #[trigger] patches[i], 0),
    ensures
        patched_upto(data, patches, n) == data,
        applied_upto(data, patches, n) == Seq::<&'static str>::empty(),
    decreases n,
{
    if n > 0 {
        law_absent_signatures_change_nothing(data, patches, n - 1);
        assert(!found_from(data, patches[n - 1], 0));
        lemma_untouched(data, patches[n - 1], 0);
    }
}

/// Whether the first byte of a signature stands nowhere else in it, so that no two matches
/// overlap.
spec fn apart(p: PatchView) -> bool {
    forall|j: int| 0 < j < p.find.len() ==> #[trigger] p.find[j] != p.find[0]
}

/// A patch of one byte that is made everywhere puts it into every match, and changes nothing
/// else.
proof fn lemma_swept_everywhere(data: Seq<u8>, p: PatchView, i: int, k: int)
    requires
        p.all,
        stays_inside(p),
        p.write.len() == 1,
        apart(p),
        0 <= i,
        0 <= k < data.len(),
    ensures
        swept(data, p, i).len() == data.len(),
        swept(data, p, i)[k] == if i <= k - p.at && matches_at(data, p, k - p.at) {
            p.write[0]
        } else {
            data[k]
        },
    decreases data.len() + 1 - i,
{
    if i + p.find.len() <= data.len() {
        if !matches_at(data, p, i) {
            lemma_swept_everywhere(data, p, i + 1, k);
        } else {
            let next = replaced(data, p, i);
            let n = p.find.len() as int;
            assert(next.len() == data.len());
            lemma_swept_everywhere(next, p, i + n, k);
            let j = k - p.at;
            if i + n <= j && j + n <= data.len() {
                assert(next.subrange(j, j + n) =~= data.subrange(j, j + n));
            }
            if i < j < i + n && matches_at(data, p, j) {
                assert(data.subrange(i, i + n)[j - i] == data[j]);
                assert(data.subrange(j, j + n)[0] == data[j]);
                assert(p.find[j - i] == p.find[0]);
            }
        }
    }
}

/// A patch that is made once is made in the first match.
proof fn lemma_swept_once(data: Seq<u8>, p: PatchView, i: int, j: int)
    requires
        !p.all,
        0 <= i <= j,
        matches_at(data, p, j),
        forall|q: int| i <= q < j ==> !matches_at(data, p, q),
    ensures
        swept(data, p, i) == replaced(data, p, j),
    decreases j - i,
{
    if i < j {
        assert(!matches_at(data, p, i));
        lemma_swept_once(data, p, i + 1, j);
    }
}

/// A signature of four bytes, byte for byte.
proof fn lemma_four(data: Seq<u8>, p: PatchView, i: int)
    requires
        p.find.len() == 4,
    ensures
        matches_at(data, p, i) <==> {
            &&& 0 <= i <= data.len() - 4
            &&& data[i] == p.find[0] && data[i + 1] == p.find[1] && data[i + 2] == p.find[2]
            &&& data[i + 3] == p.find[3]
        },
{
    if 0 <= i <= data.len() - 4 {
        let cut = data.subrange(i, i + 4);
        assert(cut[0] == data[i] && cut[1] == data[i + 1] && cut[2] == data[i + 2] && cut[3]
            == data[i + 3]);
        if data[i] == p.find[0] && data[i + 1] == p.find[1] && data[i + 2] == p.find[2] && data[i
            + 3] == p.find[3] {
            assert(cut =~= p.find);
        }
    }
}

/// A signature of eight bytes, byte for byte.
proof fn lemma_eight(data: Seq<u8>, p: PatchView, i: int)
    requires
        p.find.len() == 8,
    ensures
        matches_at(data, p, i) <==> {
            &&& 0 <= i <= data.len() - 8
            &&& data[i] == p.find[0] && data[i + 1] == p.find[1] && data[i + 2] == p.find[2]
            &&& data[i + 3] == p.find[3] && data[i + 4] == p.find[4] && data[i + 5] == p.find[5]
            &&& data[i + 6] == p.find[6] && data[i + 7] == p.find[7]
        },
{
    if 0 <= i <= data.len() - 8 {
        let cut = data.subrange(i, i + 8);
        assert(cut[0] == data[i] && cut[1] == data[i + 1] && cut[2] == data[i + 2] && cut[3]
            == data[i + 3] && cut[4] == data[i + 4] && cut[5] == data[i + 5] && cut[6] == data[i
            + 6] && cut[7] == data[i + 7]);
        if data[i] == p.find[0] && data[i + 1] == p.find[1] && data[i + 2] == p.find[2] && data[i
            + 3] == p.find[3] && data[i + 4] == p.find[4] && data[i + 5] == p.find[5] && data[i
            + 6] == p.find[6] && data[i + 7] == p.find[7] {
            assert(cut =~= p.find);
        }
    }
}

/// Whether `20 07 23 A2` stands at `i`.
spec fn check_a(data: Seq<u8>, i: int) -> bool {
    0 <= i <= data.len() - 4 && data[i] == 0x20 && data[i + 1] == 0x07 && data[i + 2] == 0x23
        && data[i + 3] == 0xA2
}

/// Whether `20 07 4B 0B` stands at `i`.
spec fn check_b(data: Seq<u8>, i: int) -> bool {
    0 <= i <= data.len() - 4 && data[i] == 0x20 && data[i + 1] == 0x07 && data[i + 2] == 0x4B
        && data[i + 3] == 0x0B
}

/// Whether `D0 0B 23 08 43 13 60 0B` stands at `i`.
spec fn guard_ahb(data: Seq<u8>, i: int) -> bool {
    &&& 0 <= i <= data.len() - 8
    &&& data[i] == 0xD0 && data[i + 1] == 0x0B && data[i + 2] == 0x23 && data[i + 3] == 0x08
    &&& data[i + 4] == 0x43 && data[i + 5] == 0x13 && data[i + 6] == 0x60 && data[i + 7] == 0x0B
}

/// Whether `01 94 B5 00 4B 08 22 01` stands at `i`.
spec fn guard_mem(data: Seq<u8>, i: int) -> bool {
    &&& 0 <= i <= data.len() - 8
    &&& data[i] == 0x01 && data[i + 1] == 0x94 && data[i + 2] == 0xB5 && data[i + 3] == 0x00
    &&& data[i + 4] == 0x4B && data[i + 5] == 0x08 && data[i + 6] == 0x22 && data[i + 7] == 0x01
}

proof fn lemma_signatures(data: Seq<u8>, i: int)
    ensures
        matches_at(data, fakesign_a_view(), i) <==> check_a(data, i),
        matches_at(data, fakesign_b_view(), i) <==> check_b(data, i),
        matches_at(data, ahbprot_view(), i) <==> guard_ahb(data, i),
        matches_at(data, memprot_view(), i) <==> guard_mem(data, i),
{
    lemma_four(data, fakesign_a_view(), i);
    lemma_four(data, fakesign_b_view(), i);
    lemma_eight(data, ahbprot_view(), i);
    lemma_eight(data, memprot_view(), i);
}

/// The image without its signature checks: their second bytes are zeroed and the rest stays.
proof fn lemma_checks_cleared(data: Seq<u8>)
    ensures
        ({
            let first = swept(data, fakesign_a_view(), 0);
            let clear = swept(first, fakesign_b_view(), 0);
            &&& first.len() == data.len()
            &&& clear.len() == data.len()
            &&& forall|k: int|
                0 <= k < data.len() ==> #[trigger] clear[k] == if check_a(data, k - 1) || check_b(
                    data,
                    k - 1,
                ) {
                    0
                } else {
                    data[k]
                }
            &&& forall|i: int| #[trigger] check_b(first, i) <==> check_b(data, i)
        }),
{
    let first = swept(data, fakesign_a_view(), 0);
    let clear = swept(first, fakesign_b_view(), 0);
    lemma_inside_fits(data, fakesign_a_view(), 0);
    lemma_inside_fits(first, fakesign_b_view(), 0);
    assert forall|k: int| 0 <= k < data.len() implies #[trigger] first[k] == if check_a(
        data,
        k - 1,
    ) {
        0
    } else {
        data[k]
    } by {
        lemma_swept_everywhere(data, fakesign_a_view(), 0, k);
        lemma_signatures(data, k - 1);
    }
    assert forall|i: int| #[trigger] check_b(first, i) <==> check_b(data, i) by {
        if 0 <= i <= data.len() - 4 {
            assert(first[i] == if check_a(data, i - 1) {
                0
            } else {
                data[i]
            });
            assert(first[i + 1] == if check_a(data, i) {
                0
            } else {
                data[i + 1]
            });
            assert(first[i + 2] == if check_a(data, i + 1) {
                0
            } else {
                data[i + 2]
            });
            assert(first[i + 3] == if check_a(data, i + 2) {
                0
            } else {
                data[i + 3]
            });
        }
    }
    assert forall|k: int| 0 <= k < data.len() implies #[trigger] clear[k] == if check_a(data, k - 1)
        || check_b(data, k - 1) {
        0
    } else {
        data[k]
    } by {
        lemma_swept_everywhere(first, fakesign_b_view(), 0, k);
        lemma_signatures(first, k - 1);
        assert(check_b(first, k - 1) <==> check_b(data, k - 1));
        assert(first[k] == if check_a(data, k - 1) {
            0
        } else {
            data[k]
        });
    }
}

/// Clearing the signature checks neither hides nor makes a signature of the other two patches.
proof fn lemma_guards_survive(data: Seq<u8>, clear: Seq<u8>)
    requires
        clear.len() == data.len(),
        forall|k: int|
            0 <= k < data.len() ==> #[trigger] clear[k] == if check_a(data, k - 1) || check_b(
                data,
                k - 1,
            ) {
                0
            } else {
                data[k]
            },
    ensures
        forall|i: int| #[trigger] guard_ahb(clear, i) <==> guard_ahb(data, i),
        forall|i: int| #[trigger] guard_mem(clear, i) <==> guard_mem(data, i),
{
    assert forall|i: int| #[trigger] guard_ahb(clear, i) <==> guard_ahb(data, i) by {
        if 0 <= i <= data.len() - 8 {
            assert(forall|k: int|
                i <= k < i + 8 && #[trigger] clear[k] != data[k] ==> data[k] == 7 && clear[k] == 0);
            assert(clear[i] == data[i] || data[i] == 7);
            assert(clear[i + 1] == data[i + 1] || data[i + 1] == 7);
            assert(clear[i + 2] == data[i + 2] || data[i + 2] == 7);
            assert(clear[i + 3] == data[i + 3] || data[i + 3] == 7);
            assert(clear[i + 4] == data[i + 4] || data[i + 4] == 7);
            assert(clear[i + 5] == data[i + 5] || data[i + 5] == 7);
            assert(clear[i + 6] == data[i + 6] || data[i + 6] == 7);
            assert(clear[i + 7] == data[i + 7] || data[i + 7] == 7);
        }
    }
    assert forall|i: int| #[trigger] guard_mem(clear, i) <==> guard_mem(data, i) by {
        if 0 <= i <= data.len() - 8 {
            assert(forall|k: int|
                i <= k < i + 8 && #[trigger] clear[k] != data[k] ==> data[k] == 7 && clear[k] == 0);
            assert(clear[i] == data[i] || data[i] == 7);
            assert(clear[i + 1] == data[i + 1] || data[i + 1] == 7);
            assert(clear[i + 2] == data[i + 2] || (data[i + 2] == 7 && clear[i + 2] == 0));
            assert(clear[i + 3] == data[i + 3] || (data[i + 3] == 7 && data[i + 2] == 0x20));
            assert(clear[i + 4] == data[i + 4] || data[i + 4] == 7);
            assert(clear[i + 5] == data[i + 5] || data[i + 5] == 7);
            assert(clear[i + 6] == data[i + 6] || data[i + 6] == 7);
            assert(clear[i + 7] == data[i + 7] || data[i + 7] == 7);
        }
    }
}

/// The patches of a firmware image, in order.
spec fn firmware_patches(homebrew: bool) -> Seq<PatchView> {
    if homebrew {
        seq![fakesign_a_view(), fakesign_b_view(), ahbprot_view(), memprot_view()]
    } else {
        seq![fakesign_a_view(), fakesign_b_view()]
    }
}

proof fn lemma_stages(data: Seq<u8>, homebrew: bool)
    ensures
        ({
            let patches = firmware_patches(homebrew);
            let first = swept(data, fakesign_a_view(), 0);
            let clear = swept(first, fakesign_b_view(), 0);
            let third = swept(clear, ahbprot_view(), 0);
            &&& patched_upto(data, patches, 0) == data
            &&& patched_upto(data, patches, 1) == first
            &&& patched_upto(data, patches, 2) == clear
            &&& homebrew ==> patched_upto(data, patches, 3) == third
            &&& homebrew ==> patched_upto(data, patches, 4) == swept(third, memprot_view(), 0)
        }),
{
    let patches = firmware_patches(homebrew);
    assert(patches[0] == fakesign_a_view());
    assert(patches[1] == fakesign_b_view());
    assert(homebrew ==> patches[2] == ahbprot_view() && patches[3] == memprot_view());
    reveal_with_fuel(patched_upto, 5);
}

/// What patching makes of an image whose first AHBPROT and MEMPROT signatures stand at `a` and
/// `m`; a place before the image stands for a signature that is nowhere in it.
proof fn lemma_patched_image(data: Seq<u8>, homebrew: bool, a: int, m: int, k: int)
    requires
        0 <= k < data.len(),
        a < 0 ==> forall|q: int| !guard_ahb(data, q),
        0 <= a ==> guard_ahb(data, a),
        forall|q: int| 0 <= q < a ==> !guard_ahb(data, q),
        m < 0 ==> forall|q: int| !guard_mem(data, q),
        0 <= m ==> guard_mem(data, m),
        forall|q: int| 0 <= q < m ==> !guard_mem(data, q),
    ensures
        ({
            let patches = firmware_patches(homebrew);
            let after = patched_upto(data, patches, patches.len() as int);
            &&& after.len() == data.len()
            &&& after[k] == if check_a(data, k - 1) || check_b(data, k - 1) {
                0
            } else if homebrew && 0 <= a && k == a {
                0x46
            } else if homebrew && 0 <= a && k == a + 1 {
                0xC0
            } else if homebrew && 0 <= m && k == m + 6 {
                0x22
            } else if homebrew && 0 <= m && k == m + 7 {
                0
            } else {
                data[k]
            }
        }),
{
    let first = swept(data, fakesign_a_view(), 0);
    let clear = swept(first, fakesign_b_view(), 0);
    let third = swept(clear, ahbprot_view(), 0);
    lemma_stages(data, homebrew);
    lemma_checks_cleared(data);
    lemma_guards_survive(data, clear);
    assert forall|q: int| #[trigger] matches_at(clear, ahbprot_view(), q) <==> guard_ahb(
        data,
        q,
    ) by {
        lemma_signatures(clear, q);
        assert(guard_ahb(clear, q) <==> guard_ahb(data, q));
    }
    if 0 <= a {
        lemma_swept_once(clear, ahbprot_view(), 0, a);
    } else {
        assert(!found_from(clear, ahbprot_view(), 0));
        lemma_untouched(clear, ahbprot_view(), 0);
    }
    assert(third.len() == data.len());
    assert(forall|x: int|
        0 <= x < data.len() ==> #[trigger] third[x] == if 0 <= a && x == a {
            0x46
        } else if 0 <= a && x == a + 1 {
            0xC0
        } else {
            clear[x]
        });
    assert forall|q: int| #[trigger] matches_at(third, memprot_view(), q) <==> guard_mem(
        data,
        q,
    ) by {
        lemma_signatures(third, q);
        assert(guard_mem(clear, q) <==> guard_mem(data, q));
        assert(guard_ahb(clear, a) <==> guard_ahb(data, a));
    }
    if 0 <= m {
        lemma_swept_once(third, memprot_view(), 0, m);
    } else {
        assert(!found_from(third, memprot_view(), 0));
        lemma_untouched(third, memprot_view(), 0);
    }
    assert(guard_ahb(clear, a) <==> guard_ahb(data, a));
    assert(guard_mem(clear, m) <==> guard_mem(data, m));
}

proof fn lemma_first_ahb(data: Seq<u8>, i: int) -> (a: int)
    requires
        0 <= i,
    ensures
        a < 0 ==> forall|q: int| i <= q ==> !guard_ahb(data, q),
        0 <= a ==> i <= a && guard_ahb(data, a),
        forall|q: int| i <= q < a ==> !guard_ahb(data, q),
    decreases data.len() - i,
{
    if i >= data.len() {
        -1
    } else if guard_ahb(data, i) {
        i
    } else {
        lemma_first_ahb(data, i + 1)
    }
}

proof fn lemma_first_mem(data: Seq<u8>, i: int) -> (m: int)
    requires
        0 <= i,
    ensures
        m < 0 ==> forall|q: int| i <= q ==> !guard_mem(data, q),
        0 <= m ==> i <= m && guard_mem(data, m),
        forall|q: int| i <= q < m ==> !guard_mem(data, q),
    decreases data.len() - i,
{
    if i >= data.len() {
        -1
    } else if guard_mem(data, i) {
        i
    } else {
        lemma_first_mem(data, i + 1)
    }
}

proof fn lemma_patched_byte(data: Seq<u8>, homebrew: bool, k: int)
    requires
        0 <= k < data.len(),
    ensures
        ({
            let patches = firmware_patches(homebrew);
            let after = patched_upto(data, patches, patches.len() as int);
            &&& after.len() == data.len()
            &&& after[k] == data[k] || after[k] == 0 || after[k] == 0x46 || after[k] == 0xC0
                || after[k] == 0x22
            &&& after[k] != data[k] && !check_a(data, k - 1) && !check_b(data, k - 1) ==> homebrew
                && (guard_ahb(data, k) || guard_ahb(data, k - 1) || guard_mem(data, k - 7))
            &&& check_a(data, k - 1) || check_b(data, k - 1) ==> after[k] == 0
        }),
{
    let a = lemma_first_ahb(data, 0);
    let m = lemma_first_mem(data, 0);
    assert(a < 0 ==> forall|q: int| !guard_ahb(data, q));
    assert(m < 0 ==> forall|q: int| !guard_mem(data, q));
    lemma_patched_image(data, homebrew, a, m, k);
}

/// Every signature check is disabled, wherever in the image it stands and whatever else is
/// patched: the second byte of each `20 07 23 A2` and of each `20 07 4B 0B` becomes 0.
pub proof fn law_signature_checks_are_disabled(data: Seq<u8>, homebrew: bool, i: int)
    requires
        0 <= i,
        i + 4 <= data.len(),
        data.subrange(i, i + 4) == seq![0x20u8, 0x07u8, 0x23u8, 0xA2u8] || data.subrange(i, i + 4)
            == seq![0x20u8, 0x07u8, 0x4Bu8, 0x0Bu8],
    ensures
        ({
            let patches = if homebrew {
                seq![fakesign_a_view(), fakesign_b_view(), ahbprot_view(), memprot_view()]
            } else {
                seq![fakesign_a_view(), fakesign_b_view()]
            };
            let after = patched_upto(data, patches, patches.len() as int);
            after[i + 1] == 0
        }),
{
    let cut = data.subrange(i, i + 4);
    assert(cut[0] == data[i] && cut[1] == data[i + 1] && cut[2] == data[i + 2] && cut[3] == data[i
        + 3]);
    assert(check_a(data, i) || check_b(data, i));
    lemma_patched_byte(data, homebrew, i + 1);
}

/// No signature check is left in a patched image, at no place.
pub proof fn law_no_signature_check_is_left(data: Seq<u8>, homebrew: bool, i: int)
    requires
        0 <= i,
        i + 4 <= data.len(),
    ensures
        ({
            let patches = if homebrew {
                seq![fakesign_a_view(), fakesign_b_view(), ahbprot_view(), memprot_view()]
            } else {
                seq![fakesign_a_view(), fakesign_b_view()]
            };
            let after = patched_upto(data, patches, patches.len() as int);
            &&& after.len() == data.len()
            &&& after.subrange(i, i + 4) != seq![0x20u8, 0x07u8, 0x23u8, 0xA2u8]
            &&& after.subrange(i, i + 4) != seq![0x20u8, 0x07u8, 0x4Bu8, 0x0Bu8]
        }),
{
    let patches = firmware_patches(homebrew);
    let after = patched_upto(data, patches, patches.len() as int);
    let a = lemma_first_ahb(data, 0);
    let m = lemma_first_mem(data, 0);
    assert(a < 0 ==> forall|q: int| !guard_ahb(data, q));
    assert(m < 0 ==> forall|q: int| !guard_mem(data, q));
    lemma_patched_image(data, homebrew, a, m, i);
    lemma_patched_image(data, homebrew, a, m, i + 1);
    lemma_patched_image(data, homebrew, a, m, i + 2);
    lemma_patched_image(data, homebrew, a, m, i + 3);
    let cut = after.subrange(i, i + 4);
    assert(cut[0] == after[i] && cut[1] == after[i + 1] && cut[2] == after[i + 2] && cut[3]
        == after[i + 3]);
}

/// For homebrew the first AHBPROT check, wherever it stands, begins with `46 C0` afterwards and
/// keeps its other bytes.
pub proof fn law_ahbprot_is_disabled(data: Seq<u8>, i: int)
    requires
        0 <= i,
        i + 8 <= data.len(),
        data.subrange(i, i + 8) == seq![
            0xD0u8,
            0x0Bu8,
            0x23u8,
            0x08u8,
            0x43u8,
            0x13u8,
            0x60u8,
            0x0Bu8,
        ],
        forall|q: int|
            0 <= q < i ==> #[trigger] data.subrange(q, q + 8) != seq![
                0xD0u8,
                0x0Bu8,
                0x23u8,
                0x08u8,
                0x43u8,
                0x13u8,
                0x60u8,
                0x0Bu8,
            ],
    ensures
        ({
            let patches = seq![
                fakesign_a_view(),
                fakesign_b_view(),
                ahbprot_view(),
                memprot_view(),
            ];
            let after = patched_upto(data, patches, 4);
            after.subrange(i, i + 8) == seq![
                0x46u8,
                0xC0u8,
                0x23u8,
                0x08u8,
                0x43u8,
                0x13u8,
                0x60u8,
                0x0Bu8,
            ]
        }),
{
    let cut = data.subrange(i, i + 8);
    assert(forall|x: int| 0 <= x < 8 ==> cut[x] == data[i + x]);
    assert(cut[0] == 0xD0 && cut[1] == 0x0B && cut[2] == 0x23 && cut[3] == 0x08 && cut[4] == 0x43
        && cut[5] == 0x13 && cut[6] == 0x60 && cut[7] == 0x0B);
    assert(data[i] == cut[0] && data[i + 1] == cut[1] && data[i + 2] == cut[2] && data[i + 3]
        == cut[3] && data[i + 4] == cut[4] && data[i + 5] == cut[5] && data[i + 6] == cut[6]
        && data[i + 7] == cut[7]);
    assert(guard_ahb(data, i));
    assert forall|q: int| 0 <= q < i implies !guard_ahb(data, q) by {
        if guard_ahb(data, q) {
            assert(data.subrange(q, q + 8) =~= cut);
        }
    }
    let m = lemma_first_mem(data, 0);
    assert(m < 0 ==> forall|q: int| !guard_mem(data, q));
    let after = patched_upto(data, firmware_patches(true), 4);
    lemma_patched_image(data, true, i, m, i);
    lemma_patched_image(data, true, i, m, i + 1);
    lemma_patched_image(data, true, i, m, i + 2);
    lemma_patched_image(data, true, i, m, i + 3);
    lemma_patched_image(data, true, i, m, i + 4);
    lemma_patched_image(data, true, i, m, i + 5);
    lemma_patched_image(data, true, i, m, i + 6);
    lemma_patched_image(data, true, i, m, i + 7);
    assert(after.subrange(i, i + 8) =~= seq![
        0x46u8,
        0xC0u8,
        0x23u8,
        0x08u8,
        0x43u8,
        0x13u8,
        0x60u8,
        0x0Bu8,
    ]);
}

/// For homebrew the first MEMPROT check, wherever it stands, ends with `22 00` afterwards and
/// keeps its other bytes.
pub proof fn law_memprot_is_disabled(data: Seq<u8>, i: int)
    requires
        0 <= i,
        i + 8 <= data.len(),
        data.subrange(i, i + 8) == seq![
            0x01u8,
            0x94u8,
            0xB5u8,
            0x00u8,
            0x4Bu8,
            0x08u8,
            0x22u8,
            0x01u8,
        ],
        forall|q: int|
            0 <= q < i ==> #[trigger] data.subrange(q, q + 8) != seq![
                0x01u8,
                0x94u8,
                0xB5u8,
                0x00u8,
                0x4Bu8,
                0x08u8,
                0x22u8,
                0x01u8,
            ],
    ensures
        ({
            let patches = seq![
                fakesign_a_view(),
                fakesign_b_view(),
                ahbprot_view(),
                memprot_view(),
            ];
            let after = patched_upto(data, patches, 4);
            after.subrange(i, i + 8) == seq![
                0x01u8,
                0x94u8,
                0xB5u8,
                0x00u8,
                0x4Bu8,
                0x08u8,
                0x22u8,
                0x00u8,
            ]
        }),
{
    let cut = data.subrange(i, i + 8);
    assert(forall|x: int| 0 <= x < 8 ==> cut[x] == data[i + x]);
    assert(cut[0] == 0x01 && cut[1] == 0x94 && cut[2] == 0xB5 && cut[3] == 0x00 && cut[4] == 0x4B
        && cut[5] == 0x08 && cut[6] == 0x22 && cut[7] == 0x01);
    assert(data[i] == cut[0] && data[i + 1] == cut[1] && data[i + 2] == cut[2] && data[i + 3]
        == cut[3] && data[i + 4] == cut[4] && data[i + 5] == cut[5] && data[i + 6] == cut[6]
        && data[i + 7] == cut[7]);
    assert(guard_mem(data, i));
    assert forall|q: int| 0 <= q < i implies !guard_mem(data, q) by {
        if guard_mem(data, q) {
            assert(data.subrange(q, q + 8) =~= cut);
        }
    }
    let a = lemma_first_ahb(data, 0);
    assert(a < 0 ==> forall|q: int| !guard_ahb(data, q));
    let after = patched_upto(data, firmware_patches(true), 4);
    lemma_patched_image(data, true, a, i, i);
    lemma_patched_image(data, true, a, i, i + 1);
    lemma_patched_image(data, true, a, i, i + 2);
    lemma_patched_image(data, true, a, i, i + 3);
    lemma_patched_image(data, true, a, i, i + 4);
    lemma_patched_image(data, true, a, i, i + 5);
    lemma_patched_image(data, true, a, i, i + 6);
    lemma_patched_image(data, true, a, i, i + 7);
    assert(after.subrange(i, i + 8) =~= seq![
        0x01u8,
        0x94u8,
        0xB5u8,
        0x00u8,
        0x4Bu8,
        0x08u8,
        0x22u8,
        0x00u8,
    ]);
}

/// Nothing else in the image changes: a byte that does is the second of a signature check, or for
/// homebrew one of the first two of an AHBPROT check or the last of a MEMPROT check.
pub proof fn law_only_signatures_change(data: Seq<u8>, homebrew: bool, k: int)
    requires
        0 <= k < data.len(),
    ensures
        ({
            let patches = if homebrew {
                seq![fakesign_a_view(), fakesign_b_view(), ahbprot_view(), memprot_view()]
            } else {
                seq![fakesign_a_view(), fakesign_b_view()]
            };
            let after = patched_upto(data, patches, patches.len() as int);
            &&& after.len() == data.len()
            &&& after[k] != data[k] ==> {
                ||| 1 <= k <= data.len() - 3 && data.subrange(k - 1, k + 1) == seq![0x20u8, 0x07u8]
                    && (data.subrange(k + 1, k + 3) == seq![0x23u8, 0xA2u8] || data.subrange(
                    k + 1,
                    k + 3,
                ) == seq![0x4Bu8, 0x0Bu8])
                ||| homebrew && k <= data.len() - 8 && data[k] == 0xD0 && after[k] == 0x46
                ||| homebrew && 1 <= k && data[k - 1] == 0xD0 && data[k] == 0x0B && after[k] == 0xC0
                ||| homebrew && 7 <= k && data[k - 1] == 0x22 && data[k] == 0x01 && after[k] == 0
            }
        }),
{
    let patches = firmware_patches(homebrew);
    let after = patched_upto(data, patches, patches.len() as int);
    let a = lemma_first_ahb(data, 0);
    let m = lemma_first_mem(data, 0);
    assert(a < 0 ==> forall|q: int| !guard_ahb(data, q));
    assert(m < 0 ==> forall|q: int| !guard_mem(data, q));
    lemma_patched_image(data, homebrew, a, m, k);
    if check_a(data, k - 1) || check_b(data, k - 1) {
        assert(data.subrange(k - 1, k + 1) =~= seq![0x20u8, 0x07u8]);
        if check_a(data, k - 1) {
            assert(data.subrange(k + 1, k + 3) =~= seq![0x23u8, 0xA2u8]);
        } else {
            assert(data.subrange(k + 1, k + 3) =~= seq![0x4Bu8, 0x0Bu8]);
        }
    }
}

proof fn lemma_subrange_four(data: Seq<u8>, i: int)
    requires
        0 <= i,
        i + 4 <= data.len(),
    ensures
        check_a(data, i) <==> data.subrange(i, i + 4) == seq![0x20u8, 0x07u8, 0x23u8, 0xA2u8],
        check_b(data, i) <==> data.subrange(i, i + 4) == seq![0x20u8, 0x07u8, 0x4Bu8, 0x0Bu8],
{
    lemma_signatures(data, i);
}

proof fn lemma_subrange_eight(data: Seq<u8>, i: int)
    requires
        0 <= i,
        i + 8 <= data.len(),
    ensures
        guard_ahb(data, i) <==> data.subrange(i, i + 8) == seq![
            0xD0u8,
            0x0Bu8,
            0x23u8,
            0x08u8,
            0x43u8,
            0x13u8,
            0x60u8,
            0x0Bu8,
        ],
        guard_mem(data, i) <==> data.subrange(i, i + 8) == seq![
            0x01u8,
            0x94u8,
            0xB5u8,
            0x00u8,
            0x4Bu8,
            0x08u8,
            0x22u8,
            0x01u8,
        ],
{
    lemma_signatures(data, i);
}

/// The patches that are reported, in order, are those whose signature stands somewhere in the
/// image that was given; those for homebrew only where it is asked for.
pub proof fn law_patches_are_reported(data: Seq<u8>, homebrew: bool)
    ensures
        ({
            let patches = if homebrew {
                seq![fakesign_a_view(), fakesign_b_view(), ahbprot_view(), memprot_view()]
            } else {
                seq![fakesign_a_view(), fakesign_b_view()]
            };
            let a = exists|i: int|
                0 <= i && i + 4 <= data.len() && #[trigger] data.subrange(i, i + 4) == seq![0x20u8, 0x07u8, 0x23u8, 0xA2u8];
            let b = exists|i: int|
                0 <= i && i + 4 <= data.len() && #[trigger] data.subrange(i, i + 4) == seq![0x20u8, 0x07u8, 0x4Bu8, 0x0Bu8];
            let ahb = exists|i: int|
                0 <= i && i + 8 <= data.len() && #[trigger] data.subrange(i, i + 8) == seq![
                    0xD0u8,
                    0x0Bu8,
                    0x23u8,
                    0x08u8,
                    0x43u8,
                    0x13u8,
                    0x60u8,
                    0x0Bu8,
                ];
            let mem = exists|i: int|
                0 <= i && i + 8 <= data.len() && #[trigger] data.subrange(i, i + 8) == seq![
                    0x01u8,
                    0x94u8,
                    0xB5u8,
                    0x00u8,
                    0x4Bu8,
                    0x08u8,
                    0x22u8,
                    0x01u8,
                ];
            applied_upto(data, patches, patches.len() as int) == (if a {
                seq!["fakesign"]
            } else {
                seq![]
            }) + (if b {
                seq!["fakesign(alt)"]
            } else {
                seq![]
            }) + (if homebrew && ahb {
                seq!["AHBPROT-disable"]
            } else {
                seq![]
            }) + (if homebrew && mem {
                seq!["MEMPROT-disable"]
            } else {
                seq![]
            })
        }),
{
    let patches = firmware_patches(homebrew);
    let first = swept(data, fakesign_a_view(), 0);
    let clear = swept(first, fakesign_b_view(), 0);
    let third = swept(clear, ahbprot_view(), 0);
    lemma_stages(data, homebrew);
    lemma_checks_cleared(data);
    lemma_guards_survive(data, clear);
    let f = lemma_first_ahb(data, 0);
    assert(f < 0 ==> forall|q: int| !guard_ahb(data, q));
    assert forall|q: int| #[trigger] matches_at(clear, ahbprot_view(), q) <==> guard_ahb(
        data,
        q,
    ) by {
        lemma_signatures(clear, q);
        assert(guard_ahb(clear, q) <==> guard_ahb(data, q));
    }
    if 0 <= f {
        lemma_swept_once(clear, ahbprot_view(), 0, f);
    } else {
        assert(!found_from(clear, ahbprot_view(), 0));
        lemma_untouched(clear, ahbprot_view(), 0);
    }
    let a = exists|i: int|
        0 <= i && i + 4 <= data.len() && #[trigger] data.subrange(i, i + 4) == seq![0x20u8, 0x07u8, 0x23u8, 0xA2u8];
    let b = exists|i: int|
        0 <= i && i + 4 <= data.len() && #[trigger] data.subrange(i, i + 4) == seq![0x20u8, 0x07u8, 0x4Bu8, 0x0Bu8];
    let ahb = exists|i: int|
        0 <= i && i + 8 <= data.len() && #[trigger] data.subrange(i, i + 8) == seq![
            0xD0u8,
            0x0Bu8,
            0x23u8,
            0x08u8,
            0x43u8,
            0x13u8,
            0x60u8,
            0x0Bu8,
        ];
    let mem = exists|i: int|
        0 <= i && i + 8 <= data.len() && #[trigger] data.subrange(i, i + 8) == seq![
            0x01u8,
            0x94u8,
            0xB5u8,
            0x00u8,
            0x4Bu8,
            0x08u8,
            0x22u8,
            0x01u8,
        ];
    assert(found_from(data, fakesign_a_view(), 0) == a) by {
        assert forall|i: int| #[trigger] matches_at(data, fakesign_a_view(), i) implies a by {
            assert(data.subrange(i, i + 4) == seq![0x20u8, 0x07u8, 0x23u8, 0xA2u8]);
        }
        if a {
            let i = choose|i: int|
                0 <= i && i + 4 <= data.len() && #[trigger] data.subrange(i, i + 4) == seq![0x20u8, 0x07u8, 0x23u8, 0xA2u8];
            assert(matches_at(data, fakesign_a_view(), i));
        }
    }
    assert(found_from(first, fakesign_b_view(), 0) == b) by {
        assert forall|i: int| #[trigger] matches_at(first, fakesign_b_view(), i) implies b by {
            lemma_signatures(first, i);
            assert(check_b(first, i) <==> check_b(data, i));
            lemma_subrange_four(data, i);
        }
        if b {
            let i = choose|i: int|
                0 <= i && i + 4 <= data.len() && #[trigger] data.subrange(i, i + 4) == seq![0x20u8, 0x07u8, 0x4Bu8, 0x0Bu8];
            lemma_subrange_four(data, i);
            lemma_signatures(first, i);
            assert(check_b(first, i) <==> check_b(data, i));
            assert(matches_at(first, fakesign_b_view(), i));
        }
    }
    assert(found_from(clear, ahbprot_view(), 0) == ahb) by {
        assert forall|i: int| #[trigger] matches_at(clear, ahbprot_view(), i) implies ahb by {
            lemma_subrange_eight(data, i);
        }
        if ahb {
            let i = choose|i: int|
                0 <= i && i + 8 <= data.len() && #[trigger] data.subrange(i, i + 8) == seq![
                    0xD0u8,
                    0x0Bu8,
                    0x23u8,
                    0x08u8,
                    0x43u8,
                    0x13u8,
                    0x60u8,
                    0x0Bu8,
                ];
            lemma_subrange_eight(data, i);
            assert(matches_at(clear, ahbprot_view(), i));
        }
    }
    assert(found_from(third, memprot_view(), 0) == mem) by {
        assert forall|q: int| #[trigger] matches_at(third, memprot_view(), q) <==> guard_mem(
            data,
            q,
        ) by {
            lemma_signatures(third, q);
            assert(guard_mem(clear, q) <==> guard_mem(data, q));
            assert(guard_ahb(clear, f) <==> guard_ahb(data, f));
        }
        assert forall|i: int| #[trigger] matches_at(third, memprot_view(), i) implies mem by {
            lemma_subrange_eight(data, i);
        }
        if mem {
            let i = choose|i: int|
                0 <= i && i + 8 <= data.len() && #[trigger] data.subrange(i, i + 8) == seq![
                    0x01u8,
                    0x94u8,
                    0xB5u8,
                    0x00u8,
                    0x4Bu8,
                    0x08u8,
                    0x22u8,
                    0x01u8,
                ];
            lemma_subrange_eight(data, i);
            assert(matches_at(third, memprot_view(), i));
        }
    }
    assert(patches[0] == fakesign_a_view());
    assert(patches[1] == fakesign_b_view());
    assert(homebrew ==> patches[2] == ahbprot_view() && patches[3] == memprot_view());
    reveal_with_fuel(applied_upto, 5);
    let n0 = applied_upto(data, patches, 0);
    let n1 = applied_upto(data, patches, 1);
    let n2 = applied_upto(data, patches, 2);
    assert(n1 =~= if a {
        seq!["fakesign"]
    } else {
        seq![]
    });
    assert(n2 =~= n1 + if b {
        seq!["fakesign(alt)"]
    } else {
        seq![]
    });
    if homebrew {
        let n3 = applied_upto(data, patches, 3);
        let n4 = applied_upto(data, patches, 4);
        assert(n3 =~= n2 + if ahb {
            seq!["AHBPROT-disable"]
        } else {
            seq![]
        });
        assert(n4 =~= n3 + if mem {
            seq!["MEMPROT-disable"]
        } else {
            seq![]
        });
    } else {
        assert(n2 + Seq::<&'static str>::empty() + Seq::<&'static str>::empty() =~= n2);
    }
}

/// A patch that is made once is made in the first place where its signature stands, and nowhere
/// else.
pub proof fn law_patch_is_made_once(data: Seq<u8>, p: PatchView, j: int)
    requires
        !p.all,
        0 <= p.at,
        0 <= j,
        j + p.find.len() <= data.len(),
        j + p.at + p.write.len() <= data.len(),
        data.subrange(j, j + p.find.len()) == p.find,
        forall|q: int| 0 <= q < j ==> #[trigger] data.subrange(q, q + p.find.len()) != p.find,
    ensures
        swept(data, p, 0).len() == data.len(),
        forall|k: int|
            0 <= k < data.len() ==> #[trigger] swept(data, p, 0)[k] == if j + p.at <= k < j + p.at
                + p.write.len() {
                p.write[k - j - p.at]
            } else {
                data[k]
            },
{
    assert forall|q: int| 0 <= q < j implies !matches_at(data, p, q) by {
        assert(data.subrange(q, q + p.find.len()) != p.find);
    }
    lemma_swept_once(data, p, 0, j);
}

/// A patch that is made everywhere is made in every place where its signature stands, provided
/// that the places do not overlap: the first byte of the signature is not repeated in it.
pub proof fn law_patch_is_made_everywhere(data: Seq<u8>, p: PatchView, j: int, x: int)
    requires
        p.all,
        0 < p.find.len(),
        0 <= p.at,
        p.at + p.write.len() <= p.find.len(),
        forall|y: int| 0 < y < p.find.len() ==> #[trigger] p.find[y] != p.find[0],
        0 <= j,
        j + p.find.len() <= data.len(),
        data.subrange(j, j + p.find.len()) == p.find,
        0 <= x < p.write.len(),
    ensures
        swept(data, p, 0).len() == data.len(),
        swept(data, p, 0)[j + p.at + x] == p.write[x],
{
    lemma_inside_fits(data, p, 0);
    lemma_swept_hit(data, p, 0, j, x);
}

proof fn lemma_swept_hit(data: Seq<u8>, p: PatchView, i: int, j: int, x: int)
    requires
        p.all,
        stays_inside(p),
        apart(p),
        0 <= i <= j,
        matches_at(data, p, j),
        0 <= x < p.write.len(),
    ensures
        swept(data, p, i)[j + p.at + x] == p.write[x],
    decreases data.len() + 1 - i,
{
    let n = p.find.len() as int;
    if !matches_at(data, p, i) {
        lemma_swept_hit(data, p, i + 1, j, x);
    } else {
        let next = replaced(data, p, i);
        assert(next.len() == data.len());
        if i < j < i + n {
            assert(data.subrange(i, i + n)[j - i] == data[j]);
            assert(data.subrange(j, j + n)[0] == data[j]);
            assert(p.find[j - i] == p.find[0]);
        } else if i + n <= j {
            assert(next.subrange(j, j + n) =~= data.subrange(j, j + n));
            lemma_swept_hit(next, p, i + n, j, x);
        } else {
            lemma_swept_front(next, p, i + n, i + p.at + x);
        }
    }
}

/// What stands before the place where the search goes on stays.
proof fn lemma_swept_front(data: Seq<u8>, p: PatchView, i: int, k: int)
    requires
        stays_inside(p),
        0 <= k < i,
        k < data.len(),
    ensures
        swept(data, p, i)[k] == data[k],
    decreases data.len() + 1 - i,
{
    if i + p.find.len() <= data.len() {
        if !matches_at(data, p, i) {
            lemma_swept_front(data, p, i + 1, k);
        } else if p.all {
            lemma_swept_front(replaced(data, p, i), p, i + p.find.len(), k);
        }
    }
}

/// A byte that lies in no place where the signature stands is left as it is.
pub proof fn law_patch_leaves_the_rest(data: Seq<u8>, p: PatchView, k: int)
    requires
        0 < p.find.len(),
        0 <= p.at,
        p.at + p.write.len() <= p.find.len(),
        0 <= k < data.len(),
        forall|q: int|
            k - p.find.len() < q <= k && 0 <= q <= data.len() - p.find.len()
                ==> #[trigger] data.subrange(q, q + p.find.len()) != p.find,
    ensures
        swept(data, p, 0)[k] == data[k],
{
    assert forall|q: int| k - p.find.len() < q <= k implies !matches_at(data, p, q) by {
        if 0 <= q <= data.len() - p.find.len() {
            assert(data.subrange(q, q + p.find.len()) != p.find);
        }
    }
    lemma_swept_miss(data, p, 0, k);
}

proof fn lemma_swept_miss(data: Seq<u8>, p: PatchView, i: int, k: int)
    requires
        stays_inside(p),
        0 <= i,
        0 <= k < data.len(),
        forall|q: int| i <= q && k - p.find.len() < q <= k ==> !matches_at(data, p, q),
    ensures
        swept(data, p, i)[k] == data[k],
    decreases data.len() + 1 - i,
{
    if i + p.find.len() <= data.len() {
        let n = p.find.len() as int;
        if !matches_at(data, p, i) {
            lemma_swept_miss(data, p, i + 1, k);
        } else {
            let next = replaced(data, p, i);
            assert(next.len() == data.len());
            assert(next[k] == data[k]);
            if p.all {
                assert forall|q: int| i + n <= q && k - n < q <= k implies !matches_at(
                    next,
                    p,
                    q,
                ) by {
                    if matches_at(next, p, q) {
                        assert(next.subrange(q, q + n) =~= data.subrange(q, q + n));
                        assert(matches_at(data, p, q));
                    }
                }
                lemma_swept_miss(next, p, i + n, k);
            }
        }
    }
}

/// The next patch is made in what the patches before it left, and reported exactly when its
/// signature stands there.
pub proof fn law_patches_follow_one_another(data: Seq<u8>, patches: Seq<PatchView>, n: int)
    requires
        0 <= n < patches.len(),
    ensures
        patched_upto(data, patches, 0) == data,
        patched_upto(data, patches, n + 1) == swept(
            patched_upto(data, patches, n),
            patches[n],
            0,
        ),
        ({
            let now = patched_upto(data, patches, n);
            let p = patches[n];
            applied_upto(data, patches, n + 1) == if exists|i: int|
                0 <= i && i + p.find.len() <= now.len() && #[trigger] now.subrange(
                    i,
                    i + p.find.len(),
                ) == p.find {
                applied_upto(data, patches, n).push(p.name)
            } else {
                applied_upto(data, patches, n)
            }
        }),
{
    let now = patched_upto(data, patches, n);
    let p = patches[n];
    if found_from(now, p, 0) {
        let i = choose|i: int| 0 <= i && matches_at(now, p, i);
        assert(now.subrange(i, i + p.find.len()) == p.find);
    }
    if exists|i: int|
        0 <= i && i + p.find.len() <= now.len() && #[trigger] now.subrange(i, i + p.find.len())
            == p.find {
        let i = choose|i: int|
            0 <= i && i + p.find.len() <= now.len() && #[trigger] now.subrange(i, i + p.find.len())
                == p.find;
        assert(matches_at(now, p, i));
    }
}

} // verus!

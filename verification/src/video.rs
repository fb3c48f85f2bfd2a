//! Optional video patches of a game's `main.dol`.
//!
//! The flicker filter and dithering are set up by the game's own code, so they are removed by
//! finding known routines in `main.dol` and replacing a few of their bytes.

use vstd::prelude::*;

use crate::util::copy_range;

verus! {

/// Which video patches to apply.
#[derive(Clone, Copy, Debug, PartialEq, Eq, Structural)]
pub struct VideoPatches {
    /// Remove the vertical flicker filter.
    pub deflicker: bool,
    /// Halve the vertical filter instead of removing it.
    pub half_vfilter: bool,
    /// Remove dithering.
    pub dithering: bool,
}

impl Default for VideoPatches {
    fn default() -> (r: Self)
        ensures
            r == (VideoPatches { deflicker: false, half_vfilter: false, dithering: false }),
    {
        VideoPatches { deflicker: false, half_vfilter: false, dithering: false }
    }
}

impl VideoPatches {
    /// Whether any patch is asked for.
    pub fn any(&self) -> (r: bool)
        ensures
            r == (self.deflicker || self.half_vfilter || self.dithering),
    {
        self.deflicker || self.half_vfilter || self.dithering
    }
}

/// The routine that sets up the copy filter. Its last instruction, a conditional branch past the
/// setup, becomes an unconditional one.
pub const DEFLICKER_PATTERN: [u8; 356] = [
    0x2C, 0x03, 0x00, 0x00, 0x41, 0x82, 0x00, 0xF8, 0x89, 0x04, 0x00, 0x00,
    0x38, 0x00, 0x00, 0x00, 0x89, 0x44, 0x00, 0x01, 0x38, 0x60, 0x00, 0x00,
    0x51, 0x00, 0x07, 0x3E, 0x88, 0xE4, 0x00, 0x06, 0x51, 0x40, 0x26, 0x36,
    0x89, 0x04, 0x00, 0x0C, 0x50, 0xE3, 0x07, 0x3E, 0x38, 0xE0, 0x00, 0x00,
    0x51, 0x07, 0x07, 0x3E, 0x89, 0x44, 0x00, 0x0D, 0x89, 0x64, 0x00, 0x07,
    0x39, 0x00, 0x00, 0x00, 0x51, 0x47, 0x26, 0x36, 0x89, 0x44, 0x00, 0x02,
    0x89, 0x24, 0x00, 0x12, 0x51, 0x63, 0x26, 0x36, 0x51, 0x40, 0x45, 0x2E,
    0x89, 0x44, 0x00, 0x0E, 0x51, 0x28, 0x07, 0x3E, 0x89, 0x24, 0x00, 0x13,
    0x51, 0x47, 0x45, 0x2E, 0x89, 0x44, 0x00, 0x03, 0x51, 0x28, 0x26, 0x36,
    0x89, 0x24, 0x00, 0x14, 0x51, 0x40, 0x64, 0x26, 0x89, 0x44, 0x00, 0x0F,
    0x51, 0x28, 0x45, 0x2E, 0x89, 0x24, 0x00, 0x15, 0x51, 0x47, 0x64, 0x26,
    0x89, 0x44, 0x00, 0x04, 0x89, 0x64, 0x00, 0x08, 0x51, 0x28, 0x64, 0x26,
    0x51, 0x40, 0x83, 0x1E, 0x89, 0x44, 0x00, 0x10, 0x89, 0x24, 0x00, 0x16,
    0x51, 0x63, 0x45, 0x2E, 0x89, 0x64, 0x00, 0x09, 0x51, 0x47, 0x83, 0x1E,
    0x89, 0x44, 0x00, 0x05, 0x51, 0x28, 0x83, 0x1E, 0x89, 0x24, 0x00, 0x11,
    0x51, 0x63, 0x64, 0x26, 0x89, 0x64, 0x00, 0x0A, 0x51, 0x40, 0xA2, 0x16,
    0x89, 0x44, 0x00, 0x0B, 0x51, 0x27, 0xA2, 0x16, 0x88, 0x84, 0x00, 0x17,
    0x39, 0x20, 0x00, 0x01, 0x51, 0x63, 0x83, 0x1E, 0x51, 0x43, 0xA2, 0x16,
    0x50, 0x88, 0xA2, 0x16, 0x51, 0x20, 0xC0, 0x0E, 0x39, 0x40, 0x00, 0x02,
    0x39, 0x20, 0x00, 0x03, 0x38, 0x80, 0x00, 0x04, 0x51, 0x43, 0xC0, 0x0E,
    0x51, 0x27, 0xC0, 0x0E, 0x50, 0x88, 0xC0, 0x0E, 0x48, 0x00, 0x00, 0x24,
    0x3D, 0x00, 0x01, 0x66, 0x3C, 0x60, 0x02, 0x66, 0x3C, 0xE0, 0x03, 0x66,
    0x3C, 0x80, 0x04, 0x66, 0x38, 0x08, 0x66, 0x66, 0x38, 0x63, 0x66, 0x66,
    0x38, 0xE7, 0x66, 0x66, 0x39, 0x04, 0x66, 0x66, 0x3D, 0x20, 0xCC, 0x01,
    0x39, 0x40, 0x00, 0x61, 0x99, 0x49, 0x80, 0x00, 0x2C, 0x05, 0x00, 0x00,
    0x38, 0x80, 0x00, 0x53, 0x39, 0x60, 0x00, 0x00, 0x90, 0x09, 0x80, 0x00,
    0x38, 0x00, 0x00, 0x54, 0x39, 0x80, 0x00, 0x00, 0x50, 0x8B, 0xC0, 0x0E,
    0x99, 0x49, 0x80, 0x00, 0x50, 0x0C, 0xC0, 0x0E, 0x90, 0x69, 0x80, 0x00,
    0x99, 0x49, 0x80, 0x00, 0x90, 0xE9, 0x80, 0x00, 0x99, 0x49, 0x80, 0x00,
    0x91, 0x09, 0x80, 0x00, 0x41, 0x82, 0x00, 0x40,
];

/// Replaces the last four bytes of [`DEFLICKER_PATTERN`].
pub const DEFLICKER_REPLACEMENT: [u8; 4] = [0x48, 0x00, 0x00, 0x40];

/// The routine that sets up dithering.
pub const DITHERING_PATTERN: [u8; 40] = [
    0x3C, 0x80, 0xCC, 0x01, 0x38, 0xA0, 0x00, 0x61, 0x38, 0x00, 0x00, 0x00,
    0x80, 0xC7, 0x02, 0x20, 0x50, 0x66, 0x17, 0x7A, 0x98, 0xA4, 0x80, 0x00,
    0x90, 0xC4, 0x80, 0x00, 0x90, 0xC7, 0x02, 0x20, 0xB0, 0x07, 0x00, 0x02,
    0x4E, 0x80, 0x00, 0x20,
];

/// Written over the four bytes before [`DITHERING_PATTERN`].
pub const DITHERING_REPLACEMENT: [u8; 4] = [0x48, 0x00, 0x00, 0x28];

/// The coefficients of the vertical filter.
pub const HALF_VFILTER_PATTERN: [u8; 7] = [0x08, 0x08, 0x0A, 0x0C, 0x0A, 0x08, 0x08];

/// Softer coefficients.
pub const HALF_VFILTER_REPLACEMENT: [u8; 7] = [0x04, 0x04, 0x10, 0x10, 0x10, 0x04, 0x04];

/// An edit within `main.dol`.
#[derive(Clone, Debug, PartialEq, Eq)]
pub struct DolEdit {
    /// Where `bytes` are written.
    pub offset: usize,
    /// Replacement bytes.
    pub bytes: Vec<u8>,
    /// Name of the patch.
    pub label: &'static str,
}

/// An edit as a mathematical value.
#[verifier::ext_equal]
pub struct EditView {
    pub offset: int,
    pub bytes: Seq<u8>,
    pub label: Seq<char>,
}

impl View for DolEdit {
    type V = EditView;

    open spec fn view(&self) -> EditView {
        EditView { offset: self.offset as int, bytes: self.bytes@, label: self.label@ }
    }
}

/// The views of a list of edits.
pub open spec fn edit_views(edits: Seq<DolEdit>) -> Seq<EditView> {
    Seq::new(edits.len(), |i: int| edits[i]@)
}

/// The first position from `from` on where `needle` stands in `haystack`.
pub open spec fn found_from(haystack: Seq<u8>, needle: Seq<u8>, from: int) -> Option<int>
    decreases haystack.len() - from,
{
    if needle.len() == 0 || from + needle.len() > haystack.len() {
        None
    } else if haystack.subrange(from, from + needle.len()) == needle {
        Some(from)
    } else {
        found_from(haystack, needle, from + 1)
    }
}

/// The edit of the first copy filter routine.
pub open spec fn deflicker_edits(dol: Seq<u8>) -> Seq<EditView> {
    match found_from(dol, DEFLICKER_PATTERN@, 0) {
        Some(pos) => seq![
            EditView {
                offset: pos + 352,
                bytes: DEFLICKER_REPLACEMENT@,
                label: "deflicker"@,
            },
        ],
        None => Seq::empty(),
    }
}

/// The edit before the first dithering routine, which is looked for from 8 on.
pub open spec fn dithering_edits(dol: Seq<u8>) -> Seq<EditView> {
    match found_from(dol, DITHERING_PATTERN@, 8) {
        Some(pos) => seq![
            EditView { offset: pos - 4, bytes: DITHERING_REPLACEMENT@, label: "dithering"@ },
        ],
        None => Seq::empty(),
    }
}

/// The edits of all filter coefficients from `from` on that do not overlap.
pub open spec fn vfilter_edits(dol: Seq<u8>, from: int) -> Seq<EditView>
    decreases dol.len() - from,
{
    match found_from(dol, HALF_VFILTER_PATTERN@, from) {
        Some(pos) => if from <= pos && pos + 7 <= dol.len() {
            seq![
                EditView {
                    offset: pos,
                    bytes: HALF_VFILTER_REPLACEMENT@,
                    label: "half-vfilter"@,
                },
            ] + vfilter_edits(dol, pos + 7)
        } else {
            Seq::empty()
        },
        None => Seq::empty(),
    }
}

/// All edits that the patches ask for.
pub open spec fn dol_edits(dol: Seq<u8>, patches: VideoPatches) -> Seq<EditView> {
    (if patches.deflicker {
        deflicker_edits(dol)
    } else {
        Seq::empty()
    }) + (if patches.dithering {
        dithering_edits(dol)
    } else {
        Seq::empty()
    }) + (if patches.half_vfilter {
        vfilter_edits(dol, 0)
    } else {
        Seq::empty()
    })
}

/// What is found lies inside the haystack.
pub proof fn lemma_found(haystack: Seq<u8>, needle: Seq<u8>, from: int)
    requires
        0 <= from,
    ensures
        found_from(haystack, needle, from) matches Some(pos) ==> {
            &&& from <= pos
            &&& pos + needle.len() <= haystack.len()
            &&& haystack.subrange(pos, pos + needle.len()) == needle
        },
    decreases haystack.len() - from,
{
    if needle.len() > 0 && from + needle.len() <= haystack.len() && haystack.subrange(
        from,
        from + needle.len(),
    ) != needle {
        lemma_found(haystack, needle, from + 1);
    }
}

/// The first position from `from` on where `needle` stands in `haystack`.
fn find_from(haystack: &[u8], needle: &[u8], from: usize) -> (r: Option<usize>)
    ensures
        match r {
            Some(pos) => found_from(haystack@, needle@, from as int) == Some(pos as int) && from
                <= pos && pos + needle@.len() <= haystack@.len(),
            None => found_from(haystack@, needle@, from as int) is None,
        },
{
    if needle.len() == 0 || haystack.len() < needle.len() {
        return None;
    }
    let last: usize = haystack.len() - needle.len();
    let mut i: usize = from;
    while i <= last
        invariant
            from <= i,
            needle@.len() > 0,
            last + needle@.len() == haystack@.len(),
            haystack@.len() <= usize::MAX,
            found_from(haystack@, needle@, from as int) == found_from(
                haystack@,
                needle@,
                i as int,
            ),
        decreases haystack@.len() - i,
    {
        if stands_at(haystack, needle, i) {
            return Some(i);
        }
        i += 1;
    }
    None
}

/// Whether `needle` stands in `haystack` at `at`.
fn stands_at(haystack: &[u8], needle: &[u8], at: usize) -> (r: bool)
    requires
        at + needle@.len() <= haystack@.len(),
    ensures
        r == (haystack@.subrange(at as int, at + needle@.len()) == needle@),
{
    assert(haystack.len() == haystack@.len());
    let ghost cut = haystack@.subrange(at as int, at + needle@.len());
    let mut j: usize = 0;
    while j < needle.len()
        invariant
            j <= needle@.len(),
            at + needle@.len() <= haystack@.len() <= usize::MAX,
            cut == haystack@.subrange(at as int, at + needle@.len()),
            forall|k: int| 0 <= k < j ==> cut[k] == needle@[k],
        decreases needle@.len() - j,
    {
        if haystack[at + j] != needle[j] {
            assert(cut[j as int] != needle@[j as int]);
            return false;
        }
        j += 1;
    }
    assert(cut =~= needle@);
    true
}

/// The edits that the patches make to `dol`: the flicker filter and dithering routines where
/// they are first found, the filter coefficients everywhere. A patch whose pattern is missing
/// makes none.
pub fn find_dol_edits(dol: &[u8], patches: &VideoPatches) -> (edits: Vec<DolEdit>)
    ensures
        edit_views(edits@) == dol_edits(dol@, *patches),
{
    let mut edits: Vec<DolEdit> = Vec::new();
    if patches.deflicker {
        if let Some(pos) = find_from(dol, DEFLICKER_PATTERN.as_slice(), 0) {
            assert(dol.len() == dol@.len());
            edits.push(
                DolEdit {
                    offset: pos + 352,
                    bytes: copy_range(DEFLICKER_REPLACEMENT.as_slice(), 0, 4),
                    label: "deflicker",
                },
            );
            assert(edits@[0]@.bytes =~= DEFLICKER_REPLACEMENT@);
        }
    }
    assert(edit_views(edits@) =~= if patches.deflicker {
        deflicker_edits(dol@)
    } else {
        Seq::empty()
    });
    let ghost part1 = edit_views(edits@);
    if patches.dithering {
        let ghost before = edits@;
        if let Some(pos) = find_from(dol, DITHERING_PATTERN.as_slice(), 8) {
            edits.push(
                DolEdit {
                    offset: pos - 4,
                    bytes: copy_range(DITHERING_REPLACEMENT.as_slice(), 0, 4),
                    label: "dithering",
                },
            );
            assert(edits@.last()@.bytes =~= DITHERING_REPLACEMENT@);
        }
        assert(edit_views(edits@) =~= part1 + dithering_edits(dol@));
    }
    let ghost part2 = edit_views(edits@);
    assert(part2 =~= part1 + if patches.dithering {
        dithering_edits(dol@)
    } else {
        Seq::empty()
    });
    if patches.half_vfilter {
        let mut from: usize = 0;
        let mut more: bool = true;
        assert(part2 + vfilter_edits(dol@, 0) =~= edit_views(edits@) + vfilter_edits(dol@, 0));
        while more
            invariant
                from <= dol@.len(),
                more ==> part2 + vfilter_edits(dol@, 0) == edit_views(edits@) + vfilter_edits(
                    dol@,
                    from as int,
                ),
                !more ==> part2 + vfilter_edits(dol@, 0) == edit_views(edits@),
            decreases dol@.len() - from + (if more {
                1int
            } else {
                0
            }),
        {
            let ghost before = edit_views(edits@);
            let ghost start = from;
            match find_from(dol, HALF_VFILTER_PATTERN.as_slice(), from) {
                Some(pos) => {
                    assert(dol.len() == dol@.len());
                    edits.push(
                        DolEdit {
                            offset: pos,
                            bytes: copy_range(HALF_VFILTER_REPLACEMENT.as_slice(), 0, 7),
                            label: "half-vfilter",
                        },
                    );
                    from = pos + 7;
                    proof {
                        let new = edits@.last()@;
                        assert(new.bytes =~= HALF_VFILTER_REPLACEMENT@);
                        assert(edit_views(edits@) =~= before + seq![new]);
                        assert(edit_views(edits@) + vfilter_edits(dol@, from as int) =~= before
                            + vfilter_edits(dol@, start as int));
                    }
                },
                None => {
                    more = false;
                    assert(before + vfilter_edits(dol@, start as int) =~= before);
                },
            }
        }
    }
    assert(edit_views(edits@) =~= dol_edits(dol@, *patches));
    edits
}

/// Whether an edit is not empty and lies inside `dol`.
pub open spec fn edit_inside(edit: EditView, len: int) -> bool {
    0 <= edit.offset && 0 < edit.bytes.len() && edit.offset + edit.bytes.len() <= len
}

proof fn lemma_vfilter_inside(dol: Seq<u8>, from: int)
    requires
        0 <= from,
    ensures
        forall|i: int|
            0 <= i < vfilter_edits(dol, from).len() ==> edit_inside(
                #[trigger] vfilter_edits(dol, from)[i],
                dol.len() as int,
            ),
    decreases dol.len() - from,
{
    lemma_found(dol, HALF_VFILTER_PATTERN@, from);
    if let Some(pos) = found_from(dol, HALF_VFILTER_PATTERN@, from) {
        if from <= pos && pos + 7 <= dol.len() {
            lemma_vfilter_inside(dol, pos + 7);
            let rest = vfilter_edits(dol, pos + 7);
            let all = vfilter_edits(dol, from);
            assert forall|i: int| 0 <= i < all.len() implies edit_inside(
                #[trigger] all[i],
                dol.len() as int,
            ) by {
                if i > 0 {
                    assert(all[i] == rest[i - 1]);
                }
            }
        }
    }
}

/// Every edit writes at least one byte, and none outside `main.dol`.
pub proof fn law_edits_stay_inside(dol: Seq<u8>, patches: VideoPatches)
    ensures
        forall|i: int|
            0 <= i < dol_edits(dol, patches).len() ==> edit_inside(
                #[trigger] dol_edits(dol, patches)[i],
                dol.len() as int,
            ),
{
    lemma_found(dol, DEFLICKER_PATTERN@, 0);
    lemma_found(dol, DITHERING_PATTERN@, 8);
    lemma_vfilter_inside(dol, 0);
    let a = if patches.deflicker {
        deflicker_edits(dol)
    } else {
        Seq::empty()
    };
    let b = if patches.dithering {
        dithering_edits(dol)
    } else {
        Seq::empty()
    };
    let c = if patches.half_vfilter {
        vfilter_edits(dol, 0)
    } else {
        Seq::empty()
    };
    assert forall|i: int| 0 <= i < dol_edits(dol, patches).len() implies edit_inside(
        #[trigger] dol_edits(dol, patches)[i],
        dol.len() as int,
    ) by {
        if i < a.len() {
            assert(dol_edits(dol, patches)[i] == a[i]);
        } else if i < a.len() + b.len() {
            assert(dol_edits(dol, patches)[i] == b[i - a.len()]);
        } else {
            assert(dol_edits(dol, patches)[i] == c[i - a.len() - b.len()]);
        }
    }
}

/// The first place where `needle` stands is what is found.
proof fn lemma_first_is_found(haystack: Seq<u8>, needle: Seq<u8>, from: int, pos: int)
    requires
        0 < needle.len(),
        0 <= from <= pos,
        pos + needle.len() <= haystack.len(),
        haystack.subrange(pos, pos + needle.len()) == needle,
        forall|q: int|
            from <= q < pos ==> #[trigger] haystack.subrange(q, q + needle.len()) != needle,
    ensures
        found_from(haystack, needle, from) == Some(pos),
    decreases pos - from,
{
    if from < pos {
        assert(haystack.subrange(from, from + needle.len()) != needle);
        lemma_first_is_found(haystack, needle, from + 1, pos);
    }
}

/// What is found is the first place where `needle` stands.
proof fn lemma_found_is_first(haystack: Seq<u8>, needle: Seq<u8>, from: int, q: int)
    requires
        0 < needle.len(),
        0 <= from <= q,
        q + needle.len() <= haystack.len(),
        haystack.subrange(q, q + needle.len()) == needle,
    ensures
        found_from(haystack, needle, from) matches Some(pos) && from <= pos <= q,
    decreases q - from,
{
    if haystack.subrange(from, from + needle.len()) != needle {
        assert(from < q);
        lemma_found_is_first(haystack, needle, from + 1, q);
    }
}

/// The flicker filter patch jumps over the setup of the copy filter at the first place where its
/// routine stands, by the distance of the branch that it replaces. It does so whatever other
/// patches are asked for.
pub proof fn law_flicker_filter_is_removed(dol: Seq<u8>, patches: VideoPatches, pos: int)
    requires
        patches.deflicker,
        0 <= pos,
        pos + 356 <= dol.len(),
        dol.subrange(pos, pos + 356) == DEFLICKER_PATTERN@,
        forall|q: int| 0 <= q < pos ==> #[trigger] dol.subrange(q, q + 356) != DEFLICKER_PATTERN@,
    ensures
        dol_edits(dol, patches).contains(
            (EditView {
                offset: pos + 352,
                bytes: seq![0x48u8, 0u8, 0u8, 0x40u8],
                label: "deflicker"@,
            }),
        ),
{
    lemma_first_is_found(dol, DEFLICKER_PATTERN@, 0, pos);
    let edit = EditView {
        offset: pos + 352,
        bytes: seq![0x48u8, 0u8, 0u8, 0x40u8],
        label: "deflicker"@,
    };
    assert(DEFLICKER_REPLACEMENT@ =~= edit.bytes);
    assert(dol_edits(dol, patches)[0] == edit);
}

/// The dithering patch jumps over the routine, from four bytes before the first place at 8 or
/// later where it stands. It does so whatever other patches are asked for.
pub proof fn law_dithering_is_removed(dol: Seq<u8>, patches: VideoPatches, pos: int)
    requires
        patches.dithering,
        8 <= pos,
        pos + 40 <= dol.len(),
        dol.subrange(pos, pos + 40) == DITHERING_PATTERN@,
        forall|q: int| 8 <= q < pos ==> #[trigger] dol.subrange(q, q + 40) != DITHERING_PATTERN@,
    ensures
        dol_edits(dol, patches).contains(
            (EditView {
                offset: pos - 4,
                bytes: seq![0x48u8, 0u8, 0u8, 0x28u8],
                label: "dithering"@,
            }),
        ),
{
    lemma_first_is_found(dol, DITHERING_PATTERN@, 8, pos);
    let edit = EditView {
        offset: pos - 4,
        bytes: seq![0x48u8, 0u8, 0u8, 0x28u8],
        label: "dithering"@,
    };
    assert(DITHERING_REPLACEMENT@ =~= edit.bytes);
    let at = if patches.deflicker {
        deflicker_edits(dol).len() as int
    } else {
        0
    };
    assert(dol_edits(dol, patches)[at] == edit);
}

/// Whether the filter coefficients stand in `dol` at `q`.
pub open spec fn coefficients_at(dol: Seq<u8>, q: int) -> bool {
    &&& 0 <= q
    &&& q + 7 <= dol.len()
    &&& dol[q] == 8 && dol[q + 1] == 8 && dol[q + 2] == 10 && dol[q + 3] == 12 && dol[q + 4] == 10
    &&& dol[q + 5] == 8 && dol[q + 6] == 8
}

/// The edit that softens the coefficients at `q`.
pub open spec fn softened(q: int) -> EditView {
    EditView {
        offset: q,
        bytes: seq![4u8, 4u8, 16u8, 16u8, 16u8, 4u8, 4u8],
        label: "half-vfilter"@,
    }
}

proof fn lemma_coefficients(dol: Seq<u8>, q: int)
    requires
        0 <= q,
        q + 7 <= dol.len(),
    ensures
        coefficients_at(dol, q) <==> dol.subrange(q, q + 7) == HALF_VFILTER_PATTERN@,
{
    let cut = dol.subrange(q, q + 7);
    assert(forall|k: int| 0 <= k < 7 ==> cut[k] == dol[q + k]);
    let p = HALF_VFILTER_PATTERN@;
    assert(p[0] == 8 && p[1] == 8 && p[2] == 10 && p[3] == 12 && p[4] == 10 && p[5] == 8 && p[6]
        == 8);
    if coefficients_at(dol, q) {
        assert(cut[0] == 8 && cut[1] == 8 && cut[2] == 10 && cut[3] == 12 && cut[4] == 10 && cut[5]
            == 8 && cut[6] == 8);
        assert(cut =~= p);
    }
    if cut == p {
        assert(cut[0] == dol[q] && cut[1] == dol[q + 1] && cut[2] == dol[q + 2] && cut[3] == dol[q
            + 3] && cut[4] == dol[q + 4] && cut[5] == dol[q + 5] && cut[6] == dol[q + 6]);
    }
}

/// The softening edits from `from` on: each stands at coefficients, they do not overlap, and
/// none of the coefficients is passed over.
proof fn lemma_vfilter_edits(dol: Seq<u8>, from: int)
    requires
        0 <= from,
    ensures
        forall|i: int|
            0 <= i < vfilter_edits(dol, from).len() ==> {
                let e = #[trigger] vfilter_edits(dol, from)[i];
                from <= e.offset && coefficients_at(dol, e.offset) && e == softened(e.offset)
            },
        forall|i: int, j: int|
            0 <= i < j < vfilter_edits(dol, from).len() ==> (#[trigger] vfilter_edits(
                dol,
                from,
            )[i]).offset + 7 <= (#[trigger] vfilter_edits(dol, from)[j]).offset,
    decreases dol.len() - from,
{
    lemma_found(dol, HALF_VFILTER_PATTERN@, from);
    if let Some(pos) = found_from(dol, HALF_VFILTER_PATTERN@, from) {
        lemma_coefficients(dol, pos);
        assert(HALF_VFILTER_REPLACEMENT@ =~= softened(pos).bytes);
        lemma_vfilter_edits(dol, pos + 7);
        let rest = vfilter_edits(dol, pos + 7);
        let all = vfilter_edits(dol, from);
        assert(all =~= seq![softened(pos)] + rest);
        assert forall|i: int| 0 <= i < all.len() implies {
            let e = #[trigger] all[i];
            from <= e.offset && coefficients_at(dol, e.offset) && e == softened(e.offset)
        } by {
            if i > 0 {
                assert(all[i] == rest[i - 1]);
            }
        }
        assert forall|i: int, j: int| 0 <= i < j < all.len() implies (#[trigger] all[i]).offset + 7
            <= (#[trigger] all[j]).offset by {
            assert(all[j] == rest[j - 1]);
            if i > 0 {
                assert(all[i] == rest[i - 1]);
            }
        }
    }
}

proof fn lemma_vfilter_covers(dol: Seq<u8>, from: int, q: int) -> (i: int)
    requires
        0 <= from <= q,
        coefficients_at(dol, q),
    ensures
        0 <= i < vfilter_edits(dol, from).len(),
        vfilter_edits(dol, from)[i].offset <= q < vfilter_edits(dol, from)[i].offset + 7,
    decreases dol.len() - from,
{
    lemma_coefficients(dol, q);
    lemma_found(dol, HALF_VFILTER_PATTERN@, from);
    lemma_found_is_first(dol, HALF_VFILTER_PATTERN@, from, q);
    let pos = found_from(dol, HALF_VFILTER_PATTERN@, from)->0;
    if q < pos + 7 {
        0
    } else {
        let i = lemma_vfilter_covers(dol, pos + 7, q);
        assert(vfilter_edits(dol, from)[i + 1] == vfilter_edits(dol, pos + 7)[i]);
        i + 1
    }
}

/// The filter patch softens the coefficients everywhere: whichever other patches are asked for,
/// coefficients are softened where they stand, unless they begin inside others that are.
pub proof fn law_every_filter_is_softened(dol: Seq<u8>, patches: VideoPatches, q: int)
    requires
        patches.half_vfilter,
        coefficients_at(dol, q),
    ensures
        exists|at: int|
            q - 7 < at <= q && coefficients_at(dol, at) && #[trigger] dol_edits(
                dol,
                patches,
            ).contains(softened(at)),
        (forall|at: int| q - 7 < at < q ==> !coefficients_at(dol, at)) ==> dol_edits(
            dol,
            patches,
        ).contains(softened(q)),
{
    let i = lemma_vfilter_covers(dol, 0, q);
    lemma_vfilter_edits(dol, 0);
    let soft = vfilter_edits(dol, 0);
    let at = soft[i].offset;
    let all = dol_edits(dol, patches);
    assert(all[all.len() - soft.len() + i] == soft[i]);
    assert(all.contains(softened(at)));
    assert(coefficients_at(dol, at));
}

/// What the edits are made of: one at most for the flicker filter, one at most for dithering,
/// each only where it is asked for and its routine stands, and softened coefficients only where
/// they are asked for. No two of the latter overlap.
pub proof fn law_edits_are_asked_for(dol: Seq<u8>, patches: VideoPatches, i: int)
    requires
        0 <= i < dol_edits(dol, patches).len(),
    ensures
        ({
            let edits = dol_edits(dol, patches);
            let e = edits[i];
            ||| {
                &&& patches.deflicker
                &&& i == 0
                &&& e.label == "deflicker"@
                &&& e.bytes == seq![0x48u8, 0u8, 0u8, 0x40u8]
                &&& 352 <= e.offset <= dol.len() - 4
                &&& dol.subrange(e.offset - 352, e.offset + 4) == DEFLICKER_PATTERN@
            }
            ||| {
                &&& patches.dithering
                &&& i <= 1
                &&& i == 1 ==> patches.deflicker && edits[0].label == "deflicker"@
                &&& e.label == "dithering"@
                &&& e.bytes == seq![0x48u8, 0u8, 0u8, 0x28u8]
                &&& 4 <= e.offset <= dol.len() - 44
                &&& dol.subrange(e.offset + 4, e.offset + 44) == DITHERING_PATTERN@
            }
            ||| {
                &&& patches.half_vfilter
                &&& coefficients_at(dol, e.offset)
                &&& e == softened(e.offset)
                &&& forall|j: int|
                    i < j < edits.len() ==> e.offset + 7 <= (#[trigger] edits[j]).offset && edits[j]
                        == softened(edits[j].offset)
            }
        }),
{
    lemma_found(dol, DEFLICKER_PATTERN@, 0);
    lemma_found(dol, DITHERING_PATTERN@, 8);
    lemma_vfilter_edits(dol, 0);
    assert(DEFLICKER_REPLACEMENT@ =~= seq![0x48u8, 0u8, 0u8, 0x40u8]);
    assert(DITHERING_REPLACEMENT@ =~= seq![0x48u8, 0u8, 0u8, 0x28u8]);
    let a = if patches.deflicker {
        deflicker_edits(dol)
    } else {
        Seq::empty()
    };
    let b = if patches.dithering {
        dithering_edits(dol)
    } else {
        Seq::empty()
    };
    let c = if patches.half_vfilter {
        vfilter_edits(dol, 0)
    } else {
        Seq::empty()
    };
    let edits = dol_edits(dol, patches);
    if i < a.len() {
        assert(edits[i] == a[i]);
    } else if i < a.len() + b.len() {
        assert(edits[i] == b[i - a.len()]);
        if i == 1 {
            assert(edits[0] == a[0]);
        }
    } else {
        let m = a.len() + b.len();
        assert(edits[i] == c[i - m]);
        assert forall|j: int| i < j < edits.len() implies edits[i].offset + 7 <= (
        #[trigger] edits[j]).offset && edits[j] == softened(edits[j].offset) by {
            assert(edits[j] == c[j - m]);
        }
    }
}

/// The patches do not get in each other's way: what is asked for together is made as it is when
/// each is asked for alone.
pub proof fn law_patches_are_made_independently(dol: Seq<u8>, patches: VideoPatches)
    ensures
        dol_edits(dol, patches) == dol_edits(
            dol,
            (VideoPatches { deflicker: patches.deflicker, half_vfilter: false, dithering: false }),
        ) + dol_edits(
            dol,
            (VideoPatches { deflicker: false, half_vfilter: false, dithering: patches.dithering }),
        ) + dol_edits(
            dol,
            (VideoPatches {
                deflicker: false,
                half_vfilter: patches.half_vfilter,
                dithering: false,
            }),
        ),
        !patches.deflicker && !patches.half_vfilter && !patches.dithering ==> dol_edits(
            dol,
            patches,
        ).len() == 0,
{
    let a = VideoPatches { deflicker: patches.deflicker, half_vfilter: false, dithering: false };
    let b = VideoPatches { deflicker: false, half_vfilter: false, dithering: patches.dithering };
    let c = VideoPatches { deflicker: false, half_vfilter: patches.half_vfilter, dithering: false };
    assert(dol_edits(dol, patches) =~= dol_edits(dol, a) + dol_edits(dol, b) + dol_edits(dol, c));
}

/// The routines that are looked for: the flicker filter patch replaces a conditional branch at
/// the end of its routine by an unconditional one of the same distance, and the dithering patch
/// branches from four bytes before its routine over the routine. The softened coefficients weigh
/// as much as those that they replace, and are symmetric as well.
pub proof fn law_patches_fit_what_they_replace()
    ensures
        DEFLICKER_PATTERN@.len() == 356,
        DEFLICKER_PATTERN@[352] == 0x41 && DEFLICKER_PATTERN@[353] == 0x82,
        DEFLICKER_PATTERN@[354] == DEFLICKER_REPLACEMENT@[2],
        DEFLICKER_PATTERN@[355] == DEFLICKER_REPLACEMENT@[3],
        DEFLICKER_REPLACEMENT@[0] == 0x48 && DEFLICKER_REPLACEMENT@[1] == 0,
        DITHERING_PATTERN@.len() == 40,
        DITHERING_REPLACEMENT@[0] == 0x48 && DITHERING_REPLACEMENT@[1] == 0,
        DITHERING_REPLACEMENT@[2] * 0x100 + DITHERING_REPLACEMENT@[3] == DITHERING_PATTERN@.len(),
        HALF_VFILTER_PATTERN@ == seq![8u8, 8u8, 10u8, 12u8, 10u8, 8u8, 8u8],
        HALF_VFILTER_REPLACEMENT@ == seq![4u8, 4u8, 16u8, 16u8, 16u8, 4u8, 4u8],
        8 + 8 + 10 + 12 + 10 + 8 + 8 == 4 + 4 + 16 + 16 + 16 + 4 + 4,
{
    assert(HALF_VFILTER_PATTERN@ =~= seq![8u8, 8u8, 10u8, 12u8, 10u8, 8u8, 8u8]);
    assert(HALF_VFILTER_REPLACEMENT@ =~= seq![4u8, 4u8, 16u8, 16u8, 16u8, 4u8, 4u8]);
}

} // verus!

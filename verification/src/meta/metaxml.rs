//! Patching a base title's `meta/meta.xml` with the identifiers and names of a game.
//!
//! Only the text of certain elements is replaced; everything else is passed through.

use vstd::prelude::*;
use vstd::utf8::{decode_utf8, encode_utf8, valid_utf8};

use crate::error::{Error, LimitFault, Result};
use crate::meta::titleid::TitleIds;
use crate::meta::xml::{
    attribute, attribute_of, ends_document, escape_text, escaped, event_views, events_of,
    law_events_are_written_between_their_marks, law_markup_is_escaped, name_len,
    read_events, tag_name, text_from_utf8, word_end, write_event, written, Attribute, AttributeView,
    EventView, XmlEvent, XmlKind,
};
use crate::text::{
    chars_of, decimal_of, law_decimal_reads_back, law_fixed_hex_reads_back, lemma_hex_widths,
    lossy_text, number_of, push_upper_hex_fixed, text_equal, text_from_bytes, text_join, text_of,
    upper_hex_fixed,
};
use crate::util::append_bytes;

verus! {

/// The language suffixes of `longname_XX`, `shortname_XX` and `publisher_XX`.
pub const LANGS: [&'static str; 12] = [
    "ja",
    "en",
    "fr",
    "de",
    "it",
    "es",
    "zhs",
    "ko",
    "nl",
    "pt",
    "ru",
    "zht",
];

/// What a game brings into `meta.xml`.
pub struct MetaOptions<'a> {
    /// Its identifiers.
    pub ids: &'a TitleIds,
    /// Long name, for every language. A newline makes it two lines.
    pub long_name: &'a str,
    /// Short name, for every language.
    pub short_name: &'a str,
    /// Publisher, for every language.
    pub publisher: &'a str,
    /// Region flags.
    pub region: u32,
    /// Whether the GamePad's screen is used.
    pub drc_use: bool,
}

/// Whether an element is named `prefix` and one of the language suffixes.
pub open spec fn localized(prefix: Seq<char>, name: Seq<char>) -> bool {
    exists|k: int| 0 <= k < 12 && name == prefix + (#[trigger] LANGS@[k])@
}

/// The new text of the element called `name`; none for an element that stays as it is.
pub open spec fn replacement_of(name: Seq<char>, o: MetaOptions) -> Option<Seq<char>> {
    if name == "product_code"@ {
        Some(o.ids.product_code@)
    } else if name == "title_id"@ {
        Some(upper_hex_fixed(o.ids.title_id as nat, 16))
    } else if name == "group_id"@ {
        Some(upper_hex_fixed(o.ids.group_id as nat, 8))
    } else if name == "region"@ {
        Some(upper_hex_fixed(o.region as nat, 8))
    } else if name == "drc_use"@ {
        Some(
            if o.drc_use {
                "1"@
            } else {
                "0"@
            },
        )
    } else if name == "reserved_flag2"@ {
        Some(upper_hex_fixed(o.ids.reserved_flag2 as nat, 8))
    } else if localized("longname_"@, name) {
        Some(o.long_name@)
    } else if localized("shortname_"@, name) {
        Some(o.short_name@)
    } else if localized("publisher_"@, name) {
        Some(o.publisher@)
    } else {
        None
    }
}

/// Whether an element is named `prefix` and one of the language suffixes.
fn is_localized(prefix: &str, name: &str) -> (r: bool)
    ensures
        r == localized(prefix@, name@),
{
    let langs: &[&'static str] = LANGS.as_slice();
    let mut k: usize = 0;
    while k < 12
        invariant
            k <= 12,
            langs@ == LANGS@,
            forall|j: int| 0 <= j < k ==> name@ != prefix@ + (#[trigger] LANGS@[j])@,
        decreases 12 - k,
    {
        let full: String = text_join(prefix, langs[k]);
        if text_equal(name, full.as_str()) {
            return true;
        }
        k += 1;
    }
    false
}

/// `n` in upper-case hexadecimal, `width` digits.
fn hex_text(n: u64, width: u32) -> (r: String)
    ensures
        r@ == upper_hex_fixed(n as nat, width as nat),
{
    let mut r: String = String::new();
    push_upper_hex_fixed(&mut r, n, width);
    assert(r@ =~= upper_hex_fixed(n as nat, width as nat));
    r
}

/// The new text of the element called `name`; none for an element that stays as it is.
pub fn replacement_for(name: &str, opts: &MetaOptions) -> (r: Option<String>)
    ensures
        match r {
            Some(text) => replacement_of(name@, *opts) == Some(text@),
            None => replacement_of(name@, *opts) is None,
        },
{
    if text_equal(name, "product_code") {
        return Some(opts.ids.product_code.clone());
    }
    if text_equal(name, "title_id") {
        return Some(hex_text(opts.ids.title_id, 16));
    }
    if text_equal(name, "group_id") {
        return Some(hex_text(opts.ids.group_id as u64, 8));
    }
    if text_equal(name, "region") {
        return Some(hex_text(opts.region as u64, 8));
    }
    if text_equal(name, "drc_use") {
        return Some(
            String::from_str(
                if opts.drc_use {
                    "1"
                } else {
                    "0"
                },
            ),
        );
    }
    if text_equal(name, "reserved_flag2") {
        return Some(hex_text(opts.ids.reserved_flag2 as u64, 8));
    }
    if is_localized("longname_", name) {
        return Some(String::from_str(opts.long_name));
    }
    if is_localized("shortname_", name) {
        return Some(String::from_str(opts.short_name));
    }
    if is_localized("publisher_", name) {
        return Some(String::from_str(opts.publisher));
    }
    None
}

/// The number that the first `n` of a list of decimal digits stand for; none where one of them
/// is no digit or the number is larger than `most`.
pub open spec fn digits_value(digits: Seq<char>, n: int, most: int) -> Option<int>
    decreases n,
{
    if n <= 0 {
        Some(0)
    } else {
        match digits_value(digits, n - 1, most) {
            Some(high) if 0x30 <= digits[n - 1] as u32 <= 0x39 && high * 10 + (digits[n - 1] as u32
                - 0x30) <= most => Some(high * 10 + (digits[n - 1] as u32 - 0x30)),
            _ => None,
        }
    }
}

/// The number that a text stands for: decimal digits, a `+` allowed in front.
pub open spec fn usize_of(text: Seq<char>) -> Option<int> {
    let digits = if text.len() > 0 && text[0] == '+' {
        text.subrange(1, text.len() as int)
    } else {
        text
    };
    if digits.len() == 0 {
        None
    } else {
        digits_value(digits, digits.len() as int, usize::MAX as int)
    }
}

proof fn lemma_digits_value(digits: Seq<char>, n: int, m: int, most: int)
    requires
        0 <= n <= m,
        0 <= most,
        digits_value(digits, m, most) is Some,
    ensures
        digits_value(digits, n, most) is Some,
        0 <= digits_value(digits, n, most)->0 <= most,
    decreases m,
{
    if m > n {
        lemma_digits_value(digits, n, m - 1, most);
    } else if n > 0 {
        lemma_digits_value(digits, n - 1, n - 1, most);
    }
}

/// Read a number.
fn parse_usize(text: &str) -> (r: Option<usize>)
    ensures
        match r {
            Some(n) => usize_of(text@) == Some(n as int),
            None => usize_of(text@) is None,
        },
{
    let chars: Vec<char> = chars_of(text);
    let first: usize = if chars.len() > 0 && chars[0] == '+' {
        1
    } else {
        0
    };
    let ghost digits = chars@.subrange(first as int, chars@.len() as int);
    assert(chars@.subrange(0, chars@.len() as int) =~= chars@);
    if first == chars.len() {
        return None;
    }
    let ghost count = digits.len() as int;
    let mut value: usize = 0;
    let mut i: usize = first;
    while i < chars.len()
        invariant
            first <= i <= chars@.len(),
            digits == chars@.subrange(first as int, chars@.len() as int),
            count == digits.len(),
            count > 0,
            chars@ == text@,
            digits == (if text@.len() > 0 && text@[0] == '+' {
                text@.subrange(1, text@.len() as int)
            } else {
                text@
            }),
            digits_value(digits, i - first, usize::MAX as int) == Some(value as int),
        decreases chars@.len() - i,
    {
        let code: u32 = chars[i] as u32;
        assert(digits[i - first] == chars@[i as int]);
        proof {
            if digits_value(digits, count, usize::MAX as int) is Some {
                lemma_digits_value(digits, i - first + 1, count, usize::MAX as int);
            }
        }
        if code < 0x30 || code > 0x39 {
            return None;
        }
        let d: usize = (code - 0x30) as usize;
        if value > (usize::MAX - d) / 10 {
            return None;
        }
        value = value * 10 + d;
        i += 1;
    }
    Some(value)
}

/// What is wrong with a patched document.
pub enum PatchFault {
    /// The document or a tag cannot be read; holds what was reported.
    Xml(Seq<char>),
    /// A text is longer than its element declares.
    TooLong { field: Seq<char>, len: int, limit: int },
    /// A hexadecimal value is not as long as its element declares.
    WrongHex { field: Seq<char>, len: int, limit: int },
}

/// What is wrong with the new text of an element that declares the given `length` and `type`.
/// The length of a `string` is the most bytes its escaped text may take; that of a `hexBinary`
/// is the bytes it decodes to, two digits each.
pub open spec fn declared_fault(
    field: Seq<char>,
    length: AttributeView,
    kind: AttributeView,
    text: Seq<char>,
) -> Option<PatchFault> {
    match length {
        AttributeView::Broken(report) => Some(PatchFault::Xml(report)),
        AttributeView::Absent => None,
        AttributeView::Value(value) => match usize_of(value) {
            None => None,
            Some(limit) => match kind {
                AttributeView::Broken(report) => Some(PatchFault::Xml(report)),
                AttributeView::Absent => None,
                AttributeView::Value(kind) => if kind == "string"@ {
                    let len = encode_utf8(escaped(text)).len() as int;
                    if len > limit {
                        Some(PatchFault::TooLong { field, len, limit })
                    } else {
                        None
                    }
                } else if kind == "hexBinary"@ {
                    let len = encode_utf8(text).len() as int;
                    if limit * 2 <= usize::MAX && len != limit * 2 {
                        Some(PatchFault::WrongHex { field, len, limit })
                    } else {
                        None
                    }
                } else {
                    None
                },
            },
        },
    }
}

/// Whether an error reports a fault.
pub open spec fn patch_error(e: Error, fault: PatchFault) -> bool {
    match fault {
        PatchFault::Xml(report) => e matches Error::Other(text) && text@
            == "meta.xml parse error: "@ + report,
        PatchFault::TooLong { field, len, limit } => {
            &&& e matches Error::FormatLimit(
                LimitFault::MetaText { field: f, len: n, limit: most },
            )
            &&& f@ == field
            &&& n == len
            &&& most == limit
        },
        PatchFault::WrongHex { field, len, limit } => {
            &&& e matches Error::FormatLimit(
                LimitFault::MetaHex { field: f, len: n, limit: most, expected },
            )
            &&& f@ == field
            &&& n == len
            &&& most == limit
            &&& expected == limit * 2
        },
    }
}

/// The error of a document that cannot be read.
fn xml_error(report: &String) -> (e: Error)
    ensures
        patch_error(e, PatchFault::Xml(report@)),
{
    Error::Other(text_join("meta.xml parse error: ", report.as_str()))
}

/// Check the new text of an element against the `length` and `type` that it declares. A length
/// that is no number, and any other type, declare nothing.
pub fn check_declared(field: &str, length: &Attribute, kind: &Attribute, text: &str) -> (r: Result<
    (),
>)
    ensures
        match r {
            Ok(_) => declared_fault(field@, length@, kind@, text@) is None,
            Err(e) => declared_fault(field@, length@, kind@, text@) matches Some(fault)
                && patch_error(e, fault),
        },
{
    let limit: usize = match length {
        Attribute::Broken(report) => return Err(xml_error(report)),
        Attribute::Absent => return Ok(()),
        Attribute::Value(value) => match parse_usize(value.as_str()) {
            Some(limit) => limit,
            None => return Ok(()),
        },
    };
    let kind: &String = match kind {
        Attribute::Broken(report) => return Err(xml_error(report)),
        Attribute::Absent => return Ok(()),
        Attribute::Value(kind) => kind,
    };
    if text_equal(kind.as_str(), "string") {
        let full: String = escape_text(text);
        let len: usize = full.as_str().as_bytes().len();
        if len > limit {
            return Err(
                Error::FormatLimit(
                    LimitFault::MetaText { field: String::from_str(field), len, limit },
                ),
            );
        }
        return Ok(());
    }
    if text_equal(kind.as_str(), "hexBinary") {
        let len: usize = text.as_bytes().len();
        proof {
            reveal_strlit("string");
            reveal_strlit("hexBinary");
        }
        if let Some(expected) = limit.checked_mul(2) {
            if len != expected {
                return Err(
                    Error::FormatLimit(
                        LimitFault::MetaHex {
                            field: String::from_str(field),
                            len,
                            limit,
                            expected,
                        },
                    ),
                );
            }
        }
    }
    Ok(())
}

/// What is wrong with the new text of a tag's element.
pub open spec fn length_fault(content: Seq<u8>, text: Seq<char>) -> Option<PatchFault> {
    let end = word_end(content, 0);
    declared_fault(
        lossy_text(tag_name(content)),
        attribute_of(content, end, "length"@),
        attribute_of(content, end, "type"@),
        text,
    )
}

/// Check the new text of a tag's element against what the tag declares.
fn check_length(field: &str, content: &[u8], end: usize, text: &str) -> (r: Result<()>)
    requires
        end == word_end(content@, 0),
        end <= content@.len(),
        field@ == lossy_text(tag_name(content@)),
    ensures
        match r {
            Ok(_) => length_fault(content@, text@) is None,
            Err(e) => length_fault(content@, text@) matches Some(fault) && patch_error(e, fault),
        },
{
    let length: Attribute = attribute(content, end, "length");
    let kind: Attribute = attribute(content, end, "type");
    check_declared(field, &length, &kind, text)
}

/// A replaced text as it stands in the document; an empty one leaves nothing.
pub open spec fn text_part(text: Seq<char>) -> Seq<u8> {
    encode_utf8(escaped(text))
}

/// `front` before a result, where there is one.
pub open spec fn behind(
    front: Seq<u8>,
    rest: core::result::Result<Seq<u8>, PatchFault>,
) -> core::result::Result<Seq<u8>, PatchFault> {
    match rest {
        Ok(bytes) => Ok(front + bytes),
        Err(fault) => Err(fault),
    }
}

/// Whether an event is text.
pub open spec fn is_text(e: EventView) -> bool {
    e matches EventView::Read { kind, .. } && kind == XmlKind::Text
}

/// An event as it stands in the document.
pub open spec fn event_bytes(e: EventView) -> Seq<u8> {
    match e {
        EventView::Read { kind, content } => written(kind, content),
        EventView::Broken(_) => Seq::empty(),
    }
}

/// The event that closes an element whose text is replaced: the one behind its start tag, or
/// the one behind that where the first is text.
pub open spec fn closing_event(events: Seq<EventView>, i: int) -> int {
    if is_text(events[i + 1]) {
        i + 2
    } else {
        i + 1
    }
}

/// The document from event `i` on, patched. The text of an element to be replaced gives way to
/// the new one, a self-closing one is opened up for it, and every other event is passed through.
pub open spec fn patched_from(events: Seq<EventView>, i: int, o: MetaOptions) -> core::result::Result<
    Seq<u8>,
    PatchFault,
>
    decreases events.len() + 3 - i,
{
    if i < 0 || i >= events.len() {
        Ok(Seq::empty())
    } else {
        match events[i] {
            EventView::Broken(report) => Err(PatchFault::Xml(report)),
            EventView::Read { kind, content } => {
                let replacement = replacement_of(lossy_text(tag_name(content)), o);
                if kind == XmlKind::Start && replacement is Some {
                    let text = replacement->0;
                    let end = closing_event(events, i);
                    match length_fault(content, text) {
                        Some(fault) => Err(fault),
                        None => match events[end] {
                            EventView::Broken(report) => Err(PatchFault::Xml(report)),
                            closer => behind(
                                written(kind, content) + text_part(text) + event_bytes(closer),
                                patched_from(events, end + 1, o),
                            ),
                        },
                    }
                } else if kind == XmlKind::Empty && replacement is Some {
                    let text = replacement->0;
                    match length_fault(content, text) {
                        Some(fault) => Err(fault),
                        None => behind(
                            written(XmlKind::Start, content) + text_part(text) + written(
                                XmlKind::End,
                                tag_name(content),
                            ),
                            patched_from(events, i + 1, o),
                        ),
                    }
                } else {
                    behind(written(kind, content), patched_from(events, i + 1, o))
                }
            },
        }
    }
}

/// Whether a list of events is what a reader gives: it ends with the end of the document or
/// with a fault, and not before.
pub open spec fn whole_document(events: Seq<XmlEvent>) -> bool {
    &&& events.len() > 0
    &&& forall|i: int|
        0 <= i < events.len() ==> ends_document((#[trigger] events[i])@) == (i == events.len() - 1)
}

/// Append a replaced text.
fn write_text(out: &mut Vec<u8>, text: &str)
    ensures
        final(out)@ == old(out)@ + text_part(text@),
{
    let full: String = escape_text(text);
    append_bytes(out, full.as_str().as_bytes());
}

/// Patch a document given by its events.
pub fn patch_events(events: &Vec<XmlEvent>, opts: &MetaOptions) -> (r: Result<Vec<u8>>)
    requires
        whole_document(events@),
    ensures
        match r {
            Ok(out) => patched_from(event_views(events@), 0, *opts) == Ok::<Seq<u8>, PatchFault>(
                out@,
            ),
            Err(e) => patched_from(event_views(events@), 0, *opts) matches Err(fault)
                && patch_error(e, fault),
        },
{
    let ghost views = event_views(events@);
    let ghost whole = patched_from(views, 0, *opts);
    let mut out: Vec<u8> = Vec::new();
    let mut i: usize = 0;
    proof {
        match whole {
            Ok(bytes) => {
                assert(out@ + bytes =~= bytes);
            },
            Err(_) => {},
        }
    }
    while i < events.len()
        invariant
            i <= events@.len(),
            whole_document(events@),
            views == event_views(events@),
            whole == patched_from(views, 0, *opts),
            whole == behind(out@, patched_from(views, i as int, *opts)),
        decreases events@.len() - i,
    {
        let ghost front = out@;
        let ghost at = i as int;
        assert(views[at] == events@[at]@);
        match &events[i] {
            XmlEvent::Broken(report) => return Err(xml_error(report)),
            XmlEvent::Read { kind, content } => {
                let tag: &[u8] = content.as_slice();
                let end: usize = name_len(tag);
                let name_bytes: &[u8] = vstd::slice::slice_subrange(tag, 0, end);
                let name: String = text_from_bytes(name_bytes);
                let replacement: Option<String> = if *kind == XmlKind::Start || *kind
                    == XmlKind::Empty {
                    replacement_for(name.as_str(), opts)
                } else {
                    None
                };
                match replacement {
                    None => {
                        write_event(&mut out, *kind, tag);
                        i += 1;
                        proof {
                            lemma_behind(
                                front,
                                written(*kind, content@),
                                patched_from(views, i as int, *opts),
                            );
                        }
                    },
                    Some(text) => {
                        match check_length(name.as_str(), tag, end, text.as_str()) {
                            Ok(_) => {},
                            Err(e) => return Err(e),
                        }
                        write_event(&mut out, XmlKind::Start, tag);
                        if *kind == XmlKind::Empty {
                            write_text(&mut out, text.as_str());
                            write_event(&mut out, XmlKind::End, name_bytes);
                            i += 1;
                            proof {
                                let more = written(XmlKind::Start, content@) + text_part(text@)
                                    + written(XmlKind::End, tag_name(content@));
                                assert(out@ =~= front + more);
                                lemma_behind(front, more, patched_from(views, i as int, *opts));
                            }
                        } else {
                            assert(!ends_document(events@[at]@));
                            assert(views[at + 1] == events@[at + 1]@);
                            let mut next: usize = i + 1;
                            let skip: bool = match &events[next] {
                                XmlEvent::Read { kind, .. } => *kind == XmlKind::Text,
                                XmlEvent::Broken(_) => false,
                            };
                            if skip {
                                assert(!ends_document(events@[at + 1]@));
                                next += 1;
                            }
                            assert(views[next as int] == events@[next as int]@);
                            match &events[next] {
                                XmlEvent::Broken(report) => return Err(xml_error(report)),
                                XmlEvent::Read { kind: last, content: inner } => {
                                    write_text(&mut out, text.as_str());
                                    write_event(&mut out, *last, inner.as_slice());
                                    i = next + 1;
                                    proof {
                                        let more = written(XmlKind::Start, content@) + text_part(
                                            text@,
                                        ) + written(*last, inner@);
                                        assert(out@ =~= front + more);
                                        lemma_behind(
                                            front,
                                            more,
                                            patched_from(views, i as int, *opts),
                                        );
                                    }
                                },
                            }
                        }
                    },
                }
            },
        }
    }
    proof {
        assert(out@ + Seq::<u8>::empty() =~= out@);
    }
    Ok(out)
}

proof fn lemma_behind(
    front: Seq<u8>,
    more: Seq<u8>,
    rest: core::result::Result<Seq<u8>, PatchFault>,
)
    ensures
        behind(front, behind(more, rest)) == behind(front + more, rest),
{
    match rest {
        Ok(bytes) => {
            assert(front + (more + bytes) =~= front + more + bytes);
        },
        Err(_) => {},
    }
}

/// A document without the byte order mark in front.
pub open spec fn body_of(text: Seq<char>) -> Seq<char> {
    if text.len() > 0 && text[0] == '\u{FEFF}' {
        text.subrange(1, text.len() as int)
    } else {
        text
    }
}

/// The byte order mark that a document starts with, if any.
pub open spec fn mark_of(text: Seq<char>) -> Seq<char> {
    if text.len() > 0 && text[0] == '\u{FEFF}' {
        seq!['\u{FEFF}']
    } else {
        Seq::empty()
    }
}

/// Patch a base title's `meta.xml`. The byte order mark, if there is one, stays.
pub fn patch(base_meta_xml: &str, opts: &MetaOptions) -> (r: Result<String>)
    ensures
        ({
            let patched = patched_from(events_of(body_of(base_meta_xml@)), 0, *opts);
            match r {
                Ok(text) => {
                    &&& patched matches Ok(bytes)
                    &&& valid_utf8(bytes)
                    &&& text@ == mark_of(base_meta_xml@) + decode_utf8(bytes)
                },
                Err(e) => match patched {
                    Err(fault) => patch_error(e, fault),
                    Ok(bytes) => !valid_utf8(bytes) && e is Other,
                },
            }
        }),
{
    let chars: Vec<char> = chars_of(base_meta_xml);
    let has_bom: bool = chars.len() > 0 && chars[0] == '\u{FEFF}';
    let mut body: Vec<char> = Vec::new();
    let first: usize = if has_bom {
        1
    } else {
        0
    };
    let mut i: usize = first;
    while i < chars.len()
        invariant
            first <= i <= chars@.len(),
            body@ == chars@.subrange(first as int, i as int),
        decreases chars@.len() - i,
    {
        body.push(chars[i]);
        i += 1;
        assert(body@ =~= chars@.subrange(first as int, i as int));
    }
    assert(body@ =~= body_of(base_meta_xml@));
    let document: String = text_of(&body);
    let events: Vec<XmlEvent> = read_events(document.as_str());
    let out: Vec<u8> = match patch_events(&events, opts) {
        Ok(out) => out,
        Err(e) => return Err(e),
    };
    let text: String = match text_from_utf8(out) {
        Ok(text) => text,
        Err(report) => {
            return Err(
                Error::Other(
                    text_join("patched meta.xml is not valid utf-8: ", report.as_str()),
                ),
            );
        },
    };
    let mut full: String = String::new();
    if has_bom {
        full.push('\u{FEFF}');
    }
    full.append(text.as_str());
    assert(full@ =~= mark_of(base_meta_xml@) + text@);
    Ok(full)
}

/// The events from `i` on as they stand in the document.
pub open spec fn events_bytes(events: Seq<EventView>, i: int) -> Seq<u8>
    decreases events.len() - i,
{
    if i < 0 || i >= events.len() {
        Seq::empty()
    } else {
        event_bytes(events[i]) + events_bytes(events, i + 1)
    }
}

/// Whether an event is passed through: it can be read, and it is no tag of an element whose text
/// is replaced.
pub open spec fn passed_through(e: EventView, o: MetaOptions) -> bool {
    e matches EventView::Read { kind, content } && !((kind == XmlKind::Start || kind
        == XmlKind::Empty) && replacement_of(lossy_text(tag_name(content)), o) is Some)
}

/// What is not replaced stays as it is: up to the first element to be replaced, the patched
/// document holds the events of the base one, and all of them where there is no such element.
pub proof fn law_other_events_pass_through(events: Seq<EventView>, i: int, n: int, o: MetaOptions)
    requires
        0 <= i <= n <= events.len(),
        forall|k: int| i <= k < n ==> passed_through(#[trigger] events[k], o),
    ensures
        patched_from(events, i, o) == behind(
            events_bytes(events.subrange(0, n), i),
            patched_from(events, n, o),
        ),
        n == events.len() ==> patched_from(events, i, o) == Ok::<Seq<u8>, PatchFault>(
            events_bytes(events, i),
        ),
    decreases n - i,
{
    let cut = events.subrange(0, n);
    if i < n {
        assert(passed_through(events[i], o));
        law_other_events_pass_through(events, i + 1, n, o);
        assert(cut[i] == events[i]);
        lemma_behind(
            event_bytes(events[i]),
            events_bytes(cut, i + 1),
            patched_from(events, n, o),
        );
    } else {
        match patched_from(events, n, o) {
            Ok(bytes) => {
                assert(events_bytes(cut, i) + bytes =~= bytes);
            },
            Err(_) => {},
        }
    }
}

proof fn lemma_languages()
    ensures
        LANGS@.len() == 12,
        LANGS@[0]@ == "ja"@,
        LANGS@[1]@ == "en"@,
        LANGS@[2]@ == "fr"@,
        LANGS@[3]@ == "de"@,
        LANGS@[4]@ == "it"@,
        LANGS@[5]@ == "es"@,
        LANGS@[6]@ == "zhs"@,
        LANGS@[7]@ == "ko"@,
        LANGS@[8]@ == "nl"@,
        LANGS@[9]@ == "pt"@,
        LANGS@[10]@ == "ru"@,
        LANGS@[11]@ == "zht"@,
{
}

/// The names of the elements that are replaced differ from one another.
proof fn lemma_names_differ(suffix: Seq<char>)
    ensures
        "product_code"@ != "title_id"@,
        "product_code"@ != "group_id"@,
        "product_code"@ != "region"@,
        "product_code"@ != "drc_use"@,
        "product_code"@ != "reserved_flag2"@,
        "title_id"@ != "group_id"@,
        "title_id"@ != "region"@,
        "title_id"@ != "drc_use"@,
        "title_id"@ != "reserved_flag2"@,
        "group_id"@ != "region"@,
        "group_id"@ != "drc_use"@,
        "group_id"@ != "reserved_flag2"@,
        "region"@ != "drc_use"@,
        "region"@ != "reserved_flag2"@,
        "drc_use"@ != "reserved_flag2"@,
        "longname_"@ + suffix != "product_code"@,
        "longname_"@ + suffix != "title_id"@,
        "longname_"@ + suffix != "group_id"@,
        "longname_"@ + suffix != "region"@,
        "longname_"@ + suffix != "drc_use"@,
        "longname_"@ + suffix != "reserved_flag2"@,
        "shortname_"@ + suffix != "product_code"@,
        "shortname_"@ + suffix != "title_id"@,
        "shortname_"@ + suffix != "group_id"@,
        "shortname_"@ + suffix != "region"@,
        "shortname_"@ + suffix != "drc_use"@,
        "shortname_"@ + suffix != "reserved_flag2"@,
        "publisher_"@ + suffix != "product_code"@,
        "publisher_"@ + suffix != "title_id"@,
        "publisher_"@ + suffix != "group_id"@,
        "publisher_"@ + suffix != "region"@,
        "publisher_"@ + suffix != "drc_use"@,
        "publisher_"@ + suffix != "reserved_flag2"@,
        forall|other: Seq<char>| #[trigger] ("longname_"@ + other) != "shortname_"@ + suffix,
        forall|other: Seq<char>| #[trigger] ("longname_"@ + other) != "publisher_"@ + suffix,
        forall|other: Seq<char>| #[trigger] ("shortname_"@ + other) != "publisher_"@ + suffix,
        forall|other: Seq<char>| #[trigger] ("longname_"@ + other) != "product_code"@,
        forall|other: Seq<char>| #[trigger] ("longname_"@ + other) != "title_id"@,
        forall|other: Seq<char>| #[trigger] ("longname_"@ + other) != "group_id"@,
        forall|other: Seq<char>| #[trigger] ("longname_"@ + other) != "region"@,
        forall|other: Seq<char>| #[trigger] ("longname_"@ + other) != "drc_use"@,
        forall|other: Seq<char>| #[trigger] ("longname_"@ + other) != "reserved_flag2"@,
        forall|other: Seq<char>| #[trigger] ("shortname_"@ + other) != "product_code"@,
        forall|other: Seq<char>| #[trigger] ("shortname_"@ + other) != "title_id"@,
        forall|other: Seq<char>| #[trigger] ("shortname_"@ + other) != "group_id"@,
        forall|other: Seq<char>| #[trigger] ("shortname_"@ + other) != "region"@,
        forall|other: Seq<char>| #[trigger] ("shortname_"@ + other) != "drc_use"@,
        forall|other: Seq<char>| #[trigger] ("shortname_"@ + other) != "reserved_flag2"@,
        forall|other: Seq<char>| #[trigger] ("publisher_"@ + other) != "product_code"@,
        forall|other: Seq<char>| #[trigger] ("publisher_"@ + other) != "title_id"@,
        forall|other: Seq<char>| #[trigger] ("publisher_"@ + other) != "group_id"@,
        forall|other: Seq<char>| #[trigger] ("publisher_"@ + other) != "region"@,
        forall|other: Seq<char>| #[trigger] ("publisher_"@ + other) != "drc_use"@,
        forall|other: Seq<char>| #[trigger] ("publisher_"@ + other) != "reserved_flag2"@,
{
    reveal_strlit("product_code");
    reveal_strlit("title_id");
    reveal_strlit("group_id");
    reveal_strlit("region");
    reveal_strlit("drc_use");
    reveal_strlit("reserved_flag2");
    reveal_strlit("longname_");
    reveal_strlit("shortname_");
    reveal_strlit("publisher_");
    assert(("longname_"@ + suffix)[0] == 'l');
    assert(("shortname_"@ + suffix)[0] == 's');
    assert(("publisher_"@ + suffix)[0] == 'p');
    assert(("publisher_"@ + suffix)[1] == 'u');
    assert("product_code"@[0] == 'p' && "product_code"@[1] == 'r');
    assert("title_id"@[0] == 't');
    assert("group_id"@[0] == 'g');
    assert("region"@[0] == 'r' && "region"@.len() == 6);
    assert("drc_use"@[0] == 'd');
    assert("reserved_flag2"@[0] == 'r' && "reserved_flag2"@.len() == 14);
    assert forall|other: Seq<char>| true implies (#[trigger] ("longname_"@ + other))[0] == 'l' by {}
    assert forall|other: Seq<char>| true implies (#[trigger] ("shortname_"@ + other))[0]
        == 's' by {}
    assert forall|other: Seq<char>| true implies (#[trigger] ("publisher_"@ + other))[0] == 'p'
        && ("publisher_"@ + other)[1] == 'u' by {}
}

/// The text of `drc_use` is the single character `1` where the GamePad's screen is used and `0`
/// where it is not.
pub proof fn law_gamepad_use_is_told(o: MetaOptions)
    ensures
        replacement_of("drc_use"@, o) is Some,
        replacement_of("drc_use"@, o)->0.len() == 1,
        o.drc_use ==> replacement_of("drc_use"@, o)->0[0] == '1',
        !o.drc_use ==> replacement_of("drc_use"@, o)->0[0] == '0',
{
    lemma_names_differ(Seq::empty());
    reveal_strlit("1");
    reveal_strlit("0");
}

/// A title that uses the GamePad and one that does not get different texts in `drc_use`,
/// whatever else they have in common.
pub proof fn law_gamepad_choice_shows(a: MetaOptions, b: MetaOptions)
    requires
        a.drc_use != b.drc_use,
    ensures
        replacement_of("drc_use"@, a) != replacement_of("drc_use"@, b),
{
    law_gamepad_use_is_told(a);
    law_gamepad_use_is_told(b);
    assert(replacement_of("drc_use"@, a)->0[0] != replacement_of("drc_use"@, b)->0[0]);
}

/// The numbers are written in full, in upper-case hexadecimal of the width that a reader expects:
/// sixteen digits for the title id, eight for the others. Read as a number, each gives the one it
/// came from.
pub proof fn law_identifiers_read_back(o: MetaOptions)
    ensures
        replacement_of("title_id"@, o) matches Some(text) && text.len() == 16 && number_of(text, 16)
            == o.ids.title_id,
        replacement_of("group_id"@, o) matches Some(text) && text.len() == 8 && number_of(text, 16)
            == o.ids.group_id,
        replacement_of("region"@, o) matches Some(text) && text.len() == 8 && number_of(text, 16)
            == o.region,
        replacement_of("reserved_flag2"@, o) matches Some(text) && text.len() == 8 && number_of(
            text,
            16,
        ) == o.ids.reserved_flag2,
        replacement_of("product_code"@, o) == Some(o.ids.product_code@),
{
    lemma_names_differ(Seq::empty());
    lemma_hex_widths();
    law_fixed_hex_reads_back(o.ids.title_id as nat, 16);
    law_fixed_hex_reads_back(o.ids.group_id as nat, 8);
    law_fixed_hex_reads_back(o.region as nat, 8);
    law_fixed_hex_reads_back(o.ids.reserved_flag2 as nat, 8);
}

/// Whatever the language, the long name, the short name and the publisher are those that were
/// given.
pub proof fn law_names_are_given_in_every_language(o: MetaOptions, k: int)
    requires
        0 <= k < 12,
    ensures
        ({
            let language = seq![
                "ja"@,
                "en"@,
                "fr"@,
                "de"@,
                "it"@,
                "es"@,
                "zhs"@,
                "ko"@,
                "nl"@,
                "pt"@,
                "ru"@,
                "zht"@,
            ][k];
            &&& replacement_of("longname_"@ + language, o) == Some(o.long_name@)
            &&& replacement_of("shortname_"@ + language, o) == Some(o.short_name@)
            &&& replacement_of("publisher_"@ + language, o) == Some(o.publisher@)
        }),
{
    let languages = seq![
        "ja"@,
        "en"@,
        "fr"@,
        "de"@,
        "it"@,
        "es"@,
        "zhs"@,
        "ko"@,
        "nl"@,
        "pt"@,
        "ru"@,
        "zht"@,
    ];
    let language = languages[k];
    lemma_languages();
    lemma_names_differ(language);
    assert(LANGS@[k]@ == language);
    assert(localized("longname_"@, "longname_"@ + language));
    assert(localized("shortname_"@, "shortname_"@ + language));
    assert(localized("publisher_"@, "publisher_"@ + language));
    assert forall|j: int| 0 <= j < 12 implies "shortname_"@ + language != "longname_"@ + (
    #[trigger] LANGS@[j])@ by {
        assert("longname_"@ + LANGS@[j]@ != "shortname_"@ + language);
    }
    assert forall|j: int| 0 <= j < 12 implies "publisher_"@ + language != "longname_"@ + (
    #[trigger] LANGS@[j])@ by {
        assert("longname_"@ + LANGS@[j]@ != "publisher_"@ + language);
    }
    assert forall|j: int| 0 <= j < 12 implies "publisher_"@ + language != "shortname_"@ + (
    #[trigger] LANGS@[j])@ by {
        assert("shortname_"@ + LANGS@[j]@ != "publisher_"@ + language);
    }
}

/// An element of any other name keeps its text.
pub proof fn law_other_elements_keep_their_text(
    name: Seq<char>,
    o: MetaOptions,
    languages: Seq<Seq<char>>,
)
    requires
        languages == seq![
            "ja"@,
            "en"@,
            "fr"@,
            "de"@,
            "it"@,
            "es"@,
            "zhs"@,
            "ko"@,
            "nl"@,
            "pt"@,
            "ru"@,
            "zht"@,
        ],
        name != "product_code"@,
        name != "title_id"@,
        name != "group_id"@,
        name != "region"@,
        name != "drc_use"@,
        name != "reserved_flag2"@,
        forall|k: int|
            0 <= k < 12 ==> {
                let language = #[trigger] languages[k];
                &&& name != "longname_"@ + language
                &&& name != "shortname_"@ + language
                &&& name != "publisher_"@ + language
            },
    ensures
        replacement_of(name, o) is None,
{
    lemma_languages();
    assert forall|k: int| 0 <= k < 12 implies {
        &&& name != "longname_"@ + (#[trigger] LANGS@[k])@
        &&& name != "shortname_"@ + LANGS@[k]@
        &&& name != "publisher_"@ + LANGS@[k]@
    } by {
        assert(languages[k] == LANGS@[k]@);
    }
}

/// The start tag of an element to be replaced stays as it is, the new text, escaped, follows it,
/// and then what closes the element; what stood between is gone. The rest is patched in turn.
pub proof fn law_element_text_is_replaced(
    events: Seq<EventView>,
    i: int,
    o: MetaOptions,
    content: Seq<u8>,
    text: Seq<char>,
    end: int,
    kind: XmlKind,
    inner: Seq<u8>,
)
    requires
        0 <= i < end < events.len(),
        events[i] == (EventView::Read { kind: XmlKind::Start, content }),
        replacement_of(lossy_text(tag_name(content)), o) == Some(text),
        length_fault(content, text) is None,
        if events[i + 1] matches EventView::Read { kind: XmlKind::Text, .. } {
            end == i + 2
        } else {
            end == i + 1
        },
        events[end] == (EventView::Read { kind, content: inner }),
    ensures
        match patched_from(events, end + 1, o) {
            Ok(rest) => patched_from(events, i, o) == Ok::<Seq<u8>, PatchFault>(
                seq![0x3Cu8] + content + seq![0x3Eu8] + encode_utf8(escaped(text)) + written(
                    kind,
                    inner,
                ) + rest,
            ),
            Err(fault) => patched_from(events, i, o) == Err::<Seq<u8>, PatchFault>(fault),
        },
{
    law_events_are_written_between_their_marks(content);
}

/// A self-closing element to be replaced is opened up around the new text.
pub proof fn law_empty_element_is_filled(
    events: Seq<EventView>,
    i: int,
    o: MetaOptions,
    content: Seq<u8>,
    text: Seq<char>,
)
    requires
        0 <= i < events.len(),
        events[i] == (EventView::Read { kind: XmlKind::Empty, content }),
        replacement_of(lossy_text(tag_name(content)), o) == Some(text),
        length_fault(content, text) is None,
    ensures
        match patched_from(events, i + 1, o) {
            Ok(rest) => patched_from(events, i, o) == Ok::<Seq<u8>, PatchFault>(
                seq![0x3Cu8] + content + seq![0x3Eu8] + encode_utf8(escaped(text)) + (seq![
                    0x3Cu8,
                    0x2Fu8,
                ] + tag_name(content) + seq![0x3Eu8]) + rest,
            ),
            Err(fault) => patched_from(events, i, o) == Err::<Seq<u8>, PatchFault>(fault),
        },
{
    law_events_are_written_between_their_marks(content);
    law_events_are_written_between_their_marks(tag_name(content));
}

/// The element `drc_use` of a patched document holds the byte `1` where the GamePad's screen is
/// used and `0` where it is not, between the tags that it had.
pub proof fn law_gamepad_element_is_patched(
    events: Seq<EventView>,
    i: int,
    o: MetaOptions,
    content: Seq<u8>,
    end: int,
    kind: XmlKind,
    inner: Seq<u8>,
    rest: Seq<u8>,
)
    requires
        0 <= i < end < events.len(),
        events[i] == (EventView::Read { kind: XmlKind::Start, content }),
        lossy_text(tag_name(content)) == "drc_use"@,
        length_fault(content, replacement_of("drc_use"@, o)->0) is None,
        if events[i + 1] matches EventView::Read { kind: XmlKind::Text, .. } {
            end == i + 2
        } else {
            end == i + 1
        },
        events[end] == (EventView::Read { kind, content: inner }),
        patched_from(events, end + 1, o) == Ok::<Seq<u8>, PatchFault>(rest),
    ensures
        patched_from(events, i, o) == Ok::<Seq<u8>, PatchFault>(
            seq![0x3Cu8] + content + seq![
                0x3Eu8,
                if o.drc_use {
                    0x31u8
                } else {
                    0x30u8
                },
            ] + written(kind, inner) + rest,
        ),
{
    let text = replacement_of("drc_use"@, o)->0;
    law_gamepad_use_is_told(o);
    law_markup_is_escaped(text[0]);
    assert(text =~= seq![text[0]]);
    assert(escaped(text) == text);
    lemma_one_byte(text[0]);
    law_element_text_is_replaced(events, i, o, content, text, end, kind, inner);
    let byte = if o.drc_use {
        0x31u8
    } else {
        0x30u8
    };
    assert(seq![0x3Cu8] + content + seq![0x3Eu8] + seq![byte] + written(kind, inner) + rest
        =~= seq![0x3Cu8] + content + seq![0x3Eu8, byte] + written(kind, inner) + rest);
}

/// A digit is encoded as the byte of its code.
proof fn lemma_one_byte(c: char)
    requires
        '0' <= c <= '9',
    ensures
        encode_utf8(seq![c]) == seq![c as u8],
{
    let one = seq![c];
    let n = c as u32;
    vstd::utf8::char_is_scalar(c);
    vstd::utf8::char_u32_cast(c, n);
    assert(one.drop_first() =~= Seq::<char>::empty());
    assert(encode_utf8(one.drop_first()) =~= Seq::<u8>::empty());
    assert(n <= 0x7F ==> (n & 0x7F) as u8 == n as u8) by (bit_vector);
    assert(encode_utf8(one) =~= seq![c as u8]);
}

/// A text may be as long as its element declares and no longer; a hexadecimal value has to be
/// exactly as long. An element that declares no length, or another kind, takes any text.
pub proof fn law_declared_lengths_are_kept(
    field: Seq<char>,
    value: Seq<char>,
    kind: Seq<char>,
    text: Seq<char>,
    limit: int,
)
    requires
        usize_of(value) == Some(limit),
        limit * 2 <= usize::MAX,
    ensures
        ({
            let fault = declared_fault(
                field,
                AttributeView::Value(value),
                AttributeView::Value(kind),
                text,
            );
            &&& kind == seq!['s', 't', 'r', 'i', 'n', 'g'] ==> (fault is None <==> encode_utf8(
                escaped(text),
            ).len() <= limit)
            &&& kind == seq!['h', 'e', 'x', 'B', 'i', 'n', 'a', 'r', 'y'] ==> (fault is None
                <==> encode_utf8(text).len() == 2 * limit)
            &&& kind.len() != 6 && kind.len() != 9 ==> fault is None
        }),
        declared_fault(field, AttributeView::Absent, AttributeView::Value(kind), text) is None,
        declared_fault(field, AttributeView::Value(value), AttributeView::Absent, text) is None,
{
    reveal_strlit("string");
    reveal_strlit("hexBinary");
    assert("string"@ =~= seq!['s', 't', 'r', 'i', 'n', 'g']);
    assert("hexBinary"@ =~= seq!['h', 'e', 'x', 'B', 'i', 'n', 'a', 'r', 'y']);
}

/// A declared length is the number that its decimal digits spell; a sign in front is allowed.
pub proof fn law_declared_numbers_read_back(n: nat)
    requires
        n <= usize::MAX,
    ensures
        usize_of(decimal_of(n)) == Some(n as int),
        usize_of(seq!['+'] + decimal_of(n)) == Some(n as int),
{
    law_decimal_reads_back(n);
    lemma_digits_spell(decimal_of(n), n as int);
}

proof fn lemma_digits_spell(digits: Seq<char>, value: int)
    requires
        digits.len() > 0,
        forall|i: int| 0 <= i < digits.len() ==> 0x30 <= (#[trigger] digits[i]) as int <= 0x39,
        number_of(digits, 10) == value,
        value <= usize::MAX,
    ensures
        usize_of(digits) == Some(value),
        usize_of(seq!['+'] + digits) == Some(value),
{
    assert(digits.subrange(0, digits.len() as int) =~= digits);
    lemma_digits_read(digits, digits.len() as int, usize::MAX as int);
    assert(digits[0] != '+');
    let signed = seq!['+'] + digits;
    assert(signed[0] == '+');
    assert(signed.subrange(1, signed.len() as int) =~= digits);
}

proof fn lemma_digits_read(digits: Seq<char>, n: int, most: int)
    requires
        0 <= n <= digits.len(),
        forall|i: int| 0 <= i < digits.len() ==> 0x30 <= (#[trigger] digits[i]) as int <= 0x39,
        number_of(digits.subrange(0, n), 10) <= most,
    ensures
        digits_value(digits, n, most) == Some(number_of(digits.subrange(0, n), 10)),
        number_of(digits.subrange(0, n), 10) >= 0,
    decreases n,
{
    let front = digits.subrange(0, n);
    if n > 0 {
        assert(front.drop_last() =~= digits.subrange(0, n - 1));
        assert(front.last() == digits[n - 1]);
        lemma_number_grows(digits.subrange(0, n - 1));
        lemma_digits_read(digits, n - 1, most);
    } else {
        assert(front =~= Seq::<char>::empty());
    }
}

proof fn lemma_number_grows(digits: Seq<char>)
    requires
        forall|i: int| 0 <= i < digits.len() ==> 0x30 <= (#[trigger] digits[i]) as int <= 0x39,
    ensures
        number_of(digits, 10) >= 0,
    decreases digits.len(),
{
    if digits.len() > 0 {
        lemma_number_grows(digits.drop_last());
    }
}

/// The byte order mark in front of a document is kept out of what is patched and put back in
/// front of it; nothing else is.
pub proof fn law_mark_and_body_make_the_document(text: Seq<char>)
    ensures
        mark_of(text) + body_of(text) == text,
        mark_of(text).len() == 1 <==> text.len() > 0 && text[0] as int == 0xFEFF,
        mark_of(text).len() <= 1,
        mark_of(text).len() == 1 ==> mark_of(text)[0] as int == 0xFEFF,
{
    assert(mark_of(text) + body_of(text) =~= text);
}

/// A text that does not fit is reported with the field's name, the length that it has and the
/// length that is declared; of a hexadecimal value the length that is expected is twice that.
pub proof fn law_misfits_are_reported(
    e: Error,
    field: Seq<char>,
    length: AttributeView,
    kind: AttributeView,
    text: Seq<char>,
    limit: nat,
)
    requires
        limit * 2 <= usize::MAX,
        length == AttributeView::Value(decimal_of(limit)),
        declared_fault(field, length, kind, text) is Some,
        patch_error(e, declared_fault(field, length, kind, text)->0),
        kind is Value,
    ensures
        e is FormatLimit,
        e matches Error::FormatLimit(LimitFault::MetaText { field: f, len, limit: most }) ==> {
            &&& kind == AttributeView::Value("string"@)
            &&& f@ == field
            &&& len == encode_utf8(escaped(text)).len()
            &&& most == limit
            &&& len > limit
        },
        e matches Error::FormatLimit(
            LimitFault::MetaHex { field: f, len, limit: most, expected },
        ) ==> {
            &&& kind == AttributeView::Value("hexBinary"@)
            &&& f@ == field
            &&& len == encode_utf8(text).len()
            &&& most == limit
            &&& expected == 2 * limit
            &&& len != expected
        },
{
    law_declared_numbers_read_back(limit);
}

} // verus!

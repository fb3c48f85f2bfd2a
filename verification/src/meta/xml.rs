//! Reading XML as a list of events, and writing events back.

use quick_xml::events::{BytesStart, Event};
use quick_xml::reader::Reader;
use vstd::prelude::*;
use vstd::utf8::{decode_utf8, valid_utf8};

use crate::util::append_bytes;

verus! {

/// `quick_xml::reader::Reader`: reads XML event by event.
#[verifier::external_type_specification]
#[verifier::external_body]
#[verifier::reject_recursive_types(R)]
pub struct ExReader<R>(Reader<R>);

/// What an event is.
#[derive(Clone, Copy, Debug, PartialEq, Eq, Structural)]
pub enum XmlKind {
    /// A start tag: its name and attributes.
    Start,
    /// An end tag: its name.
    End,
    /// A self-closing tag: its name and attributes.
    Empty,
    /// Text, escaped.
    Text,
    /// A CDATA section.
    CData,
    /// A comment.
    Comment,
    /// The XML declaration.
    Decl,
    /// A processing instruction.
    Instruction,
    /// A document type.
    DocType,
    /// The end of the document.
    Eof,
}

/// What a reader gives.
#[derive(Debug)]
pub enum XmlEvent {
    /// An event, with what stands between its delimiters.
    Read {
        /// What it is.
        kind: XmlKind,
        /// What it holds.
        content: Vec<u8>,
    },
    /// The document cannot be read on; holds what was reported.
    Broken(String),
}

/// What a reader gives, as a mathematical value.
#[verifier::ext_equal]
pub enum EventView {
    Read { kind: XmlKind, content: Seq<u8> },
    Broken(Seq<char>),
}

impl View for XmlEvent {
    type V = EventView;

    open spec fn view(&self) -> EventView {
        match *self {
            XmlEvent::Read { kind, content } => EventView::Read { kind, content: content@ },
            XmlEvent::Broken(report) => EventView::Broken(report@),
        }
    }
}

/// Whether nothing follows an event: the end of the document, or a fault.
pub open spec fn ends_document(e: EventView) -> bool {
    match e {
        EventView::Read { kind, .. } => kind == XmlKind::Eof,
        EventView::Broken(_) => true,
    }
}

/// The events of a document up to its end or its first fault, that one counted.
pub uninterp spec fn events_of(text: Seq<char>) -> Seq<EventView>;

/// The events that a reader has yet to give up to the end of the document or its first fault,
/// that one counted.
pub uninterp spec fn events_left(reader: Reader<&[u8]>) -> Seq<EventView>;

/// `Reader::from_str`: a reader at the start of a document. What it will give is a function of
/// the text alone, and it gives at least the end of the document.
#[verifier::external_body]
fn open_document<'a>(text: &'a str) -> (r: Reader<&'a [u8]>)
    ensures
        events_left(r) == events_of(text@),
        events_left(r).len() > 0,
{
    Reader::from_str(text)
}

/// `Reader::read_event`: gives the next event and goes on behind it. The end of the document, or a
/// fault, is the last event that counts; nothing is said of a reader that has given it.
#[verifier::external_body]
fn next_event(reader: &mut Reader<&[u8]>) -> (r: XmlEvent)
    requires
        events_left(*old(reader)).len() > 0,
    ensures
        r@ == events_left(*old(reader))[0],
        ends_document(r@) == (events_left(*old(reader)).len() == 1),
        !ends_document(r@) ==> events_left(*final(reader)) == events_left(
            *old(reader),
        ).drop_first(),
{
    let read = reader.read_event().map_err(|e| XmlEvent::Broken(e.to_string()));
    let event = match read { Ok(event) => event, Err(broken) => return broken };
    let kind = match &event {
        Event::Start(_) => XmlKind::Start,
        Event::End(_) => XmlKind::End,
        Event::Empty(_) => XmlKind::Empty,
        Event::Text(_) => XmlKind::Text,
        Event::CData(_) => XmlKind::CData,
        Event::Comment(_) => XmlKind::Comment,
        Event::Decl(_) => XmlKind::Decl,
        Event::PI(_) => XmlKind::Instruction,
        Event::DocType(_) => XmlKind::DocType,
        Event::Eof => XmlKind::Eof,
    };
    XmlEvent::Read { kind, content: event.to_vec() }
}

/// The views of a list of events.
pub open spec fn event_views(events: Seq<XmlEvent>) -> Seq<EventView> {
    Seq::new(events.len(), |i: int| events[i]@)
}

/// Read all events of a document, up to its end or its first fault.
pub fn read_events(text: &str) -> (events: Vec<XmlEvent>)
    ensures
        event_views(events@) == events_of(text@),
        events@.len() > 0,
        forall|i: int|
            0 <= i < events@.len() ==> ends_document((#[trigger] events@[i])@) == (i
                == events@.len() - 1),
{
    let mut reader = open_document(text);
    let ghost all = events_of(text@);
    let mut events: Vec<XmlEvent> = Vec::new();
    assert(all.subrange(0, all.len() as int) =~= all);
    loop
        invariant_except_break
            events@.len() < all.len(),
            events_left(reader) == all.subrange(events@.len() as int, all.len() as int),
            forall|i: int| 0 <= i < events@.len() ==> !ends_document((#[trigger] events@[i])@),
        invariant
            all == events_of(text@),
            events@.len() <= all.len(),
            event_views(events@) == all.subrange(0, events@.len() as int),
        ensures
            events@.len() == all.len(),
            events@.len() > 0,
            forall|i: int|
                0 <= i < events@.len() ==> ends_document((#[trigger] events@[i])@) == (i
                    == events@.len() - 1),
        decreases all.len() - events@.len(),
    {
        let ghost before = events@;
        let event: XmlEvent = next_event(&mut reader);
        let last: bool = match &event {
            XmlEvent::Read { kind, .. } => *kind == XmlKind::Eof,
            XmlEvent::Broken(_) => true,
        };
        assert(event@ == all[before.len() as int]);
        events.push(event);
        assert(event_views(events@) =~= all.subrange(0, events@.len() as int));
        if last {
            break;
        }
        assert(events_left(reader) =~= all.subrange(events@.len() as int, all.len() as int));
    }
    assert(event_views(events@) =~= all);
    events
}

/// What stands in front of an event's content.
pub open spec fn opening(kind: XmlKind) -> Seq<u8> {
    match kind {
        XmlKind::Start | XmlKind::Empty => seq![0x3Cu8],
        XmlKind::End => seq![0x3Cu8, 0x2Fu8],
        XmlKind::Text | XmlKind::Eof => Seq::empty(),
        XmlKind::CData => seq![
            0x3Cu8, 0x21u8, 0x5Bu8, 0x43u8, 0x44u8, 0x41u8, 0x54u8, 0x41u8, 0x5Bu8,
        ],
        XmlKind::Comment => seq![0x3Cu8, 0x21u8, 0x2Du8, 0x2Du8],
        XmlKind::Decl | XmlKind::Instruction => seq![0x3Cu8, 0x3Fu8],
        XmlKind::DocType => seq![
            0x3Cu8, 0x21u8, 0x44u8, 0x4Fu8, 0x43u8, 0x54u8, 0x59u8, 0x50u8, 0x45u8, 0x20u8,
        ],
    }
}

/// What stands behind an event's content.
pub open spec fn closing(kind: XmlKind) -> Seq<u8> {
    match kind {
        XmlKind::Start | XmlKind::End | XmlKind::DocType => seq![0x3Eu8],
        XmlKind::Empty => seq![0x2Fu8, 0x3Eu8],
        XmlKind::Text | XmlKind::Eof => Seq::empty(),
        XmlKind::CData => seq![0x5Du8, 0x5Du8, 0x3Eu8],
        XmlKind::Comment => seq![0x2Du8, 0x2Du8, 0x3Eu8],
        XmlKind::Decl | XmlKind::Instruction => seq![0x3Fu8, 0x3Eu8],
    }
}

/// An event as it stands in a document: its content between its delimiters.
pub open spec fn written(kind: XmlKind, content: Seq<u8>) -> Seq<u8> {
    if kind == XmlKind::Eof {
        Seq::empty()
    } else {
        opening(kind) + content + closing(kind)
    }
}

/// Write an event.
pub fn write_event(out: &mut Vec<u8>, kind: XmlKind, content: &[u8])
    ensures
        final(out)@ == old(out)@ + written(kind, content@),
{
    if kind == XmlKind::Eof {
        assert(out@ =~= old(out)@ + written(kind, content@));
        return;
    }
    let front: Vec<u8> = match kind {
        XmlKind::Start | XmlKind::Empty => vec![0x3Cu8],
        XmlKind::End => vec![0x3Cu8, 0x2Fu8],
        XmlKind::Text | XmlKind::Eof => Vec::new(),
        XmlKind::CData => vec![
            0x3Cu8, 0x21u8, 0x5Bu8, 0x43u8, 0x44u8, 0x41u8, 0x54u8, 0x41u8, 0x5Bu8,
        ],
        XmlKind::Comment => vec![0x3Cu8, 0x21u8, 0x2Du8, 0x2Du8],
        XmlKind::Decl | XmlKind::Instruction => vec![0x3Cu8, 0x3Fu8],
        XmlKind::DocType => vec![
            0x3Cu8, 0x21u8, 0x44u8, 0x4Fu8, 0x43u8, 0x54u8, 0x59u8, 0x50u8, 0x45u8, 0x20u8,
        ],
    };
    assert(front@ =~= opening(kind));
    let back: Vec<u8> = match kind {
        XmlKind::Start | XmlKind::End | XmlKind::DocType => vec![0x3Eu8],
        XmlKind::Empty => vec![0x2Fu8, 0x3Eu8],
        XmlKind::Text | XmlKind::Eof => Vec::new(),
        XmlKind::CData => vec![0x5Du8, 0x5Du8, 0x3Eu8],
        XmlKind::Comment => vec![0x2Du8, 0x2Du8, 0x3Eu8],
        XmlKind::Decl | XmlKind::Instruction => vec![0x3Fu8, 0x3Eu8],
    };
    assert(back@ =~= closing(kind));
    append_bytes(out, front.as_slice());
    append_bytes(out, content);
    append_bytes(out, back.as_slice());
    assert(out@ =~= old(out)@ + written(kind, content@));
}

/// Whether a byte is XML white space.
pub open spec fn xml_white(b: u8) -> bool {
    b == 0x20 || b == 0x0D || b == 0x0A || b == 0x09
}

/// The first white space of a tag from `i` on; the length where there is none.
pub open spec fn word_end(content: Seq<u8>, i: int) -> int
    decreases content.len() - i,
{
    if 0 <= i < content.len() && !xml_white(content[i]) {
        word_end(content, i + 1)
    } else {
        i
    }
}

/// The length of a tag's name: up to the first white space.
pub fn name_len(content: &[u8]) -> (r: usize)
    ensures
        r == word_end(content@, 0),
        r <= content@.len(),
{
    let mut i: usize = 0;
    while i < content.len()
        invariant
            i <= content@.len(),
            word_end(content@, 0) == word_end(content@, i as int),
        decreases content@.len() - i,
    {
        let b: u8 = content[i];
        if b == 0x20 || b == 0x0D || b == 0x0A || b == 0x09 {
            return i;
        }
        i += 1;
    }
    i
}

/// The name of a tag.
pub open spec fn tag_name(content: Seq<u8>) -> Seq<u8> {
    content.subrange(0, word_end(content, 0))
}

/// What is read of an attribute.
#[derive(Debug)]
pub enum Attribute {
    /// The tag does not have it.
    Absent,
    /// Its value, unescaped.
    Value(String),
    /// The attributes cannot be read; holds what was reported.
    Broken(String),
}

/// What is read of an attribute, as a mathematical value.
pub enum AttributeView {
    Absent,
    Value(Seq<char>),
    Broken(Seq<char>),
}

impl View for Attribute {
    type V = AttributeView;

    open spec fn view(&self) -> AttributeView {
        match *self {
            Attribute::Absent => AttributeView::Absent,
            Attribute::Value(value) => AttributeView::Value(value@),
            Attribute::Broken(report) => AttributeView::Broken(report@),
        }
    }
}

/// An attribute of the tag with the given content, whose name is `name_len` bytes long.
pub uninterp spec fn attribute_of(content: Seq<u8>, name_len: int, name: Seq<char>) -> AttributeView;

/// `BytesStart::try_get_attribute`, the value unescaped: the first attribute of a tag with the
/// given name. The result is a function of the tag and the name alone.
#[verifier::external_body]
pub(crate) fn attribute(content: &[u8], name_len: usize, name: &str) -> (r: Attribute)
    requires
        name_len <= content@.len(),
    ensures
        r@ == attribute_of(content@, name_len as int, name@),
{
    let start = BytesStart::from_content(String::from_utf8_lossy(content), name_len);
    match start.try_get_attribute(name) {
        Ok(None) => Attribute::Absent,
        Ok(Some(found)) => match found.unescape_value() {
            Ok(value) => Attribute::Value(value.into_owned()),
            Err(e) => Attribute::Broken(e.to_string()),
        },
        Err(e) => Attribute::Broken(quick_xml::Error::from(e).to_string()),
    }
}

/// A character as it stands in escaped text.
pub open spec fn escaped_char(c: char) -> Seq<char> {
    if c == '<' {
        "&lt;"@
    } else if c == '>' {
        "&gt;"@
    } else if c == '&' {
        "&amp;"@
    } else if c == '\'' {
        "&apos;"@
    } else if c == '"' {
        "&quot;"@
    } else {
        seq![c]
    }
}

/// A text with the characters that mean something in XML escaped.
pub open spec fn escaped(text: Seq<char>) -> Seq<char>
    decreases text.len(),
{
    if text.len() == 0 {
        Seq::empty()
    } else {
        escaped(text.drop_last()) + escaped_char(text.last())
    }
}

/// `quick_xml::escape::escape`: replaces `<`, `>`, `&`, `'` and `"` by their entities and leaves
/// every other character as it is.
#[verifier::external_body]
pub(crate) fn escape_text(text: &str) -> (r: String)
    ensures
        r@ == escaped(text@),
{
    quick_xml::escape::escape(text).into_owned()
}

/// `String::from_utf8`: valid UTF-8 is taken as text, other bytes are refused. What is reported
/// of them is not stated.
#[verifier::external_body]
pub(crate) fn text_from_utf8(bytes: Vec<u8>) -> (r: Result<String, String>)
    ensures
        match r {
            Ok(text) => valid_utf8(bytes@) && text@ == decode_utf8(bytes@),
            Err(_) => !valid_utf8(bytes@),
        },
{
    String::from_utf8(bytes).map_err(|e| e.to_string())
}

/// What is written is what XML asks for: the content between the marks of its kind, and nothing
/// for the end of the document.
pub proof fn law_events_are_written_between_their_marks(content: Seq<u8>)
    ensures
        written(XmlKind::Start, content) == seq![0x3Cu8] + content + seq![0x3Eu8],
        written(XmlKind::Empty, content) == seq![0x3Cu8] + content + seq![0x2Fu8, 0x3Eu8],
        written(XmlKind::End, content) == seq![0x3Cu8, 0x2Fu8] + content + seq![0x3Eu8],
        written(XmlKind::Text, content) == content,
        written(XmlKind::Eof, content).len() == 0,
        written(XmlKind::Comment, content) == seq![0x3Cu8, 0x21u8, 0x2Du8, 0x2Du8] + content
            + seq![0x2Du8, 0x2Du8, 0x3Eu8],
        written(XmlKind::Decl, content) == seq![0x3Cu8, 0x3Fu8] + content + seq![0x3Fu8, 0x3Eu8],
        written(XmlKind::Instruction, content) == seq![0x3Cu8, 0x3Fu8] + content
            + seq![0x3Fu8, 0x3Eu8],
        written(XmlKind::CData, content) == seq![
            0x3Cu8, 0x21u8, 0x5Bu8, 0x43u8, 0x44u8, 0x41u8, 0x54u8, 0x41u8, 0x5Bu8,
        ] + content + seq![0x5Du8, 0x5Du8, 0x3Eu8],
        written(XmlKind::DocType, content) == seq![
            0x3Cu8, 0x21u8, 0x44u8, 0x4Fu8, 0x43u8, 0x54u8, 0x59u8, 0x50u8, 0x45u8, 0x20u8,
        ] + content + seq![0x3Eu8],
{
    assert(written(XmlKind::Text, content) =~= content);
}

proof fn lemma_word_end(content: Seq<u8>, i: int)
    requires
        0 <= i <= content.len(),
    ensures
        i <= word_end(content, i) <= content.len(),
        forall|k: int| i <= k < word_end(content, i) ==> !xml_white(#[trigger] content[k]),
        word_end(content, i) < content.len() ==> xml_white(content[word_end(content, i)]),
    decreases content.len() - i,
{
    if i < content.len() && !xml_white(content[i]) {
        lemma_word_end(content, i + 1);
    }
}

/// The name of a tag is what stands before its first space, tab, carriage return or line feed,
/// and the whole of it where there is none.
pub proof fn law_tag_name_ends_at_white_space(content: Seq<u8>)
    ensures
        tag_name(content).len() <= content.len(),
        tag_name(content) == content.subrange(0, tag_name(content).len() as int),
        forall|k: int|
            0 <= k < tag_name(content).len() ==> {
                let b = #[trigger] content[k];
                b != 0x20 && b != 0x09 && b != 0x0D && b != 0x0A
            },
        tag_name(content).len() < content.len() ==> {
            let b = content[tag_name(content).len() as int];
            b == 0x20 || b == 0x09 || b == 0x0D || b == 0x0A
        },
{
    lemma_word_end(content, 0);
}

/// A tag that starts with a name and white space, or is nothing but a name, has that name.
pub proof fn law_tag_is_named_by_its_first_word(content: Seq<u8>, n: int)
    requires
        0 <= n <= content.len(),
        forall|k: int|
            0 <= k < n ==> {
                let b = #[trigger] content[k];
                b != 0x20 && b != 0x09 && b != 0x0D && b != 0x0A
            },
        n < content.len() ==> {
            let b = content[n];
            b == 0x20 || b == 0x09 || b == 0x0D || b == 0x0A
        },
    ensures
        tag_name(content) == content.subrange(0, n),
        word_end(content, 0) == n,
{
    lemma_word_end(content, 0);
    let e = word_end(content, 0);
    if e < n {
        assert(xml_white(content[e]));
    }
    if n < e {
        assert(!xml_white(content[n]));
    }
}

/// Escaping goes character by character.
pub proof fn law_escaping_goes_by_character(a: Seq<char>, b: Seq<char>)
    ensures
        escaped(a + b) == escaped(a) + escaped(b),
    decreases b.len(),
{
    if b.len() == 0 {
        assert(a + b =~= a);
        assert(escaped(a) + escaped(b) =~= escaped(a));
    } else {
        law_escaping_goes_by_character(a, b.drop_last());
        assert((a + b).drop_last() =~= a + b.drop_last());
        assert((a + b).last() == b.last());
        assert(escaped(a + b) =~= escaped(a) + escaped(b));
    }
}

/// The five characters that mean something in XML become their entities; a character that means
/// nothing stays.
pub proof fn law_markup_is_escaped(c: char)
    ensures
        escaped(seq!['<']) == seq!['&', 'l', 't', ';'],
        escaped(seq!['>']) == seq!['&', 'g', 't', ';'],
        escaped(seq!['&']) == seq!['&', 'a', 'm', 'p', ';'],
        escaped(seq!['\'']) == seq!['&', 'a', 'p', 'o', 's', ';'],
        escaped(seq!['"']) == seq!['&', 'q', 'u', 'o', 't', ';'],
        c != '<' && c != '>' && c != '&' && c != '\'' && c != '"' ==> escaped(seq![c]) == seq![c],
{
    reveal_strlit("&lt;");
    reveal_strlit("&gt;");
    reveal_strlit("&amp;");
    reveal_strlit("&apos;");
    reveal_strlit("&quot;");
    lemma_escaped_one('<');
    lemma_escaped_one('>');
    lemma_escaped_one('&');
    lemma_escaped_one('\'');
    lemma_escaped_one('"');
    lemma_escaped_one(c);
    assert("&lt;"@ =~= seq!['&', 'l', 't', ';']);
    assert("&gt;"@ =~= seq!['&', 'g', 't', ';']);
    assert("&amp;"@ =~= seq!['&', 'a', 'm', 'p', ';']);
    assert("&apos;"@ =~= seq!['&', 'a', 'p', 'o', 's', ';']);
    assert("&quot;"@ =~= seq!['&', 'q', 'u', 'o', 't', ';']);
}

proof fn lemma_escaped_one(c: char)
    ensures
        escaped(seq![c]) == escaped_char(c),
{
    let one = seq![c];
    assert(one.drop_last() =~= Seq::<char>::empty());
    assert(escaped(one.drop_last()) =~= Seq::<char>::empty());
    assert(escaped(one) =~= escaped_char(c));
}

} // verus!

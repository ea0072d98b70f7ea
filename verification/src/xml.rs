//! A plain-valued model of the XML events that `quick_xml` reads and writes.
//!
//! The reading, attribute parsing and writing itself is done by `quick_xml`; the items in this
//! module are the trusted boundary to it, stated over plain values.
use vstd::prelude::*;
use vstd::utf8::encode_utf8;
use quick_xml::events::attributes::{AttrError, Attributes};
use quick_xml::events::{BytesCData, BytesDecl, BytesEnd, BytesPI, BytesRef, BytesStart, BytesText, Event};
use quick_xml::Reader;
use crate::text::bytes_prefix_eq;
use crate::xml::XmlEventKind::{CData, Comment, Decl, DocType, Empty, End, Eof, GeneralRef, PI, Start, Text};

verus! {

#[verifier::external_type_specification]
#[verifier::external_body]
#[verifier::reject_recursive_types(R)]
pub struct ExXmlReader<R>(quick_xml::Reader<R>);

#[verifier::external_type_specification]
#[verifier::external_body]
pub struct ExXmlError(quick_xml::Error);

#[verifier::external_type_specification]
#[verifier::external_body]
pub struct ExXmlAttrError(quick_xml::events::attributes::AttrError);

/// The kinds of events an XML reader produces.
#[derive(Clone, Copy, Debug, PartialEq, Eq, Structural)]
pub enum XmlEventKind {
    Start,
    End,
    Empty,
    Text,
    CData,
    Comment,
    Decl,
    PI,
    DocType,
    GeneralRef,
    Eof,
}

/// One XML event, as plain values: its kind, its raw content (the text between the markup
/// delimiters, e.g. `tag attr="v"` for `<tag attr="v">`) and, for tags, the length in bytes of
/// the tag name at the start of the content.
#[derive(Clone, Debug)]
pub struct XmlEvent {
    pub kind: XmlEventKind,
    pub content: String,
    pub name_len: usize,
}

/// The mathematical view of an [`XmlEvent`].
pub struct XmlItem {
    pub kind: XmlEventKind,
    pub content: Seq<char>,
    pub name_len: nat,
}

impl View for XmlEvent {
    type V = XmlItem;

    open spec fn view(&self) -> XmlItem {
        XmlItem { kind: self.kind, content: self.content@, name_len: self.name_len as nat }
    }
}

/// An event of a given kind.
pub open spec fn xml_item_is(t: Option<XmlItem>, kind: XmlEventKind) -> bool {
    t matches Some(item) && item.kind == kind
}

/// The end of an event stream: a read error (`None`) or the end of the document.
pub open spec fn xml_is_terminal(t: Option<XmlItem>) -> bool {
    t is None || xml_item_is(t, XmlEventKind::Eof)
}

/// How many start tags are still open after the events `s`.
pub open spec fn xml_open_depth(s: Seq<Option<XmlItem>>) -> int
    decreases s.len(),
{
    if s.len() == 0 {
        0
    } else {
        xml_open_depth(s.drop_last()) + if xml_item_is(s.last(), XmlEventKind::Start) {
            1int
        } else if xml_item_is(s.last(), XmlEventKind::End) {
            -1int
        } else {
            0int
        }
    }
}

/// Every end tag among the events closes a start tag that is still open.
pub open spec fn xml_end_tags_nested(s: Seq<Option<XmlItem>>) -> bool {
    forall|i: int|
        0 <= i < s.len() && xml_item_is(#[trigger] s[i], XmlEventKind::End) ==> xml_open_depth(s.take(i))
            > 0
}

/// A finite stream of read results: it ends with its only terminal item, and every end tag
/// closes a start tag that is still open.
pub open spec fn xml_stream_wf(s: Seq<Option<XmlItem>>) -> bool {
    &&& s.len() > 0
    &&& xml_is_terminal(s.last())
    &&& forall|i: int| 0 <= i < s.len() - 1 ==> !xml_is_terminal(#[trigger] s[i])
    &&& xml_end_tags_nested(s)
}

/// Events that were read, as stream items.
pub open spec fn xml_event_items(events: Seq<XmlEvent>) -> Seq<Option<XmlItem>> {
    Seq::new(events.len(), |i: int| Some(events[i]@))
}

/// The tag name lengths of the events fall on character boundaries of their contents.
pub open spec fn xml_events_on_boundaries(events: Seq<XmlEvent>) -> bool {
    forall|i: int| 0 <= i < events.len() ==> xml_char_boundary(#[trigger] events[i].content@, events[i].name_len as nat)
}

/// The UTF-8 bytes of an event's content.
pub open spec fn xml_content_bytes(item: XmlItem) -> Seq<u8> {
    encode_utf8(item.content)
}

/// The tag name of an event is `name`.
pub open spec fn xml_item_name_is(item: XmlItem, name: Seq<char>) -> bool {
    &&& item.name_len <= xml_content_bytes(item).len()
    &&& xml_content_bytes(item).subrange(0, item.name_len as int) == encode_utf8(name)
}

/// `pos` is a byte position of the UTF-8 encoding of `content` that falls between two of its
/// characters (or at its start or end).
pub open spec fn xml_char_boundary(content: Seq<char>, pos: nat) -> bool {
    exists|k: int| 0 <= k <= content.len() && #[trigger] encode_utf8(content.take(k)).len() == pos
}

/// The markup that writes an event back: its content between the delimiters of its kind.
pub open spec fn xml_markup(item: XmlItem) -> Seq<char> {
    let c = item.content;
    match item.kind {
        XmlEventKind::Start => seq!['<'] + c + seq!['>'],
        XmlEventKind::End => seq!['<', '/'] + c + seq!['>'],
        XmlEventKind::Empty => seq!['<'] + c + seq!['/', '>'],
        XmlEventKind::Text => c,
        XmlEventKind::CData => seq!['<', '!', '[', 'C', 'D', 'A', 'T', 'A', '['] + c + seq![']', ']', '>'],
        XmlEventKind::Comment => seq!['<', '!', '-', '-'] + c + seq!['-', '-', '>'],
        XmlEventKind::Decl => seq!['<', '?'] + c + seq!['?', '>'],
        XmlEventKind::PI => seq!['<', '?'] + c + seq!['?', '>'],
        XmlEventKind::DocType => seq!['<', '!', 'D', 'O', 'C', 'T', 'Y', 'P', 'E', ' '] + c + seq!['>'],
        XmlEventKind::GeneralRef => seq!['&'] + c + seq![';'],
        XmlEventKind::Eof => Seq::empty(),
    }
}

/// The results that successive `read_event` calls give on a reader, up to and including the
/// first end of document or error (`None`).
pub uninterp spec fn xml_reader_pending(r: quick_xml::Reader<&[u8]>) -> Seq<Option<XmlItem>>;

/// The results that a `quick_xml` reader gives on the bytes `input`, up to and including the
/// first end of document or error (`None`).
pub uninterp spec fn xml_parse_events(input: Seq<u8>) -> Seq<Option<XmlItem>>;

/// The attributes that `Attributes::new(buf, pos)` gives, in order: `(key, raw value)` pairs,
/// or `None` for a malformed attribute.
pub uninterp spec fn xml_attributes_of(buf: Seq<char>, pos: nat) -> Seq<Option<(Seq<char>, Seq<char>)>>;

/// What `BytesStart::try_get_attribute(key)` gives on a tag with the given content and name
/// length: `None` for an attribute error, else the raw value of the first attribute with that key.
pub uninterp spec fn xml_tag_attribute(content: Seq<char>, name_len: nat, key: Seq<char>) -> Option<
    Option<Seq<char>>,
>;

/// `quick_xml::Reader::from_reader` on a byte slice. The reader gives the events that
/// `xml_parse_events` names for these bytes; the stream is finite and ends at its first end of
/// document or error, and (the reader checks end tags by default) every end tag closes an open
/// start tag.
#[verifier::external_body]
pub(crate) fn xml_reader_from_bytes(input: &[u8]) -> (r: Reader<&[u8]>)
    ensures
        xml_reader_pending(r) == xml_parse_events(input@),
        xml_stream_wf(xml_reader_pending(r)),
{
    Reader::from_reader(input)
}

/// `quick_xml::Reader::from_str`. Without the `encoding` feature this is `from_reader` on the
/// string's UTF-8 bytes, so it gives the same events.
#[verifier::external_body]
pub(crate) fn xml_reader_from_str(s: &str) -> (r: Reader<&[u8]>)
    ensures
        xml_reader_pending(r) == xml_parse_events(encode_utf8(s@)),
        xml_stream_wf(xml_reader_pending(r)),
{
    Reader::from_str(s)
}

/// `quick_xml::Reader::read_event`: gives the next pending result as its kind, its content and,
/// for start and empty tags, the length of the tag name (`0` for other events). The name length
/// falls on a character boundary of the content: `name()` slices the content's `str` there.
#[verifier::external_body]
pub(crate) fn xml_read_event(reader: &mut Reader<&[u8]>) -> (r: Result<(XmlEventKind, String, usize), quick_xml::Error>)
    requires
        xml_reader_pending(*old(reader)).len() > 0,
    ensures
        xml_reader_pending(*final(reader)) == xml_reader_pending(*old(reader)).drop_first(),
        match xml_reader_pending(*old(reader))[0] {
            Some(item) => r matches Ok((kind, content, name_len)) && kind == item.kind
                && content@ == item.content && name_len == item.name_len && xml_char_boundary(
                item.content,
                item.name_len,
            ),
            None => r is Err,
        },
{
    let ev = reader.read_event()?;
    let (kind, name_len) = match &ev {
        Event::Start(e) => (Start, e.name().0.len()),
        Event::Empty(e) => (Empty, e.name().0.len()),
        Event::End(_) => (End, 0),
        Event::Text(_) => (Text, 0),
        Event::CData(_) => (CData, 0),
        Event::Comment(_) => (Comment, 0),
        Event::Decl(_) => (Decl, 0),
        Event::PI(_) => (PI, 0),
        Event::DocType(_) => (DocType, 0),
        Event::GeneralRef(_) => (GeneralRef, 0),
        Event::Eof => (Eof, 0),
    };
    Ok((kind, ev.to_string(), name_len))
}

/// The next event of a reader.
pub(crate) fn xml_next_event(reader: &mut Reader<&[u8]>) -> (r: Result<XmlEvent, quick_xml::Error>)
    requires
        xml_reader_pending(*old(reader)).len() > 0,
    ensures
        xml_reader_pending(*final(reader)) == xml_reader_pending(*old(reader)).drop_first(),
        match xml_reader_pending(*old(reader))[0] {
            Some(item) => r matches Ok(e) && e@ == item && xml_char_boundary(e@.content, e@.name_len),
            None => r is Err,
        },
{
    match xml_read_event(reader) {
        Ok((kind, content, name_len)) => Ok(XmlEvent { kind, content, name_len }),
        Err(e) => Err(e),
    }
}

/// Reads all the events of a reader up to its end of document or its first error: the events
/// before the terminal item, and the error if the reading stopped at one.
pub(crate) fn xml_read_events(source: Reader<&[u8]>) -> (r: (Vec<XmlEvent>, Result<(), quick_xml::Error>))
    requires
        xml_stream_wf(xml_reader_pending(source)),
    ensures
        xml_event_items(r.0@) == xml_reader_pending(source).take(xml_reader_pending(source).len() - 1),
        (r.1 is Ok) == (xml_reader_pending(source).last() is Some),
        xml_events_on_boundaries(r.0@),
{
    let ghost events = xml_reader_pending(source);
    let mut reader = source;
    let mut read: Vec<XmlEvent> = Vec::new();
    let mut result: Result<(), quick_xml::Error> = Ok(());
    loop
        invariant_except_break
            xml_stream_wf(events),
            0 <= read.len() < events.len(),
            xml_reader_pending(reader) == events.skip(read.len() as int),
            xml_event_items(read@) == events.take(read.len() as int),
            xml_events_on_boundaries(read@),
            result is Ok,
        ensures
            read.len() == events.len() - 1,
            xml_event_items(read@) == events.take(read.len() as int),
            xml_events_on_boundaries(read@),
            (result is Ok) == (events.last() is Some),
        decreases events.len() - read.len(),
    {
        let ghost i = read.len() as int;
        proof {
            assert(events.skip(i)[0] == events[i]);
        }
        match xml_next_event(&mut reader) {
            Err(e) => {
                assert(events[i] is None);
                assert(i == events.len() - 1);
                result = Err(e);
                break;
            },
            Ok(ev) => {
                if ev.kind == XmlEventKind::Eof {
                    assert(i == events.len() - 1);
                    break;
                }
                assert(i < events.len() - 1);
                read.push(ev);
                proof {
                    assert(xml_reader_pending(reader) =~= events.skip(i + 1));
                    assert(xml_event_items(read@) =~= events.take(i + 1));
                }
            },
        }
    }
    (read, result)
}

/// `quick_xml::Writer::write_event` into a byte vector: appends the event's markup (the writer
/// has no indentation configured and writes empty tags as `<.../>`). Writing into a `Vec<u8>`
/// does not fail.
#[verifier::external_body]
pub(crate) fn xml_write_event(out: &mut Vec<u8>, ev: &XmlEvent)
    ensures
        final(out)@ == old(out)@ + encode_utf8(xml_markup(ev@)),
{
    let c = ev.content.as_str();
    let _ = quick_xml::Writer::new(out).write_event(match ev.kind {
        Start => Event::Start(BytesStart::from_content(c, ev.name_len)),
        End => Event::End(BytesEnd::new(c)),
        Empty => Event::Empty(BytesStart::from_content(c, ev.name_len)),
        Text => Event::Text(BytesText::from_escaped(c)),
        CData => Event::CData(BytesCData::new(c)),
        Comment => Event::Comment(BytesText::from_escaped(c)),
        Decl => Event::Decl(BytesDecl::from_start(BytesStart::from_content(c, 0))),
        PI => Event::PI(BytesPI::new(c)),
        DocType => Event::DocType(BytesText::from_escaped(c)),
        GeneralRef => Event::GeneralRef(BytesRef::new(c)),
        Eof => Event::Eof,
    });
}

/// `quick_xml::events::attributes::Attributes::new` on a tag content, starting after the tag
/// name, run to its end: each attribute as `(key, raw value)`, or `None` for a malformed one.
/// The iterator slices the content's `str` at positions it finds from `name_len` on, so
/// `name_len` must fall on a character boundary.
#[verifier::external_body]
pub(crate) fn xml_tag_attribute_list(content: &str, name_len: usize) -> (r: Vec<Option<(String, String)>>)
    requires
        xml_char_boundary(content@, name_len as nat),
    ensures
        r.deep_view() == xml_attributes_of(content@, name_len as nat),
{
    Attributes::new(content, name_len)
        .map(|a| a.ok().map(|a| (a.key.0.to_owned(), a.value.into_owned())))
        .collect()
}

/// `BytesStart::try_get_attribute` on a tag with the given content and name length: the raw
/// value of the first attribute named `key`, `None` when there is none, or the first attribute
/// error met before it. It runs the attribute iterator from `name_len`, which must fall on a
/// character boundary.
#[verifier::external_body]
pub(crate) fn xml_try_get_attribute(content: &str, name_len: usize, key: &str) -> (r: Result<
    Option<String>,
    AttrError,
>)
    requires
        xml_char_boundary(content@, name_len as nat),
    ensures
        match xml_tag_attribute(content@, name_len as nat, key@) {
            None => r is Err,
            Some(None) => r matches Ok(None),
            Some(Some(v)) => r matches Ok(Some(s)) && s@ == v,
        },
{
    BytesStart::from_content(content, name_len).try_get_attribute(key).map(|o| o.map(|a| a.value.into_owned()))
}

/// Whether the tag name of an event is `name`.
pub fn xml_event_name_is(ev: &XmlEvent, name: &str) -> (r: bool)
    ensures
        r == xml_item_name_is(ev@, name@),
{
    let b = ev.content.as_str().as_bytes();
    bytes_prefix_eq(b, ev.name_len, name.as_bytes())
}

} // verus!

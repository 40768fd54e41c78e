//! Element events read from and written to save files.
//!
//! A save file is a stream of start tags, self-closing tags and end tags,
//! each start or self-closing tag with a list of attributes. Reading turns
//! bytes into such events and writing turns events into bytes; both are the
//! work of `quick_xml`, called here one event at a time. What the reader
//! finds has a name, `raw_event_at`; what the writer writes is told byte by
//! byte.
use vstd::prelude::*;
use vstd::slice::slice_subrange;
use vstd::utf8::decode_utf8;
use vstd::utf8::encode_utf8;
use vstd::utf8::valid_utf8;
use crate::error::ErrorKind;
use quick_xml::events::attributes::Attribute;
use quick_xml::events::attributes::Attributes;
use quick_xml::events::BytesEnd;
use quick_xml::events::BytesStart;
use quick_xml::events::Event;
use quick_xml::Reader;
use quick_xml::Writer;
use std::borrow::Cow;

verus! {

/// `quick_xml::Error`, of which nothing is known here but that it is a
/// failure.
#[verifier::external_type_specification]
#[verifier::external_body]
pub struct ExXmlError(quick_xml::Error);

/// `quick_xml::events::attributes::Attributes`, the iterator over the
/// attributes of one tag. What it holds is told by `attributes_state`.
#[verifier::external_type_specification]
#[verifier::external_body]
pub struct ExAttributes<'a>(Attributes<'a>);

/// `quick_xml::events::attributes::Attribute`, the item of that iterator.
/// Nothing is known here of what it holds.
#[verifier::external_type_specification]
#[verifier::external_body]
pub struct ExAttribute<'a>(Attribute<'a>);

/// A `quick_xml::Reader` over a byte slice. What it holds is told by
/// `reader_state`.
#[verifier::external_body]
pub struct EventReader<'a> {
    inner: Reader<&'a [u8]>,
}

/// A `quick_xml::Writer` that appends to a byte vector. What it holds is
/// told by `writer_state`.
#[verifier::external_body]
pub struct EventWriter {
    inner: Writer<Vec<u8>>,
}

/// One attribute of a tag: its name and its unescaped value.
#[derive(Debug, PartialEq, Eq)]
pub struct XmlAttribute {
    pub key: String,
    pub value: String,
}

/// What an `XmlAttribute` is to contracts.
pub struct XmlAttributeView {
    pub key: Seq<char>,
    pub value: Seq<char>,
}

/// The name and the attributes of a start tag or a self-closing tag.
#[derive(Debug, PartialEq, Eq)]
pub struct XmlTag {
    pub name: String,
    pub attributes: Vec<XmlAttribute>,
}

/// What an `XmlTag` is to contracts.
pub struct XmlTagView {
    pub name: Seq<char>,
    pub attributes: Seq<XmlAttributeView>,
}

/// One event of a save file.
#[derive(Debug, PartialEq, Eq)]
pub enum XmlEvent {
    /// `<name ...>`
    Start(XmlTag),
    /// `<name .../>`
    Empty(XmlTag),
    /// `</name>`
    End(String),
}

/// What an `XmlEvent` is to contracts.
pub enum XmlEventView {
    Start(XmlTagView),
    Empty(XmlTagView),
    End(Seq<char>),
}

impl View for XmlAttribute {
    type V = XmlAttributeView;

    open spec fn view(&self) -> XmlAttributeView {
        XmlAttributeView { key: self.key@, value: self.value@ }
    }
}

/// The views of a list of attributes.
pub open spec fn attribute_views(list: Seq<XmlAttribute>) -> Seq<XmlAttributeView> {
    list.map_values(|a: XmlAttribute| a@)
}

impl View for XmlTag {
    type V = XmlTagView;

    open spec fn view(&self) -> XmlTagView {
        XmlTagView { name: self.name@, attributes: attribute_views(self.attributes@) }
    }
}

impl View for XmlEvent {
    type V = XmlEventView;

    open spec fn view(&self) -> XmlEventView {
        match self {
            XmlEvent::Start(tag) => XmlEventView::Start(tag@),
            XmlEvent::Empty(tag) => XmlEventView::Empty(tag@),
            XmlEvent::End(name) => XmlEventView::End(name@),
        }
    }
}

/// The views of a list of events.
pub open spec fn event_views(list: Seq<XmlEvent>) -> Seq<XmlEventView> {
    list.map_values(|e: XmlEvent| e@)
}

/// How many elements are open after one event more, where `depth` were
/// open before: a start tag opens one and an end tag closes one. `None`
/// for an end tag where none is open.
pub open spec fn depth_step(depth: nat, event: XmlEventView) -> Option<nat> {
    match event {
        XmlEventView::Start(_) => Some(depth + 1),
        XmlEventView::Empty(_) => Some(depth),
        XmlEventView::End(_) => if depth == 0 {
            None
        } else {
            Some((depth - 1) as nat)
        },
    }
}

/// How many elements are open after a list of events; `None` where an end
/// tag comes with no element open.
pub open spec fn depth_after(events: Seq<XmlEventView>) -> Option<nat>
    decreases events.len(),
{
    if events.len() == 0 {
        Some(0nat)
    } else {
        match depth_after(events.drop_last()) {
            Some(d) => depth_step(d, events.last()),
            None => None,
        }
    }
}

/// Whether every element that a list of events opens is closed again, and
/// none is closed that was not opened.
pub open spec fn balanced(events: Seq<XmlEventView>) -> bool {
    depth_after(events) == Some(0nat)
}

/// What a writer holds: the bytes written so far, the indentation of the
/// next line, the indentation that one level of nesting adds, and whether
/// the next tag starts on a new line.
pub struct WriterState {
    pub output: Seq<u8>,
    pub indent: Seq<u8>,
    pub indent_unit: Seq<u8>,
    pub line_break: bool,
}

/// What a `quick_xml::Writer` holds: the bytes in its vector, and, of its
/// indentation, the bytes it would put at the start of a line now, the
/// bytes that one level adds, and whether it is to break the line before
/// the next tag.
pub uninterp spec fn writer_state(writer: EventWriter) -> WriterState;

/// A writer that has written nothing: each level of nesting will indent by
/// `indent_size` times `indent_char`.
pub open spec fn initial_writer(indent_char: u8, indent_size: nat) -> WriterState {
    WriterState {
        output: Seq::<u8>::empty(),
        indent: Seq::<u8>::empty(),
        indent_unit: Seq::new(indent_size, |i: int| indent_char),
        line_break: false,
    }
}

/// What stands for one byte of an attribute value in a file: an entity for
/// each of `<`, `>`, `'`, `&` and `"`, the byte itself otherwise.
pub open spec fn escaped_byte(b: u8) -> Seq<u8> {
    if b == 60 {
        seq![38u8, 108u8, 116u8, 59u8]
    } else if b == 62 {
        seq![38u8, 103u8, 116u8, 59u8]
    } else if b == 39 {
        seq![38u8, 97u8, 112u8, 111u8, 115u8, 59u8]
    } else if b == 38 {
        seq![38u8, 97u8, 109u8, 112u8, 59u8]
    } else if b == 34 {
        seq![38u8, 113u8, 117u8, 111u8, 116u8, 59u8]
    } else {
        seq![b]
    }
}

/// An attribute value as a file holds it.
pub open spec fn escaped(raw: Seq<u8>) -> Seq<u8>
    decreases raw.len(),
{
    if raw.len() == 0 {
        Seq::<u8>::empty()
    } else {
        escaped(raw.drop_last()) + escaped_byte(raw.last())
    }
}

/// One attribute as a file holds it: a space, the name, `="`, the escaped
/// value and `"`.
pub open spec fn attribute_bytes(a: XmlAttributeView) -> Seq<u8> {
    seq![32u8] + encode_utf8(a.key) + seq![61u8, 34u8] + escaped(encode_utf8(a.value)) + seq![
        34u8,
    ]
}

/// A list of attributes as a file holds it.
pub open spec fn attributes_bytes(list: Seq<XmlAttributeView>) -> Seq<u8>
    decreases list.len(),
{
    if list.len() == 0 {
        Seq::<u8>::empty()
    } else {
        attributes_bytes(list.drop_last()) + attribute_bytes(list.last())
    }
}

/// What stands between `<` and `>` or `/>` for a tag.
pub open spec fn tag_bytes(tag: XmlTagView) -> Seq<u8> {
    encode_utf8(tag.name) + attributes_bytes(tag.attributes)
}

/// What a writer puts before a tag: nothing before the first tag, a line
/// feed and the indentation before every other.
pub open spec fn line_start(line_break: bool, indent: Seq<u8>) -> Seq<u8> {
    if line_break {
        seq![10u8] + indent
    } else {
        Seq::<u8>::empty()
    }
}

/// The indentation one level further out.
pub open spec fn outdented(indent: Seq<u8>, unit: Seq<u8>) -> Seq<u8> {
    if indent.len() >= unit.len() {
        indent.take(indent.len() - unit.len())
    } else {
        Seq::<u8>::empty()
    }
}

/// The state of a writer after it has written one more event. A start tag
/// is written at the current indentation and indents what follows; an end
/// tag first takes that indentation back.
pub open spec fn after_event(st: WriterState, event: XmlEventView) -> WriterState {
    match event {
        XmlEventView::Start(tag) => WriterState {
            output: st.output + line_start(st.line_break, st.indent) + seq![60u8] + tag_bytes(tag)
                + seq![62u8],
            indent: st.indent + st.indent_unit,
            indent_unit: st.indent_unit,
            line_break: true,
        },
        XmlEventView::Empty(tag) => WriterState {
            output: st.output + line_start(st.line_break, st.indent) + seq![60u8] + tag_bytes(tag)
                + seq![47u8, 62u8],
            indent: st.indent,
            indent_unit: st.indent_unit,
            line_break: true,
        },
        XmlEventView::End(name) => WriterState {
            output: st.output + line_start(st.line_break, outdented(st.indent, st.indent_unit))
                + seq![60u8, 47u8] + encode_utf8(name) + seq![62u8],
            indent: outdented(st.indent, st.indent_unit),
            indent_unit: st.indent_unit,
            line_break: true,
        },
    }
}

/// The state of a writer after it has written a list of events.
pub open spec fn after_events(st: WriterState, events: Seq<XmlEventView>) -> WriterState
    decreases events.len(),
{
    if events.len() == 0 {
        st
    } else {
        after_event(after_events(st, events.drop_last()), events.last())
    }
}

/// A list of events as a file holds it, indented by four spaces per level.
pub open spec fn xml_bytes(events: Seq<XmlEventView>) -> Seq<u8> {
    after_events(initial_writer(32, 4), events).output
}

/// One event of the reader, as the bytes it was read from.
pub enum RawEvent {
    Start { content: Vec<u8>, name_len: usize },
    Empty { content: Vec<u8>, name_len: usize },
    End { name: Vec<u8> },
    Eof,
    Other,
}

/// What a raw event is to contracts. A start tag and a self-closing tag
/// are the bytes between `<` and `>` and the length of the name; an end tag
/// is the bytes of its name; `Other` stands for text, comments and
/// declarations.
pub enum RawEventView {
    Start { content: Seq<u8>, name_len: nat },
    Empty { content: Seq<u8>, name_len: nat },
    End { name: Seq<u8> },
    Eof,
    Other,
}

impl View for RawEvent {
    type V = RawEventView;

    open spec fn view(&self) -> RawEventView {
        match self {
            RawEvent::Start { content, name_len } => RawEventView::Start {
                content: content@,
                name_len: *name_len as nat,
            },
            RawEvent::Empty { content, name_len } => RawEventView::Empty {
                content: content@,
                name_len: *name_len as nat,
            },
            RawEvent::End { name } => RawEventView::End { name: name@ },
            RawEvent::Eof => RawEventView::Eof,
            RawEvent::Other => RawEventView::Other,
        }
    }
}

/// One attribute of a tag, as the bytes it was read from.
pub struct RawAttribute {
    pub key: Vec<u8>,
    pub value: Vec<u8>,
}

/// What a raw attribute is to contracts.
pub struct RawAttributeView {
    pub key: Seq<u8>,
    pub value: Seq<u8>,
}

impl View for RawAttribute {
    type V = RawAttributeView;

    open spec fn view(&self) -> RawAttributeView {
        RawAttributeView { key: self.key@, value: self.value@ }
    }
}

/// What the next step of the attribute iterator gives.
pub enum AttributeOutcome {
    /// There is no further attribute.
    End,
    /// What follows is no attribute.
    Failed,
    /// The next attribute.
    Found(RawAttributeView),
}

/// What a reader holds: the bytes it reads from, whether it trims text,
/// and how many events were read from it.
pub struct ReaderState {
    pub input: Seq<u8>,
    pub trim: bool,
    pub read: nat,
}

/// What an attribute iterator holds: the bytes of the tag, the place where
/// it started, and how many steps were taken.
pub struct AttributesState {
    pub content: Seq<u8>,
    pub start: nat,
    pub read: nat,
}

/// What a `quick_xml::Reader` holds: the bytes it was made on, whether
/// it was told to trim text, and the number of calls of `read_event` made
/// on it.
pub uninterp spec fn reader_state(reader: EventReader<'_>) -> ReaderState;

/// What an `Attributes` iterator holds: the bytes and the place it was
/// made on, and the number of calls of `next` made on it.
pub uninterp spec fn attributes_state(attrs: Attributes<'_>) -> AttributesState;

/// What the call number `n` of `Reader::read_event`, counted from zero,
/// hands back on a reader over `input` that trims text or not, each call
/// with an empty buffer. `None` where the call fails.
pub uninterp spec fn raw_event_at(input: Seq<u8>, trim: bool, n: nat) -> Option<RawEventView>;

/// What the call number `n` of `Attributes::next`, counted from zero,
/// hands back on the attributes of the tag `content` from `start` on.
pub uninterp spec fn raw_attribute_at(content: Seq<u8>, start: nat, n: nat) -> AttributeOutcome;

/// What `Attribute::unescape_and_decode_value` hands back for the raw
/// value of an attribute: the value with its entities resolved, as text.
/// `None` where the call fails.
pub uninterp spec fn unescaped_value(raw: Seq<u8>) -> Option<Seq<char>>;

/// `Reader::from_reader` on a byte slice. The reader reads from these
/// bytes, does not trim text, and nothing was read from it.
#[verifier::external_body]
fn reader_open<'a>(input: &'a [u8]) -> (reader: EventReader<'a>)
    ensures
        reader_state(reader) == (ReaderState { input: input@, trim: false, read: 0 }),
{
    EventReader { inner: Reader::from_reader(input) }
}

/// `Reader::trim_text`, before anything was read: the reader trims text
/// as told, and is as it was otherwise.
#[verifier::external_body]
fn reader_trim_text<'a>(reader: &mut EventReader<'a>, val: bool)
    requires
        reader_state(*old(reader)).read == 0,
    ensures
        reader_state(*final(reader)) == (ReaderState { trim: val, ..reader_state(*old(reader)) }),
{
    reader.inner.trim_text(val);
}

/// `Reader::read_event` into a fresh buffer. A start tag and a
/// self-closing tag come back as the bytes between `<` and `>` and the
/// length of the name, an end tag as the bytes of its name; every other
/// event but the end of the input comes back as `Other`. What comes back
/// depends on the bytes, on the trimming and on the number of the call
/// alone; the reader has one more event read.
#[verifier::external_body]
fn reader_read_event<'a>(reader: &mut EventReader<'a>) -> (r: Result<RawEvent, quick_xml::Error>)
    ensures
        reader_state(*final(reader)) == (ReaderState {
            read: reader_state(*old(reader)).read + 1,
            ..reader_state(*old(reader))
        }),
        match r {
            Ok(event) => raw_event_at(
                reader_state(*old(reader)).input,
                reader_state(*old(reader)).trim,
                reader_state(*old(reader)).read,
            ) == Some(event@),
            Err(_) => raw_event_at(
                reader_state(*old(reader)).input,
                reader_state(*old(reader)).trim,
                reader_state(*old(reader)).read,
            ) is None,
        },
{
    let mut buf = Vec::new();
    match reader.inner.read_event(&mut buf)? {
        Event::Start(e) => Ok(RawEvent::Start { content: e.to_vec(), name_len: e.name().len() }),
        Event::Empty(e) => Ok(RawEvent::Empty { content: e.to_vec(), name_len: e.name().len() }),
        Event::End(e) => Ok(RawEvent::End { name: e.name().to_vec() }),
        Event::Eof => Ok(RawEvent::Eof),
        _ => Ok(RawEvent::Other),
    }
}

/// `Attributes::new` on the bytes of a tag, from the end of its name on, as
/// `BytesStart::attributes` calls it. No step was taken yet.
#[verifier::external_body]
fn attributes_open<'a>(content: &'a [u8], name_len: usize) -> (attrs: Attributes<'a>)
    ensures
        attributes_state(attrs) == (AttributesState {
            content: content@,
            start: name_len as nat,
            read: 0,
        }),
{
    Attributes::new(content, name_len)
}

/// `Attributes::next`, with name and raw value copied out. What comes back
/// depends on the bytes of the tag, on the place where the iterator
/// started and on the number of the call alone; the iterator has taken one
/// more step.
#[verifier::external_body]
fn attributes_next<'a>(attrs: &mut Attributes<'a>) -> (r: Option<Result<RawAttribute, quick_xml::Error>>)
    ensures
        attributes_state(*final(attrs)) == (AttributesState {
            read: attributes_state(*old(attrs)).read + 1,
            ..attributes_state(*old(attrs))
        }),
        raw_attribute_at(
            attributes_state(*old(attrs)).content,
            attributes_state(*old(attrs)).start,
            attributes_state(*old(attrs)).read,
        ) == match r {
            None => AttributeOutcome::End,
            Some(Err(_)) => AttributeOutcome::Failed,
            Some(Ok(raw)) => AttributeOutcome::Found(raw@),
        },
{
    attrs.next().map(|a| a.map(|a| RawAttribute { key: a.key.to_vec(), value: a.value.into_owned() }))
}

/// `Attribute::unescape_and_decode_value` on an attribute of that name and
/// raw value. What comes back depends on the raw value alone.
#[verifier::external_body]
fn attribute_value<'a>(reader: &EventReader<'a>, attr: &RawAttribute) -> (r: Result<String, quick_xml::Error>)
    ensures
        match r {
            Ok(value) => unescaped_value(attr.value@) == Some(value@),
            Err(_) => unescaped_value(attr.value@) is None,
        },
{
    Attribute { key: &attr.key, value: Cow::Borrowed(&attr.value) }.unescape_and_decode_value(&reader.inner)
}

/// The text that bytes encode, if they are UTF-8.
pub open spec fn text_of(bytes: Seq<u8>) -> Option<Seq<char>> {
    if valid_utf8(bytes) {
        Some(decode_utf8(bytes))
    } else {
        None
    }
}

/// The attributes of a tag from step `n` of the iterator on, after `found`:
/// each attribute with its name as text and its value unescaped. `None`
/// where the iterator fails, where a name is not UTF-8, where a value
/// cannot be unescaped, and where the iterator has not ended after as many
/// steps as the tag has bytes.
pub open spec fn attributes_from(
    content: Seq<u8>,
    start: nat,
    n: nat,
    found: Seq<XmlAttributeView>,
) -> Option<Seq<XmlAttributeView>>
    decreases content.len() - n,
{
    match raw_attribute_at(content, start, n) {
        AttributeOutcome::End => Some(found),
        AttributeOutcome::Failed => None,
        AttributeOutcome::Found(raw) => if n >= content.len() {
            None
        } else {
            match (text_of(raw.key), unescaped_value(raw.value)) {
                (Some(key), Some(value)) => attributes_from(
                    content,
                    start,
                    n + 1,
                    found.push(XmlAttributeView { key, value }),
                ),
                _ => None,
            }
        },
    }
}

/// The tag that the bytes between `<` and `>` hold: its name is what the
/// first `name_len` bytes encode, its attributes are what the iterator
/// finds after them.
pub open spec fn tag_of(content: Seq<u8>, name_len: nat) -> Option<XmlTagView> {
    if name_len > content.len() {
        None
    } else {
        match (
            text_of(content.take(name_len as int)),
            attributes_from(content, name_len, 0, Seq::<XmlAttributeView>::empty()),
        ) {
            (Some(name), Some(attributes)) => Some(XmlTagView { name, attributes }),
            _ => None,
        }
    }
}

/// The event that a raw event stands for: `Some(None)` for what is passed
/// over, `None` where a tag cannot be read or a name is not UTF-8. The end
/// of the input stands for no event.
pub open spec fn event_of(raw: RawEventView) -> Option<Option<XmlEventView>> {
    match raw {
        RawEventView::Start { content, name_len } => match tag_of(content, name_len) {
            Some(tag) => Some(Some(XmlEventView::Start(tag))),
            None => None,
        },
        RawEventView::Empty { content, name_len } => match tag_of(content, name_len) {
            Some(tag) => Some(Some(XmlEventView::Empty(tag))),
            None => None,
        },
        RawEventView::End { name } => match text_of(name) {
            Some(name) => Some(Some(XmlEventView::End(name))),
            None => None,
        },
        RawEventView::Eof => Some(None),
        RawEventView::Other => Some(None),
    }
}

/// The events that are left when reading stops: all of them, if no element
/// is open.
pub open spec fn read_done(events: Seq<XmlEventView>) -> Option<Seq<XmlEventView>> {
    if balanced(events) {
        Some(events)
    } else {
        None
    }
}

/// The events of `input` from call `n` of the reader on, after `events`.
/// `None` where the reader fails, where a tag cannot be read, where an end
/// tag comes with no element open, where the input ends with an element
/// open, and where the reader has not come to the end after as many calls
/// as the input has bytes.
pub open spec fn read_from(input: Seq<u8>, n: nat, events: Seq<XmlEventView>) -> Option<
    Seq<XmlEventView>,
>
    decreases input.len() - n,
{
    match raw_event_at(input, true, n) {
        None => None,
        Some(RawEventView::Eof) => read_done(events),
        Some(raw) => if n >= input.len() {
            None
        } else {
            match event_of(raw) {
                None => None,
                Some(None) => read_from(input, n + 1, events),
                Some(Some(event)) => if depth_after(events.push(event)) is Some {
                    read_from(input, n + 1, events.push(event))
                } else {
                    None
                },
            }
        },
    }
}

/// The events that a file holds, as the reader finds them with text
/// trimmed; text, comments and declarations are left out. `None` where the
/// content is malformed.
pub open spec fn read_of(input: Seq<u8>) -> Option<Seq<XmlEventView>> {
    read_from(input, 0, Seq::<XmlEventView>::empty())
}

/// `Writer::new_with_indent` on an empty byte vector. The writer has written
/// nothing and will not break the line before its first tag.
#[verifier::external_body]
fn writer_new(indent_char: u8, indent_size: usize) -> (writer: EventWriter)
    ensures
        writer_state(writer) == initial_writer(indent_char, indent_size as nat),
{
    EventWriter { inner: Writer::new_with_indent(Vec::new(), indent_char, indent_size) }
}

/// `Writer::write_event` with `Event::Start` of a tag built by
/// `BytesStart::owned_name` and `BytesStart::with_attributes`. Each attribute
/// goes in as a pair of strings, so its value is escaped. The writer has
/// appended the tag as `after_event` says and indents one level more. The
/// call returns `Ok`: it fails only where writing to the inner writer
/// fails, and a byte vector takes every write by growing.
#[verifier::external_body]
fn write_start(writer: &mut EventWriter, tag: &XmlTag) -> (r: Result<(), quick_xml::Error>)
    requires
        writer_state(*old(writer)).indent.len() + writer_state(*old(writer)).indent_unit.len()
            <= usize::MAX,
    ensures
        r is Ok,
        writer_state(*final(writer)) == after_event(
            writer_state(*old(writer)),
            XmlEventView::Start(tag@),
        ),
{
    let start = BytesStart::owned_name(tag.name.as_bytes()).with_attributes(
        tag.attributes.iter().map(|a| (a.key.as_str(), a.value.as_str())),
    );
    writer.inner.write_event(Event::Start(start))
}

/// `Writer::write_event` with `Event::Empty` of a tag built as in
/// `write_start`. The writer has appended the self-closing tag as
/// `after_event` says, at the same indentation. The call returns `Ok`, for
/// the reason given at `write_start`.
#[verifier::external_body]
fn write_empty(writer: &mut EventWriter, tag: &XmlTag) -> (r: Result<(), quick_xml::Error>)
    ensures
        r is Ok,
        writer_state(*final(writer)) == after_event(
            writer_state(*old(writer)),
            XmlEventView::Empty(tag@),
        ),
{
    let start = BytesStart::owned_name(tag.name.as_bytes()).with_attributes(
        tag.attributes.iter().map(|a| (a.key.as_str(), a.value.as_str())),
    );
    writer.inner.write_event(Event::Empty(start))
}

/// `Writer::write_event` with `Event::End` of `BytesEnd::borrowed`. The
/// writer has gone back one level of indentation and appended the end tag
/// as `after_event` says. The call returns `Ok`, for the reason given at
/// `write_start`.
#[verifier::external_body]
fn write_end(writer: &mut EventWriter, name: &str) -> (r: Result<(), quick_xml::Error>)
    ensures
        r is Ok,
        writer_state(*final(writer)) == after_event(
            writer_state(*old(writer)),
            XmlEventView::End(name@),
        ),
{
    writer.inner.write_event(Event::End(BytesEnd::borrowed(name.as_bytes())))
}

/// `Writer::into_inner`: the bytes written.
#[verifier::external_body]
fn writer_into_inner(writer: EventWriter) -> (bytes: Vec<u8>)
    ensures
        bytes@ == writer_state(writer).output,
{
    writer.inner.into_inner()
}

/// `std::str::from_utf8`: the text that the bytes encode, if they are valid
/// UTF-8, and `None` otherwise.
#[verifier::external_body]
pub(crate) fn str_from_utf8<'a>(bytes: &'a [u8]) -> (r: Option<&'a str>)
    ensures
        r is Some <==> valid_utf8(bytes@),
        r matches Some(s) ==> encode_utf8(s@) == bytes@,
{
    std::str::from_utf8(bytes).ok()
}

/// The text that bytes encode; `ParseError` where they are not UTF-8.
fn text_of_bytes(bytes: &[u8]) -> (r: Result<String, ErrorKind>)
    ensures
        match r {
            Ok(text) => text_of(bytes@) == Some(text@),
            Err(e) => e == ErrorKind::ParseError && text_of(bytes@) is None,
        },
{
    broadcast use vstd::utf8::encode_utf8_decode_utf8;

    match str_from_utf8(bytes) {
        Some(text) => {
            assert(decode_utf8(encode_utf8(text@)) == text@);
            Ok(text.to_owned())
        },
        None => Err(ErrorKind::ParseError),
    }
}

/// Reads the tag that the bytes between `<` and `>` hold.
///
/// Fails with `ParseError` where the name or the name of an attribute is
/// not UTF-8, where the iterator over the attributes fails, and where a
/// value cannot be unescaped.
fn read_tag<'a>(reader: &EventReader<'a>, content: &Vec<u8>, name_len: usize) -> (r: Result<
    XmlTag,
    ErrorKind,
>)
    ensures
        match r {
            Ok(tag) => tag_of(content@, name_len as nat) == Some(tag@),
            Err(e) => e == ErrorKind::ParseError && tag_of(content@, name_len as nat) is None,
        },
{
    if name_len > content.len() {
        return Err(ErrorKind::ParseError);
    }
    let ghost all = attributes_from(
        content@,
        name_len as nat,
        0,
        Seq::<XmlAttributeView>::empty(),
    );
    let mut attributes: Vec<XmlAttribute> = Vec::new();
    let mut attrs = attributes_open(content.as_slice(), name_len);
    let mut steps: usize = 0;
    let mut ended = false;
    assert(attribute_views(attributes@) =~= Seq::<XmlAttributeView>::empty());
    while !ended
        invariant
            steps <= content.len(),
            name_len <= content.len(),
            all == attributes_from(
                content@,
                name_len as nat,
                0,
                Seq::<XmlAttributeView>::empty(),
            ),
            !ended ==> attributes_state(attrs) == (AttributesState {
                content: content@,
                start: name_len as nat,
                read: steps as nat,
            }),
            !ended ==> all == attributes_from(
                content@,
                name_len as nat,
                steps as nat,
                attribute_views(attributes@),
            ),
            ended ==> all == Some(attribute_views(attributes@)),
        decreases content.len() - steps + if ended { 0int } else { 1int },
    {
        match attributes_next(&mut attrs) {
            None => {
                ended = true;
            },
            Some(Err(_)) => {
                return Err(ErrorKind::ParseError);
            },
            Some(Ok(raw)) => {
                if steps >= content.len() {
                    return Err(ErrorKind::ParseError);
                }
                let key = match text_of_bytes(raw.key.as_slice()) {
                    Ok(key) => key,
                    Err(e) => {
                        return Err(e);
                    },
                };
                let value = match attribute_value(reader, &raw) {
                    Ok(value) => value,
                    Err(_) => {
                        return Err(ErrorKind::ParseError);
                    },
                };
                let ghost before = attribute_views(attributes@);
                let ghost view = XmlAttributeView { key: key@, value: value@ };
                attributes.push(XmlAttribute { key, value });
                assert(attribute_views(attributes@) =~= before.push(view));
                steps = steps + 1;
            },
        }
    }
    match text_of_bytes(slice_subrange(content.as_slice(), 0, name_len)) {
        Ok(name) => Ok(XmlTag { name, attributes }),
        Err(e) => Err(e),
    }
}

/// The event that a raw event stands for.
///
/// Fails with `ParseError` where a tag cannot be read or a name is not
/// UTF-8.
fn read_event<'a>(reader: &EventReader<'a>, raw: RawEvent) -> (r: Result<Option<XmlEvent>, ErrorKind>)
    ensures
        match r {
            Ok(Some(event)) => event_of(raw@) == Some(Some(event@)),
            Ok(None) => event_of(raw@) == Some(None::<XmlEventView>),
            Err(e) => e == ErrorKind::ParseError && event_of(raw@) is None,
        },
{
    match raw {
        RawEvent::Eof => Ok(None),
        RawEvent::Other => Ok(None),
        RawEvent::Start { content, name_len } => match read_tag(reader, &content, name_len) {
            Ok(tag) => Ok(Some(XmlEvent::Start(tag))),
            Err(e) => Err(e),
        },
        RawEvent::Empty { content, name_len } => match read_tag(reader, &content, name_len) {
            Ok(tag) => Ok(Some(XmlEvent::Empty(tag))),
            Err(e) => Err(e),
        },
        RawEvent::End { name } => match text_of_bytes(name.as_slice()) {
            Ok(name) => Ok(Some(XmlEvent::End(name))),
            Err(e) => Err(e),
        },
    }
}

/// Reads a file into its events, leaving out text, comments and
/// declarations: the events are exactly those that `read_of` tells.
///
/// Fails with `ParseError` where the reader reports malformed content,
/// where a name or a value is not UTF-8, where an end tag comes with no
/// element open, and where the content ends with an element still open.
pub fn read_events(input: &[u8]) -> (r: Result<Vec<XmlEvent>, ErrorKind>)
    ensures
        match r {
            Ok(events) => read_of(input@) == Some(event_views(events@)) && balanced(
                event_views(events@),
            ),
            Err(e) => e == ErrorKind::ParseError && read_of(input@) is None,
        },
{
    let mut reader = reader_open(input);
    reader_trim_text(&mut reader, true);
    let mut events: Vec<XmlEvent> = Vec::new();
    let mut depth: usize = 0;
    let mut steps: usize = 0;
    let mut at_end = false;
    assert(event_views(events@) =~= Seq::<XmlEventView>::empty());
    while !at_end
        invariant
            steps <= input.len(),
            !at_end ==> reader_state(reader) == (ReaderState {
                input: input@,
                trim: true,
                read: steps as nat,
            }),
            depth_after(event_views(events@)) == Some(depth as nat),
            !at_end ==> read_of(input@) == read_from(input@, steps as nat, event_views(events@)),
            at_end ==> read_of(input@) == read_done(event_views(events@)),
        decreases input.len() - steps + if at_end { 0int } else { 1int },
    {
        let raw = match reader_read_event(&mut reader) {
            Ok(raw) => raw,
            Err(_) => {
                return Err(ErrorKind::ParseError);
            },
        };
        if matches!(&raw, RawEvent::Eof) {
            at_end = true;
        } else {
            if steps >= input.len() {
                return Err(ErrorKind::ParseError);
            }
            match read_event(&reader, raw) {
                Ok(Some(event)) => {
                    match append_event(&mut events, depth, event) {
                        Ok(open) => {
                            depth = open;
                        },
                        Err(e) => {
                            return Err(e);
                        },
                    }
                },
                Ok(None) => {},
                Err(e) => {
                    return Err(e);
                },
            }
            steps = steps + 1;
        }
    }
    if depth != 0 {
        return Err(ErrorKind::ParseError);
    }
    Ok(events)
}

/// No more elements are open after a list of events than it has events.
pub proof fn lemma_depth_bound(events: Seq<XmlEventView>)
    ensures
        depth_after(events) matches Some(d) ==> d <= events.len(),
    decreases events.len(),
{
    if events.len() > 0 {
        lemma_depth_bound(events.drop_last());
    }
}

/// Appends one event to the events read so far, of which `depth` elements
/// are open, and hands back how many are open then. An end tag where no
/// element is open is refused with `ParseError`, and the events stay as
/// they are.
fn append_event(events: &mut Vec<XmlEvent>, depth: usize, event: XmlEvent) -> (r: Result<
    usize,
    ErrorKind,
>)
    requires
        depth_after(event_views(old(events)@)) == Some(depth as nat),
    ensures
        match depth_step(depth as nat, event@) {
            Some(open) => r is Ok && r->Ok_0 == open && final(events)@ == old(events)@.push(
                event,
            ) && depth_after(event_views(final(events)@)) == Some(open) && event_views(
                final(events)@,
            ) == event_views(old(events)@).push(event@),
            None => r == Err::<usize, ErrorKind>(ErrorKind::ParseError) && final(events)@ == old(
                events,
            )@ && depth_after(event_views(old(events)@).push(event@)) is None,
        },
{
    let ghost before = event_views(events@);
    let ghost view = event@;
    let starts = matches!(&event, XmlEvent::Start(_));
    let ends = matches!(&event, XmlEvent::End(_));
    proof {
        assert(before.push(view).drop_last() =~= before);
    }
    if ends && depth == 0 {
        return Err(ErrorKind::ParseError);
    }
    events.push(event);
    let length = events.len();
    proof {
        lemma_depth_bound(before);
        assert(length == before.len() + 1);
        assert(event_views(events@) =~= before.push(view));
    }
    if starts {
        Ok(depth + 1)
    } else if ends {
        Ok(depth - 1)
    } else {
        Ok(depth)
    }
}

/// Whether a writer in the state `st` can write a list of events: at each
/// start tag, one more level of indentation, four bytes, is no longer than
/// a length can be.
pub open spec fn fits(st: WriterState, events: Seq<XmlEventView>) -> bool
    decreases events.len(),
{
    if events.len() == 0 {
        true
    } else {
        fits(st, events.drop_last()) && (events.last() is Start ==> after_events(
            st,
            events.drop_last(),
        ).indent.len() + 4 <= usize::MAX)
    }
}

/// Whether a list of events can be written from the start.
pub open spec fn writable(events: Seq<XmlEventView>) -> bool {
    fits(initial_writer(32, 4), events)
}

/// Where the whole list can be written, each prefix can.
pub proof fn lemma_writable_prefix(events: Seq<XmlEventView>, k: int)
    requires
        0 <= k <= events.len(),
        writable(events),
    ensures
        writable(events.take(k)),
    decreases events.len(),
{
    if k == events.len() {
        assert(events.take(k) =~= events);
    } else {
        assert(events.drop_last().take(k) =~= events.take(k));
        lemma_writable_prefix(events.drop_last(), k);
    }
}

/// Writing two lists one after the other is writing the first and going
/// on with the second.
pub proof fn lemma_write_concat(st: WriterState, a: Seq<XmlEventView>, b: Seq<XmlEventView>)
    ensures
        after_events(st, a + b) == after_events(after_events(st, a), b),
        fits(st, a + b) <==> fits(st, a) && fits(after_events(st, a), b),
    decreases b.len(),
{
    if b.len() == 0 {
        assert(a + b =~= a);
    } else {
        assert((a + b).drop_last() =~= a + b.drop_last());
        assert((a + b).last() == b.last());
        lemma_write_concat(st, a, b.drop_last());
    }
}

/// Writing one event is one step; a start tag needs room for one more
/// level of indentation.
pub proof fn lemma_write_one(st: WriterState, event: XmlEventView)
    ensures
        after_events(st, seq![event]) == after_event(st, event),
        fits(st, seq![event]) <==> (event is Start ==> st.indent.len() + 4 <= usize::MAX),
{
    assert(seq![event].drop_last() =~= Seq::<XmlEventView>::empty());
    assert(seq![event].last() == event);
    assert(after_events(st, Seq::<XmlEventView>::empty()) == st);
    assert(fits(st, Seq::<XmlEventView>::empty()));
}

/// Self-closing tags can always be written, and leave the indentation as
/// it is.
pub proof fn lemma_write_empty_tags(st: WriterState, events: Seq<XmlEventView>)
    requires
        forall|i: int| 0 <= i < events.len() ==> (#[trigger] events[i]) is Empty,
    ensures
        fits(st, events),
        after_events(st, events).indent == st.indent,
        after_events(st, events).indent_unit == st.indent_unit,
    decreases events.len(),
{
    if events.len() > 0 {
        let rest = events.drop_last();
        assert forall|i: int| 0 <= i < rest.len() implies (#[trigger] rest[i]) is Empty by {
            assert(rest[i] == events[i]);
        }
        lemma_write_empty_tags(st, rest);
        assert(events[events.len() - 1] is Empty);
    }
}

/// Writes a list of events, indented by four spaces per level.
///
/// Fails, with `IOError`, only where the events nest so deep that the
/// indentation is longer than a length can be.
pub fn write_events(events: &Vec<XmlEvent>) -> (r: Result<Vec<u8>, ErrorKind>)
    ensures
        match r {
            Ok(bytes) => writable(event_views(events@)) && bytes@ == xml_bytes(
                event_views(events@),
            ),
            Err(e) => e == ErrorKind::IOError && !writable(event_views(events@)),
        },
{
    let mut writer = writer_new(32, 4);
    let mut indent: usize = 0;
    let mut i: usize = 0;
    let ghost all = event_views(events@);
    assert(all.take(0) =~= Seq::<XmlEventView>::empty());
    while i < events.len()
        invariant
            i <= events.len(),
            all == event_views(events@),
            writer_state(writer) == after_events(initial_writer(32, 4), all.take(i as int)),
            writer_state(writer).indent_unit.len() == 4,
            writer_state(writer).indent.len() == indent,
            writable(all.take(i as int)),
        decreases events.len() - i,
    {
        proof {
            assert(all.take(i + 1).drop_last() =~= all.take(i as int));
            assert(all.take(i + 1).last() == events@[i as int]@);
        }
        match &events[i] {
            XmlEvent::Start(tag) => {
                if indent > usize::MAX - 4 {
                    proof {
                        if writable(all) {
                            lemma_writable_prefix(all, i + 1);
                        }
                    }
                    return Err(ErrorKind::IOError);
                }
                if write_start(&mut writer, tag).is_err() {
                    return Err(ErrorKind::IOError);
                }
                indent = indent + 4;
            },
            XmlEvent::Empty(tag) => {
                if write_empty(&mut writer, tag).is_err() {
                    return Err(ErrorKind::IOError);
                }
            },
            XmlEvent::End(name) => {
                if write_end(&mut writer, name.as_str()).is_err() {
                    return Err(ErrorKind::IOError);
                }
                indent = if indent >= 4 {
                    indent - 4
                } else {
                    0
                };
            },
        }
        i = i + 1;
    }
    assert(all.take(i as int) =~= all);
    Ok(writer_into_inner(writer))
}

/// Whether every byte is below 128.
pub open spec fn all_ascii(bytes: Seq<u8>) -> bool {
    forall|i: int| 0 <= i < bytes.len() ==> #[trigger] bytes[i] <= 0x7f
}

/// Whether no byte is below 128.
pub open spec fn none_ascii(bytes: Seq<u8>) -> bool {
    forall|i: int| 0 <= i < bytes.len() ==> #[trigger] bytes[i] >= 0x80
}

/// Bytes below 128 are UTF-8.
pub proof fn lemma_ascii_is_utf8(bytes: Seq<u8>)
    requires
        all_ascii(bytes),
    ensures
        valid_utf8(bytes),
    decreases bytes.len(),
{
    if bytes.len() > 0 {
        let b = bytes[0];
        assert(b <= 0x7f);
        assert((b & 0x7F) as u32 <= 0x7f) by (bit_vector);
        let rest = bytes.subrange(1, bytes.len() as int);
        assert forall|i: int| 0 <= i < rest.len() implies #[trigger] rest[i] <= 0x7f by {
            assert(rest[i] == bytes[i + 1]);
        }
        lemma_ascii_is_utf8(rest);
        assert(vstd::utf8::pop_first_scalar(bytes) =~= rest);
    }
}

/// Escaping goes through bytes one after the other.
pub proof fn lemma_escaped_concat(a: Seq<u8>, b: Seq<u8>)
    ensures
        escaped(a + b) == escaped(a) + escaped(b),
    decreases b.len(),
{
    if b.len() == 0 {
        assert(a + b =~= a);
        assert(escaped(a) + escaped(b) =~= escaped(a));
    } else {
        assert((a + b).drop_last() =~= a + b.drop_last());
        assert((a + b).last() == b.last());
        lemma_escaped_concat(a, b.drop_last());
        assert(escaped(a) + escaped(b.drop_last()) + escaped_byte(b.last()) =~= escaped(a) + (
        escaped(b.drop_last()) + escaped_byte(b.last())));
    }
}

/// Escaping leaves bytes from 128 on as they are.
pub proof fn lemma_escaped_none_ascii(bytes: Seq<u8>)
    requires
        none_ascii(bytes),
    ensures
        escaped(bytes) == bytes,
    decreases bytes.len(),
{
    if bytes.len() > 0 {
        let rest = bytes.drop_last();
        assert forall|i: int| 0 <= i < rest.len() implies #[trigger] rest[i] >= 0x80 by {
            assert(rest[i] == bytes[i]);
        }
        lemma_escaped_none_ascii(rest);
        assert(bytes.last() >= 0x80);
        assert(escaped(bytes) =~= bytes);
    } else {
        assert(escaped(bytes) =~= bytes);
    }
}

/// What stands for one character of a value in a file is UTF-8.
pub proof fn lemma_escaped_char_is_utf8(c: char)
    ensures
        valid_utf8(escaped(vstd::utf8::encode_scalar(c as u32))),
{
    broadcast use vstd::utf8::encode_utf8_valid_utf8;

    let s = c as u32;
    let bytes = vstd::utf8::encode_scalar(s);
    vstd::utf8::char_is_scalar(c);
    if vstd::utf8::has_width_1_encoding(s) {
        let b = (s & 0x7F) as u8;
        assert(b <= 0x7f) by (bit_vector)
            requires
                b == (s & 0x7F) as u8,
        ;
        assert(bytes =~= seq![b]);
        assert(bytes.drop_last() =~= Seq::<u8>::empty());
        assert(escaped(Seq::<u8>::empty()) =~= Seq::<u8>::empty());
        assert(escaped(bytes) =~= escaped_byte(b));
        assert(all_ascii(escaped_byte(b)));
        lemma_ascii_is_utf8(escaped_byte(b));
    } else {
        assert(forall|x: u8| #[trigger] (0xC0u8 | x) >= 0x80u8) by (bit_vector);
        assert(forall|x: u8| #[trigger] (0xE0u8 | x) >= 0x80u8) by (bit_vector);
        assert(forall|x: u8| #[trigger] (0xF0u8 | x) >= 0x80u8) by (bit_vector);
        assert(forall|x: u8| #[trigger] (0x80u8 | x) >= 0x80u8) by (bit_vector);
        assert(none_ascii(bytes));
        lemma_escaped_none_ascii(bytes);
        assert(vstd::utf8::encode_utf8(seq![c]) =~= bytes) by {
            assert(seq![c].drop_first() =~= Seq::<char>::empty());
            assert(vstd::utf8::encode_utf8(Seq::<char>::empty()) =~= Seq::<u8>::empty());
        }
    }
}

/// A value as a file holds it is UTF-8.
pub proof fn lemma_escaped_is_utf8(chars: Seq<char>)
    ensures
        valid_utf8(escaped(encode_utf8(chars))),
    decreases chars.len(),
{
    broadcast use vstd::utf8::valid_utf8_concat;

    if chars.len() == 0 {
        assert(escaped(encode_utf8(chars)) =~= Seq::<u8>::empty());
    } else {
        let first = vstd::utf8::encode_scalar(chars[0] as u32);
        let rest = encode_utf8(chars.drop_first());
        lemma_escaped_concat(first, rest);
        lemma_escaped_char_is_utf8(chars[0]);
        lemma_escaped_is_utf8(chars.drop_first());
    }
}

/// A list of attributes as a file holds it is UTF-8.
pub proof fn lemma_attributes_are_utf8(list: Seq<XmlAttributeView>)
    ensures
        valid_utf8(attributes_bytes(list)),
    decreases list.len(),
{
    broadcast use vstd::utf8::valid_utf8_concat;
    broadcast use vstd::utf8::encode_utf8_valid_utf8;

    if list.len() > 0 {
        let a = list.last();
        lemma_attributes_are_utf8(list.drop_last());
        lemma_escaped_is_utf8(a.value);
        lemma_ascii_is_utf8(seq![32u8]);
        lemma_ascii_is_utf8(seq![61u8, 34u8]);
        lemma_ascii_is_utf8(seq![34u8]);
        assert(valid_utf8(seq![32u8] + encode_utf8(a.key)));
        assert(valid_utf8(seq![32u8] + encode_utf8(a.key) + seq![61u8, 34u8]));
        assert(valid_utf8(
            seq![32u8] + encode_utf8(a.key) + seq![61u8, 34u8] + escaped(encode_utf8(a.value)),
        ));
        assert(valid_utf8(attribute_bytes(a)));
    }
}

/// Whether what a writer holds is UTF-8: what it has written, and what it
/// indents with.
pub open spec fn writer_is_utf8(st: WriterState) -> bool {
    valid_utf8(st.output) && all_ascii(st.indent) && all_ascii(st.indent_unit)
}

/// A writer that holds UTF-8 holds UTF-8 after one more event.
pub proof fn lemma_event_keeps_utf8(st: WriterState, event: XmlEventView)
    requires
        writer_is_utf8(st),
    ensures
        writer_is_utf8(after_event(st, event)),
{
    broadcast use vstd::utf8::valid_utf8_concat;
    broadcast use vstd::utf8::encode_utf8_valid_utf8;

    lemma_ascii_is_utf8(seq![60u8]);
    lemma_ascii_is_utf8(seq![62u8]);
    lemma_ascii_is_utf8(seq![47u8, 62u8]);
    lemma_ascii_is_utf8(seq![60u8, 47u8]);
    lemma_ascii_is_utf8(seq![10u8]);
    lemma_ascii_is_utf8(st.indent);
    let back = outdented(st.indent, st.indent_unit);
    assert(all_ascii(back));
    lemma_ascii_is_utf8(back);
    assert(all_ascii(st.indent + st.indent_unit));
    assert(valid_utf8(line_start(st.line_break, st.indent)));
    assert(valid_utf8(line_start(st.line_break, back)));
    match event {
        XmlEventView::Start(tag) => {
            lemma_attributes_are_utf8(tag.attributes);
            assert(valid_utf8(tag_bytes(tag)));
            let a = st.output + line_start(st.line_break, st.indent);
            assert(valid_utf8(a));
            assert(valid_utf8(a + seq![60u8]));
            assert(valid_utf8(a + seq![60u8] + tag_bytes(tag)));
        },
        XmlEventView::Empty(tag) => {
            lemma_attributes_are_utf8(tag.attributes);
            assert(valid_utf8(tag_bytes(tag)));
            let a = st.output + line_start(st.line_break, st.indent);
            assert(valid_utf8(a));
            assert(valid_utf8(a + seq![60u8]));
            assert(valid_utf8(a + seq![60u8] + tag_bytes(tag)));
        },
        XmlEventView::End(name) => {
            let a = st.output + line_start(st.line_break, back);
            assert(valid_utf8(a));
            assert(valid_utf8(a + seq![60u8, 47u8]));
            assert(valid_utf8(a + seq![60u8, 47u8] + encode_utf8(name)));
        },
    }
}

/// Every list of events is written as UTF-8.
pub proof fn lemma_xml_bytes_are_utf8(events: Seq<XmlEventView>)
    ensures
        writer_is_utf8(after_events(initial_writer(32, 4), events)),
        valid_utf8(xml_bytes(events)),
    decreases events.len(),
{
    if events.len() == 0 {
        assert(valid_utf8(Seq::<u8>::empty()));
    } else {
        lemma_xml_bytes_are_utf8(events.drop_last());
        lemma_event_keeps_utf8(
            after_events(initial_writer(32, 4), events.drop_last()),
            events.last(),
        );
    }
}

} // verus!

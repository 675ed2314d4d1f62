//! The events of a document, as the tokenizer of `quick_xml` hands them out.
//!
//! The tokenizer itself is not verified. What is assumed of it stands in the
//! contracts of the wrappers below; everything else in this module is proved
//! from them.

use quick_xml::Error;
use quick_xml::Reader;
use quick_xml::events::BytesStart;
use quick_xml::events::Event;
use vstd::prelude::*;
use vstd::utf8::decode_utf8;
use vstd::utf8::valid_utf8;

verus! {

/// `quick_xml::Error`: the tokenizer's error. It is carried as it is, and
/// nothing is known of what it holds.
#[verifier::external_type_specification]
#[verifier::external_body]
pub struct ExError(Error);

/// Why a document could not be loaded. Either way the value inside is the
/// tokenizer's own.
#[derive(Debug)]
pub enum LoadError {
    /// The tokenizer could not go on in the text.
    Malformed(Error),
    /// A name, a value or a run of text is not UTF-8.
    NotUtf8(Error),
}

/// One event, with its bytes as they stand in the document.
#[derive(Debug)]
pub enum RawEvent {
    /// An opening tag: its name, and all that stands between `<` and `>`.
    Start { name: Vec<u8>, raw: Vec<u8> },
    /// A closing tag.
    End { name: Vec<u8> },
    /// A tag that closes itself.
    Empty { name: Vec<u8> },
    /// A run of text.
    Text { bytes: Vec<u8> },
    /// A comment, a declaration or another event that carries no node.
    Other,
    /// The end of the document.
    Eof,
}

/// What a [`RawEvent`] holds.
pub enum RawEventView {
    Start { name: Seq<u8>, raw: Seq<u8> },
    End { name: Seq<u8> },
    Empty { name: Seq<u8> },
    Text { bytes: Seq<u8> },
    Other,
    Eof,
}

impl View for RawEvent {
    type V = RawEventView;

    open spec fn view(&self) -> RawEventView {
        match *self {
            RawEvent::Start { name, raw } => RawEventView::Start { name: name@, raw: raw@ },
            RawEvent::End { name } => RawEventView::End { name: name@ },
            RawEvent::Empty { name } => RawEventView::Empty { name: name@ },
            RawEvent::Text { bytes } => RawEventView::Text { bytes: bytes@ },
            RawEvent::Other => RawEventView::Other,
            RawEvent::Eof => RawEventView::Eof,
        }
    }
}

impl DeepView for RawEvent {
    type V = RawEventView;

    open spec fn deep_view(&self) -> RawEventView {
        self@
    }
}

/// What one call of the tokenizer gives: an event, or a failure.
pub enum Step {
    Event(RawEventView),
    Failure,
}

/// A tokenizer at work on a document. It holds the `quick_xml` reader and
/// the buffer that the reader fills; Verus does not look inside.
#[verifier::external_body]
pub struct EventReader<'a> {
    inner: Reader<&'a [u8]>,
    buf: Vec<u8>,
}

/// What the reader has yet to give, call by call, up to the end of the
/// document or the failure at which it stops.
pub uninterp spec fn reader_script(reader: EventReader) -> Seq<Step>;

/// What a reader gives for a document, from the first call on, when it does
/// not hold closing tags against opening tags.
pub uninterp spec fn markup_script(html: Seq<char>) -> Seq<Step>;

/// The attributes that the tokenizer finds in an opening tag behind the
/// name, in source order: each a name and a value, or nothing where it
/// could not read one.
pub uninterp spec fn tag_attributes(raw: Seq<u8>, name_len: nat) -> Seq<
    Option<(Seq<u8>, Seq<u8>)>,
>;

/// The step that the result of one call stands for.
pub open spec fn step_of(r: Result<RawEvent, Error>) -> Step {
    match r {
        Ok(event) => Step::Event(event@),
        Err(_) => Step::Failure,
    }
}

/// `Reader::from_str`, then `Reader::check_end_names` with `false`: a reader
/// at the beginning of `html` that lets any closing tag pass. It will give
/// what `markup_script` names.
#[verifier::external_body]
fn open_reader<'a>(html: &'a str) -> (reader: EventReader<'a>)
    ensures
        reader_script(reader) == markup_script(html@),
{
    let mut inner = Reader::from_str(html);
    inner.check_end_names(false);
    EventReader { inner, buf: Vec::new() }
}

/// `Reader::read_event`: the next event, with its bytes copied out of the
/// reader's buffer. What comes is the first step of what the reader had yet
/// to give; after an event that is not the end of the document, the rest is
/// what it has yet to give.
#[verifier::external_body]
fn read_event(reader: &mut EventReader) -> (r: Result<RawEvent, Error>)
    ensures
        reader_script(*old(reader)).len() > 0,
        reader_script(*old(reader))[0] == step_of(r),
        r matches Ok(event) && !(event is Eof) ==> reader_script(*final(reader)) == reader_script(
            *old(reader),
        ).skip(1),
{
    reader.buf.clear();
    Ok(
        match reader.inner.read_event(&mut reader.buf)? {
            Event::Start(e) => RawEvent::Start { name: e.name().to_vec(), raw: e.to_vec() },
            Event::End(e) => RawEvent::End { name: e.name().to_vec() },
            Event::Empty(e) => RawEvent::Empty { name: e.name().to_vec() },
            Event::Text(e) => RawEvent::Text { bytes: e.escaped().to_vec() },
            Event::Eof => RawEvent::Eof,
            _ => RawEvent::Other,
        },
    )
}

/// `BytesStart::attributes`, read to its end: the attributes of an opening
/// tag whose name takes the first `name_len` bytes of `raw`. An attribute
/// that the tokenizer reports as an error comes as `None`.
#[verifier::external_body]
pub(crate) fn read_attributes(raw: &Vec<u8>, name_len: usize) -> (r: Vec<
    Option<(Vec<u8>, Vec<u8>)>,
>)
    ensures
        r.deep_view() == tag_attributes(raw@, name_len as nat),
{
    BytesStart::borrowed(raw, name_len).attributes().map(
        |a| a.ok().map(|a| (a.key.to_vec(), a.value.into_owned())),
    ).collect()
}

/// `std::str::from_utf8`, with its error turned into the tokenizer's by
/// `Error::from`: the string that the bytes encode, if they are UTF-8.
#[verifier::external_body]
pub(crate) fn decode(bytes: &Vec<u8>) -> (r: Result<String, Error>)
    ensures
        r is Ok <==> valid_utf8(bytes@),
        r matches Ok(s) ==> s@ == decode_utf8(bytes@),
{
    match std::str::from_utf8(bytes) {
        Ok(s) => Ok(s.to_owned()),
        Err(e) => Err(Error::from(e)),
    }
}

/// `memchr::memchr`: the index of the first byte of `haystack` that equals
/// `needle`, if there is one.
#[verifier::external_body]
pub(crate) fn find_byte(needle: u8, haystack: &Vec<u8>) -> (r: Option<usize>)
    ensures
        match r {
            Some(i) => i < haystack@.len() && haystack@[i as int] == needle && forall|j: int|
                0 <= j < i ==> haystack@[j] != needle,
            None => forall|j: int| 0 <= j < haystack@.len() ==> haystack@[j] != needle,
        },
{
    memchr::memchr(needle, haystack)
}

/// The events of a script that carry a node or a part of one, up to the end
/// of the document; or nothing, where the script fails before its end.
pub open spec fn script_events(script: Seq<Step>) -> Option<Seq<RawEventView>>
    decreases script.len(),
{
    if script.len() == 0 {
        None
    } else {
        match script[0] {
            Step::Failure => None,
            Step::Event(RawEventView::Eof) => Some(Seq::empty()),
            Step::Event(RawEventView::Other) => script_events(script.skip(1)),
            Step::Event(event) => match script_events(script.skip(1)) {
                Some(rest) => Some(seq![event] + rest),
                None => None,
            },
        }
    }
}

/// The events `front`, followed by those of `rest` if there are any.
pub open spec fn events_then(front: Seq<RawEventView>, rest: Option<Seq<RawEventView>>) -> Option<
    Seq<RawEventView>,
> {
    match rest {
        Some(rest) => Some(front + rest),
        None => None,
    }
}

/// Reads the events of a document, from the first to the last before its
/// end. Comments, declarations and the like are left out.
pub fn read_events(html: &str) -> (r: Result<Vec<RawEvent>, LoadError>)
    ensures
        match r {
            Ok(events) => script_events(markup_script(html@)) == Some(events.deep_view()),
            Err(e) => e is Malformed && script_events(markup_script(html@)) is None,
        },
{
    let mut reader = open_reader(html);
    let mut events: Vec<RawEvent> = Vec::new();
    let ghost whole = script_events(markup_script(html@));
    assert(events.deep_view() + Seq::<RawEventView>::empty() =~= Seq::<RawEventView>::empty());
    assert(events_then(events.deep_view(), script_events(reader_script(reader))) =~= whole) by {
        match script_events(reader_script(reader)) {
            Some(rest) => {
                assert(events.deep_view() + rest =~= rest);
            },
            None => {},
        }
    }
    loop
        invariant
            whole == events_then(events.deep_view(), script_events(reader_script(reader))),
            whole == script_events(markup_script(html@)),
        decreases reader_script(reader).len(),
    {
        let ghost before = events.deep_view();
        let ghost script = reader_script(reader);
        match read_event(&mut reader) {
            Err(e) => {
                return Err(LoadError::Malformed(e));
            },
            Ok(RawEvent::Eof) => {
                assert(before + Seq::<RawEventView>::empty() =~= before);
                return Ok(events);
            },
            Ok(RawEvent::Other) => {},
            Ok(event) => {
                events.push(event);
                proof {
                    assert(events.deep_view() =~= before.push(event@));
                    match script_events(script.skip(1)) {
                        Some(rest) => {
                            assert(before + (seq![event@] + rest) =~= before.push(event@) + rest);
                        },
                        None => {},
                    }
                }
            },
        }
    }
}

} // verus!

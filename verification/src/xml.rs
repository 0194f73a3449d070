//! XML, through the `quick_xml` crate.

use self::XmlEvent::{Close, Finish, Rest, Tag, Words};
use quick_xml::events::Event::{Empty, End, Eof, Start, Text};
use vstd::prelude::*;

verus! {

/// A reader of XML text.
#[verifier::external_type_specification]
#[verifier::external_body]
#[verifier::reject_recursive_types(R)]
pub struct ExReader<R>(quick_xml::Reader<R>);

/// An attribute as it stands in the text: name and value, the value with its escapes.
pub type Attribute = (Vec<u8>, Vec<u8>);

/// What comes next in an XML text.
#[derive(Debug)]
pub enum XmlEvent {
    /// The start of an element: local name, attributes, and whether the element is an empty
    /// one that ends here. An attribute that cannot be read is `None`.
    Tag(Vec<u8>, Vec<Option<Attribute>>, bool),
    /// The end of an element: local name.
    Close(Vec<u8>),
    /// Text with its escapes resolved, where they can be.
    Words(Option<String>),
    /// Comments, declarations and the like.
    Rest,
    /// The end of the text.
    Finish,
}

/// The content of an [`XmlEvent`].
pub enum EventView {
    Tag(Seq<u8>, Seq<Option<(Seq<u8>, Seq<u8>)>>, bool),
    Close(Seq<u8>),
    Words(Option<Seq<char>>),
    Rest,
    Finish,
}

/// The content of an optional attribute.
pub open spec fn attribute_view(a: Option<Attribute>) -> Option<(Seq<u8>, Seq<u8>)> {
    match a {
        Some(p) => Some((p.0@, p.1@)),
        None => None,
    }
}

/// The contents of a list of attributes.
pub open spec fn attributes_view(list: Seq<Option<Attribute>>) -> Seq<Option<(Seq<u8>, Seq<u8>)>> {
    list.map_values(|a: Option<Attribute>| attribute_view(a))
}

impl View for XmlEvent {
    type V = EventView;

    open spec fn view(&self) -> EventView {
        match *self {
            XmlEvent::Tag(name, attrs, empty) => EventView::Tag(
                name@,
                attributes_view(attrs@),
                empty,
            ),
            XmlEvent::Close(name) => EventView::Close(name@),
            XmlEvent::Words(t) => EventView::Words(
                match t {
                    Some(s) => Some(s@),
                    None => None,
                },
            ),
            XmlEvent::Rest => EventView::Rest,
            XmlEvent::Finish => EventView::Finish,
        }
    }
}

/// An event, or the message of the error in its place.
pub open spec fn event_outcome(r: Result<XmlEvent, String>) -> Result<EventView, Seq<char>> {
    match r {
        Ok(e) => Ok(e@),
        Err(m) => Err(m@),
    }
}

/// What `quick_xml` reads in a text, up to its end: events, and messages of errors.
pub uninterp spec fn xml_events(s: Seq<char>) -> Seq<Result<EventView, Seq<char>>>;

/// What a reader has still to read.
pub uninterp spec fn xml_ahead(r: quick_xml::Reader<&[u8]>) -> Seq<Result<EventView, Seq<char>>>;

/// `quick_xml::Reader::from_str`, set to trim white space around text: a reader with the
/// whole text ahead of it.
#[verifier::external_body]
pub(crate) fn xml_reader(s: &str) -> (r: quick_xml::Reader<&[u8]>)
    ensures
        xml_ahead(r) == xml_events(s@),
{
    let mut r = quick_xml::Reader::from_str(s);
    r.config_mut().trim_text(true);
    r
}

/// `quick_xml::Reader::read_event_into`: the next of what the reader has ahead of it, and
/// the end of the text when nothing is left. A tag is taken with its local name and its
/// attributes, text with its escapes resolved, an error by its message. What the events of a
/// text are is left to the name [`xml_events`].
#[verifier::external_body]
pub(crate) fn next_event(r: &mut quick_xml::Reader<&[u8]>) -> (e: Result<XmlEvent, String>)
    ensures
        xml_ahead(*old(r)).len() == 0 <==> e matches Ok(XmlEvent::Finish),
        xml_ahead(*old(r)).len() > 0 ==> event_outcome(e) == xml_ahead(*old(r))[0] && xml_ahead(
            *final(r),
        ) == xml_ahead(*old(r)).drop_first(),
{
    let mut buf = Vec::new();
    let event = r.read_event_into(&mut buf).map_err(|e| e.to_string())?;
    let empty = matches!(event, Empty(_));
    Ok(match event {
        Start(e) | Empty(e) => Tag(
            e.local_name().as_ref().to_vec(),
            e.attributes().map(|a| a.ok().map(|a| (a.key.0.to_vec(), a.value.to_vec()))).collect(),
            empty,
        ),
        End(e) => Close(e.local_name().as_ref().to_vec()),
        Text(e) => Words(e.unescape().ok().map(|t| t.into_owned())),
        Eof => Finish,
        _ => Rest,
    })
}

} // verus!

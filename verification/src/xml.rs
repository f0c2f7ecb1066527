//! XML documents as lists of events, through the `quick-xml` crate.
use vstd::prelude::*;
use quick_xml::events::BytesStart;
use quick_xml::events::Event;
use quick_xml::Reader;
use crate::rows;
use crate::text;

verus! {

#[verifier::external_type_specification]
#[verifier::external_body]
#[verifier::reject_recursive_types(R)]
pub struct ExXmlReader<R>(quick_xml::Reader<R>);

#[verifier::external_type_specification]
#[verifier::external_body]
pub struct ExBytesStart<'a>(quick_xml::events::BytesStart<'a>);

/// An attribute: its local name and its raw value.
#[derive(Debug, PartialEq, Eq)]
pub struct Attribute {
    pub name: Vec<u8>,
    pub value: Vec<u8>,
}

/// What an [`Attribute`] holds.
#[verifier::ext_equal]
pub struct AttributeV {
    pub name: Seq<u8>,
    pub value: Seq<u8>,
}

impl View for Attribute {
    type V = AttributeV;

    open spec fn view(&self) -> AttributeV {
        AttributeV { name: self.name@, value: self.value@ }
    }
}

/// One step of reading a document. Names are local names; an attribute that cannot be read is
/// `None`, and so is text that cannot be decoded.
#[derive(Debug, PartialEq, Eq)]
pub enum XmlEvent {
    Start { name: Vec<u8>, attributes: Vec<Option<Attribute>> },
    Empty { name: Vec<u8>, attributes: Vec<Option<Attribute>> },
    End { name: Vec<u8> },
    Text(Option<String>),
    /// Anything else: comments, declarations, references and the like.
    Other,
    /// The document is broken here.
    Broken(String),
    /// There is no more.
    Eof,
}

/// What an [`XmlEvent`] holds.
pub enum XmlV {
    Start { name: Seq<u8>, attributes: Seq<Option<AttributeV>> },
    Empty { name: Seq<u8>, attributes: Seq<Option<AttributeV>> },
    End { name: Seq<u8> },
    Text(Option<Seq<char>>),
    Other,
    Broken(Seq<char>),
    Eof,
}

/// The attributes of a tag.
pub open spec fn attributes_of(v: Seq<Option<Attribute>>) -> Seq<Option<AttributeV>> {
    Seq::new(
        v.len(),
        |i: int|
            match v[i] {
                Some(a) => Some(a@),
                None => None,
            },
    )
}

impl View for XmlEvent {
    type V = XmlV;

    open spec fn view(&self) -> XmlV {
        match self {
            XmlEvent::Start { name, attributes } => XmlV::Start {
                name: name@,
                attributes: attributes_of(attributes@),
            },
            XmlEvent::Empty { name, attributes } => XmlV::Empty {
                name: name@,
                attributes: attributes_of(attributes@),
            },
            XmlEvent::End { name } => XmlV::End { name: name@ },
            XmlEvent::Text(t) => XmlV::Text(text::opt_text(*t)),
            XmlEvent::Other => XmlV::Other,
            XmlEvent::Broken(e) => XmlV::Broken(e@),
            XmlEvent::Eof => XmlV::Eof,
        }
    }
}

/// The events of a document, up to its end or with its first break.
pub uninterp spec fn xml_events(bytes: Seq<u8>, trim: bool) -> Seq<XmlV>;

/// The events a reader has yet to give, up to the document's end or with its first break.
pub uninterp spec fn xml_rest(r: quick_xml::Reader<&[u8]>) -> Seq<XmlV>;

/// The local name of a tag, and its attributes.
pub uninterp spec fn tag_parts(t: quick_xml::events::BytesStart<'static>) -> (
    Seq<u8>,
    Seq<Option<AttributeV>>,
);

/// A step of reading whose tags are not taken apart yet.
pub enum RawEvent {
    Start(BytesStart<'static>),
    Empty(BytesStart<'static>),
    End(Vec<u8>),
    Text(Option<String>),
    Other,
    Broken(String),
    Eof,
}

impl View for RawEvent {
    type V = XmlV;

    open spec fn view(&self) -> XmlV {
        match self {
            RawEvent::Start(t) => XmlV::Start { name: tag_parts(*t).0, attributes: tag_parts(*t).1 },
            RawEvent::Empty(t) => XmlV::Empty { name: tag_parts(*t).0, attributes: tag_parts(*t).1 },
            RawEvent::End(n) => XmlV::End { name: n@ },
            RawEvent::Text(t) => XmlV::Text(text::opt_text(*t)),
            RawEvent::Other => XmlV::Other,
            RawEvent::Broken(e) => XmlV::Broken(e@),
            RawEvent::Eof => XmlV::Eof,
        }
    }
}

/// Opens a document (`Reader::from_reader`, with `trim_text` set as asked): the reader holds the
/// document's events, which are a function of bytes and setting, named here.
#[verifier::external_body]
pub(crate) fn open_xml(bytes: &[u8], trim: bool) -> (r: Reader<&[u8]>)
    ensures
        xml_rest(r) == xml_events(bytes@, trim),
{
    let mut reader = Reader::from_reader(bytes);
    reader.config_mut().trim_text(trim);
    reader
}

/// Reads the next event (`Reader::read_event_into`): the first of those the reader has yet to give,
/// and the end once there are none. Nothing is said of a reader behind a break.
#[verifier::external_body]
pub(crate) fn next_event(r: &mut Reader<&[u8]>) -> (e: RawEvent)
    ensures
        xml_rest(*old(r)).len() == 0 ==> e@ == XmlV::Eof && xml_rest(*final(r)) == xml_rest(*old(r)),
        xml_rest(*old(r)).len() > 0 ==> e@ == xml_rest(*old(r))[0] && e@ != XmlV::Eof,
        xml_rest(*old(r)).len() > 0 && !(e@ is Broken) ==> xml_rest(*final(r)) == xml_rest(
            *old(r),
        ).skip(1),
        xml_rest(*old(r)).len() > 0 && e@ is Broken ==> xml_rest(*old(r)).len() == 1,
{
    let mut buf = Vec::new();
    match r.read_event_into(&mut buf) {
        Ok(Event::Start(t)) => RawEvent::Start(t.into_owned()),
        Ok(Event::Empty(t)) => RawEvent::Empty(t.into_owned()),
        Ok(Event::End(t)) => RawEvent::End(t.local_name().as_ref().to_vec()),
        Ok(Event::Text(t)) => RawEvent::Text(t.decode().ok().map(|s| s.into_owned())),
        Ok(Event::Eof) => RawEvent::Eof,
        Ok(_) => RawEvent::Other,
        Err(e) => RawEvent::Broken(e.to_string()),
    }
}

/// Takes a tag apart (`BytesStart::local_name`, `BytesStart::attributes`): its local name, and for
/// each attribute its local name and raw value, where it can be read; a function of the tag, named
/// here.
#[verifier::external_body]
pub(crate) fn open_tag(t: &BytesStart<'static>) -> (r: (Vec<u8>, Vec<Option<Attribute>>))
    ensures
        (r.0@, attributes_of(r.1@)) == tag_parts(*t),
{
    let parts = t.attributes().map(
        |a| a.ok().map(
            |a| Attribute { name: a.key.local_name().as_ref().to_vec(), value: a.value.to_vec() },
        ),
    );
    (t.local_name().as_ref().to_vec(), parts.collect())
}

/// A step of reading with its tag taken apart.
fn opened(e: RawEvent) -> (r: XmlEvent)
    ensures
        r@ == e@,
{
    match e {
        RawEvent::Start(t) => {
            let (name, attributes) = open_tag(&t);
            XmlEvent::Start { name, attributes }
        },
        RawEvent::Empty(t) => {
            let (name, attributes) = open_tag(&t);
            XmlEvent::Empty { name, attributes }
        },
        RawEvent::End(name) => XmlEvent::End { name },
        RawEvent::Text(t) => XmlEvent::Text(t),
        RawEvent::Other => XmlEvent::Other,
        RawEvent::Broken(m) => XmlEvent::Broken(m),
        RawEvent::Eof => XmlEvent::Eof,
    }
}

/// Reads a document: its events up to its end or its first break.
pub fn read_events(bytes: &[u8], trim: bool) -> (r: Vec<XmlEvent>)
    ensures
        rows::vals(r@) == xml_events(bytes@, trim),
{
    let ghost all = xml_events(bytes@, trim);
    let mut out: Vec<XmlEvent> = Vec::new();
    let mut reader = open_xml(bytes, trim);
    assert(rows::vals(out@) + all =~= all);
    loop
        invariant
            all == xml_events(bytes@, trim),
            rows::vals(out@) + xml_rest(reader) == all,
        decreases xml_rest(reader).len(),
    {
        let ghost rest = xml_rest(reader);
        let raw = next_event(&mut reader);
        let e = opened(raw);
        match e {
            XmlEvent::Eof => {
                assert(rest.len() == 0);
                assert(rows::vals(out@) + rest =~= rows::vals(out@));
                return out;
            },
            XmlEvent::Broken(m) => {
                let b = XmlEvent::Broken(m);
                proof {
                    rows::lemma_vals_push(out@, b);
                    assert(rest =~= seq![b@]);
                    assert(rows::vals(out@) + rest =~= rows::vals(out@).push(b@));
                }
                out.push(b);
                return out;
            },
            other => {
                proof {
                    assert(rest.len() > 0);
                    rows::lemma_vals_push(out@, other);
                    assert(rows::vals(out@) + rest =~= rows::vals(out@).push(other@) + rest.skip(1));
                }
                out.push(other);
            },
        }
    }
}

} // verus!

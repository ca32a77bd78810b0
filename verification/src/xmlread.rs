//! Reading XML with `quick_xml`, one event at a time, as plain values.

use vstd::prelude::*;
use quick_xml::events::Event;

verus! {

#[verifier::external_type_specification]
#[verifier::external_body]
#[verifier::reject_recursive_types(R)]
pub struct ExXmlReader<R>(quick_xml::Reader<R>);

#[verifier::external_type_specification]
#[verifier::external_body]
pub struct ExBytesStart<'a>(quick_xml::events::BytesStart<'a>);

/// A start or empty-element tag: its name and its attributes in document order
/// (raw values, as written in the document).
#[derive(Debug, Clone, PartialEq)]
pub struct XmlTag {
    pub name: String,
    pub attrs: Vec<(String, String)>,
}

/// One event of the XML reader.
#[derive(Debug, Clone, PartialEq)]
pub enum XmlEvent {
    /// `<tag attr="value">`
    Start(XmlTag),
    /// `<tag attr="value"/>`
    Empty(XmlTag),
    /// Character data between tags, with entities resolved (empty when they
    /// could not be resolved).
    Text(String),
    /// `</tag>`, with the tag's name.
    End(String),
    /// End of the document.
    Eof,
    /// The reader failed; the message says why.
    Error(String),
    /// Anything else: comments, CDATA, declarations, processing instructions.
    Other,
}

/// The events `quick_xml::Reader::from_str(source)`, with `trim_text(trim)` set,
/// yields one `read_event` after another, up to and including the first end of
/// document or error, each taken as an `XmlEvent`.
pub uninterp spec fn xml_events(source: Seq<char>, trim: bool) -> Seq<XmlEvent>;

/// A `quick_xml` reader over a string, together with what it was built from and
/// how many events have been taken from it.
pub struct XmlEvents<'a> {
    reader: quick_xml::Reader<&'a [u8]>,
    source: &'a str,
    trim: bool,
    taken: usize,
    done: bool,
}

impl<'a> XmlEvents<'a> {
    /// The text being read.
    pub closed spec fn source(&self) -> Seq<char> {
        self.source@
    }

    /// Whether text is trimmed.
    pub closed spec fn trim(&self) -> bool {
        self.trim
    }

    /// How many events have been taken so far.
    pub closed spec fn taken(&self) -> usize {
        self.taken
    }
}

/// `quick_xml::Reader::from_str(source)` with `config_mut().trim_text(trim)`.
#[verifier::external_body]
pub(crate) fn open_xml<'a>(source: &'a str, trim: bool) -> (r: XmlEvents<'a>)
    ensures
        r.source() == source@,
        r.trim() == trim,
        r.taken() == 0,
{
    let mut reader = quick_xml::Reader::from_str(source);
    reader.config_mut().trim_text(trim);
    XmlEvents { reader, source, trim, taken: 0, done: false }
}

/// The name and attributes of a start tag (`BytesStart::name`,
/// `BytesStart::attributes`, skipping malformed attributes), with bytes read
/// as UTF-8 where invalid sequences become U+FFFD (`String::from_utf8_lossy`).
/// Nothing is stated of the result.
#[verifier::external_body]
fn tag_of(e: &quick_xml::events::BytesStart) -> XmlTag {
    let name = String::from_utf8_lossy(e.name().as_ref()).into_owned();
    let attrs = e.attributes().flatten().map(|a| {
        (String::from_utf8_lossy(a.key.as_ref()).into_owned(), String::from_utf8_lossy(&a.value).into_owned())
    }).collect();
    XmlTag { name, attrs }
}

/// The next event (`Reader::read_event`), or `None` once the end of document or
/// an error has been taken.
#[verifier::external_body]
pub(crate) fn next_xml(x: &mut XmlEvents) -> (r: Option<XmlEvent>)
    ensures
        final(x).source() == old(x).source(),
        final(x).trim() == old(x).trim(),
        ({
            let all = xml_events(old(x).source(), old(x).trim());
            let k = old(x).taken();
            if k < all.len() {
                final(x).taken() == k + 1 && r == Some(all[k as int])
            } else {
                final(x).taken() == k && r is None
            }
        }),
{
    if x.done {
        return None;
    }
    let ev = match x.reader.read_event() {
        Ok(Event::Start(e)) => XmlEvent::Start(tag_of(&e)),
        Ok(Event::Empty(e)) => XmlEvent::Empty(tag_of(&e)),
        Ok(Event::Text(t)) => XmlEvent::Text(t.unescape().unwrap_or_default().into_owned()),
        Ok(Event::End(e)) => XmlEvent::End(String::from_utf8_lossy(e.name().as_ref()).into_owned()),
        Ok(Event::Eof) => XmlEvent::Eof,
        Err(e) => XmlEvent::Error(e.to_string()),
        Ok(_) => XmlEvent::Other,
    };
    x.taken += 1;
    x.done = matches!(ev, XmlEvent::Eof | XmlEvent::Error(_));
    Some(ev)
}

/// Every event the reader yields for `source`, in order (see `xml_events`).
pub fn read_all_xml(source: &str, trim: bool) -> (r: Vec<XmlEvent>)
    ensures
        r@ == xml_events(source@, trim),
{
    let mut x = open_xml(source, trim);
    let ghost all = xml_events(source@, trim);
    let mut out: Vec<XmlEvent> = Vec::new();
    loop
        invariant
            x.source() == source@,
            x.trim() == trim,
            all == xml_events(source@, trim),
            x.taken() <= all.len(),
            out@ == all.take(x.taken() as int),
        ensures
            out@ == all,
        decreases all.len() - x.taken(),
    {
        let ghost k = x.taken() as int;
        match next_xml(&mut x) {
            None => {
                assert(all.take(k) =~= all);
                break;
            },
            Some(ev) => {
                out.push(ev);
                assert(all.take(k + 1) =~= all.take(k).push(all[k]));
            },
        }
    }
    out
}

} // verus!

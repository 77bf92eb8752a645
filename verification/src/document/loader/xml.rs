//! Documents from markup: every text between tags becomes a document that
//! knows the elements around it.
//!
//! The markup is read by a pull reader, event by event; what the documents
//! are is decided here.

use crate::document::loader::{
    clone_tags, documents_view, loaded_view, tags_view, AttrValue, AttrView, Document,
    DocumentLoader, DocumentView, LoadError, Meta, MetaView, Tag, TagView,
};
use crate::str_map::{upsert, StrMap};
use crate::text::{to_chars, trim_chars, trimmed};
use quick_xml::events::Event;
use vstd::prelude::*;
use vstd::utf8::{decode_utf8, valid_utf8};

verus! {

/// One event of reading markup.
#[derive(Debug, PartialEq, Eq)]
pub enum XmlEvent {
    /// An element opens.
    Start(Tag),
    /// The element that was opened last closes.
    End,
    /// Text, with its character references resolved.
    Text(String),
    /// A name, an attribute or a text that cannot be read.
    Invalid,
    /// Anything else: comments, declarations, empty elements.
    Other,
}

/// An event as a value.
pub enum XmlEventView {
    Start(TagView),
    End,
    Text(Seq<char>),
    Invalid,
    Other,
}

impl View for XmlEvent {
    type V = XmlEventView;

    open spec fn view(&self) -> XmlEventView {
        match self {
            XmlEvent::Start(t) => XmlEventView::Start(t@),
            XmlEvent::End => XmlEventView::End,
            XmlEvent::Text(s) => XmlEventView::Text(s@),
            XmlEvent::Invalid => XmlEventView::Invalid,
            XmlEvent::Other => XmlEventView::Other,
        }
    }
}

/// The views of a list of events.
pub open spec fn events_view(e: Seq<XmlEvent>) -> Seq<XmlEventView> {
    e.map_values(|x: XmlEvent| x@)
}

/// The reader's state: the elements that are open, and the documents so far.
pub struct Reading {
    pub stack: Seq<TagView>,
    pub docs: Seq<DocumentView>,
}

/// The state after the first `n` events, or the error that one of them is.
pub open spec fn replay(events: Seq<XmlEventView>, n: nat) -> Result<Reading, LoadError>
    decreases n,
{
    if n == 0 || n > events.len() {
        Ok(Reading { stack: Seq::empty(), docs: Seq::empty() })
    } else {
        match replay(events, (n - 1) as nat) {
            Err(e) => Err(e),
            Ok(s) => match events[n - 1] {
                XmlEventView::Start(tag) => Ok(Reading { stack: s.stack.push(tag), docs: s.docs }),
                XmlEventView::End => Ok(
                    Reading {
                        stack: if s.stack.len() > 0 {
                            s.stack.drop_last()
                        } else {
                            s.stack
                        },
                        docs: s.docs,
                    },
                ),
                XmlEventView::Text(text) => Ok(
                    Reading {
                        stack: s.stack,
                        docs: s.docs.push(
                            DocumentView {
                                text,
                                meta: MetaView { tag_stack: Some(s.stack), merge: None, other: Seq::empty() },
                            },
                        ),
                    },
                ),
                XmlEventView::Invalid => Err(LoadError::Malformed),
                XmlEventView::Other => Ok(s),
            },
        }
    }
}

/// Those of the first `n` documents whose text is more than white space.
pub open spec fn with_text(docs: Seq<DocumentView>, n: nat) -> Seq<DocumentView>
    decreases n,
{
    if n == 0 || n > docs.len() {
        Seq::empty()
    } else {
        let before = with_text(docs, (n - 1) as nat);
        if trimmed(docs[n - 1].text).len() > 0 {
            before.push(docs[n - 1])
        } else {
            before
        }
    }
}

/// The documents that a list of events stands for.
pub open spec fn load_spec(events: Seq<XmlEventView>) -> Result<Seq<DocumentView>, LoadError> {
    match replay(events, events.len()) {
        Ok(s) => Ok(with_text(s.docs, s.docs.len())),
        Err(e) => Err(e),
    }
}

proof fn lemma_replay_err(events: Seq<XmlEventView>, n: nat, m: nat)
    requires
        n <= m <= events.len(),
        replay(events, n) is Err,
    ensures
        replay(events, m) == replay(events, n),
    decreases m,
{
    if n < m {
        lemma_replay_err(events, n, (m - 1) as nat);
    }
}

/// Whether `text` holds more than white space.
pub fn has_text(text: &str) -> (r: bool)
    ensures
        r == (trimmed(text@).len() > 0),
{
    trim_chars(&to_chars(text)).len() > 0
}

/// An event as the reader hands it out, names and values still in bytes.
#[derive(Debug, PartialEq, Eq)]
pub enum RawEvent {
    /// An element opens: its name, and its attributes as pairs of name and
    /// value, `None` for an attribute that the reader could not make out.
    Start(Vec<u8>, Vec<Option<(Vec<u8>, Vec<u8>)>>),
    /// An element closes.
    End,
    /// Text with its character references resolved; `None` where they
    /// cannot be resolved, which fails the load.
    Text(Option<String>),
    /// Anything else.
    Other,
}

/// A raw event as a value.
pub enum RawEventView {
    Start(Seq<u8>, Seq<Option<(Seq<u8>, Seq<u8>)>>),
    End,
    Text(Option<Seq<char>>),
    Other,
}

/// A raw attribute as a value.
pub open spec fn raw_attr_view(a: Option<(Vec<u8>, Vec<u8>)>) -> Option<(Seq<u8>, Seq<u8>)> {
    match a {
        Some(p) => Some((p.0@, p.1@)),
        None => None,
    }
}

impl View for RawEvent {
    type V = RawEventView;

    open spec fn view(&self) -> RawEventView {
        match self {
            RawEvent::Start(name, attrs) => RawEventView::Start(
                name@,
                attrs@.map_values(|a: Option<(Vec<u8>, Vec<u8>)>| raw_attr_view(a)),
            ),
            RawEvent::End => RawEventView::End,
            RawEvent::Text(t) => RawEventView::Text(
                match t {
                    Some(s) => Some(s@),
                    None => None,
                },
            ),
            RawEvent::Other => RawEventView::Other,
        }
    }
}

/// The views of a list of raw events.
pub open spec fn raw_events_view(e: Seq<RawEvent>) -> Seq<RawEventView> {
    e.map_values(|x: RawEvent| x@)
}

/// The events that `quick_xml` reads from `text`, up to the end of the text;
/// `None` where the reader reports an error before it reaches the end.
pub uninterp spec fn xml_events(text: Seq<char>) -> Option<Seq<RawEventView>>;

/// The error of `quick_xml`, carried through as it is: nothing is known of
/// what it holds.
#[verifier::external_type_specification]
#[verifier::external_body]
pub struct ExXmlError(quick_xml::Error);

/// Reads the events of `text`.
///
/// Trusted: a `quick_xml::Reader` over the text is asked for one event after
/// the other with `read_event`, until it reports the end; its first error
/// ends the reading and is handed out. The name and the attributes of a start
/// tag and the unescaped content of a text are copied out as they are. The
/// contract only gives the outcome a name.
#[verifier::external_body]
pub(crate) fn read_events(text: &str) -> (r: Result<Vec<RawEvent>, quick_xml::Error>)
    ensures
        match r {
            Ok(events) => xml_events(text@) == Some(raw_events_view(events@)),
            Err(_) => xml_events(text@) is None,
        },
{
    let mut reader = quick_xml::Reader::from_str(text);
    std::iter::from_fn(|| reader.read_event().map(|e| match e {
        Event::Start(t) => Some(RawEvent::Start(
            t.name().0.to_vec(),
            t.attributes().map(|a| a.ok().map(|a| (a.key.0.to_vec(), a.value.to_vec()))).collect(),
        )),
        Event::End(_) => Some(RawEvent::End),
        Event::Text(t) => Some(RawEvent::Text(t.unescape().ok().map(|s| s.into_owned()))),
        Event::Eof => None,
        _ => Some(RawEvent::Other),
    }).transpose()).collect()
}

/// The text that `bytes` encode, if they are UTF-8.
///
/// Trusted: `String::from_utf8` gives the text that the bytes encode and
/// fails exactly where the bytes are no UTF-8.
#[verifier::external_body]
pub(crate) fn text_from_utf8(bytes: &Vec<u8>) -> (r: Option<String>)
    ensures
        match r {
            Some(s) => valid_utf8(bytes@) && s@ == decode_utf8(bytes@),
            None => !valid_utf8(bytes@),
        },
{
    String::from_utf8(bytes.clone()).ok()
}

/// The attributes that the first `n` raw attributes make, by name; `None`
/// where one of them could not be made out or has a name that is no text. A
/// value that is no text stays as bytes.
pub open spec fn decode_attrs(raw: Seq<Option<(Seq<u8>, Seq<u8>)>>, n: nat) -> Option<
    Seq<(Seq<char>, AttrView)>,
>
    decreases n,
{
    if n == 0 || n > raw.len() {
        Some(Seq::empty())
    } else {
        match (decode_attrs(raw, (n - 1) as nat), raw[n - 1]) {
            (Some(m), Some(a)) => if valid_utf8(a.0) {
                Some(
                    upsert(
                        m,
                        decode_utf8(a.0),
                        if valid_utf8(a.1) {
                            AttrView::Text(decode_utf8(a.1))
                        } else {
                            AttrView::Bytes(a.1)
                        },
                    ),
                )
            } else {
                None
            },
            _ => None,
        }
    }
}

/// The event that a raw event stands for.
pub open spec fn decode_event(raw: RawEventView) -> XmlEventView {
    match raw {
        RawEventView::Start(name, attrs) => match decode_attrs(attrs, attrs.len()) {
            Some(m) => if valid_utf8(name) {
                XmlEventView::Start(TagView { name: decode_utf8(name), attrs: m })
            } else {
                XmlEventView::Invalid
            },
            None => XmlEventView::Invalid,
        },
        RawEventView::End => XmlEventView::End,
        RawEventView::Text(Some(t)) => XmlEventView::Text(t),
        RawEventView::Text(None) => XmlEventView::Invalid,
        RawEventView::Other => XmlEventView::Other,
    }
}

/// The events that raw events stand for.
pub open spec fn decode_events(raw: Seq<RawEventView>) -> Seq<XmlEventView> {
    raw.map_values(|e: RawEventView| decode_event(e))
}

proof fn lemma_decode_attrs_none(raw: Seq<Option<(Seq<u8>, Seq<u8>)>>, n: nat, m: nat)
    requires
        n <= m <= raw.len(),
        decode_attrs(raw, n) is None,
    ensures
        decode_attrs(raw, m) is None,
    decreases m,
{
    if n < m {
        lemma_decode_attrs_none(raw, n, (m - 1) as nat);
    }
}

/// The event that a raw event stands for.
pub fn decode(raw: &RawEvent) -> (r: XmlEvent)
    ensures
        r@ == decode_event(raw@),
{
    match raw {
        RawEvent::Start(name, attrs) => {
            let ghost av = attrs@.map_values(|a: Option<(Vec<u8>, Vec<u8>)>| raw_attr_view(a));
            let mut map: StrMap<AttrValue> = StrMap::new();
            let mut i: usize = 0;
            while i < attrs.len()
                invariant
                    i <= attrs.len(),
                    *raw == RawEvent::Start(*name, *attrs),
                    av == attrs@.map_values(|a: Option<(Vec<u8>, Vec<u8>)>| raw_attr_view(a)),
                    decode_attrs(av, i as nat) == Some(map@),
                decreases attrs.len() - i,
            {
                assert(av[i as int] == raw_attr_view(attrs@[i as int]));
                match &attrs[i] {
                    None => {
                        proof {
                            lemma_decode_attrs_none(av, (i + 1) as nat, av.len());
                        }
                        return XmlEvent::Invalid;
                    },
                    Some(pair) => {
                        let key = match text_from_utf8(&pair.0) {
                            Some(k) => k,
                            None => {
                                proof {
                                    lemma_decode_attrs_none(av, (i + 1) as nat, av.len());
                                }
                                return XmlEvent::Invalid;
                            },
                        };
                        let value = match text_from_utf8(&pair.1) {
                            Some(v) => AttrValue::Text(v),
                            None => AttrValue::Bytes(pair.1.clone()),
                        };
                        map.insert(key, value);
                    },
                }
                i += 1;
            }
            match text_from_utf8(name) {
                Some(n) => XmlEvent::Start(Tag { name: n, attrs: map }),
                None => XmlEvent::Invalid,
            }
        },
        RawEvent::End => XmlEvent::End,
        RawEvent::Text(Some(t)) => XmlEvent::Text(t.clone()),
        RawEvent::Text(None) => XmlEvent::Invalid,
        RawEvent::Other => XmlEvent::Other,
    }
}

/// Loads markup.
pub struct XMLLoader {}

impl DocumentLoader for XMLLoader {
    /// The documents of the events that the reader finds in `mem`. Markup
    /// that the reader cannot read to its end gives no documents at all.
    open spec fn load_mem_spec(&self, mem: Seq<char>) -> Result<Seq<DocumentView>, LoadError> {
        match xml_events(mem) {
            Some(events) => load_spec(decode_events(events)),
            None => Err(LoadError::Malformed),
        }
    }

    fn load_mem(&self, mem: &str) -> (r: Result<Vec<Document>, LoadError>) {
        let raw = match read_events(mem) {
            Ok(events) => events,
            Err(_) => {
                return Err(LoadError::Malformed);
            },
        };
        let ghost rv = raw_events_view(raw@);
        let mut events: Vec<XmlEvent> = Vec::new();
        let mut i: usize = 0;
        assert(events_view(events@) =~= decode_events(rv.take(0)));
        while i < raw.len()
            invariant
                i <= raw.len(),
                rv == raw_events_view(raw@),
                events_view(events@) == decode_events(rv.take(i as int)),
            decreases raw.len() - i,
        {
            let ghost before = events_view(events@);
            let e = decode(&raw[i]);
            assert(rv[i as int] == raw@[i as int]@);
            events.push(e);
            assert(events_view(events@) =~= before.push(e@));
            assert(decode_events(rv.take(i + 1)) =~= decode_events(rv.take(i as int)).push(
                decode_event(rv[i as int]),
            ));
            i += 1;
        }
        assert(rv.take(i as int) =~= rv);
        self.load_events(events)
    }
}

impl XMLLoader {
    /// The documents of a run of events: one for each text that is more than
    /// white space, with the elements that were open when the text came.
    pub fn load_events(&self, events: Vec<XmlEvent>) -> (r: Result<Vec<Document>, LoadError>)
        ensures
            match r {
                Ok(d) => load_spec(events_view(events@)) == Ok::<Seq<DocumentView>, LoadError>(
                    documents_view(d@),
                ),
                Err(e) => load_spec(events_view(events@)) == Err::<Seq<DocumentView>, LoadError>(e),
            },
    {
        let ghost ev = events_view(events@);
        let mut stack: Vec<Tag> = Vec::new();
        let mut docs: Vec<Document> = Vec::new();
        let n: usize = events.len();
        let mut i: usize = 0;
        assert(tags_view(stack@) =~= Seq::<TagView>::empty());
        assert(documents_view(docs@) =~= Seq::<DocumentView>::empty());
        while i < n
            invariant
                i <= n,
                n == events.len(),
                ev == events_view(events@),
                replay(ev, i as nat) == Ok::<Reading, LoadError>(
                    Reading { stack: tags_view(stack@), docs: documents_view(docs@) },
                ),
            decreases n - i,
        {
            let ghost sv = tags_view(stack@);
            let ghost dv = documents_view(docs@);
            assert(ev[i as int] == events@[i as int]@);
            match &events[i] {
                XmlEvent::Start(tag) => {
                    let copy = tag.clone();
                    stack.push(copy);
                    assert(tags_view(stack@) =~= sv.push(copy@));
                },
                XmlEvent::End => {
                    if stack.len() > 0 {
                        stack.pop();
                        assert(tags_view(stack@) =~= sv.drop_last());
                    }
                },
                XmlEvent::Text(text) => {
                    let open = clone_tags(&stack);
                    let doc = Document {
                        text: text.clone(),
                        meta: Meta { tag_stack: Some(open), merge: None, other: StrMap::new() },
                    };
                    docs.push(doc);
                    assert(documents_view(docs@) =~= dv.push(doc@));
                },
                XmlEvent::Invalid => {
                    proof {
                        lemma_replay_err(ev, (i + 1) as nat, ev.len());
                    }
                    return Err(LoadError::Malformed);
                },
                XmlEvent::Other => {},
            }
            i += 1;
        }
        let ghost all = documents_view(docs@);
        let mut out: Vec<Document> = Vec::new();
        let mut k: usize = 0;
        assert(documents_view(out@) =~= with_text(all, 0));
        while k < docs.len()
            invariant
                k <= docs.len(),
                all == documents_view(docs@),
                documents_view(out@) == with_text(all, k as nat),
            decreases docs.len() - k,
        {
            let ghost before = documents_view(out@);
            assert(all[k as int] == docs@[k as int]@);
            if has_text(docs[k].text.as_str()) {
                let copy = docs[k].clone();
                out.push(copy);
                assert(documents_view(out@) =~= before.push(copy@));
            }
            k += 1;
        }
        Ok(out)
    }
}

} // verus!

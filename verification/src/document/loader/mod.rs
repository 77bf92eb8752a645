//! What loaders produce: documents, each a text with its provenance.

pub mod docx;
pub mod markdown;
pub mod xml;

use crate::str_map::{lemma_upsert_last, sorted, StrMap, StringMap};
use crate::text::key_lt;
use vstd::prelude::*;

verus! {

/// The value of an attribute of a tag: text, or the bytes as they were where
/// they are no text.
#[derive(Debug, PartialEq, Eq)]
pub enum AttrValue {
    Text(String),
    Bytes(Vec<u8>),
}

/// The value of an attribute as a value.
pub enum AttrView {
    Text(Seq<char>),
    Bytes(Seq<u8>),
}

impl View for AttrValue {
    type V = AttrView;

    open spec fn view(&self) -> AttrView {
        match self {
            AttrValue::Text(s) => AttrView::Text(s@),
            AttrValue::Bytes(b) => AttrView::Bytes(b@),
        }
    }
}

impl Clone for AttrValue {
    fn clone(&self) -> (r: Self)
        ensures
            r@ == self@,
    {
        match self {
            AttrValue::Text(s) => AttrValue::Text(s.clone()),
            AttrValue::Bytes(b) => AttrValue::Bytes(b.clone()),
        }
    }
}

/// An element that encloses a text: its name and its attributes by name.
#[derive(Debug, PartialEq, Eq)]
pub struct Tag {
    pub name: String,
    pub attrs: StrMap<AttrValue>,
}

/// An element as a value.
pub struct TagView {
    pub name: Seq<char>,
    pub attrs: Seq<(Seq<char>, AttrView)>,
}

impl View for Tag {
    type V = TagView;

    open spec fn view(&self) -> TagView {
        TagView { name: self.name@, attrs: self.attrs@ }
    }
}

/// A copy of a map of attributes.
pub fn clone_attrs(attrs: &StrMap<AttrValue>) -> (r: StrMap<AttrValue>)
    ensures
        r@ == attrs@,
{
    let mut out: StrMap<AttrValue> = StrMap::new();
    let n: usize = attrs.len();
    let mut k: usize = 0;
    assert(out@ =~= attrs@.take(0));
    while k < n
        invariant
            k <= n,
            n == attrs@.len(),
            sorted(attrs@),
            out@ == attrs@.take(k as int),
        decreases n - k,
    {
        let ghost before = out@;
        let value = attrs.value_at(k).clone();
        proof {
            assert forall|j: int| 0 <= j < before.len() implies key_lt(
                (#[trigger] before[j]).0,
                attrs@[k as int].0,
            ) by {
                assert(before[j].0 == attrs@[j].0);
            }
            lemma_upsert_last(before, attrs@[k as int].0, value@);
        }
        out.insert(attrs.key_at(k).clone(), value);
        assert(attrs@.take(k + 1) =~= attrs@.take(k as int).push(attrs@[k as int]));
        k += 1;
    }
    assert(attrs@.take(k as int) =~= attrs@);
    out
}

impl Clone for Tag {
    fn clone(&self) -> (r: Self)
        ensures
            r@ == self@,
    {
        Tag { name: self.name.clone(), attrs: clone_attrs(&self.attrs) }
    }
}

/// The views of a list of tags.
pub open spec fn tags_view(t: Seq<Tag>) -> Seq<TagView> {
    t.map_values(|x: Tag| x@)
}

/// A copy of a list of tags.
pub fn clone_tags(t: &Vec<Tag>) -> (r: Vec<Tag>)
    ensures
        tags_view(r@) == tags_view(t@),
{
    let mut out: Vec<Tag> = Vec::new();
    let mut i: usize = 0;
    while i < t.len()
        invariant
            i <= t.len(),
            tags_view(out@) == tags_view(t@).take(i as int),
        decreases t.len() - i,
    {
        let ghost before = tags_view(out@);
        out.push(t[i].clone());
        assert(tags_view(out@) =~= before.push(t@[i as int]@));
        assert(tags_view(t@).take(i + 1) =~= tags_view(t@).take(i as int).push(t@[i as int]@));
        i += 1;
    }
    assert(tags_view(t@).take(i as int) =~= tags_view(t@));
    out
}

/// What is known of a document's origin: an open map of attributes. Two of
/// them the library reads and writes itself; every other attribute is carried
/// along as it came.
#[derive(Debug, PartialEq, Eq)]
pub struct Meta {
    /// The elements that enclosed the text, outermost first; `None` where the
    /// loader knows of no elements.
    pub tag_stack: Option<Vec<Tag>>,
    /// The origin of the document that was last merged into this one.
    pub merge: Option<Box<Meta>>,
    /// Every other attribute by name, its value written as JSON.
    pub other: StringMap,
}

/// An origin as a value.
pub struct MetaView {
    pub tag_stack: Option<Seq<TagView>>,
    pub merge: Option<Box<MetaView>>,
    pub other: Seq<(Seq<char>, Seq<char>)>,
}

/// The origin of which nothing is known.
pub open spec fn no_origin() -> MetaView {
    MetaView { tag_stack: None, merge: None, other: Seq::empty() }
}

/// The view of an origin.
pub open spec fn meta_view(m: Meta) -> MetaView
    decreases m,
{
    MetaView {
        tag_stack: match m.tag_stack {
            Some(t) => Some(tags_view(t@)),
            None => None,
        },
        merge: match m.merge {
            Some(inner) => Some(Box::new(meta_view(*inner))),
            None => None,
        },
        other: m.other@,
    }
}

impl View for Meta {
    type V = MetaView;

    open spec fn view(&self) -> MetaView {
        meta_view(*self)
    }
}

impl Clone for Meta {
    fn clone(&self) -> (r: Self)
        ensures
            r@ == self@,
        decreases self,
    {
        let tag_stack = match &self.tag_stack {
            Some(t) => Some(clone_tags(t)),
            None => None,
        };
        let merge = match &self.merge {
            Some(m) => Some(Box::new((&**m).clone())),
            None => None,
        };
        Meta { tag_stack, merge, other: self.other.clone() }
    }
}

impl Meta {
    /// The origin of a document of which nothing is known.
    pub fn empty() -> (r: Meta)
        ensures
            r@ == no_origin(),
    {
        Meta { tag_stack: None, merge: None, other: StrMap::new() }
    }
}

/// A text and its origin.
#[derive(Debug, PartialEq, Eq)]
pub struct Document {
    pub text: String,
    pub meta: Meta,
}

/// A document as a value.
pub struct DocumentView {
    pub text: Seq<char>,
    pub meta: MetaView,
}

impl View for Document {
    type V = DocumentView;

    open spec fn view(&self) -> DocumentView {
        DocumentView { text: self.text@, meta: self.meta@ }
    }
}

impl Clone for Document {
    fn clone(&self) -> (r: Self)
        ensures
            r@ == self@,
    {
        Document { text: self.text.clone(), meta: self.meta.clone() }
    }
}

/// The views of a list of documents.
pub open spec fn documents_view(d: Seq<Document>) -> Seq<DocumentView> {
    d.map_values(|x: Document| x@)
}

/// Why documents could not be loaded.
#[derive(Clone, Copy, Debug, PartialEq, Eq, Structural)]
pub enum LoadError {
    /// The source is not well formed: the markup breaks off or does not fit
    /// together, or a name, an attribute or a text could not be read.
    Malformed,
    /// The source is no archive, or the archive does not hold what is looked for.
    Archive,
}

/// The documents, or the error, as values.
pub open spec fn loaded_view(r: Result<Vec<Document>, LoadError>) -> Result<
    Seq<DocumentView>,
    LoadError,
> {
    match r {
        Ok(d) => Ok(documents_view(d@)),
        Err(e) => Err(e),
    }
}

/// What turns a source into documents. A loader gives all the documents of
/// its source or fails; it never gives some of them.
pub trait DocumentLoader {
    /// The documents that `mem` holds.
    spec fn load_mem_spec(&self, mem: Seq<char>) -> Result<Seq<DocumentView>, LoadError>;

    /// Loads the documents that `mem` holds.
    fn load_mem(&self, mem: &str) -> (r: Result<Vec<Document>, LoadError>)
        ensures
            loaded_view(r) == self.load_mem_spec(mem@),
    ;
}

} // verus!

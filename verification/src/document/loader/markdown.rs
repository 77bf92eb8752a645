//! Markdown is taken as it is: one document that holds the whole text.

use crate::document::loader::{
    documents_view, no_origin, Document, DocumentLoader, DocumentView, LoadError, Meta,
};
use vstd::prelude::*;

verus! {

/// Loads Markdown.
pub struct MarkdownLoader {}

impl DocumentLoader for MarkdownLoader {
    /// One document that holds `mem`, with nothing known of its origin.
    open spec fn load_mem_spec(&self, mem: Seq<char>) -> Result<Seq<DocumentView>, LoadError> {
        Ok(seq![DocumentView { text: mem, meta: no_origin() }])
    }

    fn load_mem(&self, mem: &str) -> (r: Result<Vec<Document>, LoadError>) {
        let mut out: Vec<Document> = Vec::new();
        out.push(Document { text: mem.to_owned(), meta: Meta::empty() });
        assert(documents_view(out@) =~= seq![
            DocumentView { text: mem@, meta: no_origin() },
        ]);
        Ok(out)
    }
}

} // verus!

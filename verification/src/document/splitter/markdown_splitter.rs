//! The recursive splitter with the delimiters of Markdown.

use crate::document::splitter::recursive_character_splitter::{
    recursive_split, RecursiveCharacterSplitter,
};
use crate::document::splitter::Splitter;
use crate::text::texts;
use vstd::prelude::*;

verus! {

/// Splits at headings, code fences, quotes, rules and blank lines.
#[derive(Debug, PartialEq, Eq)]
pub struct MarkdownSplitter {
    pub splitter: RecursiveCharacterSplitter,
}

impl MarkdownSplitter {
    /// The delimiters that the splitter uses, from the coarsest to the finest.
    pub open spec fn delimiters(&self) -> Seq<Seq<char>> {
        texts(self.splitter.split_by@)
    }
}

impl Default for MarkdownSplitter {
    fn default() -> (r: Self)
        ensures
            r.delimiters() == seq!["#"@, "```"@, ">"@, "---"@, "==="@, "\n\n"@],
    {
        let mut split_by: Vec<String> = Vec::new();
        split_by.push("#".to_owned());
        split_by.push("```".to_owned());
        split_by.push(">".to_owned());
        split_by.push("---".to_owned());
        split_by.push("===".to_owned());
        split_by.push("\n\n".to_owned());
        assert(texts(split_by@) =~= seq!["#"@, "```"@, ">"@, "---"@, "==="@, "\n\n"@]);
        MarkdownSplitter { splitter: RecursiveCharacterSplitter { split_by } }
    }
}

impl Splitter for MarkdownSplitter {
    open spec fn split_spec(&self, text: Seq<char>, len: nat, overlapping: nat) -> Seq<Seq<char>> {
        recursive_split(text, self.delimiters(), len, overlapping)
    }

    fn split(&self, text: String, len: usize, overlapping: usize) -> (r: Vec<String>) {
        self.splitter.split(text, len, overlapping)
    }
}

} // verus!

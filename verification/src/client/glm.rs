//! Settings of the GLM adapter.

use crate::text::{from_chars, rows, split_on, split_text, to_chars};
use vstd::prelude::*;

verus! {

/// The key that the provider issued, as `id.secret`.
#[derive(Debug, PartialEq, Eq)]
pub struct GLMConfig {
    pub api_key: String,
}

/// Who the model is to be, and whom it speaks to, as the provider wants it.
#[derive(Debug, PartialEq, Eq)]
pub struct GLMCharacterMeta {
    pub user_info: String,
    pub bot_info: String,
    pub bot_name: String,
    pub user_name: String,
}

/// The full stop that parts the pieces of a key.
pub open spec fn key_separator() -> Seq<char> {
    seq!['.']
}

impl GLMConfig {
    /// The two parts of the key from which a token is signed: what stands
    /// before the first full stop names the key, what stands after the last
    /// is the secret. A key without a full stop is both.
    pub fn key_parts(&self) -> (r: (String, String))
        ensures
            r.0@ == split_on(self.api_key@, key_separator()).first(),
            r.1@ == split_on(self.api_key@, key_separator()).last(),
    {
        let chars = to_chars(self.api_key.as_str());
        let mut dot: Vec<char> = Vec::new();
        dot.push('.');
        assert(dot@ =~= key_separator());
        let parts = split_text(&chars, &dot);
        proof {
            lemma_split_nonempty(chars@, dot@);
        }
        assert(rows(parts@).first() == parts@[0]@);
        assert(rows(parts@).last() == parts@[parts.len() - 1]@);
        (from_chars(&parts[0]), from_chars(&parts[parts.len() - 1]))
    }
}

/// Splitting gives at least one piece.
pub proof fn lemma_split_nonempty(s: Seq<char>, pat: Seq<char>)
    ensures
        split_on(s, pat).len() > 0,
    decreases s.len(),
{
}

} // verus!

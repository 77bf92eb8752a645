//! Settings of the OpenAI adapter.

use crate::text::{from_chars, same_text, to_chars};
use vstd::prelude::*;
use vstd::string::StringExecFns;

verus! {

/// Where the API is and how to sign in.
#[derive(Debug, PartialEq, Eq)]
pub struct OpenAIConfig {
    pub api_base: String,
    pub api_key: String,
    pub org_id: String,
}

impl OpenAIConfig {
    /// The address of `path` under the base address.
    pub fn url(&self, path: &str) -> (r: String)
        ensures
            r@ == self.api_base@ + path@,
    {
        self.api_base.clone().concat(path)
    }

    /// The base address of the API.
    pub fn api_base(&self) -> (r: &str)
        ensures
            r@ == self.api_base@,
    {
        self.api_base.as_str()
    }

    /// The key that signs the requests.
    pub fn api_key(&self) -> (r: &str)
        ensures
            r@ == self.api_key@,
    {
        self.api_key.as_str()
    }

    /// The value of the header that signs a request.
    pub fn authorization(&self) -> (r: String)
        ensures
            r@ == "Bearer "@ + self.api_key@,
    {
        "Bearer ".to_owned().concat(self.api_key.as_str())
    }

    /// The organization to name in a request, if one is set.
    pub fn organization(&self) -> (r: Option<&str>)
        ensures
            match r {
                Some(o) => self.org_id@.len() > 0 && o@ == self.org_id@,
                None => self.org_id@.len() == 0,
            },
    {
        if self.org_id.as_str().is_empty() {
            None
        } else {
            Some(self.org_id.as_str())
        }
    }
}

/// Whose turn a message is, as the API knows it.
#[derive(Clone, Copy, Debug, PartialEq, Eq, Structural)]
pub enum ChatRole {
    User,
    Assistant,
    System,
}

/// `c`, or its small letter if it is a capital letter of the ASCII alphabet.
pub open spec fn small(c: char) -> char {
    if 'A' <= c <= 'Z' {
        ((c as u32) + 32) as char
    } else {
        c
    }
}

/// `s` with small letters for its ASCII capitals.
pub open spec fn smalls(s: Seq<char>) -> Seq<char> {
    s.map_values(|c: char| small(c))
}

/// The role that a message's tag names, whatever the case of its letters.
pub open spec fn chat_role_spec(role: Seq<char>) -> Option<ChatRole> {
    if smalls(role) == "user"@ {
        Some(ChatRole::User)
    } else if smalls(role) == "assistant"@ {
        Some(ChatRole::Assistant)
    } else if smalls(role) == "system"@ {
        Some(ChatRole::System)
    } else {
        None
    }
}

fn small_of(c: char) -> (r: char)
    ensures
        r == small(c),
{
    if 'A' <= c && c <= 'Z' {
        let code: u8 = c as u8;
        (code + 32) as char
    } else {
        c
    }
}

/// The role that `role` names: `user`, `assistant` or `system`, in small or
/// capital letters.
pub fn chat_role(role: &str) -> (r: Option<ChatRole>)
    ensures
        r == chat_role_spec(role@),
{
    let chars = to_chars(role);
    let mut low: Vec<char> = Vec::new();
    let mut i: usize = 0;
    assert(low@ =~= smalls(chars@.take(0)));
    while i < chars.len()
        invariant
            i <= chars.len(),
            low@ == smalls(chars@.take(i as int)),
        decreases chars.len() - i,
    {
        low.push(small_of(chars[i]));
        assert(low@ =~= smalls(chars@.take(i + 1)));
        i += 1;
    }
    assert(chars@.take(i as int) =~= chars@);
    let word = from_chars(&low);
    if same_text(word.as_str(), "user") {
        Some(ChatRole::User)
    } else if same_text(word.as_str(), "assistant") {
        Some(ChatRole::Assistant)
    } else if same_text(word.as_str(), "system") {
        Some(ChatRole::System)
    } else {
        None
    }
}

} // verus!

//! Messages exchanged with a model backend and what a backend hands back.

pub mod memory;

use crate::str_map::StringMap;
use crate::text::{find_from, first_at, absent_from, from_chars, slice_chars, to_chars};
use vstd::prelude::*;

verus! {

/// One turn of a conversation: who speaks, and what is said.
#[derive(Debug, PartialEq, Eq)]
pub struct Message {
    pub role: String,
    pub content: String,
}

/// A message as a value.
pub struct MessageView {
    pub role: Seq<char>,
    pub content: Seq<char>,
}

impl View for Message {
    type V = MessageView;

    open spec fn view(&self) -> MessageView {
        MessageView { role: self.role@, content: self.content@ }
    }
}

impl Clone for Message {
    fn clone(&self) -> (r: Self)
        ensures
            r == *self,
    {
        Message { role: self.role.clone(), content: self.content.clone() }
    }
}

/// The views of a list of messages.
pub open spec fn messages_view(s: Seq<Message>) -> Seq<MessageView> {
    s.map_values(|m: Message| m@)
}

/// A copy of a list of messages.
pub fn clone_messages(v: &Vec<Message>) -> (r: Vec<Message>)
    ensures
        r@ == v@,
{
    let mut out: Vec<Message> = Vec::new();
    let mut i: usize = 0;
    while i < v.len()
        invariant
            i <= v.len(),
            out@ == v@.take(i as int),
        decreases v.len() - i,
    {
        out.push(v[i].clone());
        assert(v@.take(i + 1) =~= v@.take(i as int).push(v@[i as int]));
        i += 1;
    }
    assert(v@.take(i as int) =~= v@);
    out
}

/// The separator between role and content in the text form of a message.
pub open spec fn role_separator() -> Seq<char> {
    seq![':', ' ']
}

impl Message {
    /// Reads `role: content`. The role ends at the first colon that a space
    /// follows; a text without one is no message.
    pub fn from_str(s: &str) -> (r: Result<Message, String>)
        ensures
            match r {
                Ok(m) => exists|i: int|
                    first_at(s@, role_separator(), 0, i) && m.role@ == s@.take(i) && m.content@
                        == s@.skip(i + 2),
                Err(e) => absent_from(s@, role_separator(), 0) && e@ == "Invalid message"@,
            },
    {
        let chars = to_chars(s);
        let mut sep: Vec<char> = Vec::new();
        sep.push(':');
        sep.push(' ');
        assert(sep@.len() == 2);
        assert(sep@ =~= role_separator());
        match find_from(&chars, &sep, 0) {
            Some(i) => {
                assert(sep.len() == 2);
                assert(i + sep@.len() <= chars@.len());
                let role = slice_chars(&chars, 0, i);
                let content = slice_chars(&chars, i + 2, chars.len());
                assert(role@ =~= s@.take(i as int));
                assert(content@ =~= s@.skip(i + 2));
                Ok(Message { role: from_chars(&role), content: from_chars(&content) })
            },
            None => Err("Invalid message".to_string()),
        }
    }
}

/// What a backend returns for one call: the candidate messages, the first of
/// which is the one that counts, and what the backend reports about the call.
#[derive(Debug, PartialEq, Eq)]
pub struct Generation {
    pub text: Vec<Message>,
    pub info: Option<StringMap>,
}

/// A generation as a value.
pub struct GenerationView {
    pub text: Seq<MessageView>,
    pub info: Option<Seq<(Seq<char>, Seq<char>)>>,
}

impl View for Generation {
    type V = GenerationView;

    open spec fn view(&self) -> GenerationView {
        GenerationView {
            text: messages_view(self.text@),
            info: match self.info {
                Some(m) => Some(m@),
                None => None,
            },
        }
    }
}

} // verus!

//! The transcript of a conversation: a log of messages that grows and shrinks
//! at both ends.
//!
//! The log itself is plain data. Whoever shares one between tasks guards it
//! with a lock and takes a copy of the history at the start of a run.

use crate::schema::{messages_view, Message, MessageView};
use std::collections::VecDeque;
use vstd::prelude::*;

verus! {

/// Why the log could not be changed or read.
#[derive(Clone, Copy, Debug, PartialEq, Eq, Structural)]
pub enum MemoryError {
    /// Nothing is there to take out.
    Empty,
}

impl MemoryError {
    /// The error in words.
    pub fn message(&self) -> (r: String)
        ensures
            r@ == "Memory is empty"@,
    {
        match self {
            MemoryError::Empty => "Memory is empty".to_owned(),
        }
    }
}

/// A log of messages. Each operation either does what its name says or fails
/// and leaves the log as it was.
pub trait Memory {
    /// The messages of the log, oldest first.
    spec fn log(&self) -> Seq<MessageView>;

    /// Puts `message` before all others.
    fn push_front(&mut self, message: Message) -> (r: Result<(), MemoryError>)
        ensures
            match r {
                Ok(_) => final(self).log() == seq![message@] + old(self).log(),
                Err(_) => final(self).log() == old(self).log(),
            },
    ;

    /// Puts `message` after all others.
    fn push_back(&mut self, message: Message) -> (r: Result<(), MemoryError>)
        ensures
            match r {
                Ok(_) => final(self).log() == old(self).log().push(message@),
                Err(_) => final(self).log() == old(self).log(),
            },
    ;

    /// Takes the oldest message out.
    fn pop_front(&mut self) -> (r: Result<Message, MemoryError>)
        ensures
            match r {
                Ok(m) => {
                    &&& old(self).log().len() > 0
                    &&& m@ == old(self).log()[0]
                    &&& final(self).log() == old(self).log().drop_first()
                },
                Err(_) => final(self).log() == old(self).log(),
            },
    ;

    /// Takes the newest message out.
    fn pop_back(&mut self) -> (r: Result<Message, MemoryError>)
        ensures
            match r {
                Ok(m) => {
                    &&& old(self).log().len() > 0
                    &&& m@ == old(self).log().last()
                    &&& final(self).log() == old(self).log().drop_last()
                },
                Err(_) => final(self).log() == old(self).log(),
            },
    ;

    /// A copy of the whole log. What the caller does to the copy does not
    /// touch the log.
    fn get_history(&self) -> (r: Result<Vec<Message>, MemoryError>)
        ensures
            r matches Ok(v) ==> messages_view(v@) == self.log(),
    ;
}

/// A log that lives in memory: without bound, and gone with the process.
#[derive(Debug, PartialEq, Eq)]
pub struct InMemMemory {
    history: VecDeque<Message>,
}

impl View for InMemMemory {
    type V = Seq<MessageView>;

    closed spec fn view(&self) -> Seq<MessageView> {
        messages_view(self.history@)
    }
}

impl InMemMemory {
    /// The empty log.
    pub fn new() -> (r: Self)
        ensures
            r@ == Seq::<MessageView>::empty(),
    {
        let r = InMemMemory { history: VecDeque::new() };
        assert(r@ =~= Seq::<MessageView>::empty());
        r
    }

    /// Number of messages in the log.
    pub fn len(&self) -> (r: usize)
        ensures
            r == self@.len(),
    {
        self.history.len()
    }

    /// Empties the log.
    pub fn clear(&mut self)
        ensures
            final(self)@ == Seq::<MessageView>::empty(),
    {
        self.history.clear();
        assert(self@ =~= Seq::<MessageView>::empty());
    }
}

impl Memory for InMemMemory {
    open spec fn log(&self) -> Seq<MessageView> {
        self@
    }

    fn push_front(&mut self, message: Message) -> (r: Result<(), MemoryError>)
        ensures
            r is Ok,
    {
        self.history.push_front(message);
        assert(self@ =~= seq![message@] + old(self)@);
        Ok(())
    }

    fn push_back(&mut self, message: Message) -> (r: Result<(), MemoryError>)
        ensures
            r is Ok,
    {
        self.history.push_back(message);
        assert(self@ =~= old(self)@.push(message@));
        Ok(())
    }

    fn pop_front(&mut self) -> (r: Result<Message, MemoryError>)
        ensures
            r is Err <==> old(self).log().len() == 0,
            r is Err ==> r == Err::<Message, MemoryError>(MemoryError::Empty),
    {
        match self.history.pop_front() {
            Some(m) => {
                assert(self@ =~= old(self)@.drop_first());
                Ok(m)
            },
            None => Err(MemoryError::Empty),
        }
    }

    fn pop_back(&mut self) -> (r: Result<Message, MemoryError>)
        ensures
            r is Err <==> old(self).log().len() == 0,
            r is Err ==> r == Err::<Message, MemoryError>(MemoryError::Empty),
    {
        match self.history.pop_back() {
            Some(m) => {
                assert(self@ =~= old(self)@.drop_last());
                Ok(m)
            },
            None => Err(MemoryError::Empty),
        }
    }

    fn get_history(&self) -> (r: Result<Vec<Message>, MemoryError>)
        ensures
            r is Ok,
    {
        let mut out: Vec<Message> = Vec::new();
        let mut i: usize = 0;
        while i < self.history.len()
            invariant
                i <= self.history.len(),
                out@ == self.history@.take(i as int),
            decreases self.history.len() - i,
        {
            out.push(self.history[i].clone());
            assert(self.history@.take(i + 1) =~= self.history@.take(i as int).push(
                self.history@[i as int],
            ));
            i += 1;
        }
        assert(self.history@.take(i as int) =~= self.history@);
        Ok(out)
    }
}

impl From<Vec<Message>> for InMemMemory {
    /// The log that holds the given messages, oldest first.
    fn from(history: Vec<Message>) -> (r: Self)
        ensures
            r@ == messages_view(history@),
    {
        InMemMemory::seeded(history)
    }
}

impl vstd::std_specs::convert::FromSpecImpl<Vec<Message>> for InMemMemory {
    open spec fn obeys_from_spec() -> bool {
        false
    }

    open spec fn from_spec(history: Vec<Message>) -> Self {
        arbitrary()
    }
}

impl InMemMemory {
    /// The log that holds the given messages, oldest first.
    pub fn seeded(history: Vec<Message>) -> (r: Self)
        ensures
            r@ == messages_view(history@),
    {
        let mut log: VecDeque<Message> = VecDeque::new();
        let mut i: usize = 0;
        while i < history.len()
            invariant
                i <= history.len(),
                log@ == history@.take(i as int),
            decreases history.len() - i,
        {
            log.push_back(history[i].clone());
            assert(history@.take(i + 1) =~= history@.take(i as int).push(history@[i as int]));
            i += 1;
        }
        assert(history@.take(i as int) =~= history@);
        InMemMemory { history: log }
    }
}

/// A log kept in a database table, one row for each message. Only the name
/// is there yet.
pub struct PGDBMemory {}

} // verus!

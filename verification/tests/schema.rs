use limitchain::schema::memory::{InMemMemory, Memory, MemoryError};
use limitchain::schema::{clone_messages, Message};

fn msg(role: &str, content: &str) -> Message {
    Message {
        role: role.to_string(),
        content: content.to_string(),
    }
}

#[test]
fn a_message_is_read_from_role_and_content() {
    assert_eq!(Message::from_str("user: hello"), Ok(msg("user", "hello")));
    assert_eq!(
        Message::from_str("USER: a: b: c"),
        Ok(msg("USER", "a: b: c"))
    );
    assert_eq!(Message::from_str(": x"), Ok(msg("", "x")));
    assert_eq!(Message::from_str("a: "), Ok(msg("a", "")));
    assert_eq!(Message::from_str("a:b: c"), Ok(msg("a:b", "c")));
    assert_eq!(
        Message::from_str("user:hello"),
        Err("Invalid message".to_string())
    );
    assert_eq!(Message::from_str(""), Err("Invalid message".to_string()));
}

#[test]
fn messages_are_copied_by_value() {
    let v = vec![msg("a", "1"), msg("b", "2")];
    assert_eq!(clone_messages(&v), v);
    assert_eq!(v[0].clone(), msg("a", "1"));
}

#[test]
fn memory_grows_and_shrinks_at_both_ends() {
    let mut m = InMemMemory::new();
    assert_eq!(m.len(), 0);
    assert_eq!(m.push_back(msg("user", "1")), Ok(()));
    assert_eq!(m.push_back(msg("assistant", "2")), Ok(()));
    assert_eq!(m.push_front(msg("system", "0")), Ok(()));
    assert_eq!(
        m.get_history(),
        Ok(vec![msg("system", "0"), msg("user", "1"), msg("assistant", "2")])
    );
    assert_eq!(m.pop_back(), Ok(msg("assistant", "2")));
    assert_eq!(m.pop_front(), Ok(msg("system", "0")));
    assert_eq!(m.get_history(), Ok(vec![msg("user", "1")]));
    assert_eq!(m.len(), 1);
}

#[test]
fn popping_an_empty_memory_fails() {
    let mut m = InMemMemory::from(vec![msg("user", "only")]);
    assert_eq!(m.pop_back(), Ok(msg("user", "only")));
    assert_eq!(m.pop_back(), Err(MemoryError::Empty));
    assert_eq!(m.pop_front(), Err(MemoryError::Empty));
    assert_eq!(m.get_history(), Ok(vec![]));
    assert_eq!(MemoryError::Empty.message(), "Memory is empty");
}

#[test]
fn the_history_is_a_copy() {
    let mut m = InMemMemory::seeded(vec![msg("user", "1")]);
    let mut copy = m.get_history().unwrap();
    copy.push(msg("user", "2"));
    copy[0].content.push('!');
    assert_eq!(m.get_history(), Ok(vec![msg("user", "1")]));
    m.clear();
    assert_eq!(m.get_history(), Ok(vec![]));
    assert_eq!(copy.len(), 2);
}

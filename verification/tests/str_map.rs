use limitchain::str_map::{StrMap, StringMap};
use limitchain::text::{compare, is_space, same_text, Rank};

#[test]
fn a_map_keeps_its_keys_in_order() {
    let mut m: StrMap<usize> = StrMap::new();
    assert!(m.is_empty());
    m.insert("b".to_string(), 2);
    m.insert("a".to_string(), 1);
    m.insert("10".to_string(), 10);
    m.insert("2".to_string(), 20);
    m.insert("é".to_string(), 5);
    assert_eq!(m.len(), 5);
    let keys: Vec<&str> = (0..m.len()).map(|i| m.key_at(i).as_str()).collect();
    assert_eq!(keys, vec!["10", "2", "a", "b", "é"]);
    assert_eq!(*m.value_at(0), 10);
}

#[test]
fn insert_replaces_and_remove_takes_out() {
    let mut m = StringMap::new();
    m.insert("k".to_string(), "1".to_string());
    m.insert("k".to_string(), "2".to_string());
    assert_eq!(m.len(), 1);
    assert_eq!(m.get("k"), Some(&"2".to_string()));
    assert!(m.contains_key("k"));
    assert!(!m.contains_key("j"));
    assert_eq!(m.get("j"), None);
    m.remove("j");
    assert_eq!(m.len(), 1);
    m.remove("k");
    assert!(m.is_empty());
    assert_eq!(m.clone(), StringMap::new());
}

#[test]
fn strings_compare_as_their_bytes_do() {
    assert_eq!(compare("a", "b"), Rank::Before);
    assert_eq!(compare("b", "a"), Rank::After);
    assert_eq!(compare("a", "a"), Rank::Same);
    assert_eq!(compare("a", "ab"), Rank::Before);
    assert_eq!(compare("", ""), Rank::Same);
    assert_eq!(compare("z", "é"), Rank::Before);
    assert_eq!(compare("Z", "a"), Rank::Before);
    for (a, b) in [("x", "y"), ("10", "2"), ("é", "e"), ("", "a")] {
        let expected = match a.cmp(b) {
            std::cmp::Ordering::Less => Rank::Before,
            std::cmp::Ordering::Equal => Rank::Same,
            std::cmp::Ordering::Greater => Rank::After,
        };
        assert_eq!(compare(a, b), expected);
    }
    assert!(same_text("né", "né"));
    assert!(!same_text("ne", "né"));
}

#[test]
fn white_space_is_what_the_standard_library_takes_for_it() {
    for code in 0..=0x10FFFFu32 {
        if let Some(c) = char::from_u32(code) {
            assert_eq!(is_space(c), c.is_whitespace(), "U+{:04X}", code);
        }
    }
    assert!(is_space(' ') && is_space('\n') && is_space('\u{3000}'));
    assert!(!is_space('a') && !is_space('\u{200B}') && !is_space('\u{180E}'));
}

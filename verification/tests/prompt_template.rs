use limitchain::prompt_template::{PromptTemplate, TemplateError};
use limitchain::str_map::StringMap;

fn map_of(pairs: &[(&str, &str)]) -> StringMap {
    let mut m = StringMap::new();
    for (k, v) in pairs {
        m.insert(k.to_string(), v.to_string());
    }
    m
}

#[test]
fn test_prompt_template() {
    let templates = [
        "a simple prompt",
        "a simple prompt with a variable: {var}",
        "a simple prompt with a variable: {var} and another: {var2}",
        "a simple prompt with a partial variable: {var:\"default value\"}",
        "escape brackets with a backslash: \\{var\\}",
    ];

    let result = [
        map_of(&[]),
        map_of(&[("var", "")]),
        map_of(&[("var", ""), ("var2", "")]),
        map_of(&[("var", "default value")]),
        map_of(&[]),
    ];

    for (i, template) in templates.iter().enumerate() {
        let parsed = PromptTemplate::from(template.to_string());
        println!("template: {:?}", parsed);
        assert_eq!(parsed.variables(), result[i]);
    }
}

#[test]
fn test_prompt_format() {
    let templates = [
        "a simple prompt",
        "a simple prompt with a variable: {var}",
        "a simple prompt with a variable: {var} and another: {var2}",
        "a simple prompt with a partial variable: {var:\"default value\"}",
        "escape brackets with a backslash: \\{var\\}",
    ];
    let vars = vec![
        map_of(&[]),
        map_of(&[("var", "value")]),
        map_of(&[("var", "value"), ("var2", "value2")]),
        map_of(&[]),
        map_of(&[]),
    ];
    let result = [
        "a simple prompt",
        "a simple prompt with a variable: value",
        "a simple prompt with a variable: value and another: value2",
        "a simple prompt with a partial variable: default value",
        "escape brackets with a backslash: {var}",
    ];
    for (i, template) in templates.iter().enumerate() {
        let parsed = PromptTemplate::from(template.to_string());
        let formatted = parsed.format(&vars[i]);
        println!("template: {:?}", parsed);
        println!("formatted: {:?}", formatted);
        assert_eq!(formatted, Some(result[i].to_string()));
    }
}

#[test]
fn end_to_end_example() {
    let t = PromptTemplate::from("Hi {name:\"friend\"}, answer: {question}".to_string());
    let out = t.format(&map_of(&[("question", "2+2?")]));
    assert_eq!(out, Some("Hi friend, answer: 2+2?".to_string()));
}

#[test]
fn a_required_variable_that_is_missing_makes_format_fail() {
    let t = PromptTemplate::from("Hi {name:\"friend\"}, answer: {question}".to_string());
    assert_eq!(t.format(&map_of(&[])), None);
    assert_eq!(t.format(&map_of(&[("name", "you")])), None);
    // an explicitly empty default is no default
    let t = PromptTemplate::from("{a:\"\"}".to_string());
    assert_eq!(t.format(&map_of(&[])), None);
    assert_eq!(t.format(&map_of(&[("a", "x")])), Some("x".to_string()));
}

#[test]
fn a_default_applies_unless_the_caller_supplies_a_value() {
    let t = PromptTemplate::from("{name:\"X\"}".to_string());
    assert_eq!(t.format(&map_of(&[])), Some("X".to_string()));
    assert_eq!(t.format(&map_of(&[("name", "Y")])), Some("Y".to_string()));
    // a supplied empty value is a value
    assert_eq!(t.format(&map_of(&[("name", "")])), Some("".to_string()));
}

#[test]
fn escaped_braces_are_literal_text() {
    let t = PromptTemplate::from("\\{var\\}".to_string());
    assert!(t.variables().is_empty());
    assert_eq!(t.text_template(), "{var}");
    assert_eq!(t.format(&map_of(&[("var", "x")])), Some("{var}".to_string()));
    // a backslash makes any character literal, itself too
    let t = PromptTemplate::from("a\\\\b\\n".to_string());
    assert_eq!(t.format(&map_of(&[])), Some("a\\bn".to_string()));
}

#[test]
fn extra_values_are_ignored() {
    let t = PromptTemplate::from("{a}".to_string());
    assert_eq!(
        t.format(&map_of(&[("a", "1"), ("b", "2")])),
        Some("1".to_string())
    );
}

#[test]
fn insert_positions_count_bytes_of_the_literal_text() {
    let t = PromptTemplate::from("héllo {a} wörld {b}".to_string());
    assert_eq!(t.text_template(), "héllo  wörld ");
    let positions = t.variables_insert_positions();
    assert_eq!(positions.len(), 2);
    assert_eq!(positions.get("a"), Some(&7));
    assert_eq!(positions.get("b"), Some(&15));
    assert_eq!(
        t.format(&map_of(&[("a", "1"), ("b", "2")])),
        Some("héllo 1 wörld 2".to_string())
    );
}

#[test]
fn variables_at_one_place_stand_in_the_order_of_their_names() {
    let t = PromptTemplate::from("{b}{a}!".to_string());
    assert_eq!(
        t.format(&map_of(&[("a", "1"), ("b", "2")])),
        Some("12!".to_string())
    );
    let t = PromptTemplate::from("{a}{b}!".to_string());
    assert_eq!(
        t.format(&map_of(&[("a", "1"), ("b", "2")])),
        Some("12!".to_string())
    );
}

#[test]
fn a_later_declaration_overwrites_an_earlier_one() {
    let t = PromptTemplate::from("x{a:\"1\"}y{a}z".to_string());
    assert_eq!(t.variables(), map_of(&[("a", "")]));
    assert_eq!(t.variables_insert_positions().get("a"), Some(&2));
    assert_eq!(t.format(&map_of(&[])), None);
    assert_eq!(t.format(&map_of(&[("a", "-")])), Some("xy-z".to_string()));
}

#[test]
fn every_variable_can_have_a_default() {
    let t = PromptTemplate::from("{a:\"1\"} and {b:\"2\"}".to_string());
    assert_eq!(t.variables(), map_of(&[("a", "1"), ("b", "2")]));
    assert_eq!(t.format(&map_of(&[])), Some("1 and 2".to_string()));
    assert_eq!(
        t.format(&map_of(&[("b", "two")])),
        Some("1 and two".to_string())
    );
}

#[test]
fn what_is_unfinished_at_the_end_is_dropped() {
    let t = PromptTemplate::from("text {open".to_string());
    assert!(t.variables().is_empty());
    assert_eq!(t.format(&map_of(&[])), Some("text ".to_string()));
    let t = PromptTemplate::from("text {a:\"unfinished".to_string());
    assert!(t.variables().is_empty());
    assert_eq!(t.format(&map_of(&[])), Some("text ".to_string()));
    let t = PromptTemplate::from("text\\".to_string());
    assert_eq!(t.format(&map_of(&[])), Some("text".to_string()));
    // empty braces declare nothing
    let t = PromptTemplate::from("a{}b".to_string());
    assert!(t.variables().is_empty());
    assert_eq!(t.format(&map_of(&[])), Some("ab".to_string()));
}

#[test]
fn an_escape_inside_braces_goes_to_the_literal_text() {
    let t = PromptTemplate::from("{a\\b}".to_string());
    assert_eq!(t.variables(), map_of(&[("a", "")]));
    assert_eq!(t.text_template(), "b");
    assert_eq!(t.format(&map_of(&[("a", "1")])), Some("b1".to_string()));
}

#[test]
fn variable_names_come_in_key_order() {
    let t = PromptTemplate::from("{zeta} {alpha} {mid:\"m\"}".to_string());
    assert_eq!(
        t.variable_names(),
        vec!["alpha".to_string(), "mid".to_string(), "zeta".to_string()]
    );
}

#[test]
fn a_template_taken_apart_goes_together_again() {
    let t = PromptTemplate::from(
        "a simple prompt with a partial variable: {var:\"default value\"} é{x}".to_string(),
    );
    let again = PromptTemplate::from_parts(
        t.text_template().clone(),
        &t.variables(),
        &t.variables_insert_positions(),
    );
    assert_eq!(again, Some(t.clone()));
}

#[test]
fn parts_that_do_not_fit_make_no_template() {
    let mut positions = limitchain::str_map::StrMap::new();
    positions.insert("a".to_string(), 1usize);
    // offset 1 falls inside the two bytes of "é"
    assert_eq!(
        PromptTemplate::from_parts("é".to_string(), &map_of(&[("a", "")]), &positions),
        None
    );
    // offset past the end
    let mut positions = limitchain::str_map::StrMap::new();
    positions.insert("a".to_string(), 3usize);
    assert_eq!(
        PromptTemplate::from_parts("é".to_string(), &map_of(&[("a", "")]), &positions),
        None
    );
    // names differ
    let mut positions = limitchain::str_map::StrMap::new();
    positions.insert("b".to_string(), 0usize);
    assert_eq!(
        PromptTemplate::from_parts("é".to_string(), &map_of(&[("a", "")]), &positions),
        None
    );
    assert_eq!(
        PromptTemplate::from_parts("é".to_string(), &map_of(&[]), &positions),
        None
    );
    // offset 2 is the end of the text
    let mut positions = limitchain::str_map::StrMap::new();
    positions.insert("a".to_string(), 2usize);
    let t = PromptTemplate::from_parts("é".to_string(), &map_of(&[("a", "")]), &positions)
        .unwrap();
    assert_eq!(t.format(&map_of(&[("a", "!")])), Some("é!".to_string()));
}

#[test]
fn the_missing_variable_is_named() {
    let t = PromptTemplate::from("{b} {a} {c:\"x\"} {d}".to_string());
    assert_eq!(
        t.try_format(&map_of(&[])),
        Err(TemplateError::MissingVariable("a".to_string()))
    );
    assert_eq!(
        t.try_format(&map_of(&[("a", "1")])),
        Err(TemplateError::MissingVariable("b".to_string()))
    );
    assert_eq!(
        t.try_format(&map_of(&[("a", "1"), ("b", "2")])),
        Err(TemplateError::MissingVariable("d".to_string()))
    );
    assert_eq!(
        t.try_format(&map_of(&[("a", "1"), ("b", "2"), ("d", "4")])),
        Ok("2 1 x 4".to_string())
    );
    assert_eq!(
        TemplateError::MissingVariable("var".to_string()).message(),
        "missing variable var in values"
    );
}

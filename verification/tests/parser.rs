use limitchain::parser::{
    parse_unicode, unescape, ParseUnicodeError, Parser, ParserError, UnescapeError,
};

#[test]
fn test_parser_serialized_simple() {
    // simple example by index
    let to_parse = "John 42";

    let parser = Parser::new(
        "^(?P<name>[a-zA-Z0-9]+)\\s+(?P<age>[0-9]+)$".to_string(),
        Some(vec![1, 2]),
        None,
    );
    let result = parser.parse(to_parse).unwrap();
    assert_eq!(result, vec!["John", "42"]);

    // simple example by group
    let to_parse = "John 42";

    let parser = Parser::new(
        "^(?P<name>[a-zA-Z0-9]+)\\s+(?P<age>[0-9]+)$".to_string(),
        None,
        Some(vec!["name".to_string(), "age".to_string()]),
    );
    let result = parser.parse(to_parse).unwrap();
    assert_eq!(result, vec!["John", "42"]);
}

#[test]
fn test_parser_serialized_realworld() {
    // more complex example
    let parser = Parser::new(
        "Action: (?P<ACTION>.*?)\nAction Input: (?P<ACTION_INPUT>.*)".to_string(),
        None,
        Some(vec!["ACTION".to_string(), "ACTION_INPUT".to_string()]),
    );
    let to_parse = r"
Thought: Do I need to use a tool? Yes
Action: the action to take, should be one of [{tool_names}]
Action Input: the input to the action
Observation: the result of the action
";
    let result = parser.parse(to_parse);
    println!("{:?}", result);
    assert_eq!(
        result,
        Some(vec![
            "the action to take, should be one of [{tool_names}]".to_string(),
            "the input to the action".to_string()
        ])
    );
}

#[test]
fn a_parser_gives_nothing_where_the_pattern_does_not_match() {
    let parser = Parser::new("^(a)(b)?$".to_string(), Some(vec![0, 1]), None);
    assert_eq!(parser.parse("x"), None);
    assert_eq!(
        parser.parse("ab"),
        Some(vec!["ab".to_string(), "a".to_string()])
    );
    // a group that took no part, and an index past the groups
    let parser = Parser::new("^(a)(b)?$".to_string(), Some(vec![2]), None);
    assert_eq!(parser.parse("a"), None);
    let parser = Parser::new("^(a)(b)?$".to_string(), Some(vec![3]), None);
    assert_eq!(parser.parse("ab"), None);
    // a name that no group has
    let parser = Parser::new("^(?P<x>a)$".to_string(), None, Some(vec!["y".to_string()]));
    assert_eq!(parser.parse("a"), None);
    // indexes go before names; neither gives the empty list
    let parser = Parser::new(
        "^(?P<x>a)$".to_string(),
        Some(vec![0]),
        Some(vec!["y".to_string()]),
    );
    assert_eq!(parser.parse("a"), Some(vec!["a".to_string()]));
    let parser = Parser::new("^(?P<x>a)$".to_string(), None, None);
    assert_eq!(parser.parse("a"), Some(vec![]));
}

#[test]
fn try_parse_tells_a_bad_pattern_from_no_match() {
    let parser = Parser::new("(".to_string(), Some(vec![0]), None);
    assert_eq!(parser.try_parse("x"), Err(ParserError::InvalidRegex));
    let parser = Parser::new("b".to_string(), Some(vec![0]), None);
    assert_eq!(parser.try_parse("x"), Ok(None));
    assert_eq!(parser.try_parse("abc"), Ok(Some(vec!["b".to_string()])));
}

#[test]
fn unescape_drops_quotes_and_resolves_escapes() {
    assert_eq!(unescape("plain"), Ok("plain".to_string()));
    assert_eq!(unescape("'a\\nb'"), Ok("a\\nb".to_string()));
    assert_eq!(unescape("\"a\\nb\""), Ok("a\nb".to_string()));
    assert_eq!(unescape("a\\nb"), Ok("a\\nb".to_string()));
    assert_eq!(unescape("\"it's\" 'say \"hi\"'"), Ok("it's say \"hi\"".to_string()));
    assert_eq!(
        unescape("\"\\a\\b\\v\\f\\r\\t\\e\\E\\\\\\'\\\"\\$\\`\\ \""),
        Ok("\u{07}\u{08}\u{0B}\u{0C}\r\t\u{1B}\u{1B}\\'\"$` ".to_string())
    );
    // a quote left open is no error
    assert_eq!(unescape("\"open"), Ok("open".to_string()));
    assert_eq!(unescape("'open"), Ok("open".to_string()));
    assert_eq!(unescape(""), Ok("".to_string()));
}

#[test]
fn unescape_reads_unicode_escapes() {
    assert_eq!(unescape("\"\\u{41}\""), Ok("A".to_string()));
    assert_eq!(unescape("\"x\\u{4f60}y\""), Ok("x你y".to_string()));
    assert_eq!(unescape("\"\\u{+41}\\u{0041}\""), Ok("AA".to_string()));
    assert_eq!(unescape("\"\\u{10FFFF}\""), Ok("\u{10FFFF}".to_string()));
    // without the closing brace the digits run to the end
    assert_eq!(unescape("\"\\u{41"), Ok("A".to_string()));
}

#[test]
fn unescape_names_what_is_wrong() {
    assert_eq!(unescape("\"a\\"), Err(UnescapeError::TrailingBackslash));
    assert_eq!(unescape("\"\\q\""), Err(UnescapeError::InvalidEscape('q')));
    assert_eq!(
        unescape("\"\\u41\""),
        Err(UnescapeError::Unicode(ParseUnicodeError::BraceNotFound))
    );
    assert_eq!(
        unescape("\"\\u"),
        Err(UnescapeError::Unicode(ParseUnicodeError::BraceNotFound))
    );
    assert_eq!(
        unescape("\"\\u{}\""),
        Err(UnescapeError::Unicode(ParseUnicodeError::Empty))
    );
    assert_eq!(
        unescape("\"\\u{4g}\""),
        Err(UnescapeError::Unicode(ParseUnicodeError::InvalidDigit))
    );
    assert_eq!(
        unescape("\"\\u{+}\""),
        Err(UnescapeError::Unicode(ParseUnicodeError::InvalidDigit))
    );
    assert_eq!(
        unescape("\"\\u{-41}\""),
        Err(UnescapeError::Unicode(ParseUnicodeError::InvalidDigit))
    );
    assert_eq!(
        unescape("\"\\u{100000000}\""),
        Err(UnescapeError::Unicode(ParseUnicodeError::TooLarge))
    );
    assert_eq!(
        unescape("\"\\u{D800}\""),
        Err(UnescapeError::Unicode(ParseUnicodeError::InvalidUnicode))
    );
    assert_eq!(
        unescape("\"\\u{110000}\""),
        Err(UnescapeError::Unicode(ParseUnicodeError::InvalidUnicode))
    );
    // the first thing that is wrong decides
    assert_eq!(
        unescape("\"\\u{FFFFFFFFFg}\""),
        Err(UnescapeError::Unicode(ParseUnicodeError::TooLarge))
    );
    assert_eq!(
        unescape("\"\\u{gFFFFFFFFF}\""),
        Err(UnescapeError::Unicode(ParseUnicodeError::InvalidDigit))
    );
}

#[test]
fn errors_have_their_words() {
    assert_eq!(
        UnescapeError::TrailingBackslash.message(),
        "UnescapeError: string ends with a single backslash"
    );
    assert_eq!(
        UnescapeError::InvalidEscape('q').message(),
        "UnescapeError: invalid escape character: q"
    );
    assert_eq!(
        UnescapeError::Unicode(ParseUnicodeError::BraceNotFound).message(),
        "UnescapeError: ParseUnicodeError: brace not found"
    );
    assert_eq!(
        ParseUnicodeError::Empty.message(),
        "ParseUnicodeError: cannot parse integer from empty string"
    );
    assert_eq!(
        ParseUnicodeError::InvalidDigit.message(),
        "ParseUnicodeError: invalid digit found in string"
    );
    assert_eq!(
        ParseUnicodeError::TooLarge.message(),
        "ParseUnicodeError: number too large to fit in target type"
    );
    assert_eq!(
        ParseUnicodeError::InvalidUnicode.message(),
        "ParseUnicodeError: invalid unicode"
    );
}

#[test]
fn parse_unicode_gives_the_place_after_the_braces() {
    let chars: Vec<char> = "x{41}y".chars().collect();
    assert_eq!(parse_unicode(&chars, 1), Ok(('A', 5)));
    assert_eq!(
        parse_unicode(&chars, 0),
        Err(ParseUnicodeError::BraceNotFound)
    );
    assert_eq!(
        parse_unicode(&chars, 6),
        Err(ParseUnicodeError::BraceNotFound)
    );
    let chars: Vec<char> = "{1F600".chars().collect();
    assert_eq!(parse_unicode(&chars, 0), Ok(('😀', 6)));
}

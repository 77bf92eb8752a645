//! Reading of model output: picking parts out of a text with a regular
//! expression, and shell-style unquoting and unescaping of a string.

use crate::text::{push_char, same_text, texts, to_chars};
use vstd::prelude::*;
use vstd::string::StringExecFns;
use vstd::utf8::is_scalar;

verus! {

/// Why a `\u{..}` escape could not be read.
#[derive(Clone, Copy, Debug, PartialEq, Eq, Structural)]
pub enum ParseUnicodeError {
    /// No opening brace follows the `u`.
    BraceNotFound,
    /// Nothing stands between the braces.
    Empty,
    /// A character between the braces is no hexadecimal digit.
    InvalidDigit,
    /// The number does not fit in 32 bits.
    TooLarge,
    /// The number is no Unicode scalar value.
    InvalidUnicode,
}

/// Why a string could not be unescaped.
#[derive(Clone, Copy, Debug, PartialEq, Eq, Structural)]
pub enum UnescapeError {
    /// The string ends with a backslash inside double quotes.
    TrailingBackslash,
    /// A backslash inside double quotes is followed by a character that
    /// starts no escape.
    InvalidEscape(char),
    /// A `\u` escape is malformed.
    Unicode(ParseUnicodeError),
}

impl ParseUnicodeError {
    /// The error in words.
    pub fn message(&self) -> (r: String)
        ensures
            r@ == "ParseUnicodeError: "@ + match self {
                ParseUnicodeError::BraceNotFound => "brace not found"@,
                ParseUnicodeError::Empty => "cannot parse integer from empty string"@,
                ParseUnicodeError::InvalidDigit => "invalid digit found in string"@,
                ParseUnicodeError::TooLarge => "number too large to fit in target type"@,
                ParseUnicodeError::InvalidUnicode => "invalid unicode"@,
            },
    {
        let head = "ParseUnicodeError: ".to_owned();
        match self {
            ParseUnicodeError::BraceNotFound => head.concat("brace not found"),
            ParseUnicodeError::Empty => head.concat("cannot parse integer from empty string"),
            ParseUnicodeError::InvalidDigit => head.concat("invalid digit found in string"),
            ParseUnicodeError::TooLarge => head.concat("number too large to fit in target type"),
            ParseUnicodeError::InvalidUnicode => head.concat("invalid unicode"),
        }
    }
}

impl UnescapeError {
    /// The error in words.
    pub fn message(&self) -> (r: String)
        ensures
            r@ == "UnescapeError: "@ + match self {
                UnescapeError::TrailingBackslash => "string ends with a single backslash"@,
                UnescapeError::InvalidEscape(c) => "invalid escape character: "@.push(*c),
                UnescapeError::Unicode(e) => "ParseUnicodeError: "@ + match e {
                    ParseUnicodeError::BraceNotFound => "brace not found"@,
                    ParseUnicodeError::Empty => "cannot parse integer from empty string"@,
                    ParseUnicodeError::InvalidDigit => "invalid digit found in string"@,
                    ParseUnicodeError::TooLarge => "number too large to fit in target type"@,
                    ParseUnicodeError::InvalidUnicode => "invalid unicode"@,
                },
            },
    {
        let head = "UnescapeError: ".to_owned();
        match self {
            UnescapeError::TrailingBackslash => head.concat("string ends with a single backslash"),
            UnescapeError::InvalidEscape(c) => {
                let mut tail = "invalid escape character: ".to_owned();
                push_char(&mut tail, *c);
                head.concat(tail.as_str())
            },
            UnescapeError::Unicode(e) => {
                let inner = e.message();
                head.concat(inner.as_str())
            },
        }
    }
}

/// Where the reader stands with respect to quotes.
#[derive(Clone, Copy, Debug, PartialEq, Eq, Structural)]
pub enum Quote {
    Outside,
    Single,
    Double,
}

/// The value of a hexadecimal digit.
pub open spec fn hex_digit(c: char) -> Option<nat> {
    if '0' <= c <= '9' {
        Some((c as u32 - '0' as u32) as nat)
    } else if 'a' <= c <= 'f' {
        Some((c as u32 - 'a' as u32 + 10) as nat)
    } else if 'A' <= c <= 'F' {
        Some((c as u32 - 'A' as u32 + 10) as nat)
    } else {
        None
    }
}

/// The number that the first `n` characters of `d` spell in base 16, read
/// from the left; the first character that is no digit, or that takes the
/// number past 32 bits, ends the reading with its error.
pub open spec fn hex_fold(d: Seq<char>, n: nat) -> Result<nat, ParseUnicodeError>
    decreases n,
{
    if n == 0 || n > d.len() {
        Ok(0)
    } else {
        match hex_fold(d, (n - 1) as nat) {
            Err(e) => Err(e),
            Ok(v) => match hex_digit(d[n - 1]) {
                None => Err(ParseUnicodeError::InvalidDigit),
                Some(x) => if v * 16 + x > u32::MAX {
                    Err(ParseUnicodeError::TooLarge)
                } else {
                    Ok(v * 16 + x)
                },
            },
        }
    }
}

/// The number that `d` spells in base 16. One `+` may stand before the digits.
pub open spec fn hex_value(d: Seq<char>) -> Result<nat, ParseUnicodeError> {
    if d.len() == 0 {
        Err(ParseUnicodeError::Empty)
    } else if d.len() == 1 && (d[0] == '+' || d[0] == '-') {
        Err(ParseUnicodeError::InvalidDigit)
    } else if d[0] == '+' {
        hex_fold(d.drop_first(), (d.len() - 1) as nat)
    } else {
        hex_fold(d, d.len())
    }
}

/// The place of the first closing brace of `s` at or after `i`, or the end of `s`.
pub open spec fn brace_end(s: Seq<char>, i: int) -> int
    decreases s.len() - i,
{
    if i < 0 || i >= s.len() {
        s.len() as int
    } else if s[i] == '}' {
        i
    } else {
        brace_end(s, i + 1)
    }
}

/// The character that the braces at place `i` of `s` spell, and the place
/// after the closing brace. Where the closing brace is missing, the digits run
/// to the end of `s`.
pub open spec fn unicode_at(s: Seq<char>, i: int) -> Result<(char, int), ParseUnicodeError> {
    if i < 0 || i >= s.len() || s[i] != '{' {
        Err(ParseUnicodeError::BraceNotFound)
    } else {
        let end = brace_end(s, i + 1);
        let next = if end < s.len() {
            end + 1
        } else {
            end
        };
        match hex_value(s.subrange(i + 1, end)) {
            Err(e) => Err(e),
            Ok(u) => if is_scalar(u as u32) {
                Ok((u as u32 as char, next))
            } else {
                Err(ParseUnicodeError::InvalidUnicode)
            },
        }
    }
}

/// The character that stands for `\c` inside double quotes, `\u` apart.
pub open spec fn simple_escape(c: char) -> Option<char> {
    if c == 'a' {
        Some('\u{07}')
    } else if c == 'b' {
        Some('\u{08}')
    } else if c == 'v' {
        Some('\u{0B}')
    } else if c == 'f' {
        Some('\u{0C}')
    } else if c == 'n' {
        Some('\n')
    } else if c == 'r' {
        Some('\r')
    } else if c == 't' {
        Some('\t')
    } else if c == 'e' || c == 'E' {
        Some('\u{1B}')
    } else if c == '\\' || c == '\'' || c == '"' || c == '$' || c == '`' || c == ' ' {
        Some(c)
    } else {
        None
    }
}

/// What is left of `s` from place `i` on, unquoted and unescaped, after `acc`.
///
/// Quotes are dropped. Between single quotes every character stands for
/// itself. Between double quotes a backslash starts an escape. A quote left
/// open at the end is no error.
pub open spec fn unescape_from(s: Seq<char>, i: int, quote: Quote, acc: Seq<char>) -> Result<
    Seq<char>,
    UnescapeError,
>
    decreases s.len() - i,
{
    if i < 0 || i >= s.len() {
        Ok(acc)
    } else {
        let c = s[i];
        match quote {
            Quote::Single => if c == '\'' {
                unescape_from(s, i + 1, Quote::Outside, acc)
            } else {
                unescape_from(s, i + 1, quote, acc.push(c))
            },
            Quote::Double => if c == '"' {
                unescape_from(s, i + 1, Quote::Outside, acc)
            } else if c == '\\' {
                if i + 1 >= s.len() {
                    Err(UnescapeError::TrailingBackslash)
                } else if s[i + 1] == 'u' {
                    match unicode_at(s, i + 2) {
                        Err(e) => Err(UnescapeError::Unicode(e)),
                        Ok(found) => if i + 2 < found.1 <= s.len() {
                            unescape_from(s, found.1, quote, acc.push(found.0))
                        } else {
                            Ok(acc)
                        },
                    }
                } else {
                    match simple_escape(s[i + 1]) {
                        None => Err(UnescapeError::InvalidEscape(s[i + 1])),
                        Some(x) => unescape_from(s, i + 2, quote, acc.push(x)),
                    }
                }
            } else {
                unescape_from(s, i + 1, quote, acc.push(c))
            },
            Quote::Outside => if c == '\'' {
                unescape_from(s, i + 1, Quote::Single, acc)
            } else if c == '"' {
                unescape_from(s, i + 1, Quote::Double, acc)
            } else {
                unescape_from(s, i + 1, quote, acc.push(c))
            },
        }
    }
}

/// `s` unquoted and unescaped.
pub open spec fn unescape_spec(s: Seq<char>) -> Result<Seq<char>, UnescapeError> {
    unescape_from(s, 0, Quote::Outside, Seq::empty())
}

/// `brace_end` is the place of a closing brace, or the end, and no closing
/// brace stands before it.
pub proof fn lemma_brace_end_bounds(s: Seq<char>, i: int)
    requires
        0 <= i <= s.len(),
    ensures
        i <= brace_end(s, i) <= s.len(),
        forall|j: int| i <= j < brace_end(s, i) ==> s[j] != '}',
        brace_end(s, i) < s.len() ==> s[brace_end(s, i)] == '}',
    decreases s.len() - i,
{
    if i < s.len() && s[i] != '}' {
        lemma_brace_end_bounds(s, i + 1);
    }
}

/// The character with the given code, if the code is a Unicode scalar value.
///
/// Trusted: `char::from_u32` answers `None` for the surrogates and for what
/// lies past `0x10FFFF`, and else the character with that code.
#[verifier::external_body]
pub(crate) fn char_from_u32(u: u32) -> (r: Option<char>)
    ensures
        r == if is_scalar(u) {
            Some(u as char)
        } else {
            None::<char>
        },
{
    char::from_u32(u)
}

/// The value of `c` as a hexadecimal digit.
pub fn hex_digit_of(c: char) -> (r: Option<u32>)
    ensures
        match r {
            Some(x) => hex_digit(c) == Some(x as nat) && x < 16,
            None => hex_digit(c) is None,
        },
{
    if '0' <= c && c <= '9' {
        Some(c as u32 - '0' as u32)
    } else if 'a' <= c && c <= 'f' {
        Some(c as u32 - 'a' as u32 + 10)
    } else if 'A' <= c && c <= 'F' {
        Some(c as u32 - 'A' as u32 + 10)
    } else {
        None
    }
}

/// Reads the braces of a `\u{..}` escape that start at place `start` of
/// `chars`: gives the character and the place after the closing brace.
pub fn parse_unicode(chars: &Vec<char>, start: usize) -> (r: Result<
    (char, usize),
    ParseUnicodeError,
>)
    ensures
        match r {
            Ok((c, next)) => unicode_at(chars@, start as int) == Ok::<
                (char, int),
                ParseUnicodeError,
            >((c, next as int)) && start < next <= chars.len(),
            Err(e) => unicode_at(chars@, start as int) == Err::<(char, int), ParseUnicodeError>(e),
        },
{
    if start >= chars.len() || chars[start] != '{' {
        return Err(ParseUnicodeError::BraceNotFound);
    }
    let first: usize = start + 1;
    let mut end: usize = first;
    while end < chars.len() && chars[end] != '}'
        invariant
            first <= end <= chars.len(),
            brace_end(chars@, first as int) == brace_end(chars@, end as int),
        decreases chars.len() - end,
    {
        end += 1;
    }
    let next: usize = if end < chars.len() {
        end + 1
    } else {
        end
    };
    let ghost d = chars@.subrange(first as int, end as int);
    if end == first {
        return Err(ParseUnicodeError::Empty);
    }
    if end - first == 1 && (chars[first] == '+' || chars[first] == '-') {
        return Err(ParseUnicodeError::InvalidDigit);
    }
    let from: usize = if chars[first] == '+' {
        first + 1
    } else {
        first
    };
    let ghost body = chars@.subrange(from as int, end as int);
    assert(chars[first as int] == d[0]);
    assert(body =~= if d[0] == '+' {
        d.drop_first()
    } else {
        d
    });
    assert(hex_value(d) == hex_fold(body, body.len()));
    assert(end == brace_end(chars@, first as int));
    let mut value: u32 = 0;
    let mut i: usize = from;
    while i < end
        invariant
            from <= i <= end <= chars.len(),
            start < chars.len(),
            chars@[start as int] == '{',
            first == start + 1,
            body == chars@.subrange(from as int, end as int),
            d == chars@.subrange(first as int, end as int),
            hex_value(d) == hex_fold(body, body.len()),
            end == brace_end(chars@, first as int),
            hex_fold(body, (i - from) as nat) == Ok::<nat, ParseUnicodeError>(value as nat),
        decreases end - i,
    {
        assert(body[i - from] == chars@[i as int]);
        match hex_digit_of(chars[i]) {
            None => {
                proof {
                    lemma_hex_fold_err(body, (i - from + 1) as nat, body.len());
                }
                return Err(ParseUnicodeError::InvalidDigit);
            },
            Some(x) => {
                if value > (u32::MAX - x) / 16 {
                    proof {
                        lemma_hex_fold_err(body, (i - from + 1) as nat, body.len());
                    }
                    return Err(ParseUnicodeError::TooLarge);
                }
                value = value * 16 + x;
            },
        }
        i += 1;
    }
    match char_from_u32(value) {
        Some(c) => Ok((c, next)),
        None => Err(ParseUnicodeError::InvalidUnicode),
    }
}

/// Once the reading of a number has failed, it stays failed.
pub proof fn lemma_hex_fold_err(d: Seq<char>, n: nat, m: nat)
    requires
        n <= m <= d.len(),
        hex_fold(d, n) is Err,
    ensures
        hex_fold(d, m) == hex_fold(d, n),
    decreases m,
{
    if n < m {
        lemma_hex_fold_err(d, n, (m - 1) as nat);
    }
}

/// The character that `\c` stands for inside double quotes.
pub fn simple_escape_of(c: char) -> (r: Option<char>)
    ensures
        r == simple_escape(c),
{
    if c == 'a' {
        Some('\u{07}')
    } else if c == 'b' {
        Some('\u{08}')
    } else if c == 'v' {
        Some('\u{0B}')
    } else if c == 'f' {
        Some('\u{0C}')
    } else if c == 'n' {
        Some('\n')
    } else if c == 'r' {
        Some('\r')
    } else if c == 't' {
        Some('\t')
    } else if c == 'e' || c == 'E' {
        Some('\u{1B}')
    } else if c == '\\' || c == '\'' || c == '"' || c == '$' || c == '`' || c == ' ' {
        Some(c)
    } else {
        None
    }
}

/// Drops the quotes of `s` and resolves the escapes between double quotes.
pub fn unescape(s: &str) -> (r: Result<String, UnescapeError>)
    ensures
        match r {
            Ok(t) => unescape_spec(s@) == Ok::<Seq<char>, UnescapeError>(t@),
            Err(e) => unescape_spec(s@) == Err::<Seq<char>, UnescapeError>(e),
        },
{
    let chars = to_chars(s);
    let mut res = String::new();
    let mut quote = Quote::Outside;
    let mut i: usize = 0;
    while i < chars.len()
        invariant
            i <= chars.len(),
            chars@ == s@,
            unescape_spec(s@) == unescape_from(chars@, i as int, quote, res@),
        decreases chars.len() - i,
    {
        let c = chars[i];
        match quote {
            Quote::Single => {
                if c == '\'' {
                    quote = Quote::Outside;
                } else {
                    push_char(&mut res, c);
                }
                i += 1;
            },
            Quote::Double => {
                if c == '"' {
                    quote = Quote::Outside;
                    i += 1;
                } else if c == '\\' {
                    if i + 1 >= chars.len() {
                        return Err(UnescapeError::TrailingBackslash);
                    }
                    let c2 = chars[i + 1];
                    if c2 == 'u' {
                        match parse_unicode(&chars, i + 2) {
                            Err(e) => {
                                return Err(UnescapeError::Unicode(e));
                            },
                            Ok((ch, next)) => {
                                push_char(&mut res, ch);
                                i = next;
                            },
                        }
                    } else {
                        match simple_escape_of(c2) {
                            None => {
                                return Err(UnescapeError::InvalidEscape(c2));
                            },
                            Some(x) => {
                                push_char(&mut res, x);
                                i += 2;
                            },
                        }
                    }
                } else {
                    push_char(&mut res, c);
                    i += 1;
                }
            },
            Quote::Outside => {
                if c == '\'' {
                    quote = Quote::Single;
                } else if c == '"' {
                    quote = Quote::Double;
                } else {
                    push_char(&mut res, c);
                }
                i += 1;
            },
        }
    }
    Ok(res)
}

// ---------------------------------------------------------------- matching

/// One capture group of a match: its name, if it has one, and the text it
/// matched, if it took part in the match.
#[derive(Debug, PartialEq, Eq)]
pub struct Group {
    pub name: Option<String>,
    pub text: Option<String>,
}

/// A capture group as a value.
pub struct GroupView {
    pub name: Option<Seq<char>>,
    pub text: Option<Seq<char>>,
}

impl View for Group {
    type V = GroupView;

    open spec fn view(&self) -> GroupView {
        GroupView {
            name: match self.name {
                Some(n) => Some(n@),
                None => None,
            },
            text: match self.text {
                Some(t) => Some(t@),
                None => None,
            },
        }
    }
}

/// The views of a list of groups.
pub open spec fn groups_view(g: Seq<Group>) -> Seq<GroupView> {
    g.map_values(|x: Group| x@)
}

/// What the `regex` crate finds when `pattern` is matched against `input`:
/// `None` where `pattern` is no regular expression that the crate accepts,
/// `Some(None)` where it does not match, and else the capture groups of the
/// leftmost match, the whole match first.
pub uninterp spec fn regex_captures(pattern: Seq<char>, input: Seq<char>) -> Option<
    Option<Seq<GroupView>>,
>;

/// The error of `regex`, carried through as it is: nothing is known of what
/// it holds.
#[verifier::external_type_specification]
#[verifier::external_body]
pub struct ExRegexError(regex::Error);

/// Matches `pattern` against `input`.
///
/// Trusted: `regex::Regex::new` makes the pattern into an expression, and
/// `Regex::captures` gives the groups of the leftmost match, which are handed
/// out with their names in the order of their indexes. The contract only
/// gives that result a name.
#[verifier::external_body]
pub(crate) fn capture_groups(pattern: &str, input: &str) -> (r: Result<
    Option<Vec<Group>>,
    regex::Error,
>)
    ensures
        match r {
            Ok(Some(g)) => regex_captures(pattern@, input@) == Some(Some(groups_view(g@))),
            Ok(None) => regex_captures(pattern@, input@) == Some(None::<Seq<GroupView>>),
            Err(_) => regex_captures(pattern@, input@) is None,
        },
{
    let re = regex::Regex::new(pattern)?;
    Ok(re.captures(input).map(|caps| {
        re.capture_names().zip(caps.iter()).map(|(n, m)| Group {
            name: n.map(|s| s.to_string()),
            text: m.map(|m| m.as_str().to_string()),
        }).collect()
    }))
}

/// The texts of the groups with the first `n` of the given indexes, or `None`
/// where one of them names no group or a group that took no part.
pub open spec fn pick_by_index(g: Seq<GroupView>, idx: Seq<usize>, n: nat) -> Option<
    Seq<Seq<char>>,
>
    decreases n,
{
    if n == 0 || n > idx.len() {
        Some(Seq::empty())
    } else {
        match pick_by_index(g, idx, (n - 1) as nat) {
            None => None,
            Some(acc) => if idx[n - 1] < g.len() && g[idx[n - 1] as int].text is Some {
                Some(acc.push(g[idx[n - 1] as int].text->0))
            } else {
                None
            },
        }
    }
}

/// The place of the first of the first `n` groups that is named `name`, or
/// `n` where none is.
pub open spec fn named_group(g: Seq<GroupView>, name: Seq<char>, n: nat) -> nat
    decreases n,
{
    if n == 0 || n > g.len() {
        0
    } else {
        let before = named_group(g, name, (n - 1) as nat);
        if before < n - 1 {
            before
        } else if g[n - 1].name == Some(name) {
            (n - 1) as nat
        } else {
            n
        }
    }
}

/// The texts of the groups with the first `n` of the given names, or `None`
/// where one of them names no group or a group that took no part.
pub open spec fn pick_by_name(g: Seq<GroupView>, names: Seq<Seq<char>>, n: nat) -> Option<
    Seq<Seq<char>>,
>
    decreases n,
{
    if n == 0 || n > names.len() {
        Some(Seq::empty())
    } else {
        match pick_by_name(g, names, (n - 1) as nat) {
            None => None,
            Some(acc) => {
                let at = named_group(g, names[n - 1], g.len());
                if at < g.len() && g[at as int].text is Some {
                    Some(acc.push(g[at as int].text->0))
                } else {
                    None
                }
            },
        }
    }
}

/// What is taken from a match: the groups with the given indexes if indexes
/// are given, else the groups with the given names if names are given, else
/// nothing.
pub open spec fn select_spec(
    g: Seq<GroupView>,
    taking_index: Option<Seq<usize>>,
    taking_group: Option<Seq<Seq<char>>>,
) -> Option<Seq<Seq<char>>> {
    match taking_index {
        Some(idx) => pick_by_index(g, idx, idx.len()),
        None => match taking_group {
            Some(names) => pick_by_name(g, names, names.len()),
            None => Some(Seq::empty()),
        },
    }
}

/// What a parser gives for an input, given what the match found.
pub open spec fn parse_spec(
    found: Option<Seq<GroupView>>,
    taking_index: Option<Seq<usize>>,
    taking_group: Option<Seq<Seq<char>>>,
) -> Option<Seq<Seq<char>>> {
    match found {
        Some(g) => select_spec(g, taking_index, taking_group),
        None => None,
    }
}

proof fn lemma_pick_by_index_none(g: Seq<GroupView>, idx: Seq<usize>, n: nat, m: nat)
    requires
        n <= m <= idx.len(),
        pick_by_index(g, idx, n) is None,
    ensures
        pick_by_index(g, idx, m) is None,
    decreases m,
{
    if n < m {
        lemma_pick_by_index_none(g, idx, n, (m - 1) as nat);
    }
}

proof fn lemma_pick_by_name_none(g: Seq<GroupView>, names: Seq<Seq<char>>, n: nat, m: nat)
    requires
        n <= m <= names.len(),
        pick_by_name(g, names, n) is None,
    ensures
        pick_by_name(g, names, m) is None,
    decreases m,
{
    if n < m {
        lemma_pick_by_name_none(g, names, n, (m - 1) as nat);
    }
}

proof fn lemma_named_group_found(g: Seq<GroupView>, name: Seq<char>, n: nat, m: nat)
    requires
        n <= m <= g.len(),
        named_group(g, name, n) < n,
    ensures
        named_group(g, name, m) == named_group(g, name, n),
    decreases m,
{
    if n < m {
        lemma_named_group_found(g, name, n, (m - 1) as nat);
    }
}

/// The place of the first group named `name`, or the number of groups.
pub fn find_group(groups: &Vec<Group>, name: &str) -> (r: usize)
    ensures
        r == named_group(groups_view(groups@), name@, groups.len() as nat),
{
    let ghost g = groups_view(groups@);
    let mut i: usize = 0;
    while i < groups.len()
        invariant
            i <= groups.len(),
            g == groups_view(groups@),
            named_group(g, name@, i as nat) == i,
        decreases groups.len() - i,
    {
        assert(g[i as int] == groups@[i as int]@);
        let hit = match &groups[i].name {
            Some(n) => same_text(n.as_str(), name),
            None => false,
        };
        if hit {
            proof {
                lemma_named_group_found(g, name@, (i + 1) as nat, g.len());
            }
            return i;
        }
        i += 1;
    }
    i
}

/// Takes from the groups of a match what the indexes or the names ask for.
pub fn select_groups(
    groups: &Vec<Group>,
    taking_index: &Option<Vec<usize>>,
    taking_group: &Option<Vec<String>>,
) -> (r: Option<Vec<String>>)
    ensures
        match r {
            Some(v) => select_spec(
                groups_view(groups@),
                match taking_index {
                    Some(i) => Some(i@),
                    None => None,
                },
                match taking_group {
                    Some(n) => Some(texts(n@)),
                    None => None,
                },
            ) == Some(texts(v@)),
            None => select_spec(
                groups_view(groups@),
                match taking_index {
                    Some(i) => Some(i@),
                    None => None,
                },
                match taking_group {
                    Some(n) => Some(texts(n@)),
                    None => None,
                },
            ) is None,
        },
{
    let ghost g = groups_view(groups@);
    let mut out: Vec<String> = Vec::new();
    assert(texts(out@) =~= Seq::<Seq<char>>::empty());
    match taking_index {
        Some(idx) => {
            let mut i: usize = 0;
            while i < idx.len()
                invariant
                    i <= idx.len(),
                    g == groups_view(groups@),
                    *taking_index == Some(*idx),
                    pick_by_index(g, idx@, i as nat) == Some(texts(out@)),
                decreases idx.len() - i,
            {
                let ghost before = texts(out@);
                let at: usize = idx[i];
                if at >= groups.len() {
                    proof {
                        lemma_pick_by_index_none(g, idx@, (i + 1) as nat, idx@.len());
                    }
                    return None;
                }
                assert(g[at as int] == groups@[at as int]@);
                match &groups[at].text {
                    Some(t) => {
                        out.push(t.clone());
                        assert(texts(out@) =~= before.push(t@));
                    },
                    None => {
                        proof {
                            lemma_pick_by_index_none(g, idx@, (i + 1) as nat, idx@.len());
                        }
                        return None;
                    },
                }
                i += 1;
            }
            Some(out)
        },
        None => match taking_group {
            Some(names) => {
                let ghost nv = texts(names@);
                let mut i: usize = 0;
                while i < names.len()
                    invariant
                        i <= names.len(),
                        g == groups_view(groups@),
                        nv == texts(names@),
                        *taking_index is None,
                        *taking_group == Some(*names),
                        pick_by_name(g, nv, i as nat) == Some(texts(out@)),
                    decreases names.len() - i,
                {
                    let ghost before = texts(out@);
                    assert(nv[i as int] == names@[i as int]@);
                    let at: usize = find_group(groups, names[i].as_str());
                    if at >= groups.len() {
                        proof {
                            lemma_pick_by_name_none(g, nv, (i + 1) as nat, nv.len());
                        }
                        return None;
                    }
                    assert(g[at as int] == groups@[at as int]@);
                    match &groups[at].text {
                        Some(t) => {
                            out.push(t.clone());
                            assert(texts(out@) =~= before.push(t@));
                        },
                        None => {
                            proof {
                                lemma_pick_by_name_none(g, nv, (i + 1) as nat, nv.len());
                            }
                            return None;
                        },
                    }
                    i += 1;
                }
                Some(out)
            },
            None => Some(out),
        },
    }
}

/// Why a parser could not be used.
#[derive(Clone, Copy, Debug, PartialEq, Eq, Structural)]
pub enum ParserError {
    /// The pattern is no regular expression.
    InvalidRegex,
}

/// Picks parts out of a text: a regular expression and the capture groups
/// to take, by index or, where no indexes are given, by name.
#[derive(Debug, PartialEq, Eq)]
pub struct Parser {
    pub regex: String,
    pub taking_index: Option<Vec<usize>>,
    pub taking_group: Option<Vec<String>>,
}

impl Parser {
    /// A parser for the given pattern and the groups to take.
    pub fn new(regex: String, taking_index: Option<Vec<usize>>, taking_group: Option<Vec<String>>) -> (r:
        Self)
        ensures
            r.regex == regex,
            r.taking_index == taking_index,
            r.taking_group == taking_group,
    {
        Parser { regex, taking_index, taking_group }
    }

    /// The indexes to take, as a value.
    pub open spec fn index_spec(&self) -> Option<Seq<usize>> {
        match self.taking_index {
            Some(i) => Some(i@),
            None => None,
        }
    }

    /// The names to take, as a value.
    pub open spec fn group_spec(&self) -> Option<Seq<Seq<char>>> {
        match self.taking_group {
            Some(n) => Some(texts(n@)),
            None => None,
        }
    }

    /// The wanted groups of the leftmost match of the pattern in `input`;
    /// `None` where the pattern does not match or a wanted group is not
    /// there. The pattern must be a regular expression.
    pub fn parse(&self, input: &str) -> (r: Option<Vec<String>>)
        requires
            regex_captures(self.regex@, input@) is Some,
        ensures
            match r {
                Some(v) => parse_spec(
                    regex_captures(self.regex@, input@)->0,
                    self.index_spec(),
                    self.group_spec(),
                ) == Some(texts(v@)),
                None => parse_spec(
                    regex_captures(self.regex@, input@)->0,
                    self.index_spec(),
                    self.group_spec(),
                ) is None,
            },
    {
        match capture_groups(self.regex.as_str(), input) {
            Ok(Some(groups)) => select_groups(&groups, &self.taking_index, &self.taking_group),
            Ok(None) => None,
            Err(_) => None,
        }
    }

    /// As [`Parser::parse`], for a pattern that may be no regular expression.
    pub fn try_parse(&self, input: &str) -> (r: Result<Option<Vec<String>>, ParserError>)
        ensures
            match r {
                Ok(Some(v)) => regex_captures(self.regex@, input@) is Some && parse_spec(
                    regex_captures(self.regex@, input@)->0,
                    self.index_spec(),
                    self.group_spec(),
                ) == Some(texts(v@)),
                Ok(None) => regex_captures(self.regex@, input@) is Some && parse_spec(
                    regex_captures(self.regex@, input@)->0,
                    self.index_spec(),
                    self.group_spec(),
                ) is None,
                Err(e) => regex_captures(self.regex@, input@) is None,
            },
    {
        match capture_groups(self.regex.as_str(), input) {
            Ok(_) => Ok(self.parse(input)),
            Err(_) => Err(ParserError::InvalidRegex),
        }
    }
}

} // verus!

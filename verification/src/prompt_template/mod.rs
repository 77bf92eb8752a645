//! Prompt templates: literal text with named variables, read from a source
//! string once and filled against a map of values.
//!
//! In the source, `{name}` declares a variable that must be supplied,
//! `{name:"default"}` one that may be, and a backslash makes the character
//! after it literal text.

pub mod laws;

use crate::str_map::{
    keys_of, lemma_upsert_keys, lemma_upsert_last, lemma_upsert_sorted, lookup, sorted, upsert,
    StrMap, StringMap,
};
use crate::text::{
    append_chars, byte_len, byte_length, from_chars, key_lt, lemma_byte_len_take, push_char,
    same_text, texts, to_chars, utf8_width,
};
use vstd::prelude::*;
use vstd::string::StringExecFns;

verus! {

/// What is known of one variable: its default (empty where a value must be
/// supplied) and where its value goes into the literal text, counted in bytes
/// of UTF-8 (`offset`) and in characters (`index`).
pub struct VarView {
    pub default: Seq<char>,
    pub offset: nat,
    pub index: nat,
}

/// A template as a value: the literal text and the variables by name, in key order.
pub struct TemplateView {
    pub text: Seq<char>,
    pub vars: Seq<(Seq<char>, VarView)>,
}

/// `v` names a place between two characters of `text`.
pub open spec fn valid_point(text: Seq<char>, v: VarView) -> bool {
    v.index <= text.len() && v.offset == byte_len(text.take(v.index as int))
}

/// Every variable of `vars` names a place in `text`.
pub open spec fn all_valid(text: Seq<char>, vars: Seq<(Seq<char>, VarView)>) -> bool {
    forall|i: int| 0 <= i < vars.len() ==> valid_point(text, (#[trigger] vars[i]).1)
}

/// The invariant of a template: names ascending and unique, every insertion
/// point inside the literal text.
pub open spec fn well_formed(t: TemplateView) -> bool {
    sorted(t.vars) && all_valid(t.text, t.vars)
}

// ---------------------------------------------------------------- reading

/// What the reader is in the middle of.
#[derive(Clone, Copy, Debug, PartialEq, Eq, Structural)]
pub enum Mode {
    /// Literal text.
    Literal,
    /// Inside braces, reading a name.
    Name,
    /// After the colon, before the opening quote of a default.
    DefaultOpen,
    /// Between the quotes of a default.
    DefaultValue,
}

/// The reader's state after some prefix of the source.
pub struct Scan {
    pub text: Seq<char>,
    pub vars: Seq<(Seq<char>, VarView)>,
    pub name: Seq<char>,
    pub default: Seq<char>,
    pub mode: Mode,
    /// The last character was a backslash that is still to take effect.
    pub escaped: bool,
}

/// The reader before the first character.
pub open spec fn start() -> Scan {
    Scan {
        text: Seq::empty(),
        vars: Seq::empty(),
        name: Seq::empty(),
        default: Seq::empty(),
        mode: Mode::Literal,
        escaped: false,
    }
}

/// The variables after the name being read is declared with `default` at the
/// end of the literal text read so far. A name declared before is overwritten.
pub open spec fn declare(s: Scan, default: Seq<char>) -> Seq<(Seq<char>, VarView)> {
    upsert(
        s.vars,
        s.name,
        VarView { default, offset: byte_len(s.text), index: s.text.len() },
    )
}

/// The reader's state after one more character.
pub open spec fn step(s: Scan, c: char) -> Scan {
    if s.escaped {
        Scan { text: s.text.push(c), escaped: false, ..s }
    } else if c == '\\' {
        Scan { escaped: true, ..s }
    } else {
        match s.mode {
            Mode::DefaultOpen => if c == '"' {
                Scan { mode: Mode::DefaultValue, ..s }
            } else {
                Scan { default: s.default.push(c), ..s }
            },
            Mode::DefaultValue => if c == '"' {
                Scan {
                    vars: declare(s, s.default),
                    name: Seq::empty(),
                    default: Seq::empty(),
                    mode: Mode::Name,
                    ..s
                }
            } else {
                Scan { default: s.default.push(c), ..s }
            },
            Mode::Name => if c == ':' {
                Scan { mode: Mode::DefaultOpen, ..s }
            } else if c == '}' {
                Scan {
                    vars: if s.name.len() > 0 {
                        declare(s, Seq::empty())
                    } else {
                        s.vars
                    },
                    name: Seq::empty(),
                    mode: Mode::Literal,
                    ..s
                }
            } else {
                Scan { name: s.name.push(c), ..s }
            },
            Mode::Literal => if c == '{' {
                Scan { mode: Mode::Name, ..s }
            } else {
                Scan { text: s.text.push(c), ..s }
            },
        }
    }
}

/// The reader's state after all of `src`, starting from `from`.
pub open spec fn scan_from(from: Scan, src: Seq<char>) -> Scan
    decreases src.len(),
{
    if src.len() == 0 {
        from
    } else {
        step(scan_from(from, src.drop_last()), src.last())
    }
}

/// The reader's state after all of `src`.
pub open spec fn scan(src: Seq<char>) -> Scan {
    scan_from(start(), src)
}

/// The template that a source string stands for. What is left unfinished at
/// the end of the source (an open brace, an open quote, a last backslash) is
/// dropped.
pub open spec fn parse_spec(src: Seq<char>) -> TemplateView {
    TemplateView { text: scan(src).text, vars: scan(src).vars }
}

/// Reading one more character of the source is one `step`.
pub proof fn lemma_scan_push(from: Scan, src: Seq<char>, i: int)
    requires
        0 <= i < src.len(),
    ensures
        scan_from(from, src.take(i + 1)) == step(scan_from(from, src.take(i)), src[i]),
{
    assert(src.take(i + 1).drop_last() =~= src.take(i));
}

/// A step keeps the reader's state sound: names sorted, insertion points in the text.
pub proof fn lemma_step_valid(s: Scan, c: char)
    requires
        sorted(s.vars),
        all_valid(s.text, s.vars),
    ensures
        sorted(step(s, c).vars),
        all_valid(step(s, c).text, step(s, c).vars),
{
    let r = step(s, c);
    let fresh = VarView { default: s.default, offset: byte_len(s.text), index: s.text.len() };
    let bare = VarView { default: Seq::empty(), offset: byte_len(s.text), index: s.text.len() };
    assert(s.text.take(s.text.len() as int) =~= s.text);
    lemma_upsert_sorted(s.vars, s.name, fresh);
    lemma_upsert_sorted(s.vars, s.name, bare);
    assert forall|i: int| 0 <= i < r.vars.len() implies valid_point(
        r.text,
        (#[trigger] r.vars[i]).1,
    ) by {
        if r.vars == s.vars {
            let v = s.vars[i].1;
            assert(valid_point(s.text, v));
            assert(r.text.take(v.index as int) =~= s.text.take(v.index as int));
        } else {
            assert(r.text == s.text);
            if r.vars == upsert(s.vars, s.name, fresh) {
                lemma_upsert_keys(s.vars, s.name, fresh, i);
            } else {
                lemma_upsert_keys(s.vars, s.name, bare, i);
            }
        }
    }
}

// ---------------------------------------------------------------- filling

/// The text that goes in for a variable: the supplied value, else its default
/// if it has one.
pub open spec fn resolved(
    name: Seq<char>,
    default: Seq<char>,
    values: Seq<(Seq<char>, Seq<char>)>,
) -> Option<Seq<char>> {
    match lookup(values, name) {
        Some(x) => Some(x),
        None => if default.len() > 0 {
            Some(default)
        } else {
            None
        },
    }
}

/// Every variable has a text to go in.
pub open spec fn all_resolved(
    vars: Seq<(Seq<char>, VarView)>,
    values: Seq<(Seq<char>, Seq<char>)>,
) -> bool {
    forall|i: int| 0 <= i < vars.len() ==> resolved(
        (#[trigger] vars[i]).0,
        vars[i].1.default,
        values,
    ) is Some
}

/// The place, among the first `upto` variables, of the first one that has
/// no text to go in; `upto` where each has one.
pub open spec fn first_missing(
    vars: Seq<(Seq<char>, VarView)>,
    values: Seq<(Seq<char>, Seq<char>)>,
    upto: nat,
) -> nat
    decreases upto,
{
    if upto == 0 || upto > vars.len() {
        0
    } else {
        let before = first_missing(vars, values, (upto - 1) as nat);
        if before < upto - 1 {
            before
        } else if resolved(vars[upto - 1].0, vars[upto - 1].1.default, values) is None {
            (upto - 1) as nat
        } else {
            upto
        }
    }
}

/// What filling gives: the filled text, or the name of the first variable, in
/// key order, that has no text to go in.
pub open spec fn try_format_spec(t: TemplateView, values: Seq<(Seq<char>, Seq<char>)>) -> Result<
    Seq<char>,
    Seq<char>,
> {
    match format_spec(t, values) {
        Some(text) => Ok(text),
        None => Err(t.vars[first_missing(t.vars, values, t.vars.len()) as int].0),
    }
}

/// `first_missing` names a variable without text exactly where one is, and
/// every variable before it has a text.
pub proof fn lemma_first_missing(
    vars: Seq<(Seq<char>, VarView)>,
    values: Seq<(Seq<char>, Seq<char>)>,
    upto: nat,
)
    requires
        upto <= vars.len(),
    ensures
        first_missing(vars, values, upto) <= upto,
        forall|i: int|
            0 <= i < first_missing(vars, values, upto) ==> resolved(
                (#[trigger] vars[i]).0,
                vars[i].1.default,
                values,
            ) is Some,
        first_missing(vars, values, upto) < upto ==> resolved(
            vars[first_missing(vars, values, upto) as int].0,
            vars[first_missing(vars, values, upto) as int].1.default,
            values,
        ) is None,
    decreases upto,
{
    if upto > 0 {
        lemma_first_missing(vars, values, (upto - 1) as nat);
    }
}

/// The texts of the first `upto` variables that go in before character `at`,
/// one after the other in key order.
pub open spec fn fill_at(
    vars: Seq<(Seq<char>, VarView)>,
    values: Seq<(Seq<char>, Seq<char>)>,
    at: nat,
    upto: nat,
) -> Seq<char>
    decreases upto,
{
    if upto == 0 || upto > vars.len() {
        Seq::empty()
    } else {
        let v = vars[upto - 1];
        fill_at(vars, values, at, (upto - 1) as nat) + if v.1.index == at {
            match resolved(v.0, v.1.default, values) {
                Some(x) => x,
                None => Seq::empty(),
            }
        } else {
            Seq::empty()
        }
    }
}

/// The filled text up to, and without, what goes in before character `upto`.
pub open spec fn render(t: TemplateView, values: Seq<(Seq<char>, Seq<char>)>, upto: nat) -> Seq<
    char,
>
    decreases upto,
{
    if upto == 0 || upto > t.text.len() {
        Seq::empty()
    } else {
        render(t, values, (upto - 1) as nat) + fill_at(
            t.vars,
            values,
            (upto - 1) as nat,
            t.vars.len(),
        ) + seq![t.text[upto - 1]]
    }
}

/// The literal text with every variable's text put in at its insertion point;
/// variables that share a point stand in key order. `None` where a variable
/// without default is not supplied.
pub open spec fn format_spec(t: TemplateView, values: Seq<(Seq<char>, Seq<char>)>) -> Option<
    Seq<char>,
> {
    if all_resolved(t.vars, values) {
        Some(
            render(t, values, t.text.len()) + fill_at(t.vars, values, t.text.len(), t.vars.len()),
        )
    } else {
        None
    }
}

proof fn lemma_first_missing_found(
    vars: Seq<(Seq<char>, VarView)>,
    values: Seq<(Seq<char>, Seq<char>)>,
    n: nat,
    m: nat,
)
    requires
        n <= m <= vars.len(),
        first_missing(vars, values, n) < n,
    ensures
        first_missing(vars, values, m) == first_missing(vars, values, n),
    decreases m,
{
    if n < m {
        lemma_first_missing_found(vars, values, n, (m - 1) as nat);
    }
}

// ---------------------------------------------------------------- putting together

/// The byte offset `offset` falls between two characters of `text`, or at
/// one of its ends.
pub open spec fn on_boundary(text: Seq<char>, offset: nat) -> bool {
    exists|i: int| 0 <= i <= text.len() && #[trigger] byte_len(text.take(i)) == offset
}

/// The number of characters of `text` that stand before the byte offset
/// `offset`.
pub open spec fn index_at(text: Seq<char>, offset: nat) -> nat {
    (choose|i: int| 0 <= i <= text.len() && #[trigger] byte_len(text.take(i)) == offset) as nat
}

/// Only one number of characters takes a given number of bytes.
pub proof fn lemma_index_at(text: Seq<char>, offset: nat, i: int)
    requires
        0 <= i <= text.len(),
        byte_len(text.take(i)) == offset,
    ensures
        on_boundary(text, offset),
        index_at(text, offset) == i,
{
    let j = index_at(text, offset) as int;
    if i < j {
        lemma_byte_len_take(text, i, j);
    } else if j < i {
        lemma_byte_len_take(text, j, i);
    }
}

/// The variable that the `i`-th default and the `i`-th offset make.
pub open spec fn assembled_var(
    text: Seq<char>,
    variables: Seq<(Seq<char>, Seq<char>)>,
    positions: Seq<(Seq<char>, usize)>,
    i: int,
) -> (Seq<char>, VarView) {
    (
        variables[i].0,
        VarView {
            default: variables[i].1,
            offset: positions[i].1 as nat,
            index: index_at(text, positions[i].1 as nat),
        },
    )
}

/// The template that a literal text, the defaults by name and the byte
/// offsets by name make: there is one if the two maps have the same names and
/// every offset falls between two characters of the text.
pub open spec fn assembled(
    text: Seq<char>,
    variables: Seq<(Seq<char>, Seq<char>)>,
    positions: Seq<(Seq<char>, usize)>,
) -> Option<TemplateView> {
    if keys_of(variables) == keys_of(positions) && (forall|i: int|
        0 <= i < positions.len() ==> on_boundary(text, (#[trigger] positions[i]).1 as nat)) {
        Some(
            TemplateView {
                text,
                vars: Seq::new(
                    variables.len(),
                    |i: int| assembled_var(text, variables, positions, i),
                ),
            },
        )
    } else {
        None
    }
}

/// The number of characters of `chars` that stand before the byte offset
/// `offset`, if it falls between two characters.
pub fn locate_offset(chars: &Vec<char>, offset: usize) -> (r: Option<usize>)
    ensures
        match r {
            Some(i) => i <= chars.len() && byte_len(chars@.take(i as int)) == offset,
            None => !on_boundary(chars@, offset as nat),
        },
{
    let mut i: usize = 0;
    let mut acc: usize = 0;
    assert(chars@.take(0) =~= Seq::<char>::empty());
    loop
        invariant
            i <= chars.len(),
            acc == byte_len(chars@.take(i as int)),
            forall|j: int| 0 <= j < i ==> #[trigger] byte_len(chars@.take(j)) != offset,
        decreases chars.len() - i,
    {
        if acc == offset {
            return Some(i);
        }
        if acc > offset || i == chars.len() {
            proof {
                assert forall|j: int| 0 <= j <= chars.len() implies #[trigger] byte_len(
                    chars@.take(j),
                ) != offset by {
                    if j > i {
                        lemma_byte_len_take(chars@, i as int, j);
                    }
                }
            }
            return None;
        }
        let w: usize = utf8_width(chars[i]);
        proof {
            lemma_byte_len_take(chars@, i as int, i as int);
        }
        if usize::MAX - acc < w {
            proof {
                assert forall|j: int| 0 <= j <= chars.len() implies #[trigger] byte_len(
                    chars@.take(j),
                ) != offset by {
                    if j > i {
                        lemma_byte_len_take(chars@, i + 1, j);
                    }
                }
            }
            return None;
        }
        acc += w;
        i += 1;
    }
}

// ---------------------------------------------------------------- the type

/// Why a template could not be filled.
#[derive(Debug, PartialEq, Eq)]
pub enum TemplateError {
    /// The named variable has no default and no value was supplied for it.
    MissingVariable(String),
}

impl TemplateError {
    /// The error in words.
    pub fn message(&self) -> (r: String)
        ensures
            r@ == match self {
                TemplateError::MissingVariable(name) => "missing variable "@ + name@
                    + " in values"@,
            },
    {
        match self {
            TemplateError::MissingVariable(name) => "missing variable ".to_owned().concat(
                name.as_str(),
            ).concat(" in values"),
        }
    }
}

/// One declared variable.
#[derive(Debug, PartialEq, Eq)]
struct Variable {
    default: String,
    offset: usize,
    index: usize,
}

impl View for Variable {
    type V = VarView;

    closed spec fn view(&self) -> VarView {
        VarView { default: self.default@, offset: self.offset as nat, index: self.index as nat }
    }
}

/// A parsed template.
#[derive(Debug, PartialEq, Eq)]
pub struct PromptTemplate {
    text_template: String,
    variables: StrMap<Variable>,
}

impl View for PromptTemplate {
    type V = TemplateView;

    closed spec fn view(&self) -> TemplateView {
        TemplateView { text: self.text_template@, vars: self.variables@ }
    }
}

impl PromptTemplate {
    #[verifier::type_invariant]
    closed spec fn inv(self) -> bool {
        well_formed(self@)
    }

    /// Reads a template from its source string.
    pub fn parse_from_string(s: &str) -> (r: PromptTemplate)
        ensures
            r@ == parse_spec(s@),
            well_formed(r@),
    {
        let src = to_chars(s);
        let mut text = String::new();
        let mut count: usize = 0;
        let mut variables: StrMap<Variable> = StrMap::new();
        let mut name = String::new();
        let mut default = String::new();
        let mut mode = Mode::Literal;
        let mut escaped = false;
        let ghost mut st = start();
        let mut i: usize = 0;
        assert(src@.take(0) =~= Seq::<char>::empty());
        while i < src.len()
            invariant
                i <= src.len(),
                st == scan(src@.take(i as int)),
                text@ == st.text,
                variables@ == st.vars,
                name@ == st.name,
                default@ == st.default,
                mode == st.mode,
                escaped == st.escaped,
                count == st.text.len(),
                count <= i,
                sorted(st.vars),
                all_valid(st.text, st.vars),
            decreases src.len() - i,
        {
            let c = src[i];
            proof {
                lemma_scan_push(start(), src@, i as int);
                lemma_step_valid(st, c);
                assert(st.text.take(st.text.len() as int) =~= st.text);
                st = step(st, c);
            }
            if escaped {
                push_char(&mut text, c);
                count += 1;
                escaped = false;
            } else if c == '\\' {
                escaped = true;
            } else {
                match mode {
                    Mode::DefaultOpen => {
                        if c == '"' {
                            mode = Mode::DefaultValue;
                        } else {
                            push_char(&mut default, c);
                        }
                    },
                    Mode::DefaultValue => {
                        if c == '"' {
                            let v = Variable {
                                default,
                                offset: byte_length(text.as_str()),
                                index: count,
                            };
                            variables.insert(name, v);
                            name = String::new();
                            default = String::new();
                            mode = Mode::Name;
                        } else {
                            push_char(&mut default, c);
                        }
                    },
                    Mode::Name => {
                        if c == ':' {
                            mode = Mode::DefaultOpen;
                        } else if c == '}' {
                            if byte_length(name.as_str()) > 0 {
                                let v = Variable {
                                    default: String::new(),
                                    offset: byte_length(text.as_str()),
                                    index: count,
                                };
                                variables.insert(name, v);
                            }
                            name = String::new();
                            mode = Mode::Literal;
                        } else {
                            push_char(&mut name, c);
                        }
                    },
                    Mode::Literal => {
                        if c == '{' {
                            mode = Mode::Name;
                        } else {
                            push_char(&mut text, c);
                            count += 1;
                        }
                    },
                }
            }
            i += 1;
        }
        assert(src@.take(i as int) =~= src@);
        PromptTemplate { text_template: text, variables }
    }

    /// Puts a template together from its parts: the literal text, the
    /// defaults by name and the byte offsets by name. `None` where the two
    /// maps do not have the same names or an offset does not fall between
    /// two characters of the text.
    pub fn from_parts(text_template: String, variables: &StringMap, positions: &StrMap<usize>) -> (r:
        Option<PromptTemplate>)
        ensures
            match r {
                Some(t) => assembled(text_template@, variables@, positions@) == Some(t@),
                None => assembled(text_template@, variables@, positions@) is None,
            },
    {
        let n: usize = variables.len();
        if positions.len() != n {
            assert(keys_of(variables@).len() != keys_of(positions@).len());
            return None;
        }
        let chars = to_chars(text_template.as_str());
        let mut out: StrMap<Variable> = StrMap::new();
        let mut i: usize = 0;
        let ghost text = text_template@;
        assert(out@ =~= Seq::new(0, |k: int| assembled_var(text, variables@, positions@, k)));
        while i < n
            invariant
                i <= n,
                n == variables@.len(),
                n == positions@.len(),
                sorted(variables@),
                chars@ == text,
                text == text_template@,
                out@ == Seq::new(i as nat, |k: int| assembled_var(text, variables@, positions@, k)),
                forall|k: int| 0 <= k < i ==> variables@[k].0 == positions@[k].0,
                forall|k: int| 0 <= k < i ==> on_boundary(text, (#[trigger] positions@[k]).1 as nat),
                all_valid(text, out@),
            decreases n - i,
        {
            let name = variables.key_at(i);
            if !same_text(name.as_str(), positions.key_at(i).as_str()) {
                assert(keys_of(variables@)[i as int] != keys_of(positions@)[i as int]);
                return None;
            }
            let offset: usize = *positions.value_at(i);
            let index: usize = match locate_offset(&chars, offset) {
                Some(x) => x,
                None => {
                    return None;
                },
            };
            proof {
                lemma_index_at(text, offset as nat, index as int);
            }
            let var = Variable { default: variables.value_at(i).clone(), offset, index };
            let ghost before = out@;
            proof {
                assert forall|j: int| 0 <= j < before.len() implies key_lt(
                    (#[trigger] before[j]).0,
                    name@,
                ) by {
                    assert(before[j].0 == variables@[j].0);
                }
                lemma_upsert_last(before, name@, var@);
            }
            out.insert(name.clone(), var);
            assert(out@ =~= Seq::new(
                (i + 1) as nat,
                |k: int| assembled_var(text, variables@, positions@, k),
            ));
            i += 1;
        }
        assert(keys_of(variables@) =~= keys_of(positions@));
        let count: usize = out.len();
        assert(count == n);
        Some(PromptTemplate { text_template, variables: out })
    }

    /// The texts of all variables, in key order, or the place of the first
    /// variable that has none.
    fn resolve(&self, values: &StringMap) -> (r: Result<Vec<Vec<char>>, usize>)
        ensures
            match r {
                Ok(vals) => all_resolved(self@.vars, values@) && vals.len() == self@.vars.len()
                    && forall|j: int|
                    0 <= j < vals.len() ==> resolved(
                        self@.vars[j].0,
                        self@.vars[j].1.default,
                        values@,
                    ) == Some((#[trigger] vals[j])@),
                Err(k) => !all_resolved(self@.vars, values@) && k < self@.vars.len() && k
                    == first_missing(self@.vars, values@, self@.vars.len()),
            },
    {
        let mut vals: Vec<Vec<char>> = Vec::new();
        let n: usize = self.variables.len();
        let mut k: usize = 0;
        while k < n
            invariant
                k <= n,
                n == self@.vars.len(),
                vals.len() == k,
                first_missing(self@.vars, values@, k as nat) == k,
                forall|j: int|
                    0 <= j < k ==> resolved(self@.vars[j].0, self@.vars[j].1.default, values@) == Some(
                        (#[trigger] vals[j])@,
                    ),
            decreases n - k,
        {
            let name = self.variables.key_at(k);
            let var = self.variables.value_at(k);
            match values.get(name.as_str()) {
                Some(x) => {
                    vals.push(to_chars(x.as_str()));
                },
                None => {
                    if byte_length(var.default.as_str()) > 0 {
                        vals.push(to_chars(var.default.as_str()));
                    } else {
                        assert(resolved(self@.vars[k as int].0, self@.vars[k as int].1.default, values@)
                            is None);
                        proof {
                            lemma_first_missing_found(self@.vars, values@, (k + 1) as nat, n as nat);
                        }
                        return Err(k);
                    }
                },
            }
            k += 1;
        }
        assert forall|i: int| 0 <= i < self@.vars.len() implies resolved(
            (#[trigger] self@.vars[i]).0,
            self@.vars[i].1.default,
            values@,
        ) is Some by {
            assert(resolved(self@.vars[i].0, self@.vars[i].1.default, values@) == Some(vals[i]@));
        }
        Ok(vals)
    }

    /// Appends to `out` the texts of the variables that go in before character `at`.
    fn fill(
        &self,
        vals: &Vec<Vec<char>>,
        at: usize,
        out: &mut Vec<char>,
        Ghost(values): Ghost<Seq<(Seq<char>, Seq<char>)>>,
    )
        requires
            vals.len() == self@.vars.len(),
            forall|j: int|
                0 <= j < vals.len() ==> resolved(self@.vars[j].0, self@.vars[j].1.default, values) == Some(
                    (#[trigger] vals[j])@,
                ),
        ensures
            final(out)@ == old(out)@ + fill_at(self@.vars, values, at as nat, self@.vars.len()),
    {
        let n: usize = self.variables.len();
        let mut k: usize = 0;
        assert(out@ =~= old(out)@ + fill_at(self@.vars, values, at as nat, 0));
        while k < n
            invariant
                k <= n,
                n == self@.vars.len(),
                vals.len() == n,
                forall|j: int|
                    0 <= j < vals.len() ==> resolved(self@.vars[j].0, self@.vars[j].1.default, values)
                        == Some((#[trigger] vals[j])@),
                out@ == old(out)@ + fill_at(self@.vars, values, at as nat, k as nat),
            decreases n - k,
        {
            let var = self.variables.value_at(k);
            let ghost before = out@;
            if var.index == at {
                let piece = &vals[k];
                append_chars(out, piece, 0, piece.len());
                assert(piece@.subrange(0, piece.len() as int) =~= piece@);
            }
            assert(out@ =~= old(out)@ + fill_at(self@.vars, values, at as nat, (k + 1) as nat));
            k += 1;
        }
    }

    /// Fills the template: every variable takes the value supplied under its
    /// name, or its default where none is supplied. A variable without default
    /// that is not supplied makes the whole call fail.
    pub fn format(&self, values: &StringMap) -> (r: Option<String>)
        ensures
            match r {
                Some(s) => format_spec(self@, values@) == Some(s@),
                None => format_spec(self@, values@) is None,
            },
    {
        match self.try_format(values) {
            Ok(text) => Some(text),
            Err(_) => None,
        }
    }

    /// As [`PromptTemplate::format`], and names the first variable, in key
    /// order, that is missing.
    pub fn try_format(&self, values: &StringMap) -> (r: Result<String, TemplateError>)
        ensures
            match r {
                Ok(s) => try_format_spec(self@, values@) == Ok::<Seq<char>, Seq<char>>(s@),
                Err(TemplateError::MissingVariable(name)) => try_format_spec(self@, values@)
                    == Err::<Seq<char>, Seq<char>>(name@),
            },
    {
        let vals = match self.resolve(values) {
            Ok(v) => v,
            Err(k) => {
                return Err(TemplateError::MissingVariable(self.variables.key_at(k).clone()));
            },
        };
        let text = to_chars(self.text_template.as_str());
        let mut out: Vec<char> = Vec::new();
        let mut at: usize = 0;
        while at < text.len()
            invariant
                at <= text.len(),
                text@ == self@.text,
                vals.len() == self@.vars.len(),
                forall|j: int|
                    0 <= j < vals.len() ==> resolved(self@.vars[j].0, self@.vars[j].1.default, values@)
                        == Some((#[trigger] vals[j])@),
                out@ == render(self@, values@, at as nat),
            decreases text.len() - at,
        {
            self.fill(&vals, at, &mut out, Ghost(values@));
            out.push(text[at]);
            at += 1;
        }
        self.fill(&vals, at, &mut out, Ghost(values@));
        Ok(from_chars(&out))
    }

    /// The literal text, without the variables.
    pub fn text_template(&self) -> (r: &String)
        ensures
            r@ == self@.text,
    {
        &self.text_template
    }

    /// The declared variables with their defaults; an empty default marks a
    /// variable that must be supplied.
    pub fn variables(&self) -> (r: StringMap)
        ensures
            r@ == defaults_of(self@.vars),
    {
        let mut out: StringMap = StrMap::new();
        let n: usize = self.variables.len();
        let mut k: usize = 0;
        assert(out@ =~= defaults_of(self@.vars.take(0)));
        while k < n
            invariant
                k <= n,
                n == self@.vars.len(),
                sorted(self@.vars),
                out@ == defaults_of(self@.vars.take(k as int)),
            decreases n - k,
        {
            let ghost before = out@;
            proof {
                assert forall|j: int| 0 <= j < before.len() implies key_lt(
                    (#[trigger] before[j]).0,
                    self@.vars[k as int].0,
                ) by {
                    assert(before[j].0 == self@.vars[j].0);
                }
                lemma_upsert_last(before, self@.vars[k as int].0, self@.vars[k as int].1.default);
            }
            out.insert(self.variables.key_at(k).clone(), self.variables.value_at(k).default.clone());
            assert(self@.vars.take(k + 1) =~= self@.vars.take(k as int).push(self@.vars[k as int]));
            assert(out@ =~= defaults_of(self@.vars.take(k + 1)));
            k += 1;
        }
        assert(self@.vars.take(k as int) =~= self@.vars);
        out
    }

    /// Where each variable's value goes into the literal text, as an offset
    /// in bytes.
    pub fn variables_insert_positions(&self) -> (r: StrMap<usize>)
        ensures
            r@ == offsets_of(self@.vars),
    {
        let mut out: StrMap<usize> = StrMap::new();
        let n: usize = self.variables.len();
        let mut k: usize = 0;
        assert(out@ =~= offsets_of(self@.vars.take(0)));
        while k < n
            invariant
                k <= n,
                n == self@.vars.len(),
                sorted(self@.vars),
                out@ == offsets_of(self@.vars.take(k as int)),
            decreases n - k,
        {
            let ghost before = out@;
            let offset: usize = self.variables.value_at(k).offset;
            proof {
                assert forall|j: int| 0 <= j < before.len() implies key_lt(
                    (#[trigger] before[j]).0,
                    self@.vars[k as int].0,
                ) by {
                    assert(before[j].0 == self@.vars[j].0);
                }
                lemma_upsert_last(before, self@.vars[k as int].0, offset);
            }
            out.insert(self.variables.key_at(k).clone(), offset);
            assert(self@.vars.take(k + 1) =~= self@.vars.take(k as int).push(self@.vars[k as int]));
            assert(out@ =~= offsets_of(self@.vars.take(k + 1)));
            k += 1;
        }
        assert(self@.vars.take(k as int) =~= self@.vars);
        out
    }

    /// The names of the variables, in key order.
    pub fn variable_names(&self) -> (r: Vec<String>)
        ensures
            texts(r@) == keys_of(self@.vars),
    {
        let mut out: Vec<String> = Vec::new();
        let n: usize = self.variables.len();
        let mut k: usize = 0;
        while k < n
            invariant
                k <= n,
                n == self@.vars.len(),
                texts(out@) == keys_of(self@.vars.take(k as int)),
            decreases n - k,
        {
            let ghost before = texts(out@);
            out.push(self.variables.key_at(k).clone());
            assert(self@.vars.take(k + 1) =~= self@.vars.take(k as int).push(self@.vars[k as int]));
            assert(texts(out@) =~= before.push(self@.vars[k as int].0));
            assert(texts(out@) =~= keys_of(self@.vars.take(k + 1)));
            k += 1;
        }
        assert(self@.vars.take(k as int) =~= self@.vars);
        out
    }
}

/// Name and default of each variable.
pub open spec fn defaults_of(vars: Seq<(Seq<char>, VarView)>) -> Seq<(Seq<char>, Seq<char>)> {
    vars.map_values(|e: (Seq<char>, VarView)| (e.0, e.1.default))
}

/// Name and byte offset of each variable.
pub open spec fn offsets_of(vars: Seq<(Seq<char>, VarView)>) -> Seq<(Seq<char>, usize)> {
    vars.map_values(|e: (Seq<char>, VarView)| (e.0, e.1.offset as usize))
}

impl Clone for PromptTemplate {
    fn clone(&self) -> (r: Self)
        ensures
            r@ == self@,
    {
        proof {
            use_type_invariant(self);
        }
        let mut out: StrMap<Variable> = StrMap::new();
        let n: usize = self.variables.len();
        let mut k: usize = 0;
        assert(out@ =~= self@.vars.take(0));
        while k < n
            invariant
                k <= n,
                n == self@.vars.len(),
                sorted(self@.vars),
                out@ == self@.vars.take(k as int),
            decreases n - k,
        {
            let ghost before = out@;
            let var = self.variables.value_at(k);
            let copy = Variable {
                default: var.default.clone(),
                offset: var.offset,
                index: var.index,
            };
            proof {
                assert forall|j: int| 0 <= j < before.len() implies key_lt(
                    (#[trigger] before[j]).0,
                    self@.vars[k as int].0,
                ) by {
                    assert(before[j].0 == self@.vars[j].0);
                }
                lemma_upsert_last(before, self@.vars[k as int].0, copy@);
            }
            out.insert(self.variables.key_at(k).clone(), copy);
            assert(self@.vars.take(k + 1) =~= self@.vars.take(k as int).push(self@.vars[k as int]));
            k += 1;
        }
        assert(self@.vars.take(k as int) =~= self@.vars);
        PromptTemplate { text_template: self.text_template.clone(), variables: out }
    }
}

impl From<String> for PromptTemplate {
    /// Reads a template from its source string.
    fn from(s: String) -> (r: Self)
        ensures
            r@ == parse_spec(s@),
    {
        PromptTemplate::parse_from_string(s.as_str())
    }
}

impl vstd::std_specs::convert::FromSpecImpl<String> for PromptTemplate {
    open spec fn obeys_from_spec() -> bool {
        false
    }

    open spec fn from_spec(s: String) -> Self {
        arbitrary()
    }
}

} // verus!

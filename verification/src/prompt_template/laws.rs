//! What holds of reading and filling templates, whatever the template.
//!
//! A well-formed source is a run of pieces: plain characters, escaped
//! characters and variable declarations. Reading such a source and filling
//! the template gives the pieces back in their order, each variable replaced
//! by its text.

use crate::prompt_template::{
    all_resolved, assembled, assembled_var, defaults_of, fill_at, format_spec, lemma_index_at,
    offsets_of, on_boundary, parse_spec, render, resolved, scan, scan_from, start, step,
    valid_point, well_formed, Mode, Scan, TemplateView, VarView,
};
use crate::str_map::{
    keys_of, lemma_lookup_found, lemma_sorted_lookup, lemma_sorted_unique, lemma_upsert_keys,
    lemma_upsert_lookup, lookup,
};
use crate::str_map::{lemma_rank, lemma_upsert_at, lemma_upsert_sorted, rank, sorted, upsert};
use crate::text::{
    byte_len, key_lt, lemma_key_lt_asymmetric, lemma_key_lt_irreflexive, lemma_key_lt_transitive,
};
use vstd::prelude::*;

verus! {

/// One piece of a well-formed source.
pub enum Piece {
    /// A character that stands for itself.
    Plain(char),
    /// A character behind a backslash.
    Escaped(char),
    /// A variable with its name and, between quotes, its default if it has one.
    Var(Seq<char>, Option<Seq<char>>),
}

/// The piece declares a variable.
pub open spec fn is_var(p: Piece) -> bool {
    p is Var
}

/// The name that the piece declares; empty for a character.
pub open spec fn name_of(p: Piece) -> Seq<char> {
    match p {
        Piece::Var(name, _) => name,
        _ => Seq::empty(),
    }
}

/// The default that the piece declares; empty where it declares none.
pub open spec fn default_of(p: Piece) -> Seq<char> {
    match p {
        Piece::Var(_, Some(d)) => d,
        _ => Seq::empty(),
    }
}

/// A character that can stand in a name.
pub open spec fn name_char(c: char) -> bool {
    c != '\\' && c != ':' && c != '}'
}

/// A character that can stand in a default.
pub open spec fn default_char(c: char) -> bool {
    c != '\\' && c != '"'
}

/// The piece can be written down: a plain character is neither a backslash
/// nor an opening brace, a name is not empty and holds no backslash, colon or
/// closing brace, a default holds no backslash and no quote.
pub open spec fn piece_ok(p: Piece) -> bool {
    match p {
        Piece::Plain(c) => c != '\\' && c != '{',
        Piece::Escaped(_) => true,
        Piece::Var(name, default) => {
            &&& name.len() > 0
            &&& forall|i: int| 0 <= i < name.len() ==> name_char(#[trigger] name[i])
            &&& match default {
                Some(d) => forall|i: int| 0 <= i < d.len() ==> default_char(#[trigger] d[i]),
                None => true,
            }
        },
    }
}

/// How a piece is written in the source.
pub open spec fn source_of(p: Piece) -> Seq<char> {
    match p {
        Piece::Plain(c) => seq![c],
        Piece::Escaped(c) => seq!['\\', c],
        Piece::Var(name, None) => seq!['{'] + name + seq!['}'],
        Piece::Var(name, Some(d)) => seq!['{'] + name + seq![':', '"'] + d + seq!['"', '}'],
    }
}

/// The source that a run of pieces makes.
pub open spec fn source(ps: Seq<Piece>) -> Seq<char>
    decreases ps.len(),
{
    if ps.len() == 0 {
        Seq::empty()
    } else {
        source(ps.drop_last()) + source_of(ps.last())
    }
}

/// No two variables have the same name.
pub open spec fn names_distinct(ps: Seq<Piece>) -> bool {
    forall|i: int, j: int|
        0 <= i < j < ps.len() && is_var(#[trigger] ps[i]) && is_var(#[trigger] ps[j]) ==> name_of(
            ps[i],
        ) != name_of(ps[j])
}

/// All the pieces from `i` up to, and without, `j` are variables.
pub open spec fn all_vars(ps: Seq<Piece>, i: int, j: int) -> bool {
    forall|k: int| i <= k < j ==> is_var(#[trigger] ps[k])
}

/// The pieces at `i` and at `j` are variables with nothing but variables
/// between them.
pub open spec fn side_by_side(ps: Seq<Piece>, i: int, j: int) -> bool {
    0 <= i < j < ps.len() && all_vars(ps, i, j + 1)
}

/// Variables that stand side by side, with no character between them, are
/// declared in the order of their names.
pub open spec fn neighbours_ascend(ps: Seq<Piece>) -> bool {
    forall|i: int, j: int| #[trigger]
        side_by_side(ps, i, j) ==> key_lt(name_of(ps[i]), name_of(ps[j]))
}

/// Every variable has a text to go in.
pub open spec fn supplied(ps: Seq<Piece>, values: Seq<(Seq<char>, Seq<char>)>) -> bool {
    forall|j: int|
        0 <= j < ps.len() && is_var(#[trigger] ps[j]) ==> resolved(
            name_of(ps[j]),
            default_of(ps[j]),
            values,
        ) is Some
}

/// What a piece becomes when the template is filled.
pub open spec fn filled_piece(p: Piece, values: Seq<(Seq<char>, Seq<char>)>) -> Seq<char> {
    match p {
        Piece::Plain(c) => seq![c],
        Piece::Escaped(c) => seq![c],
        Piece::Var(name, _) => match resolved(name, default_of(p), values) {
            Some(x) => x,
            None => Seq::empty(),
        },
    }
}

/// The pieces in their order, each variable replaced by its text.
pub open spec fn filled(ps: Seq<Piece>, values: Seq<(Seq<char>, Seq<char>)>) -> Seq<char>
    decreases ps.len(),
{
    if ps.len() == 0 {
        Seq::empty()
    } else {
        filled(ps.drop_last(), values) + filled_piece(ps.last(), values)
    }
}

/// The reader is between pieces.
pub open spec fn idle(s: Scan) -> bool {
    s.mode == Mode::Literal && !s.escaped && s.name.len() == 0 && s.default.len() == 0
}

/// What a piece does to the reader's state.
pub open spec fn apply(s: Scan, p: Piece) -> Scan {
    match p {
        Piece::Plain(c) => Scan { text: s.text.push(c), ..s },
        Piece::Escaped(c) => Scan { text: s.text.push(c), ..s },
        Piece::Var(name, _) => Scan {
            vars: upsert(
                s.vars,
                name,
                VarView { default: default_of(p), offset: byte_len(s.text), index: s.text.len() },
            ),
            ..s
        },
    }
}

/// The reader's state after a run of pieces.
pub open spec fn built(ps: Seq<Piece>) -> Scan
    decreases ps.len(),
{
    if ps.len() == 0 {
        start()
    } else {
        apply(built(ps.drop_last()), ps.last())
    }
}

/// Reading two texts one after the other is reading them as one.
pub proof fn lemma_scan_concat(s: Scan, a: Seq<char>, b: Seq<char>)
    ensures
        scan_from(s, a + b) == scan_from(scan_from(s, a), b),
    decreases b.len(),
{
    if b.len() == 0 {
        assert(a + b =~= a);
    } else {
        assert((a + b).drop_last() =~= a + b.drop_last());
        lemma_scan_concat(s, a, b.drop_last());
    }
}

proof fn lemma_scan_one(s: Scan, c: char)
    ensures
        scan_from(s, seq![c]) == step(s, c),
{
    assert(seq![c].drop_last() =~= Seq::<char>::empty());
    assert(scan_from(s, Seq::<char>::empty()) == s);
}

proof fn lemma_scan_two(s: Scan, c: char, d: char)
    ensures
        scan_from(s, seq![c, d]) == step(step(s, c), d),
{
    assert(seq![c, d].drop_last() =~= seq![c]);
    lemma_scan_one(s, c);
}

/// Inside braces the characters of a name gather in the name.
proof fn lemma_scan_name(s: Scan, chars: Seq<char>)
    requires
        s.mode == Mode::Name,
        !s.escaped,
        forall|i: int| 0 <= i < chars.len() ==> name_char(#[trigger] chars[i]),
    ensures
        scan_from(s, chars) == (Scan { name: s.name + chars, ..s }),
    decreases chars.len(),
{
    if chars.len() == 0 {
        assert(s.name + chars =~= s.name);
    } else {
        let init = chars.drop_last();
        assert forall|i: int| 0 <= i < init.len() implies name_char(#[trigger] init[i]) by {
            assert(init[i] == chars[i]);
        }
        lemma_scan_name(s, init);
        assert(name_char(chars[chars.len() - 1]));
        assert((s.name + init).push(chars.last()) =~= s.name + chars);
    }
}

/// Between quotes the characters of a default gather in the default.
proof fn lemma_scan_default(s: Scan, chars: Seq<char>)
    requires
        s.mode == Mode::DefaultValue,
        !s.escaped,
        forall|i: int| 0 <= i < chars.len() ==> default_char(#[trigger] chars[i]),
    ensures
        scan_from(s, chars) == (Scan { default: s.default + chars, ..s }),
    decreases chars.len(),
{
    if chars.len() == 0 {
        assert(s.default + chars =~= s.default);
    } else {
        let init = chars.drop_last();
        assert forall|i: int| 0 <= i < init.len() implies default_char(#[trigger] init[i]) by {
            assert(init[i] == chars[i]);
        }
        lemma_scan_default(s, init);
        assert(default_char(chars[chars.len() - 1]));
        assert((s.default + init).push(chars.last()) =~= s.default + chars);
    }
}

proof fn lemma_scan_bare(s: Scan, name: Seq<char>)
    requires
        idle(s),
        piece_ok(Piece::Var(name, None)),
    ensures
        scan_from(s, source_of(Piece::Var(name, None))) == apply(s, Piece::Var(name, None)),
{
    let s1 = Scan { mode: Mode::Name, ..s };
    let s2 = Scan { name: name, ..s1 };
    lemma_scan_one(s, '{');
    assert(scan_from(s, seq!['{']) == s1);
    lemma_scan_name(s1, name);
    assert(s1.name + name =~= name);
    lemma_scan_concat(s, seq!['{'], name);
    assert(scan_from(s, seq!['{'] + name) == s2);
    lemma_scan_one(s2, '}');
    lemma_scan_concat(s, seq!['{'] + name, seq!['}']);
    assert(step(s2, '}') == apply(s, Piece::Var(name, None))) by {
        assert(s.name =~= Seq::<char>::empty());
        assert(s.default =~= Seq::<char>::empty());
    }
}

proof fn lemma_scan_quoted(s: Scan, name: Seq<char>, d: Seq<char>)
    requires
        idle(s),
        piece_ok(Piece::Var(name, Some(d))),
    ensures
        scan_from(s, source_of(Piece::Var(name, Some(d)))) == apply(s, Piece::Var(name, Some(d))),
{
    let p = Piece::Var(name, Some(d));
    let s1 = Scan { mode: Mode::Name, ..s };
    let s2 = Scan { name: name, ..s1 };
    let s3 = Scan { mode: Mode::DefaultValue, ..s2 };
    let s4 = Scan { default: d, ..s3 };
    lemma_scan_one(s, '{');
    assert(scan_from(s, seq!['{']) == s1);
    lemma_scan_name(s1, name);
    assert(s1.name + name =~= name);
    lemma_scan_concat(s, seq!['{'], name);
    assert(scan_from(s, seq!['{'] + name) == s2);
    lemma_scan_two(s2, ':', '"');
    assert(step(s2, ':') == (Scan { mode: Mode::DefaultOpen, ..s2 }));
    assert(step(step(s2, ':'), '"') == s3);
    lemma_scan_concat(s, seq!['{'] + name, seq![':', '"']);
    assert(scan_from(s, seq!['{'] + name + seq![':', '"']) == s3);
    lemma_scan_default(s3, d);
    assert(s3.default + d =~= d);
    lemma_scan_concat(s, seq!['{'] + name + seq![':', '"'], d);
    assert(scan_from(s, seq!['{'] + name + seq![':', '"'] + d) == s4);
    lemma_scan_two(s4, '"', '}');
    let s5 = step(s4, '"');
    assert(s5 == (Scan {
        vars: apply(s, p).vars,
        name: Seq::<char>::empty(),
        default: Seq::<char>::empty(),
        mode: Mode::Name,
        ..s4
    }));
    assert(step(s5, '}') == apply(s, p)) by {
        assert(s.name =~= Seq::<char>::empty());
        assert(s.default =~= Seq::<char>::empty());
    }
    lemma_scan_concat(s, seq!['{'] + name + seq![':', '"'] + d, seq!['"', '}']);
}

/// Reading the source of a piece does to the reader what the piece says.
pub proof fn lemma_scan_piece(s: Scan, p: Piece)
    requires
        idle(s),
        piece_ok(p),
    ensures
        scan_from(s, source_of(p)) == apply(s, p),
        idle(apply(s, p)),
{
    match p {
        Piece::Plain(c) => {
            lemma_scan_one(s, c);
        },
        Piece::Escaped(c) => {
            lemma_scan_two(s, '\\', c);
        },
        Piece::Var(name, None) => {
            lemma_scan_bare(s, name);
        },
        Piece::Var(name, Some(d)) => {
            lemma_scan_quoted(s, name, d);
        },
    }
}

/// Reading the source of a run of pieces does to the reader what the pieces
/// say, one after the other.
pub proof fn lemma_scan_source(ps: Seq<Piece>)
    requires
        forall|i: int| 0 <= i < ps.len() ==> piece_ok(#[trigger] ps[i]),
    ensures
        scan(source(ps)) == built(ps),
        idle(built(ps)),
    decreases ps.len(),
{
    if ps.len() > 0 {
        let init = ps.drop_last();
        assert forall|i: int| 0 <= i < init.len() implies piece_ok(#[trigger] init[i]) by {
            assert(init[i] == ps[i]);
        }
        lemma_scan_source(init);
        lemma_scan_concat(start(), source(init), source_of(ps.last()));
        lemma_scan_piece(built(init), ps.last());
    }
}

/// The texts of all the variables that go in before character `at`.
pub open spec fn fill_all(
    vars: Seq<(Seq<char>, VarView)>,
    values: Seq<(Seq<char>, Seq<char>)>,
    at: nat,
) -> Seq<char> {
    fill_at(vars, values, at, vars.len())
}

/// What the reader's state gives when it is filled.
pub open spec fn full(s: Scan, values: Seq<(Seq<char>, Seq<char>)>) -> Seq<char> {
    render(TemplateView { text: s.text, vars: s.vars }, values, s.text.len()) + fill_all(
        s.vars,
        values,
        s.text.len(),
    )
}

proof fn lemma_fill_prefix(
    v1: Seq<(Seq<char>, VarView)>,
    v2: Seq<(Seq<char>, VarView)>,
    values: Seq<(Seq<char>, Seq<char>)>,
    at: nat,
    upto: nat,
)
    requires
        upto <= v1.len(),
        upto <= v2.len(),
        forall|i: int| 0 <= i < upto ==> v1[i] == v2[i],
    ensures
        fill_at(v1, values, at, upto) == fill_at(v2, values, at, upto),
    decreases upto,
{
    if upto > 0 {
        lemma_fill_prefix(v1, v2, values, at, (upto - 1) as nat);
    }
}

proof fn lemma_fill_concat(
    a: Seq<(Seq<char>, VarView)>,
    b: Seq<(Seq<char>, VarView)>,
    values: Seq<(Seq<char>, Seq<char>)>,
    at: nat,
)
    ensures
        fill_all(a + b, values, at) == fill_all(a, values, at) + fill_all(b, values, at),
    decreases b.len(),
{
    if b.len() == 0 {
        assert(a + b =~= a);
        assert(fill_all(a, values, at) + fill_all(b, values, at) =~= fill_all(a, values, at));
    } else {
        let b1 = b.drop_last();
        lemma_fill_concat(a, b1, values, at);
        lemma_fill_prefix(a + b, a + b1, values, at, (a.len() + b1.len()) as nat);
        lemma_fill_prefix(b, b1, values, at, b1.len());
        assert((a + b)[(a + b).len() - 1] == b.last());
        let piece = if b.last().1.index == at {
            match resolved(b.last().0, b.last().1.default, values) {
                Some(x) => x,
                None => Seq::<char>::empty(),
            }
        } else {
            Seq::<char>::empty()
        };
        assert(fill_all(a + b, values, at) == fill_all(a + b1, values, at) + piece);
        assert(fill_all(b, values, at) == fill_all(b1, values, at) + piece);
        assert(fill_all(a, values, at) + fill_all(b1, values, at) + piece =~= fill_all(
            a,
            values,
            at,
        ) + (fill_all(b1, values, at) + piece));
    }
}

proof fn lemma_fill_none(
    v: Seq<(Seq<char>, VarView)>,
    values: Seq<(Seq<char>, Seq<char>)>,
    at: nat,
    upto: nat,
)
    requires
        upto <= v.len(),
        forall|i: int| 0 <= i < upto ==> (#[trigger] v[i]).1.index != at,
    ensures
        fill_at(v, values, at, upto) == Seq::<char>::empty(),
    decreases upto,
{
    if upto > 0 {
        lemma_fill_none(v, values, at, (upto - 1) as nat);
        assert(v[upto - 1].1.index != at);
        assert(Seq::<char>::empty() + Seq::<char>::empty() =~= Seq::<char>::empty());
    }
}

proof fn lemma_render_same(
    t1: TemplateView,
    t2: TemplateView,
    values: Seq<(Seq<char>, Seq<char>)>,
    upto: nat,
)
    requires
        upto <= t1.text.len(),
        upto <= t2.text.len(),
        forall|i: int| 0 <= i < upto ==> t1.text[i] == t2.text[i],
        forall|at: nat|
            at < upto ==> #[trigger] fill_all(t1.vars, values, at) == fill_all(
                t2.vars,
                values,
                at,
            ),
    ensures
        render(t1, values, upto) == render(t2, values, upto),
    decreases upto,
{
    if upto > 0 {
        lemma_render_same(t1, t2, values, (upto - 1) as nat);
        assert(fill_all(t1.vars, values, (upto - 1) as nat) == fill_all(
            t2.vars,
            values,
            (upto - 1) as nat,
        ));
    }
}

/// Binding `v` of the reader's state comes from a variable among the pieces;
/// if it goes in at the end of the text, only variables follow that piece.
pub open spec fn traced(ps: Seq<Piece>, s: Scan, i: int) -> bool {
    exists|j: int|
        0 <= j < ps.len() && is_var(#[trigger] ps[j]) && name_of(ps[j]) == s.vars[i].0
            && default_of(ps[j]) == s.vars[i].1.default && (s.vars[i].1.index == s.text.len()
            ==> all_vars(ps, j, ps.len() as int))
}

/// The variable at piece `j` has its binding in the reader's state.
pub open spec fn declared(ps: Seq<Piece>, s: Scan, j: int) -> bool {
    exists|i: int|
        0 <= i < s.vars.len() && (#[trigger] s.vars[i]).0 == name_of(ps[j]) && s.vars[i].1.default
            == default_of(ps[j])
}

/// The reader's state and the pieces it has read fit together.
pub open spec fn coherent(ps: Seq<Piece>, s: Scan) -> bool {
    &&& sorted(s.vars)
    &&& forall|i: int|
        0 <= i < s.vars.len() ==> (#[trigger] s.vars[i]).1.index <= s.text.len() && traced(
            ps,
            s,
            i,
        )
    &&& forall|j: int| 0 <= j < ps.len() && is_var(#[trigger] ps[j]) ==> declared(ps, s, j)
}

proof fn lemma_restrict(ps: Seq<Piece>)
    requires
        ps.len() > 0,
        names_distinct(ps),
        neighbours_ascend(ps),
    ensures
        names_distinct(ps.drop_last()),
        neighbours_ascend(ps.drop_last()),
{
    let init = ps.drop_last();
    assert forall|i: int, j: int|
        0 <= i < j < init.len() && is_var(#[trigger] init[i]) && is_var(
            #[trigger] init[j],
        ) implies name_of(init[i]) != name_of(init[j]) by {
        assert(init[i] == ps[i]);
        assert(init[j] == ps[j]);
    }
    assert forall|i: int, j: int| #[trigger] side_by_side(init, i, j) implies key_lt(
        name_of(init[i]),
        name_of(init[j]),
    ) by {
        assert forall|k: int| i <= k < j + 1 implies is_var(#[trigger] ps[k]) by {
            assert(init[k] == ps[k]);
        }
        assert(side_by_side(ps, i, j));
        assert(init[i] == ps[i]);
        assert(init[j] == ps[j]);
    }
}

/// With state and pieces together, every binding has a text exactly if every
/// variable among the pieces has one.
proof fn lemma_resolved(ps: Seq<Piece>, s: Scan, values: Seq<(Seq<char>, Seq<char>)>)
    requires
        coherent(ps, s),
    ensures
        all_resolved(s.vars, values) == supplied(ps, values),
{
    if all_resolved(s.vars, values) {
        assert forall|j: int| 0 <= j < ps.len() && is_var(#[trigger] ps[j]) implies resolved(
            name_of(ps[j]),
            default_of(ps[j]),
            values,
        ) is Some by {
            assert(declared(ps, s, j));
            let i = choose|i: int|
                0 <= i < s.vars.len() && (#[trigger] s.vars[i]).0 == name_of(ps[j])
                    && s.vars[i].1.default == default_of(ps[j]);
            assert(resolved(s.vars[i].0, s.vars[i].1.default, values) is Some);
        }
    }
    if supplied(ps, values) {
        assert forall|i: int| 0 <= i < s.vars.len() implies resolved(
            (#[trigger] s.vars[i]).0,
            s.vars[i].1.default,
            values,
        ) is Some by {
            assert(traced(ps, s, i));
            let j = choose|j: int|
                0 <= j < ps.len() && is_var(#[trigger] ps[j]) && name_of(ps[j]) == s.vars[i].0
                    && default_of(ps[j]) == s.vars[i].1.default && (s.vars[i].1.index
                    == s.text.len() ==> all_vars(ps, j, ps.len() as int));
            assert(resolved(name_of(ps[j]), default_of(ps[j]), values) is Some);
        }
    }
}

/// A binding that is traced among the pieces stays traced when a character
/// follows, and no longer goes in at the end of the text.
proof fn lemma_traced_char(ps: Seq<Piece>, s: Scan, r: Scan, i: int)
    requires
        ps.len() > 0,
        0 <= i < s.vars.len(),
        s.vars[i].1.index <= s.text.len(),
        traced(ps.drop_last(), s, i),
        r.vars == s.vars,
        r.text.len() == s.text.len() + 1,
    ensures
        traced(ps, r, i),
{
    let init = ps.drop_last();
    let j = choose|j: int|
        0 <= j < init.len() && is_var(#[trigger] init[j]) && name_of(init[j]) == s.vars[i].0
            && default_of(init[j]) == s.vars[i].1.default && (s.vars[i].1.index == s.text.len()
            ==> all_vars(init, j, init.len() as int));
    assert(ps[j] == init[j]);
}

/// A character after the pieces keeps state and pieces together.
proof fn lemma_coherent_char(ps: Seq<Piece>, s: Scan, r: Scan)
    requires
        ps.len() > 0,
        !is_var(ps.last()),
        coherent(ps.drop_last(), s),
        r.vars == s.vars,
        r.text.len() == s.text.len() + 1,
    ensures
        coherent(ps, r),
{
    let init = ps.drop_last();
    assert forall|i: int| 0 <= i < r.vars.len() implies (#[trigger] r.vars[i]).1.index
        <= r.text.len() && traced(ps, r, i) by {
        assert(s.vars[i].1.index <= s.text.len() && traced(init, s, i));
        lemma_traced_char(ps, s, r, i);
    }
    assert forall|j: int| 0 <= j < ps.len() && is_var(#[trigger] ps[j]) implies declared(
        ps,
        r,
        j,
    ) by {
        assert(init[j] == ps[j]);
        assert(declared(init, s, j));
    }
}

/// A character after the text comes last in the filled text.
proof fn lemma_full_char(s: Scan, c: char, values: Seq<(Seq<char>, Seq<char>)>)
    requires
        forall|i: int| 0 <= i < s.vars.len() ==> (#[trigger] s.vars[i]).1.index <= s.text.len(),
    ensures
        full(Scan { text: s.text.push(c), ..s }, values) == full(s, values) + seq![c],
{
    let r = Scan { text: s.text.push(c), ..s };
    let n = s.text.len();
    let t = TemplateView { text: s.text, vars: s.vars };
    let u = TemplateView { text: r.text, vars: r.vars };
    lemma_render_same(t, u, values, n);
    assert forall|i: int| 0 <= i < r.vars.len() implies (#[trigger] r.vars[i]).1.index != n
        + 1 by {
        assert(s.vars[i].1.index <= n);
    }
    lemma_fill_none(r.vars, values, n + 1, r.vars.len());
    assert(render(u, values, n + 1) == render(u, values, n) + fill_all(r.vars, values, n) + seq![c]);
    assert(full(r, values) =~= full(s, values) + seq![c]);
}

/// No binding has the name of a variable that is declared after it, and the
/// bindings that go in at the end of the text have lesser names.
proof fn lemma_old_bindings(ps: Seq<Piece>, s: Scan, i: int)
    requires
        ps.len() > 0,
        is_var(ps.last()),
        names_distinct(ps),
        neighbours_ascend(ps),
        0 <= i < s.vars.len(),
        traced(ps.drop_last(), s, i),
    ensures
        s.vars[i].0 != name_of(ps.last()),
        s.vars[i].1.index == s.text.len() ==> key_lt(s.vars[i].0, name_of(ps.last())),
        traced(ps, s, i),
{
    let init = ps.drop_last();
    let last = ps.len() - 1;
    let j = choose|j: int|
        0 <= j < init.len() && is_var(#[trigger] init[j]) && name_of(init[j]) == s.vars[i].0
            && default_of(init[j]) == s.vars[i].1.default && (s.vars[i].1.index == s.text.len()
            ==> all_vars(init, j, init.len() as int));
    assert(ps[j] == init[j]);
    assert(is_var(ps[j]) && is_var(ps[last]));
    if s.vars[i].1.index == s.text.len() {
        assert forall|k: int| j <= k < last + 1 implies is_var(#[trigger] ps[k]) by {
            if k < last {
                assert(init[k] == ps[k]);
            }
        }
        assert(side_by_side(ps, j, last));
    }
}

/// Where a new name goes among sorted bindings.
proof fn lemma_insert_shape(m: Seq<(Seq<char>, VarView)>, name: Seq<char>, v: VarView)
    requires
        sorted(m),
        forall|i: int| 0 <= i < m.len() ==> (#[trigger] m[i]).0 != name,
    ensures
        rank(m, name) <= m.len(),
        upsert(m, name, v) == m.take(rank(m, name) as int) + seq![(name, v)] + m.skip(
            rank(m, name) as int,
        ),
        sorted(upsert(m, name, v)),
        forall|i: int| rank(m, name) <= i < m.len() ==> !key_lt((#[trigger] m[i]).0, name),
{
    let at = rank(m, name) as int;
    lemma_rank(m, name);
    lemma_upsert_at(m, name, v, at);
    lemma_upsert_sorted(m, name, v);
    if at < m.len() {
        assert(m[at].0 != name);
    }
    assert forall|i: int| at <= i < m.len() implies !key_lt((#[trigger] m[i]).0, name) by {
        if i > at && key_lt(m[i].0, name) {
            assert(key_lt(m[at].0, m[i].0));
            lemma_key_lt_transitive(m[at].0, m[i].0, name);
        }
    }
}

/// A variable after the pieces keeps state and pieces together.
proof fn lemma_coherent_var(ps: Seq<Piece>, s: Scan, r: Scan, at: int, v: VarView)
    requires
        ps.len() > 0,
        is_var(ps.last()),
        names_distinct(ps),
        neighbours_ascend(ps),
        coherent(ps.drop_last(), s),
        r.text == s.text,
        0 <= at <= s.vars.len(),
        v.default == default_of(ps.last()),
        v.index == s.text.len(),
        r.vars == s.vars.take(at) + seq![(name_of(ps.last()), v)] + s.vars.skip(at),
        sorted(r.vars),
    ensures
        coherent(ps, r),
{
    let init = ps.drop_last();
    let last = ps.len() - 1;
    let m = s.vars;
    let name = name_of(ps.last());
    assert forall|i: int| 0 <= i < r.vars.len() implies (#[trigger] r.vars[i]).1.index
        <= r.text.len() && traced(ps, r, i) by {
        if i == at {
            assert(r.vars[i] == (name, v));
            assert(is_var(ps[last]));
            assert(all_vars(ps, last, ps.len() as int));
        } else {
            let i0 = if i < at {
                i
            } else {
                i - 1
            };
            assert(r.vars[i] == m[i0]);
            assert(s.vars[i0].1.index <= s.text.len() && traced(init, s, i0));
            lemma_old_bindings(ps, s, i0);
            let j = choose|j: int|
                0 <= j < ps.len() && is_var(#[trigger] ps[j]) && name_of(ps[j]) == s.vars[i0].0
                    && default_of(ps[j]) == s.vars[i0].1.default && (s.vars[i0].1.index
                    == s.text.len() ==> all_vars(ps, j, ps.len() as int));
            assert(is_var(ps[j]) && name_of(ps[j]) == r.vars[i].0);
        }
    }
    assert forall|j: int| 0 <= j < ps.len() && is_var(#[trigger] ps[j]) implies declared(
        ps,
        r,
        j,
    ) by {
        if j == last {
            assert(r.vars[at] == (name, v));
        } else {
            assert(init[j] == ps[j]);
            assert(declared(init, s, j));
            let i0 = choose|i: int|
                0 <= i < s.vars.len() && (#[trigger] s.vars[i]).0 == name_of(init[j])
                    && s.vars[i].1.default == default_of(init[j]);
            let i = if i0 < at {
                i0
            } else {
                i0 + 1
            };
            assert(r.vars[i] == m[i0]);
        }
    }
}

/// A new binding that goes in at the end of the text, behind all others that
/// go in there, comes last in the filled text.
proof fn lemma_full_var(
    s: Scan,
    name: Seq<char>,
    v: VarView,
    at: int,
    values: Seq<(Seq<char>, Seq<char>)>,
)
    requires
        0 <= at <= s.vars.len(),
        v.index == s.text.len(),
        forall|i: int| at <= i < s.vars.len() ==> (#[trigger] s.vars[i]).1.index != s.text.len(),
    ensures
        full(
            Scan { vars: s.vars.take(at) + seq![(name, v)] + s.vars.skip(at), ..s },
            values,
        ) == full(s, values) + match resolved(name, v.default, values) {
            Some(x) => x,
            None => Seq::<char>::empty(),
        },
{
    let m = s.vars;
    let n = s.text.len();
    let head = m.take(at);
    let tail = m.skip(at);
    let one = seq![(name, v)];
    let r = Scan { vars: head + one + tail, ..s };
    let piece = match resolved(name, v.default, values) {
        Some(x) => x,
        None => Seq::<char>::empty(),
    };
    let t = TemplateView { text: s.text, vars: m };
    let u = TemplateView { text: r.text, vars: r.vars };
    assert(m =~= head + tail);
    assert forall|k: nat| k < n implies #[trigger] fill_all(m, values, k) == fill_all(
        r.vars,
        values,
        k,
    ) by {
        lemma_fill_concat(head, tail, values, k);
        lemma_fill_concat(head + one, tail, values, k);
        lemma_fill_concat(head, one, values, k);
        lemma_fill_none(one, values, k, 1);
        assert(fill_all(head, values, k) + Seq::<char>::empty() =~= fill_all(head, values, k));
    }
    lemma_render_same(t, u, values, n);
    lemma_fill_concat(head, tail, values, n);
    lemma_fill_concat(head + one, tail, values, n);
    lemma_fill_concat(head, one, values, n);
    assert forall|i: int| 0 <= i < tail.len() implies (#[trigger] tail[i]).1.index != n by {
        assert(tail[i] == m[at + i]);
    }
    lemma_fill_none(tail, values, n, tail.len());
    assert(fill_all(one, values, n) == piece) by {
        assert(fill_at(one, values, n, 0) =~= Seq::<char>::empty());
        assert(Seq::<char>::empty() + piece =~= piece);
    }
    assert(fill_all(r.vars, values, n) =~= fill_all(m, values, n) + piece);
    assert(full(r, values) =~= full(s, values) + piece);
}

/// One more piece keeps state and pieces together, and its text comes last.
proof fn lemma_built_step(ps: Seq<Piece>, values: Seq<(Seq<char>, Seq<char>)>)
    requires
        ps.len() > 0,
        names_distinct(ps),
        neighbours_ascend(ps),
        coherent(ps.drop_last(), built(ps.drop_last())),
        full(built(ps.drop_last()), values) == filled(ps.drop_last(), values),
    ensures
        coherent(ps, built(ps)),
        full(built(ps), values) == filled(ps, values),
{
    let init = ps.drop_last();
    let s = built(init);
    let r = built(ps);
    match ps.last() {
        Piece::Plain(c) => {
            lemma_coherent_char(ps, s, r);
            lemma_full_char(s, c, values);
        },
        Piece::Escaped(c) => {
            lemma_coherent_char(ps, s, r);
            lemma_full_char(s, c, values);
        },
        Piece::Var(name, _) => {
            let v = VarView {
                default: default_of(ps.last()),
                offset: byte_len(s.text),
                index: s.text.len(),
            };
            let at = rank(s.vars, name) as int;
            assert forall|i: int| 0 <= i < s.vars.len() implies (#[trigger] s.vars[i]).0
                != name by {
                assert(traced(init, s, i));
                lemma_old_bindings(ps, s, i);
            }
            lemma_insert_shape(s.vars, name, v);
            assert forall|i: int| at <= i < s.vars.len() implies (#[trigger] s.vars[i]).1.index
                != s.text.len() by {
                assert(traced(init, s, i));
                lemma_old_bindings(ps, s, i);
            }
            lemma_coherent_var(ps, s, r, at, v);
            lemma_full_var(s, name, v, at, values);
        },
    }
}

/// State and pieces fit together after any run of pieces, and filling the
/// state gives the pieces back.
pub proof fn lemma_built(ps: Seq<Piece>, values: Seq<(Seq<char>, Seq<char>)>)
    requires
        names_distinct(ps),
        neighbours_ascend(ps),
    ensures
        coherent(ps, built(ps)),
        full(built(ps), values) == filled(ps, values),
    decreases ps.len(),
{
    if ps.len() == 0 {
        assert(full(built(ps), values) =~= filled(ps, values));
    } else {
        lemma_restrict(ps);
        lemma_built(ps.drop_last(), values);
        lemma_built_step(ps, values);
    }
}

/// Reading the source of well-formed pieces and filling the template gives
/// the pieces back in their order, each variable replaced by the value
/// supplied for it or else by its default; and fails if and only if a variable
/// without default is not supplied.
///
/// The pieces are well formed, no name is declared twice, and variables with
/// no character between them are declared in the order of their names: in the
/// filled text such variables stand in that order.
pub proof fn lemma_round_trip(ps: Seq<Piece>, values: Seq<(Seq<char>, Seq<char>)>)
    requires
        forall|i: int| 0 <= i < ps.len() ==> piece_ok(#[trigger] ps[i]),
        names_distinct(ps),
        neighbours_ascend(ps),
    ensures
        format_spec(parse_spec(source(ps)), values) == if supplied(ps, values) {
            Some(filled(ps, values))
        } else {
            None
        },
{
    lemma_scan_source(ps);
    lemma_built(ps, values);
    lemma_resolved(ps, built(ps), values);
}

/// A variable without default that is not supplied makes filling fail: no
/// text is put in its place.
pub proof fn lemma_required_enforced(
    t: TemplateView,
    values: Seq<(Seq<char>, Seq<char>)>,
    i: int,
)
    requires
        0 <= i < t.vars.len(),
        t.vars[i].1.default.len() == 0,
        lookup(values, t.vars[i].0) is None,
    ensures
        format_spec(t, values) is None,
{
    assert(resolved(t.vars[i].0, t.vars[i].1.default, values) is None);
}

/// Where every variable is supplied or has a default, filling succeeds.
pub proof fn lemma_format_succeeds(t: TemplateView, values: Seq<(Seq<char>, Seq<char>)>)
    requires
        forall|i: int|
            0 <= i < t.vars.len() ==> (#[trigger] t.vars[i]).1.default.len() > 0 || lookup(
                values,
                t.vars[i].0,
            ) is Some,
    ensures
        format_spec(t, values) is Some,
{
}

/// The source `{name:"x"}`, with a default that is not empty, fills to the
/// value supplied under the name, and to `x` where none is supplied.
pub proof fn lemma_default_application(
    name: Seq<char>,
    x: Seq<char>,
    values: Seq<(Seq<char>, Seq<char>)>,
)
    requires
        piece_ok(Piece::Var(name, Some(x))),
        x.len() > 0,
    ensures
        format_spec(parse_spec(seq!['{'] + name + seq![':', '"'] + x + seq!['"', '}']), values)
            == Some(
            match lookup(values, name) {
                Some(v) => v,
                None => x,
            },
        ),
{
    let p = Piece::Var(name, Some(x));
    let ps = seq![p];
    assert(ps.len() == 1 && ps.last() == p);
    assert(ps.drop_last() =~= Seq::<Piece>::empty());
    assert(source(ps.drop_last()) =~= Seq::<char>::empty());
    assert(filled(ps.drop_last(), values) =~= Seq::<char>::empty());
    assert(source(ps) =~= seq!['{'] + name + seq![':', '"'] + x + seq!['"', '}']);
    assert(filled(ps, values) =~= filled_piece(p, values));
    assert forall|i: int, j: int| #[trigger] side_by_side(ps, i, j) implies key_lt(
        name_of(ps[i]),
        name_of(ps[j]),
    ) by {}
    lemma_round_trip(ps, values);
}

/// Every character behind a backslash.
pub open spec fn escaped(text: Seq<char>) -> Seq<char>
    decreases text.len(),
{
    if text.len() == 0 {
        Seq::empty()
    } else {
        escaped(text.drop_last()) + seq!['\\', text.last()]
    }
}

/// Reading a text whose every character stands behind a backslash only
/// gathers the text.
proof fn lemma_scan_escaped(text: Seq<char>)
    ensures
        scan(escaped(text)) == (Scan { text: text, ..start() }),
    decreases text.len(),
{
    if text.len() == 0 {
        assert(text =~= Seq::<char>::empty());
    } else {
        let init = text.drop_last();
        lemma_scan_escaped(init);
        let s = Scan { text: init, ..start() };
        lemma_scan_concat(start(), escaped(init), seq!['\\', text.last()]);
        lemma_scan_two(s, '\\', text.last());
        assert(init.push(text.last()) =~= text);
    }
}

/// A text whose every character stands behind a backslash is read as that
/// text, with no variable declared, and fills to that text.
pub proof fn lemma_escape_fidelity(text: Seq<char>, values: Seq<(Seq<char>, Seq<char>)>)
    ensures
        parse_spec(escaped(text)).text == text,
        parse_spec(escaped(text)).vars.len() == 0,
        format_spec(parse_spec(escaped(text)), values) == Some(text),
{
    lemma_scan_escaped(text);
    lemma_render_text(text, Seq::empty(), values, text.len());
    assert(text.take(text.len() as int) + Seq::<char>::empty() =~= text);
}

/// Taking a template apart, into its literal text, its defaults by name and
/// its byte offsets by name, and putting it together again gives the same
/// template.
pub proof fn lemma_parts_round_trip(t: TemplateView)
    requires
        well_formed(t),
        forall|i: int| 0 <= i < t.vars.len() ==> (#[trigger] t.vars[i]).1.offset <= usize::MAX,
    ensures
        assembled(t.text, defaults_of(t.vars), offsets_of(t.vars)) == Some(t),
{
    let variables = defaults_of(t.vars);
    let positions = offsets_of(t.vars);
    assert(keys_of(variables) =~= keys_of(positions));
    assert forall|i: int| 0 <= i < t.vars.len() implies assembled_var(
        t.text,
        variables,
        positions,
        i,
    ) == t.vars[i] by {
        lemma_index_at(t.text, t.vars[i].1.offset, t.vars[i].1.index as int);
    }
    assert forall|i: int| 0 <= i < positions.len() implies on_boundary(
        t.text,
        (#[trigger] positions[i]).1 as nat,
    ) by {
        lemma_index_at(t.text, t.vars[i].1.offset, t.vars[i].1.index as int);
    }
    assert(Seq::new(variables.len(), |i: int| assembled_var(t.text, variables, positions, i))
        =~= t.vars);
}

// ---------------------------------------------------------------- filling, step by step

/// The text that goes in for a binding; nothing where it has none.
pub open spec fn text_of(e: (Seq<char>, VarView), values: Seq<(Seq<char>, Seq<char>)>) -> Seq<
    char,
> {
    match resolved(e.0, e.1.default, values) {
        Some(x) => x,
        None => Seq::empty(),
    }
}

/// `text` with `piece` put in before its character `at`.
pub open spec fn put_in(text: Seq<char>, at: nat, piece: Seq<char>) -> Seq<char> {
    text.take(at as int) + piece + text.skip(at as int)
}

/// `a` is put in before `b` is: it goes in further back, or at the same
/// place and has the greater name.
pub open spec fn goes_first(a: (Seq<char>, VarView), b: (Seq<char>, VarView)) -> bool {
    a.1.index > b.1.index || (a.1.index == b.1.index && key_lt(b.0, a.0))
}

/// The bindings stand in the order in which they are put in: from the last
/// insertion point to the first.
pub open spec fn descending(order: Seq<(Seq<char>, VarView)>) -> bool {
    forall|i: int, j: int|
        0 <= i < j < order.len() ==> goes_first(#[trigger] order[i], #[trigger] order[j])
}

/// `order` holds the bindings of `vars`, all of them and no others.
pub open spec fn same_bindings(
    order: Seq<(Seq<char>, VarView)>,
    vars: Seq<(Seq<char>, VarView)>,
) -> bool {
    &&& forall|i: int| 0 <= i < order.len() ==> vars.contains(#[trigger] order[i])
    &&& forall|j: int| 0 <= j < vars.len() ==> order.contains(#[trigger] vars[j])
}

/// The literal text after the texts of the first `n` bindings of `order`
/// have been put in, one after the other, each at its insertion point.
pub open spec fn inserted(
    text: Seq<char>,
    order: Seq<(Seq<char>, VarView)>,
    values: Seq<(Seq<char>, Seq<char>)>,
    n: nat,
) -> Seq<char>
    decreases n,
{
    if n == 0 || n > order.len() {
        text
    } else {
        put_in(
            inserted(text, order, values, (n - 1) as nat),
            order[n - 1].1.index,
            text_of(order[n - 1], values),
        )
    }
}

/// The map that holds the first `n` bindings of `order`.
pub open spec fn gathered(order: Seq<(Seq<char>, VarView)>, n: nat) -> Seq<(Seq<char>, VarView)>
    decreases n,
{
    if n == 0 || n > order.len() {
        Seq::empty()
    } else {
        upsert(gathered(order, (n - 1) as nat), order[n - 1].0, order[n - 1].1)
    }
}

/// The filled text of a literal text and its bindings.
pub open spec fn whole(
    text: Seq<char>,
    vars: Seq<(Seq<char>, VarView)>,
    values: Seq<(Seq<char>, Seq<char>)>,
) -> Seq<char> {
    render(TemplateView { text, vars }, values, text.len()) + fill_all(vars, values, text.len())
}

/// The filled text from character `from` on, after what goes in before it.
pub open spec fn rest(
    text: Seq<char>,
    vars: Seq<(Seq<char>, VarView)>,
    values: Seq<(Seq<char>, Seq<char>)>,
    from: nat,
) -> Seq<char>
    decreases text.len() - from,
{
    if from >= text.len() {
        Seq::empty()
    } else {
        seq![text[from as int]] + fill_all(vars, values, from + 1) + rest(
            text,
            vars,
            values,
            from + 1,
        )
    }
}

proof fn lemma_whole_split(
    text: Seq<char>,
    vars: Seq<(Seq<char>, VarView)>,
    values: Seq<(Seq<char>, Seq<char>)>,
    from: nat,
)
    requires
        from <= text.len(),
    ensures
        whole(text, vars, values) == render(TemplateView { text, vars }, values, from) + fill_all(
            vars,
            values,
            from,
        ) + rest(text, vars, values, from),
    decreases text.len() - from,
{
    let t = TemplateView { text, vars };
    if from == text.len() {
        assert(whole(text, vars, values) =~= render(t, values, from) + fill_all(vars, values, from)
            + rest(text, vars, values, from));
    } else {
        lemma_whole_split(text, vars, values, from + 1);
        assert(render(t, values, from + 1) == render(t, values, from) + fill_all(
            vars,
            values,
            from,
        ) + seq![text[from as int]]);
        assert(render(t, values, from + 1) + fill_all(vars, values, from + 1) + rest(
            text,
            vars,
            values,
            from + 1,
        ) =~= render(t, values, from) + fill_all(vars, values, from) + rest(
            text,
            vars,
            values,
            from,
        ));
    }
}

proof fn lemma_rest_same(
    text: Seq<char>,
    v1: Seq<(Seq<char>, VarView)>,
    v2: Seq<(Seq<char>, VarView)>,
    values: Seq<(Seq<char>, Seq<char>)>,
    from: nat,
)
    requires
        forall|at: nat|
            at > from ==> #[trigger] fill_all(v1, values, at) == fill_all(v2, values, at),
    ensures
        rest(text, v1, values, from) == rest(text, v2, values, from),
    decreases text.len() - from,
{
    if from < text.len() {
        lemma_rest_same(text, v1, v2, values, from + 1);
        assert(fill_all(v1, values, from + 1) == fill_all(v2, values, from + 1));
    }
}

/// Before the first insertion point the filled text is the literal text.
proof fn lemma_render_text(
    text: Seq<char>,
    vars: Seq<(Seq<char>, VarView)>,
    values: Seq<(Seq<char>, Seq<char>)>,
    upto: nat,
)
    requires
        upto <= text.len(),
        forall|i: int| 0 <= i < vars.len() ==> (#[trigger] vars[i]).1.index >= upto,
    ensures
        render(TemplateView { text, vars }, values, upto) == text.take(upto as int),
    decreases upto,
{
    if upto > 0 {
        lemma_render_text(text, vars, values, (upto - 1) as nat);
        lemma_fill_none(vars, values, (upto - 1) as nat, vars.len());
        assert(text.take(upto as int) =~= text.take(upto - 1) + Seq::<char>::empty() + seq![
            text[upto - 1],
        ]);
    } else {
        assert(text.take(0) =~= Seq::<char>::empty());
    }
}

/// A binding that is put in after all the others, at an insertion point that
/// is not behind any of theirs and, where it shares the point, with the lesser
/// name: its text goes into the filled text at that very point.
proof fn lemma_put_in(
    text: Seq<char>,
    done: Seq<(Seq<char>, VarView)>,
    e: (Seq<char>, VarView),
    values: Seq<(Seq<char>, Seq<char>)>,
)
    requires
        sorted(done),
        e.1.index <= text.len(),
        forall|i: int| 0 <= i < done.len() ==> goes_first(#[trigger] done[i], e),
        forall|i: int| 0 <= i < done.len() ==> (#[trigger] done[i]).0 != e.0,
    ensures
        whole(text, upsert(done, e.0, e.1), values) == put_in(
            whole(text, done, values),
            e.1.index,
            text_of(e, values),
        ),
{
    let idx = e.1.index;
    let name = e.0;
    let piece = text_of(e, values);
    lemma_insert_shape(done, name, e.1);
    let at = rank(done, name) as int;
    let head = done.take(at);
    let tail = done.skip(at);
    let one = seq![(name, e.1)];
    let new = head + one + tail;
    assert(done =~= head + tail);
    // no binding goes in before the new one's point
    assert forall|i: int| 0 <= i < new.len() implies (#[trigger] new[i]).1.index >= idx by {
        if i < at {
            assert(new[i] == done[i]);
            assert(goes_first(done[i], e));
        } else if i > at {
            assert(new[i] == done[i - 1]);
            assert(goes_first(done[i - 1], e));
        }
    }
    assert forall|i: int| 0 <= i < done.len() implies (#[trigger] done[i]).1.index >= idx by {
        assert(goes_first(done[i], e));
    }
    lemma_render_text(text, new, values, idx);
    lemma_render_text(text, done, values, idx);
    // at the point the new text stands first
    lemma_rank(done, name);
    assert forall|i: int| 0 <= i < head.len() implies (#[trigger] head[i]).1.index != idx by {
        assert(head[i] == done[i]);
        assert(goes_first(done[i], e));
        assert(key_lt(done[i].0, name));
        if done[i].1.index == idx {
            lemma_key_lt_asymmetric(done[i].0, name);
        }
    }
    lemma_fill_none(head, values, idx, head.len());
    lemma_fill_concat(head, tail, values, idx);
    lemma_fill_concat(head + one, tail, values, idx);
    lemma_fill_concat(head, one, values, idx);
    assert(fill_all(one, values, idx) == piece) by {
        assert(fill_at(one, values, idx, 0) =~= Seq::<char>::empty());
        assert(Seq::<char>::empty() + piece =~= piece);
    }
    assert(fill_all(new, values, idx) =~= piece + fill_all(done, values, idx));
    // behind the point the same texts go in as before
    assert forall|k: nat| k > idx implies #[trigger] fill_all(new, values, k) == fill_all(
        done,
        values,
        k,
    ) by {
        lemma_fill_concat(head, tail, values, k);
        lemma_fill_concat(head + one, tail, values, k);
        lemma_fill_concat(head, one, values, k);
        lemma_fill_none(one, values, k, 1);
        assert(fill_all(head, values, k) + Seq::<char>::empty() =~= fill_all(head, values, k));
    }
    lemma_rest_same(text, new, done, values, idx);
    lemma_whole_split(text, new, values, idx);
    lemma_whole_split(text, done, values, idx);
    let before = whole(text, done, values);
    let tail_text = fill_all(done, values, idx) + rest(text, done, values, idx);
    assert(before =~= text.take(idx as int) + tail_text);
    assert(before.take(idx as int) =~= text.take(idx as int));
    assert(before.skip(idx as int) =~= tail_text);
    assert(whole(text, new, values) =~= put_in(before, idx, piece));
}

/// The bindings gathered from an order are some of the order's.
proof fn lemma_gathered_from(order: Seq<(Seq<char>, VarView)>, n: nat, i: int)
    requires
        n <= order.len(),
        0 <= i < gathered(order, n).len(),
    ensures
        exists|k: int| 0 <= k < n && order[k] == #[trigger] gathered(order, n)[i],
    decreases n,
{
    if n > 0 {
        let before = gathered(order, (n - 1) as nat);
        lemma_upsert_keys(before, order[n - 1].0, order[n - 1].1, i);
        if gathered(order, n)[i] != (order[n - 1].0, order[n - 1].1) {
            let w = choose|w: int| 0 <= w < before.len() && before[w] == gathered(order, n)[i];
            lemma_gathered_from(order, (n - 1) as nat, w);
            let k = choose|k: int| 0 <= k < n - 1 && order[k] == before[w];
            assert(order[k] == gathered(order, n)[i]);
        } else {
            assert(order[n - 1] == gathered(order, n)[i]);
        }
    }
}

/// Putting the texts in one after the other, from the last insertion point
/// to the first, gives the filled text of the bindings gathered so far.
proof fn lemma_inserted(
    text: Seq<char>,
    order: Seq<(Seq<char>, VarView)>,
    values: Seq<(Seq<char>, Seq<char>)>,
    n: nat,
)
    requires
        n <= order.len(),
        descending(order),
        forall|i: int| 0 <= i < order.len() ==> (#[trigger] order[i]).1.index <= text.len(),
        forall|i: int, j: int|
            0 <= i < j < order.len() ==> (#[trigger] order[i]).0 != (#[trigger] order[j]).0,
    ensures
        sorted(gathered(order, n)),
        inserted(text, order, values, n) == whole(text, gathered(order, n), values),
    decreases n,
{
    if n == 0 {
        lemma_render_text(text, Seq::empty(), values, text.len());
        assert(text.take(text.len() as int) + Seq::<char>::empty() =~= text);
    } else {
        lemma_inserted(text, order, values, (n - 1) as nat);
        let done = gathered(order, (n - 1) as nat);
        let e = order[n - 1];
        assert forall|i: int| 0 <= i < done.len() implies goes_first(#[trigger] done[i], e)
            && done[i].0 != e.0 by {
            lemma_gathered_from(order, (n - 1) as nat, i);
            let k = choose|k: int| 0 <= k < n - 1 && order[k] == done[i];
            assert(goes_first(order[k], order[n - 1]));
            assert(order[k].0 != order[n - 1].0);
        }
        lemma_put_in(text, done, e, values);
        lemma_upsert_sorted(done, e.0, e.1);
    }
}

/// What is found under a key among the gathered bindings is a binding of the
/// order, and every binding of the order is found under its key.
proof fn lemma_gathered_lookup(order: Seq<(Seq<char>, VarView)>, n: nat, k: Seq<char>)
    requires
        n <= order.len(),
        forall|i: int, j: int|
            0 <= i < j < order.len() ==> (#[trigger] order[i]).0 != (#[trigger] order[j]).0,
    ensures
        match lookup(gathered(order, n), k) {
            Some(v) => exists|i: int| 0 <= i < n && #[trigger] order[i] == (k, v),
            None => forall|i: int| 0 <= i < n ==> (#[trigger] order[i]).0 != k,
        },
    decreases n,
{
    if n > 0 {
        lemma_gathered_lookup(order, (n - 1) as nat, k);
        lemma_upsert_lookup(gathered(order, (n - 1) as nat), order[n - 1].0, order[n - 1].1, k);
        if k == order[n - 1].0 {
            assert(order[n - 1] == (k, order[n - 1].1));
        } else {
            match lookup(gathered(order, (n - 1) as nat), k) {
                Some(v) => {
                    let i = choose|i: int| 0 <= i < n - 1 && #[trigger] order[i] == (k, v);
                    assert(order[i] == (k, v));
                },
                None => {},
            }
        }
    }
}

/// Filling is putting the texts in one after the other: take the bindings in
/// any order that goes from the last insertion point to the first, and at one
/// point from the greatest name to the least; put each text in at its point.
/// What comes out is the filled text.
pub proof fn lemma_format_by_insertion(
    t: TemplateView,
    values: Seq<(Seq<char>, Seq<char>)>,
    order: Seq<(Seq<char>, VarView)>,
)
    requires
        well_formed(t),
        same_bindings(order, t.vars),
        descending(order),
        all_resolved(t.vars, values),
    ensures
        format_spec(t, values) == Some(inserted(t.text, order, values, order.len())),
{
    let all = gathered(order, order.len());
    assert forall|i: int| 0 <= i < order.len() implies (#[trigger] order[i]).1.index
        <= t.text.len() by {
        assert(t.vars.contains(order[i]));
        let j = choose|j: int| 0 <= j < t.vars.len() && t.vars[j] == order[i];
        assert(valid_point(t.text, t.vars[j].1));
    }
    // no key stands twice in the order
    assert forall|i: int, j: int| 0 <= i < j < order.len() implies (#[trigger] order[i]).0 != (
    #[trigger] order[j]).0 by {
        if order[i].0 == order[j].0 {
            assert(t.vars.contains(order[i]));
            assert(t.vars.contains(order[j]));
            let a = choose|a: int| 0 <= a < t.vars.len() && t.vars[a] == order[i];
            let b = choose|b: int| 0 <= b < t.vars.len() && t.vars[b] == order[j];
            if a != b {
                lemma_key_lt_irreflexive(order[i].0);
                if a < b {
                    assert(key_lt(t.vars[a].0, t.vars[b].0));
                } else {
                    assert(key_lt(t.vars[b].0, t.vars[a].0));
                }
            }
            assert(goes_first(order[i], order[j]));
            lemma_key_lt_irreflexive(order[i].0);
        }
    }
    lemma_inserted(t.text, order, values, order.len());
    // so the gathered bindings are the bindings of the template
    assert forall|k: Seq<char>| lookup(all, k) == lookup(t.vars, k) by {
        lemma_gathered_lookup(order, order.len(), k);
        match lookup(t.vars, k) {
            Some(v) => {
                let j = lemma_lookup_found(t.vars, k);
                assert(order.contains(t.vars[j]));
                let i = choose|i: int| 0 <= i < order.len() && order[i] == t.vars[j];
                match lookup(all, k) {
                    Some(w) => {
                        let i2 = choose|i2: int|
                            0 <= i2 < order.len() && #[trigger] order[i2] == (k, w);
                        if i != i2 {
                            assert(order[i].0 == order[i2].0);
                        }
                    },
                    None => {
                        assert(order[i].0 == k);
                    },
                }
            },
            None => {
                match lookup(all, k) {
                    Some(w) => {
                        let i2 = choose|i2: int|
                            0 <= i2 < order.len() && #[trigger] order[i2] == (k, w);
                        assert(t.vars.contains(order[i2]));
                        let j = choose|j: int| 0 <= j < t.vars.len() && t.vars[j] == order[i2];
                        lemma_sorted_lookup(t.vars, j);
                    },
                    None => {},
                }
            },
        }
    }
    lemma_sorted_unique(all, t.vars);
}

} // verus!

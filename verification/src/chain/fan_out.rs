//! What the chains that fan out have in common: telling the indexed
//! sub-inputs from the ordinary inputs, and gathering the answers.

use crate::chain::{batch_view, generations_view, user_prompt, Chain, Stage, Step, StepView};
use crate::prompt_template::TemplateView;
use crate::schema::{messages_view, Generation, GenerationView, Message, MessageView};
use crate::str_map::{upsert, without, StrMap, StringMap};
use crate::text::{append_chars, from_chars, texts, to_chars};
use vstd::prelude::*;

verus! {

/// The number that the first `n` characters of `d` spell in base 10, or
/// `None` where one of them is no digit or the number outgrows `usize`.
pub open spec fn decimal_fold(d: Seq<char>, n: nat) -> Option<nat>
    decreases n,
{
    if n == 0 || n > d.len() {
        Some(0)
    } else {
        match decimal_fold(d, (n - 1) as nat) {
            None => None,
            Some(v) => if '0' <= d[n - 1] <= '9' && v * 10 + (d[n - 1] as u32 - '0' as u32)
                <= usize::MAX {
                Some((v * 10 + (d[n - 1] as u32 - '0' as u32)) as nat)
            } else {
                None
            },
        }
    }
}

/// Whether `k` names an indexed sub-input: it reads as a non-negative whole
/// number that fits `usize`. One `+` may stand before the digits.
pub open spec fn is_index_key(k: Seq<char>) -> bool {
    if k.len() == 0 {
        false
    } else if k[0] == '+' {
        k.len() > 1 && decimal_fold(k.drop_first(), (k.len() - 1) as nat) is Some
    } else {
        decimal_fold(k, k.len()) is Some
    }
}

proof fn lemma_decimal_fold_none(d: Seq<char>, n: nat, m: nat)
    requires
        n <= m <= d.len(),
        decimal_fold(d, n) is None,
    ensures
        decimal_fold(d, m) is None,
    decreases m,
{
    if n < m {
        lemma_decimal_fold_none(d, n, (m - 1) as nat);
    }
}

/// Whether `k` names an indexed sub-input.
pub fn parses_as_index(k: &str) -> (r: bool)
    ensures
        r == is_index_key(k@),
{
    let chars = to_chars(k);
    if chars.len() == 0 {
        return false;
    }
    let from: usize = if chars[0] == '+' {
        1
    } else {
        0
    };
    if from == chars.len() {
        return false;
    }
    let ghost body = chars@.subrange(from as int, chars.len() as int);
    assert(body =~= if chars@[0] == '+' {
        chars@.drop_first()
    } else {
        chars@
    });
    assert(is_index_key(k@) == (decimal_fold(body, body.len()) is Some));
    let mut value: usize = 0;
    let mut i: usize = from;
    while i < chars.len()
        invariant
            from <= i <= chars.len(),
            body == chars@.subrange(from as int, chars.len() as int),
            is_index_key(k@) == (decimal_fold(body, body.len()) is Some),
            decimal_fold(body, (i - from) as nat) == Some(value as nat),
        decreases chars.len() - i,
    {
        let c = chars[i];
        assert(body[i - from] == c);
        if !('0' <= c && c <= '9') {
            proof {
                lemma_decimal_fold_none(body, (i - from + 1) as nat, body.len());
            }
            return false;
        }
        let digit: usize = (c as u32 - '0' as u32) as usize;
        if value > (usize::MAX - digit) / 10 {
            proof {
                lemma_decimal_fold_none(body, (i - from + 1) as nat, body.len());
            }
            return false;
        }
        value = value * 10 + digit;
        i += 1;
    }
    true
}

/// What `serde_json` makes of `text` when it is asked for a map from strings
/// to strings: the bindings in key order, or `None` where `text` is no JSON
/// object of strings.
pub uninterp spec fn json_string_map(text: Seq<char>) -> Option<Seq<(Seq<char>, Seq<char>)>>;

/// The views of a list of pairs of strings.
pub open spec fn pairs_view(p: Seq<(String, String)>) -> Seq<(Seq<char>, Seq<char>)> {
    p.map_values(|e: (String, String)| (e.0@, e.1@))
}

/// The error of `serde_json`, carried through as it is: nothing is known of
/// what it holds.
#[verifier::external_type_specification]
#[verifier::external_body]
pub struct ExJsonError(serde_json::Error);

/// Reads `text` as a JSON object whose values are all strings.
///
/// Trusted: `serde_json::from_str` at the type of a `BTreeMap` from `String`
/// to `String`. The contract only gives its result a name; the pairs are the
/// map's bindings as the map hands them out.
#[verifier::external_body]
pub(crate) fn read_string_map(text: &str) -> (r: Result<Vec<(String, String)>, serde_json::Error>)
    ensures
        match r {
            Ok(pairs) => json_string_map(text@) == Some(pairs_view(pairs@)),
            Err(_) => json_string_map(text@) is None,
        },
{
    let map = serde_json::from_str::<std::collections::BTreeMap<String, String>>(text)?;
    Ok(map.into_iter().collect())
}

/// The map that binds, pair after pair, each key to its value.
pub open spec fn map_of_pairs(p: Seq<(Seq<char>, Seq<char>)>, n: nat) -> Seq<
    (Seq<char>, Seq<char>),
>
    decreases n,
{
    if n == 0 || n > p.len() {
        Seq::empty()
    } else {
        upsert(map_of_pairs(p, (n - 1) as nat), p[n - 1].0, p[n - 1].1)
    }
}

/// The sub-input that a binding of the inputs carries: its key is an index
/// and its value a JSON object of strings.
pub open spec fn sub_input(key: Seq<char>, value: Seq<char>) -> Option<Seq<(Seq<char>, Seq<char>)>> {
    if is_index_key(key) {
        match json_string_map(value) {
            Some(p) => Some(map_of_pairs(p, p.len())),
            None => None,
        }
    } else {
        None
    }
}

/// The sub-inputs among the first `n` bindings of `input`, in key order.
pub open spec fn sub_inputs(input: Seq<(Seq<char>, Seq<char>)>, n: nat) -> Seq<
    Seq<(Seq<char>, Seq<char>)>,
>
    decreases n,
{
    if n == 0 || n > input.len() {
        Seq::empty()
    } else {
        let before = sub_inputs(input, (n - 1) as nat);
        match sub_input(input[n - 1].0, input[n - 1].1) {
            Some(m) => before.push(m),
            None => before,
        }
    }
}

/// `input` without those of its first `n` bindings that carry a sub-input. A
/// binding under an index whose value cannot be read stays.
pub open spec fn rest_inputs(input: Seq<(Seq<char>, Seq<char>)>, n: nat) -> Seq<
    (Seq<char>, Seq<char>),
>
    decreases n,
{
    if n == 0 || n > input.len() {
        input
    } else {
        let before = rest_inputs(input, (n - 1) as nat);
        if sub_input(input[n - 1].0, input[n - 1].1) is Some {
            without(before, input[n - 1].0)
        } else {
            before
        }
    }
}

/// The views of a list of maps.
pub open spec fn maps_view(v: Seq<StringMap>) -> Seq<Seq<(Seq<char>, Seq<char>)>> {
    v.map_values(|m: StringMap| m@)
}

/// The map that holds the given pairs, a later pair overwriting an earlier
/// one with the same key.
pub fn collect_pairs(pairs: Vec<(String, String)>) -> (r: StringMap)
    ensures
        r@ == map_of_pairs(pairs_view(pairs@), pairs.len() as nat),
{
    let mut out: StringMap = StrMap::new();
    let mut i: usize = 0;
    while i < pairs.len()
        invariant
            i <= pairs.len(),
            out@ == map_of_pairs(pairs_view(pairs@), i as nat),
        decreases pairs.len() - i,
    {
        out.insert(pairs[i].0.clone(), pairs[i].1.clone());
        i += 1;
    }
    out
}

/// Tells the sub-inputs of `input` from the rest.
pub fn split_inputs(input: &StringMap) -> (r: (Vec<StringMap>, StringMap))
    ensures
        maps_view(r.0@) == sub_inputs(input@, input@.len()),
        r.1@ == rest_inputs(input@, input@.len()),
{
    let mut subs: Vec<StringMap> = Vec::new();
    let mut rest: StringMap = input.clone();
    let n: usize = input.len();
    let mut i: usize = 0;
    assert(maps_view(subs@) =~= sub_inputs(input@, 0));
    while i < n
        invariant
            i <= n,
            n == input@.len(),
            maps_view(subs@) == sub_inputs(input@, i as nat),
            rest@ == rest_inputs(input@, i as nat),
        decreases n - i,
    {
        let key = input.key_at(i);
        let value = input.value_at(i);
        let ghost before = maps_view(subs@);
        if parses_as_index(key.as_str()) {
            match read_string_map(value.as_str()) {
                Ok(pairs) => {
                    let m = collect_pairs(pairs);
                    subs.push(m);
                    rest.remove(key.as_str());
                    assert(maps_view(subs@) =~= before.push(m@));
                },
                Err(_) => {},
            }
        }
        i += 1;
    }
    (subs, rest)
}

/// One single-message call for each of the first `n` sub-inputs, or `None`
/// where the template cannot be filled from one of them.
pub open spec fn map_batch(
    t: TemplateView,
    subs: Seq<Seq<(Seq<char>, Seq<char>)>>,
    n: nat,
) -> Option<Seq<Seq<MessageView>>>
    decreases n,
{
    if n == 0 || n > subs.len() {
        Some(Seq::empty())
    } else {
        match (map_batch(t, subs, (n - 1) as nat), user_prompt(t, subs[n - 1])) {
            (Some(b), Some(p)) => Some(b.push(seq![p])),
            _ => None,
        }
    }
}

/// The map phase: one call for each sub-input, in key order.
pub open spec fn map_phase(t: TemplateView, input: Seq<(Seq<char>, Seq<char>)>) -> StepView {
    let subs = sub_inputs(input, input.len());
    match map_batch(t, subs, subs.len()) {
        Some(b) => StepView::Generate(Stage::Mapped(subs.len() as usize), b),
        None => StepView::Fail,
    }
}

proof fn lemma_map_batch_none(
    t: TemplateView,
    subs: Seq<Seq<(Seq<char>, Seq<char>)>>,
    n: nat,
    m: nat,
)
    requires
        n <= m <= subs.len(),
        map_batch(t, subs, n) is None,
    ensures
        map_batch(t, subs, m) is None,
    decreases m,
{
    if n < m {
        lemma_map_batch_none(t, subs, n, (m - 1) as nat);
    }
}

/// Begins the map phase of `input` with the prompts of `map_chain`.
pub fn start_map<C: Chain>(map_chain: &C, input: &StringMap) -> (r: Step)
    ensures
        r@ == map_phase(map_chain.template_spec(), input@),
{
    let (subs, _rest) = split_inputs(input);
    let ghost t = map_chain.template_spec();
    let ghost sv = maps_view(subs@);
    let mut batch: Vec<Vec<Message>> = Vec::new();
    let mut i: usize = 0;
    assert(batch_view(batch@) =~= Seq::<Seq<MessageView>>::empty());
    while i < subs.len()
        invariant
            i <= subs.len(),
            sv == maps_view(subs@),
            sv == sub_inputs(input@, input@.len()),
            t == map_chain.template_spec(),
            map_batch(t, sv, i as nat) == Some(batch_view(batch@)),
        decreases subs.len() - i,
    {
        let ghost before = batch_view(batch@);
        assert(sv[i as int] == subs@[i as int]@);
        match map_chain.prepare_prompt(&subs[i]) {
            None => {
                proof {
                    lemma_map_batch_none(t, sv, (i + 1) as nat, sv.len());
                }
                return Step::Fail;
            },
            Some(p) => {
                let mut turn: Vec<Message> = Vec::new();
                turn.push(p);
                assert(messages_view(turn@) =~= seq![p@]);
                batch.push(turn);
                assert(batch_view(batch@) =~= before.push(seq![p@]));
            },
        }
        i += 1;
    }
    Step::Generate(Stage::Mapped(subs.len()), batch)
}

/// The content of the first candidate of each of the first `n` generations,
/// or `None` where one of them holds no candidate.
pub open spec fn first_answers(g: Seq<GenerationView>, n: nat) -> Option<Seq<Seq<char>>>
    decreases n,
{
    if n == 0 || n > g.len() {
        Some(Seq::empty())
    } else {
        match first_answers(g, (n - 1) as nat) {
            Some(a) => if g[n - 1].text.len() > 0 {
                Some(a.push(g[n - 1].text[0].content))
            } else {
                None
            },
            None => None,
        }
    }
}

proof fn lemma_first_answers_none(g: Seq<GenerationView>, n: nat, m: nat)
    requires
        n <= m <= g.len(),
        first_answers(g, n) is None,
    ensures
        first_answers(g, m) is None,
    decreases m,
{
    if n < m {
        lemma_first_answers_none(g, n, (m - 1) as nat);
    }
}

/// The answers of a list of generations, in order.
pub fn gather_answers(g: &Vec<Generation>) -> (r: Option<Vec<String>>)
    ensures
        match r {
            Some(a) => first_answers(generations_view(g@), g.len() as nat) == Some(
                texts(a@),
            ),
            None => first_answers(generations_view(g@), g.len() as nat) is None,
        },
{
    let ghost gv = generations_view(g@);
    let mut out: Vec<String> = Vec::new();
    let mut i: usize = 0;
    assert(texts(out@) =~= Seq::<Seq<char>>::empty());
    while i < g.len()
        invariant
            i <= g.len(),
            gv == generations_view(g@),
            first_answers(gv, i as nat) == Some(texts(out@)),
        decreases g.len() - i,
    {
        let ghost before = texts(out@);
        assert(gv[i as int] == g@[i as int]@);
        if g[i].text.len() == 0 {
            proof {
                lemma_first_answers_none(gv, (i + 1) as nat, gv.len());
            }
            return None;
        }
        out.push(g[i].text[0].content.clone());
        assert(texts(out@) =~= before.push(g@[i as int].text@[0].content@));
        i += 1;
    }
    Some(out)
}

/// The first `n` texts, one per line.
pub open spec fn join_lines(a: Seq<Seq<char>>, n: nat) -> Seq<char>
    decreases n,
{
    if n == 0 || n > a.len() {
        Seq::empty()
    } else if n == 1 {
        a[0]
    } else {
        join_lines(a, (n - 1) as nat) + seq!['\n'] + a[n - 1]
    }
}

/// Where the `i`-th text starts among the joined lines.
pub open spec fn line_start(a: Seq<Seq<char>>, i: nat) -> nat
    decreases i,
{
    if i == 0 || i > a.len() {
        0
    } else {
        line_start(a, (i - 1) as nat) + a[i - 1].len() + 1
    }
}

/// The joined lines hold every text whole, each after the one before it and
/// the line break between them: the order of the texts is the order of the
/// lines.
pub proof fn lemma_lines_in_order(a: Seq<Seq<char>>, n: nat, i: int)
    requires
        0 <= i < n <= a.len(),
    ensures
        join_lines(a, n).len() + 1 == line_start(a, n),
        line_start(a, i as nat) + a[i].len() <= join_lines(a, n).len(),
        join_lines(a, n).subrange(
            line_start(a, i as nat) as int,
            (line_start(a, i as nat) + a[i].len()) as int,
        ) == a[i],
        i + 1 < n ==> line_start(a, (i + 1) as nat) == line_start(a, i as nat) + a[i].len() + 1,
    decreases n,
{
    if n == 1 {
        assert(line_start(a, 0) == 0);
        assert(a[0].subrange(0, a[0].len() as int) =~= a[0]);
    } else {
        let before = join_lines(a, (n - 1) as nat);
        lemma_lines_in_order(a, (n - 1) as nat, if i < n - 1 {
            i
        } else {
            0
        });
        let all = join_lines(a, n);
        assert(all == before + seq!['\n'] + a[n - 1]);
        if i < n - 1 {
            assert(all.subrange(
                line_start(a, i as nat) as int,
                (line_start(a, i as nat) + a[i].len()) as int,
            ) =~= before.subrange(
                line_start(a, i as nat) as int,
                (line_start(a, i as nat) + a[i].len()) as int,
            ));
        } else {
            assert(all.subrange(
                line_start(a, i as nat) as int,
                (line_start(a, i as nat) + a[i].len()) as int,
            ) =~= a[i]);
        }
    }
}

/// `head`, a line break, and then the texts of `a`, one per line.
pub fn append_lines(head: &str, a: &Vec<String>) -> (r: String)
    ensures
        r@ == head@ + seq!['\n'] + join_lines(texts(a@), a.len() as nat),
{
    let mut out = to_chars(head);
    out.push('\n');
    let mut i: usize = 0;
    assert(out@ =~= head@ + seq!['\n'] + join_lines(texts(a@), 0));
    while i < a.len()
        invariant
            i <= a.len(),
            out@ == head@ + seq!['\n'] + join_lines(texts(a@), i as nat),
        decreases a.len() - i,
    {
        let piece = to_chars(a[i].as_str());
        assert(texts(a@)[i as int] == a@[i as int]@);
        if i > 0 {
            out.push('\n');
        }
        append_chars(&mut out, &piece, 0, piece.len());
        assert(piece@.subrange(0, piece.len() as int) =~= piece@);
        assert(out@ =~= head@ + seq!['\n'] + join_lines(texts(a@), (i + 1) as nat));
        i += 1;
    }
    from_chars(&out)
}

} // verus!

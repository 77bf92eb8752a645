//! Map, then rerank: one call for each indexed sub-input, one scoring call
//! for each answer, and the answer with the highest score wins.

use crate::chain::fan_out::{
    first_answers, gather_answers, map_phase, rest_inputs, split_inputs, start_map,
};
use crate::chain::{
    answer_of, answer_output, batch_view, generations_view, readings_view, user_prompt, Chain,
    Event, EventView, Scored, Stage, Step, StepView,
};
use crate::prompt_template::{parse_spec, PromptTemplate, TemplateView};
use crate::schema::{messages_view, Generation, GenerationView, Message, MessageView};
use crate::str_map::{lookup, upsert, StrMap, StringMap};
use crate::text::texts;
use vstd::prelude::*;

verus! {

/// The map phase is that of a map-reduce chain. Each of its answers is then
/// put, with the input `question`, into a scoring prompt of its own; the
/// backend is to answer each with a JSON object that holds a score. All the
/// answers to the scoring prompts must be readable; the one with the highest
/// score is the result, the first of them where several share it.
#[derive(Debug, PartialEq, Eq)]
pub struct MapRerankChain<MapChain: Chain> {
    pub prompt_template: Option<PromptTemplate>,
    pub map_chain: MapChain,
}

/// The source of the scoring template that is used where the chain has none
/// of its own.
pub open spec fn default_scoring_source() -> Seq<char> {
    "score the relativeness of the document to the answer from 0.0 to 1.0
Question: {question}
Doc: {answer}

output format: \\{\"score\": your score goes here, \"doc\": copy the Doc above \\}
for example: \\{\"score\": 0.5, \"doc\": \"blablabla\"\\}"@
}

/// The values from which the scoring template is filled.
pub open spec fn scoring_values(question: Seq<char>, answer: Seq<char>) -> Seq<
    (Seq<char>, Seq<char>),
> {
    upsert(upsert(Seq::empty(), "question"@, question), "answer"@, answer)
}

/// One scoring call for each of the first `n` answers, or `None` where the
/// template cannot be filled.
pub open spec fn scoring_batch(t: TemplateView, question: Seq<char>, a: Seq<Seq<char>>, n: nat) -> Option<
    Seq<Seq<MessageView>>,
>
    decreases n,
{
    if n == 0 || n > a.len() {
        Some(Seq::empty())
    } else {
        match (
            scoring_batch(t, question, a, (n - 1) as nat),
            user_prompt(t, scoring_values(question, a[n - 1])),
        ) {
            (Some(b), Some(p)) => Some(b.push(seq![p])),
            _ => None,
        }
    }
}

/// The scoring phase: needs one generation for each call of the map phase,
/// each with a candidate, and the input `question`.
pub open spec fn scoring_phase(
    t: TemplateView,
    input: Seq<(Seq<char>, Seq<char>)>,
    expected: usize,
    g: Seq<GenerationView>,
) -> StepView {
    if g.len() != expected {
        StepView::Fail
    } else {
        match (
            first_answers(g, g.len()),
            lookup(rest_inputs(input, input.len()), "question"@),
        ) {
            (Some(a), Some(q)) => match scoring_batch(t, q, a, a.len()) {
                Some(b) => StepView::Generate(Stage::Scoring(expected), b),
                None => StepView::Fail,
            },
            _ => StepView::Fail,
        }
    }
}

/// The answers to the scoring calls go to be read.
pub open spec fn reading_phase(expected: usize, g: Seq<GenerationView>) -> StepView {
    if g.len() != expected {
        StepView::Fail
    } else {
        match first_answers(g, g.len()) {
            Some(a) => StepView::Score(Stage::Ranking(expected), a),
            None => StepView::Fail,
        }
    }
}

/// Every text was read.
pub open spec fn all_read(r: Seq<Option<(i64, Seq<char>)>>) -> bool {
    forall|i: int| 0 <= i < r.len() ==> (#[trigger] r[i]) is Some
}

/// The score of the reading at place `i`.
pub open spec fn score_at(r: Seq<Option<(i64, Seq<char>)>>, i: int) -> i64 {
    match r[i] {
        Some(x) => x.0,
        None => 0,
    }
}

/// The document of the reading at place `i`.
pub open spec fn doc_at(r: Seq<Option<(i64, Seq<char>)>>, i: int) -> Seq<char> {
    match r[i] {
        Some(x) => x.1,
        None => Seq::empty(),
    }
}

/// The place of the highest score among the first `n` readings; of the first
/// such place where several share it.
pub open spec fn best_of(r: Seq<Option<(i64, Seq<char>)>>, n: nat) -> int
    decreases n,
{
    if n <= 1 || n > r.len() {
        0
    } else {
        let b = best_of(r, (n - 1) as nat);
        if score_at(r, n - 1) > score_at(r, b) {
            n - 1
        } else {
            b
        }
    }
}

/// The end: all readings are there and the best of them is the result.
pub open spec fn ranking_phase(expected: usize, r: Seq<Option<(i64, Seq<char>)>>) -> StepView {
    if r.len() == expected && r.len() > 0 && all_read(r) {
        StepView::Done(
            GenerationView {
                text: seq![
                    MessageView { role: "assistant"@, content: doc_at(r, best_of(r, r.len())) },
                ],
                info: None,
            },
        )
    } else {
        StepView::Fail
    }
}

/// `best_of` names a reading with the highest score, and none before it
/// scores as high.
pub proof fn lemma_best_is_first_highest(r: Seq<Option<(i64, Seq<char>)>>, n: nat)
    requires
        0 < n <= r.len(),
    ensures
        0 <= best_of(r, n) < n,
        forall|j: int| 0 <= j < n ==> #[trigger] score_at(r, j) <= score_at(r, best_of(r, n)),
        forall|j: int|
            0 <= j < best_of(r, n) ==> #[trigger] score_at(r, j) < score_at(r, best_of(r, n)),
    decreases n,
{
    if n > 1 {
        lemma_best_is_first_highest(r, (n - 1) as nat);
    }
}

proof fn lemma_scoring_batch_none(
    t: TemplateView,
    question: Seq<char>,
    a: Seq<Seq<char>>,
    n: nat,
    m: nat,
)
    requires
        n <= m <= a.len(),
        scoring_batch(t, question, a, n) is None,
    ensures
        scoring_batch(t, question, a, m) is None,
    decreases m,
{
    if n < m {
        lemma_scoring_batch_none(t, question, a, n, (m - 1) as nat);
    }
}

impl<MapChain: Chain> MapRerankChain<MapChain> {
    fn score(&self, input: &StringMap, expected: usize, g: Vec<Generation>) -> (r: Step)
        ensures
            r@ == scoring_phase(self.template_spec(), input@, expected, generations_view(g@)),
    {
        if g.len() != expected {
            return Step::Fail;
        }
        let answers = match gather_answers(&g) {
            Some(a) => a,
            None => {
                return Step::Fail;
            },
        };
        let (_subs, rest) = split_inputs(input);
        let question = match rest.get("question") {
            Some(q) => q,
            None => {
                return Step::Fail;
            },
        };
        let ghost t = self.template_spec();
        let ghost av = texts(answers@);
        let mut batch: Vec<Vec<Message>> = Vec::new();
        let mut i: usize = 0;
        assert(batch_view(batch@) =~= Seq::<Seq<MessageView>>::empty());
        while i < answers.len()
            invariant
                i <= answers.len(),
                av == texts(answers@),
                t == self.template_spec(),
                g.len() == expected,
                first_answers(generations_view(g@), g.len() as nat) == Some(av),
                lookup(rest_inputs(input@, input@.len()), "question"@) == Some(question@),
                scoring_batch(t, question@, av, i as nat) == Some(batch_view(batch@)),
            decreases answers.len() - i,
        {
            let ghost before = batch_view(batch@);
            assert(av[i as int] == answers@[i as int]@);
            let mut values: StringMap = StrMap::new();
            values.insert("question".to_owned(), question.clone());
            values.insert("answer".to_owned(), answers[i].clone());
            match self.prepare_prompt(&values) {
                None => {
                    proof {
                        lemma_scoring_batch_none(t, question@, av, (i + 1) as nat, av.len());
                    }
                    return Step::Fail;
                },
                Some(p) => {
                    let mut turn: Vec<Message> = Vec::new();
                    turn.push(p);
                    assert(messages_view(turn@) =~= seq![p@]);
                    batch.push(turn);
                    assert(batch_view(batch@) =~= before.push(seq![p@]));
                },
            }
            i += 1;
        }
        Step::Generate(Stage::Scoring(expected), batch)
    }

    fn rank(expected: usize, r: Vec<Option<Scored>>) -> (out: Step)
        ensures
            out@ == ranking_phase(expected, readings_view(r@)),
    {
        let ghost rv = readings_view(r@);
        if r.len() != expected || r.len() == 0 {
            return Step::Fail;
        }
        let mut best: usize = 0;
        let mut top: i64 = 0;
        let mut i: usize = 0;
        while i < r.len()
            invariant
                i <= r.len(),
                rv == readings_view(r@),
                forall|j: int| 0 <= j < i ==> (#[trigger] rv[j]) is Some,
                i > 0 ==> best == best_of(rv, i as nat) && 0 <= best < i && top == score_at(
                    rv,
                    best as int,
                ),
            decreases r.len() - i,
        {
            assert(rv[i as int] == match r@[i as int] {
                Some(d) => Some((d.score, d.doc@)),
                None => None,
            });
            match &r[i] {
                None => {
                    return Step::Fail;
                },
                Some(d) => {
                    if i == 0 || d.score > top {
                        best = i;
                        top = d.score;
                    }
                },
            }
            i += 1;
        }
        let doc = match &r[best] {
            Some(d) => d.doc.clone(),
            None => {
                return Step::Fail;
            },
        };
        assert(rv[best as int] == match r@[best as int] {
            Some(d) => Some((d.score, d.doc@)),
            None => None,
        });
        let mut text: Vec<Message> = Vec::new();
        text.push(Message { role: "assistant".to_owned(), content: doc });
        let g = Generation { text, info: None };
        assert(g@.text =~= seq![MessageView { role: "assistant"@, content: doc@ }]);
        Step::Done(g)
    }
}

impl<MapChain: Chain> Chain for MapRerankChain<MapChain> {
    open spec fn input_keys_spec(&self) -> Seq<Seq<char>> {
        self.map_chain.input_keys_spec().push("question"@)
    }

    open spec fn output_keys_spec(&self) -> Seq<Seq<char>> {
        seq!["answer"@, "score"@]
    }

    open spec fn template_spec(&self) -> TemplateView {
        match self.prompt_template {
            Some(t) => t@,
            None => parse_spec(default_scoring_source()),
        }
    }

    open spec fn output_spec(&self, generation: GenerationView) -> Option<
        Seq<(Seq<char>, MessageView)>,
    > {
        answer_output(generation)
    }

    open spec fn begin_spec(
        &self,
        history: Seq<MessageView>,
        input: Seq<(Seq<char>, Seq<char>)>,
    ) -> StepView {
        map_phase(self.map_chain.template_spec(), input)
    }

    open spec fn resume_spec(
        &self,
        stage: Stage,
        history: Seq<MessageView>,
        input: Seq<(Seq<char>, Seq<char>)>,
        event: EventView,
    ) -> StepView {
        match (stage, event) {
            (Stage::Mapped(n), EventView::Generated(g)) => scoring_phase(
                self.template_spec(),
                input,
                n,
                g,
            ),
            (Stage::Scoring(n), EventView::Generated(g)) => reading_phase(n, g),
            (Stage::Ranking(n), EventView::Scored(r)) => ranking_phase(n, r),
            _ => StepView::Fail,
        }
    }

    fn get_input_keys(&self) -> (r: Vec<String>) {
        let mut keys = self.map_chain.get_input_keys();
        let ghost before = texts(keys@);
        keys.push("question".to_owned());
        assert(texts(keys@) =~= before.push("question"@));
        keys
    }

    fn get_output_keys(&self) -> (r: Vec<String>) {
        let mut keys: Vec<String> = Vec::new();
        keys.push("answer".to_owned());
        keys.push("score".to_owned());
        assert(texts(keys@) =~= seq!["answer"@, "score"@]);
        keys
    }

    fn get_prompt_template(&self) -> (r: PromptTemplate) {
        match &self.prompt_template {
            Some(t) => t.clone(),
            None => PromptTemplate::parse_from_string(
                "score the relativeness of the document to the answer from 0.0 to 1.0
Question: {question}
Doc: {answer}

output format: \\{\"score\": your score goes here, \"doc\": copy the Doc above \\}
for example: \\{\"score\": 0.5, \"doc\": \"blablabla\"\\}",
            ),
        }
    }

    fn create_output(&self, generation: Generation) -> (r: Option<StrMap<Message>>) {
        answer_of(generation)
    }

    fn begin(&self, history: &Vec<Message>, input: &StringMap) -> (r: Step) {
        start_map(&self.map_chain, input)
    }

    fn resume(&self, stage: Stage, history: &Vec<Message>, input: &StringMap, event: Event) -> (r:
        Step) {
        match (stage, event) {
            (Stage::Mapped(n), Event::Generated(g)) => self.score(input, n, g),
            (Stage::Scoring(n), Event::Generated(g)) => {
                if g.len() != n {
                    return Step::Fail;
                }
                match gather_answers(&g) {
                    Some(a) => Step::Score(Stage::Ranking(n), a),
                    None => Step::Fail,
                }
            },
            (Stage::Ranking(n), Event::Scored(r)) => Self::rank(n, r),
            _ => Step::Fail,
        }
    }
}

} // verus!

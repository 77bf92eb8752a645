//! Chains: units that turn named inputs into prompts for a model backend and
//! the backend's answers into named outputs.
//!
//! A chain never calls the backend itself. It says what is to be asked
//! ([`Step`]), is handed what came back ([`Event`]), and says what follows.
//! Whoever drives a chain begins with [`Chain::begin`], performs each step and
//! calls [`Chain::resume`] with its outcome until the chain is done or fails.

pub mod character_chain;
pub mod fan_out;
pub mod llm_chain;
pub mod map_reduce;
pub mod map_rerank;
pub mod seq_chain;

use crate::prompt_template::{format_spec, PromptTemplate, TemplateView};
use crate::schema::{
    clone_messages, messages_view, Generation, GenerationView, Message, MessageView,
};
use crate::str_map::{StrMap, StringMap};
use crate::text::texts;
use vstd::prelude::*;

verus! {

/// How far a chain has come. A stage is handed out with each step and handed
/// back with the step's outcome.
#[derive(Debug, PartialEq, Eq)]
pub enum Stage {
    /// One call is out; its answer is the chain's answer.
    Single,
    /// The first of two chains is at the inner stage.
    First(Box<Stage>),
    /// The joined call of a sequence is out.
    Joined,
    /// The calls of the map phase are out, as many as given.
    Mapped(usize),
    /// The reducing call is out.
    Reducing,
    /// The scoring calls are out, as many as given.
    Scoring(usize),
    /// The scores are being read, as many as given.
    Ranking(usize),
}

/// What a chain wants done next.
#[derive(Debug, PartialEq, Eq)]
pub enum Step {
    /// Call the backend once for each list of messages, and hand the
    /// generations back in the order of the lists.
    Generate(Stage, Vec<Vec<Message>>),
    /// Read each text as a scored document, and hand the readings back in the
    /// order of the texts.
    Score(Stage, Vec<String>),
    /// The chain is done, with this generation.
    Done(Generation),
    /// The chain has failed.
    Fail,
}

/// A backend's answer that was read as a scored document.
#[derive(Debug, PartialEq, Eq)]
pub struct Scored {
    /// Orders the candidates: a higher score has a higher number, equal
    /// scores have equal numbers.
    pub score: i64,
    /// The answer as it is to be handed on.
    pub doc: String,
}

/// The outcome of a step.
#[derive(Debug, PartialEq, Eq)]
pub enum Event {
    /// One generation for each list of messages of a [`Step::Generate`].
    Generated(Vec<Generation>),
    /// One reading for each text of a [`Step::Score`]; `None` for a text that
    /// could not be read.
    Scored(Vec<Option<Scored>>),
}

/// A step as a value.
pub enum StepView {
    Generate(Stage, Seq<Seq<MessageView>>),
    Score(Stage, Seq<Seq<char>>),
    Done(GenerationView),
    Fail,
}

/// An outcome as a value.
pub enum EventView {
    Generated(Seq<GenerationView>),
    Scored(Seq<Option<(i64, Seq<char>)>>),
}

/// The views of a batch of message lists.
pub open spec fn batch_view(b: Seq<Vec<Message>>) -> Seq<Seq<MessageView>> {
    b.map_values(|v: Vec<Message>| messages_view(v@))
}

/// The views of a list of generations.
pub open spec fn generations_view(g: Seq<Generation>) -> Seq<GenerationView> {
    g.map_values(|x: Generation| x@)
}

/// The views of a list of readings.
pub open spec fn readings_view(s: Seq<Option<Scored>>) -> Seq<Option<(i64, Seq<char>)>> {
    s.map_values(
        |x: Option<Scored>|
            match x {
                Some(d) => Some((d.score, d.doc@)),
                None => None,
            },
    )
}

impl View for Step {
    type V = StepView;

    open spec fn view(&self) -> StepView {
        match self {
            Step::Generate(stage, batch) => StepView::Generate(*stage, batch_view(batch@)),
            Step::Score(stage, list) => StepView::Score(*stage, texts(list@)),
            Step::Done(g) => StepView::Done(g@),
            Step::Fail => StepView::Fail,
        }
    }
}

impl View for Event {
    type V = EventView;

    open spec fn view(&self) -> EventView {
        match self {
            Event::Generated(g) => EventView::Generated(generations_view(g@)),
            Event::Scored(s) => EventView::Scored(readings_view(s@)),
        }
    }
}

/// The message that carries a prompt to the backend.
pub open spec fn user_message(content: Seq<char>) -> MessageView {
    MessageView { role: "user"@, content }
}

/// The prompt that a template makes of the inputs, if every variable is there.
pub open spec fn user_prompt(t: TemplateView, input: Seq<(Seq<char>, Seq<char>)>) -> Option<
    MessageView,
> {
    match format_spec(t, input) {
        Some(text) => Some(user_message(text)),
        None => None,
    }
}

/// The output of a chain that hands on the first candidate as its answer.
pub open spec fn answer_output(g: GenerationView) -> Option<Seq<(Seq<char>, MessageView)>> {
    if g.text.len() > 0 {
        Some(seq![("answer"@, g.text[0])])
    } else {
        None
    }
}

/// One call, out at `stage`: what was said before, then the prompt. No
/// prompt, no call.
pub open spec fn single_turn(
    stage: Stage,
    history: Seq<MessageView>,
    prompt: Option<MessageView>,
) -> StepView {
    match prompt {
        Some(p) => StepView::Generate(stage, seq![history.push(p)]),
        None => StepView::Fail,
    }
}

/// The end of a chain whose last call is out at `expected`: the one
/// generation that came back is the result.
pub open spec fn finish(stage: Stage, expected: Stage, event: EventView) -> StepView {
    match event {
        EventView::Generated(g) => if stage == expected && g.len() == 1 {
            StepView::Done(g[0])
        } else {
            StepView::Fail
        },
        _ => StepView::Fail,
    }
}

/// What every chain offers.
pub trait Chain {
    /// The names of the inputs that the chain reads.
    spec fn input_keys_spec(&self) -> Seq<Seq<char>>;

    /// The names of the outputs that the chain gives.
    spec fn output_keys_spec(&self) -> Seq<Seq<char>>;

    /// The template that the chain fills.
    spec fn template_spec(&self) -> TemplateView;

    /// The named outputs that the chain makes of a generation.
    spec fn output_spec(&self, generation: GenerationView) -> Option<Seq<(Seq<char>, MessageView)>>;

    /// The first step of a run on `input`, after `history`.
    spec fn begin_spec(
        &self,
        history: Seq<MessageView>,
        input: Seq<(Seq<char>, Seq<char>)>,
    ) -> StepView;

    /// The step that follows `event` at `stage`.
    spec fn resume_spec(
        &self,
        stage: Stage,
        history: Seq<MessageView>,
        input: Seq<(Seq<char>, Seq<char>)>,
        event: EventView,
    ) -> StepView;

    /// The names of the inputs that the chain reads.
    fn get_input_keys(&self) -> (r: Vec<String>)
        ensures
            texts(r@) == self.input_keys_spec(),
    ;

    /// The names of the outputs that the chain gives.
    fn get_output_keys(&self) -> (r: Vec<String>)
        ensures
            texts(r@) == self.output_keys_spec(),
    ;

    /// The template that the chain fills: its own, or the one that chains of
    /// its kind fill where they have none of their own.
    fn get_prompt_template(&self) -> (r: PromptTemplate)
        ensures
            r@ == self.template_spec(),
    ;

    /// The prompt for `input`: the chain's template, filled, as a message of
    /// the user. `None` where a variable is missing.
    fn prepare_prompt(&self, input: &StringMap) -> (r: Option<Message>)
        ensures
            match r {
                Some(m) => user_prompt(self.template_spec(), input@) == Some(m@),
                None => user_prompt(self.template_spec(), input@) is None,
            },
    {
        match self.get_prompt_template().format(input) {
            Some(content) => Some(Message { role: "user".to_owned(), content }),
            None => None,
        }
    }

    /// The named outputs for a generation. `None` where the generation holds
    /// no candidate.
    fn create_output(&self, generation: Generation) -> (r: Option<StrMap<Message>>)
        ensures
            match r {
                Some(m) => self.output_spec(generation@) == Some(m@),
                None => self.output_spec(generation@) is None,
            },
    ;

    /// Begins a run on `input`. `history` is what was said before, as the
    /// memory held it when the run began.
    fn begin(&self, history: &Vec<Message>, input: &StringMap) -> (r: Step)
        ensures
            r@ == self.begin_spec(messages_view(history@), input@),
    ;

    /// Goes on with a run after the step handed out with `stage` has had the
    /// outcome `event`. `history` and `input` are those of `begin`.
    fn resume(&self, stage: Stage, history: &Vec<Message>, input: &StringMap, event: Event) -> (r:
        Step)
        ensures
            r@ == self.resume_spec(stage, messages_view(history@), input@, event@),
    ;
}

/// The output map that binds `"answer"` to the first candidate.
pub fn answer_of(generation: Generation) -> (r: Option<StrMap<Message>>)
    ensures
        match r {
            Some(m) => answer_output(generation@) == Some(m@),
            None => answer_output(generation@) is None,
        },
{
    if generation.text.len() == 0 {
        return None;
    }
    let mut out: StrMap<Message> = StrMap::new();
    out.insert("answer".to_owned(), generation.text[0].clone());
    assert(out@ =~= seq![("answer"@, generation@.text[0])]);
    Some(out)
}

/// The step that sends `prompt` after `history`.
pub fn send_single(stage: Stage, history: &Vec<Message>, prompt: Option<Message>) -> (r: Step)
    ensures
        r@ == single_turn(
            stage,
            messages_view(history@),
            match prompt {
                Some(m) => Some(m@),
                None => None,
            },
        ),
{
    match prompt {
        None => Step::Fail,
        Some(p) => {
            let mut turn = clone_messages(history);
            turn.push(p);
            let mut batch: Vec<Vec<Message>> = Vec::new();
            batch.push(turn);
            assert(messages_view(turn@) =~= messages_view(history@).push(p@));
            assert(batch_view(batch@) =~= seq![messages_view(history@).push(p@)]);
            Step::Generate(stage, batch)
        },
    }
}

/// Whether two stages are the same.
pub fn same_stage(a: &Stage, b: &Stage) -> (r: bool)
    ensures
        r == (*a == *b),
    decreases *a,
{
    match (a, b) {
        (Stage::Single, Stage::Single) => true,
        (Stage::First(x), Stage::First(y)) => same_stage(x, y),
        (Stage::Joined, Stage::Joined) => true,
        (Stage::Mapped(x), Stage::Mapped(y)) => *x == *y,
        (Stage::Reducing, Stage::Reducing) => true,
        (Stage::Scoring(x), Stage::Scoring(y)) => *x == *y,
        (Stage::Ranking(x), Stage::Ranking(y)) => *x == *y,
        _ => false,
    }
}

/// Ends a chain whose last call went out at `expected`.
pub fn finish_with(stage: Stage, expected: Stage, event: Event) -> (r: Step)
    ensures
        r@ == finish(stage, expected, event@),
{
    match event {
        Event::Generated(mut g) => {
            if same_stage(&stage, &expected) && g.len() == 1 {
                let ghost gv = generations_view(g@);
                let only = g.remove(0);
                assert(gv[0] == only@);
                Step::Done(only)
            } else {
                Step::Fail
            }
        },
        Event::Scored(_) => Step::Fail,
    }
}

} // verus!

//! Two chains in sequence: the answer of the first becomes the background of
//! the second's question.

use crate::chain::{
    finish, finish_with, send_single, single_turn, user_message, user_prompt, Chain, Event,
    EventView, Stage, Step, StepView,
};
use crate::prompt_template::{format_spec, parse_spec, PromptTemplate, TemplateView};
use crate::schema::{messages_view, Generation, GenerationView, Message, MessageView};
use crate::str_map::{upsert, StrMap, StringMap};
use crate::text::texts;
use vstd::prelude::*;

verus! {

/// Runs the first chain to its end, fills the join template with the first
/// candidate of its result (`previous_output`) and with the prompt of the
/// second chain (`question`), and sends that as one more call.
#[derive(Debug, PartialEq, Eq)]
pub struct SeqChain<Chain1: Chain, Chain2: Chain> {
    pub prompt_template: Option<PromptTemplate>,
    pub chain1: Chain1,
    pub chain2: Chain2,
}

/// The source of the join template that is used where the chain has none of
/// its own.
pub open spec fn default_join_source() -> Seq<char> {
    "background: {previous_output}\n\nquestion: {question}"@
}

/// The values from which the join template is filled.
pub open spec fn join_values(previous_output: Seq<char>, question: Seq<char>) -> Seq<
    (Seq<char>, Seq<char>),
> {
    upsert(upsert(Seq::empty(), "previous_output"@, previous_output), "question"@, question)
}

/// The joined call that follows the first chain's result.
pub open spec fn join_phase(
    join: TemplateView,
    question: Option<MessageView>,
    history: Seq<MessageView>,
    previous: GenerationView,
) -> StepView {
    if previous.text.len() == 0 {
        StepView::Fail
    } else {
        match question {
            None => StepView::Fail,
            Some(q) => match format_spec(join, join_values(previous.text[0].content, q.content)) {
                None => StepView::Fail,
                Some(text) => single_turn(Stage::Joined, history, Some(user_message(text))),
            },
        }
    }
}

/// What a step of the first chain means for the sequence: a call is passed
/// on, its result leads to the joined call.
pub open spec fn after_first(
    inner: StepView,
    join: TemplateView,
    question: Option<MessageView>,
    history: Seq<MessageView>,
) -> StepView {
    match inner {
        StepView::Generate(stage, batch) => StepView::Generate(Stage::First(Box::new(stage)), batch),
        StepView::Score(stage, list) => StepView::Score(Stage::First(Box::new(stage)), list),
        StepView::Done(previous) => join_phase(join, question, history, previous),
        StepView::Fail => StepView::Fail,
    }
}

impl<Chain1: Chain, Chain2: Chain> SeqChain<Chain1, Chain2> {
    /// The sequence of `chain1` and `chain2`; `None` for the join template
    /// that puts the background before the question.
    pub fn new(prompt_template: Option<PromptTemplate>, chain1: Chain1, chain2: Chain2) -> (r:
        Self)
        ensures
            r.prompt_template == prompt_template,
            r.chain1 == chain1,
            r.chain2 == chain2,
    {
        SeqChain { prompt_template, chain1, chain2 }
    }

    fn follow(&self, inner: Step, history: &Vec<Message>, input: &StringMap) -> (r: Step)
        ensures
            r@ == after_first(
                inner@,
                self.template_spec(),
                user_prompt(self.chain2.template_spec(), input@),
                messages_view(history@),
            ),
    {
        match inner {
            Step::Generate(stage, batch) => Step::Generate(Stage::First(Box::new(stage)), batch),
            Step::Score(stage, list) => Step::Score(Stage::First(Box::new(stage)), list),
            Step::Fail => Step::Fail,
            Step::Done(previous) => {
                if previous.text.len() == 0 {
                    return Step::Fail;
                }
                let question = match self.chain2.prepare_prompt(input) {
                    Some(q) => q,
                    None => {
                        return Step::Fail;
                    },
                };
                let mut values: StringMap = StrMap::new();
                values.insert("previous_output".to_owned(), previous.text[0].content.clone());
                values.insert("question".to_owned(), question.content);
                match self.get_prompt_template().format(&values) {
                    None => Step::Fail,
                    Some(text) => {
                        let prompt = Message { role: "user".to_owned(), content: text };
                        send_single(Stage::Joined, history, Some(prompt))
                    },
                }
            },
        }
    }
}

impl<Chain1: Chain, Chain2: Chain> Chain for SeqChain<Chain1, Chain2> {
    open spec fn input_keys_spec(&self) -> Seq<Seq<char>> {
        self.chain2.input_keys_spec() + self.chain1.input_keys_spec()
    }

    open spec fn output_keys_spec(&self) -> Seq<Seq<char>> {
        self.chain2.output_keys_spec()
    }

    open spec fn template_spec(&self) -> TemplateView {
        match self.prompt_template {
            Some(t) => t@,
            None => parse_spec(default_join_source()),
        }
    }

    open spec fn output_spec(&self, generation: GenerationView) -> Option<
        Seq<(Seq<char>, MessageView)>,
    > {
        self.chain2.output_spec(generation)
    }

    open spec fn begin_spec(
        &self,
        history: Seq<MessageView>,
        input: Seq<(Seq<char>, Seq<char>)>,
    ) -> StepView {
        after_first(
            self.chain1.begin_spec(history, input),
            self.template_spec(),
            user_prompt(self.chain2.template_spec(), input),
            history,
        )
    }

    open spec fn resume_spec(
        &self,
        stage: Stage,
        history: Seq<MessageView>,
        input: Seq<(Seq<char>, Seq<char>)>,
        event: EventView,
    ) -> StepView {
        match stage {
            Stage::First(inner) => after_first(
                self.chain1.resume_spec(*inner, history, input, event),
                self.template_spec(),
                user_prompt(self.chain2.template_spec(), input),
                history,
            ),
            Stage::Joined => finish(stage, Stage::Joined, event),
            _ => StepView::Fail,
        }
    }

    fn get_input_keys(&self) -> (r: Vec<String>) {
        let mut keys = self.chain2.get_input_keys();
        let mut more = self.chain1.get_input_keys();
        let ghost a = texts(keys@);
        let ghost b = texts(more@);
        keys.append(&mut more);
        assert(texts(keys@) =~= a + b);
        keys
    }

    fn get_output_keys(&self) -> (r: Vec<String>) {
        self.chain2.get_output_keys()
    }

    fn get_prompt_template(&self) -> (r: PromptTemplate) {
        match &self.prompt_template {
            Some(t) => t.clone(),
            None => PromptTemplate::parse_from_string(
                "background: {previous_output}\n\nquestion: {question}",
            ),
        }
    }

    fn create_output(&self, generation: Generation) -> (r: Option<StrMap<Message>>) {
        self.chain2.create_output(generation)
    }

    fn begin(&self, history: &Vec<Message>, input: &StringMap) -> (r: Step) {
        let inner = self.chain1.begin(history, input);
        self.follow(inner, history, input)
    }

    fn resume(&self, stage: Stage, history: &Vec<Message>, input: &StringMap, event: Event) -> (r:
        Step) {
        match stage {
            Stage::First(inner) => {
                let step = self.chain1.resume(*inner, history, input, event);
                self.follow(step, history, input)
            },
            Stage::Joined => finish_with(Stage::Joined, Stage::Joined, event),
            _ => Step::Fail,
        }
    }
}

} // verus!

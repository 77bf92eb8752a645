//! The plain chain: one template, one call.

use crate::chain::{
    answer_of, answer_output, finish, finish_with, send_single, single_turn, user_prompt, Chain,
    Event, EventView, Stage, Step, StepView,
};
use crate::prompt_template::{parse_spec, PromptTemplate, TemplateView};
use crate::schema::{Generation, GenerationView, Message, MessageView};
use crate::str_map::{keys_of, StrMap, StringMap};
use crate::text::texts;
use vstd::prelude::*;

verus! {

/// Fills its template with the inputs and asks the backend once. Without a
/// template of its own it sends the input `question` as it is.
#[derive(Debug, PartialEq, Eq)]
pub struct LLMChain {
    pub prompt_template: Option<PromptTemplate>,
}

impl LLMChain {
    /// A chain with the given template; `None` for the template `{question}`.
    pub fn new(prompt_template: Option<PromptTemplate>) -> (r: Self)
        ensures
            r.prompt_template == prompt_template,
    {
        LLMChain { prompt_template }
    }
}

impl Chain for LLMChain {
    open spec fn input_keys_spec(&self) -> Seq<Seq<char>> {
        match self.prompt_template {
            Some(t) => keys_of(t@.vars),
            None => seq!["question"@],
        }
    }

    open spec fn output_keys_spec(&self) -> Seq<Seq<char>> {
        seq!["answer"@]
    }

    open spec fn template_spec(&self) -> TemplateView {
        match self.prompt_template {
            Some(t) => t@,
            None => parse_spec("{question}"@),
        }
    }

    open spec fn output_spec(&self, generation: GenerationView) -> Option<
        Seq<(Seq<char>, MessageView)>,
    > {
        answer_output(generation)
    }

    open spec fn begin_spec(
        &self,
        history: Seq<MessageView>,
        input: Seq<(Seq<char>, Seq<char>)>,
    ) -> StepView {
        single_turn(Stage::Single, history, user_prompt(self.template_spec(), input))
    }

    open spec fn resume_spec(
        &self,
        stage: Stage,
        history: Seq<MessageView>,
        input: Seq<(Seq<char>, Seq<char>)>,
        event: EventView,
    ) -> StepView {
        finish(stage, Stage::Single, event)
    }

    fn get_input_keys(&self) -> (r: Vec<String>) {
        match &self.prompt_template {
            Some(t) => t.variable_names(),
            None => {
                let mut keys: Vec<String> = Vec::new();
                keys.push("question".to_owned());
                assert(texts(keys@) =~= seq!["question"@]);
                keys
            },
        }
    }

    fn get_output_keys(&self) -> (r: Vec<String>) {
        let mut keys: Vec<String> = Vec::new();
        keys.push("answer".to_owned());
        assert(texts(keys@) =~= seq!["answer"@]);
        keys
    }

    fn get_prompt_template(&self) -> (r: PromptTemplate) {
        match &self.prompt_template {
            Some(t) => t.clone(),
            None => PromptTemplate::parse_from_string("{question}"),
        }
    }

    fn create_output(&self, generation: Generation) -> (r: Option<StrMap<Message>>) {
        answer_of(generation)
    }

    fn begin(&self, history: &Vec<Message>, input: &StringMap) -> (r: Step) {
        send_single(Stage::Single, history, self.prepare_prompt(input))
    }

    fn resume(&self, stage: Stage, history: &Vec<Message>, input: &StringMap, event: Event) -> (r:
        Step) {
        finish_with(stage, Stage::Single, event)
    }
}

} // verus!

//! A chain that speaks as a given character to a given person.

use crate::chain::{
    answer_of, answer_output, finish, finish_with, send_single, single_turn, user_prompt, Chain,
    Event, EventView, Stage, Step, StepView,
};
use crate::prompt_template::{parse_spec, PromptTemplate, TemplateView};
use crate::schema::{Generation, GenerationView, Message, MessageView};
use crate::str_map::{keys_of, StrMap, StringMap};
use crate::text::texts;
use vstd::prelude::*;
use vstd::string::StringExecFns;

verus! {

/// Who the model is to be, and whom it speaks to.
#[derive(Debug, PartialEq, Eq)]
pub struct Character {
    pub user_info: String,
    pub bot_info: String,
    pub bot_name: String,
    pub user_name: String,
}

/// An [`crate::chain::llm_chain::LLMChain`] whose template, where it has none
/// of its own, describes the character before it asks the `question`.
#[derive(Debug, PartialEq, Eq)]
pub struct CharacterChain {
    pub character: Character,
    pub prompt_template: Option<PromptTemplate>,
}

/// The source of the template that describes `c`. The four texts go in as
/// they are, so braces in them are read as the template's own.
pub open spec fn persona_source(c: Character) -> Seq<char> {
    "
you need to act like "@ + c.bot_name@
        + "
this character has following information you MUST to take care
"@
        + c.bot_info@ + "

the person you speek to is "@ + c.user_name@
        + "
the person you speek to has following information 
"@
        + c.user_info@ + "

{question}"@
}

impl CharacterChain {
    /// A chain for the given character; `None` for the template that describes it.
    pub fn new(character: Character, prompt_template: Option<PromptTemplate>) -> (r: Self)
        ensures
            r.character == character,
            r.prompt_template == prompt_template,
    {
        CharacterChain { character, prompt_template }
    }
}

impl Chain for CharacterChain {
    open spec fn input_keys_spec(&self) -> Seq<Seq<char>> {
        match self.prompt_template {
            Some(t) => keys_of(t@.vars),
            None => seq!["question"@],
        }
    }

    open spec fn output_keys_spec(&self) -> Seq<Seq<char>> {
        seq!["answer"@]
    }

    open spec fn template_spec(&self) -> TemplateView {
        match self.prompt_template {
            Some(t) => t@,
            None => parse_spec(persona_source(self.character)),
        }
    }

    open spec fn output_spec(&self, generation: GenerationView) -> Option<
        Seq<(Seq<char>, MessageView)>,
    > {
        answer_output(generation)
    }

    open spec fn begin_spec(
        &self,
        history: Seq<MessageView>,
        input: Seq<(Seq<char>, Seq<char>)>,
    ) -> StepView {
        single_turn(Stage::Single, history, user_prompt(self.template_spec(), input))
    }

    open spec fn resume_spec(
        &self,
        stage: Stage,
        history: Seq<MessageView>,
        input: Seq<(Seq<char>, Seq<char>)>,
        event: EventView,
    ) -> StepView {
        finish(stage, Stage::Single, event)
    }

    fn get_input_keys(&self) -> (r: Vec<String>) {
        match &self.prompt_template {
            Some(t) => t.variable_names(),
            None => {
                let mut keys: Vec<String> = Vec::new();
                keys.push("question".to_owned());
                assert(texts(keys@) =~= seq!["question"@]);
                keys
            },
        }
    }

    fn get_output_keys(&self) -> (r: Vec<String>) {
        let mut keys: Vec<String> = Vec::new();
        keys.push("answer".to_owned());
        assert(texts(keys@) =~= seq!["answer"@]);
        keys
    }

    fn get_prompt_template(&self) -> (r: PromptTemplate) {
        match &self.prompt_template {
            Some(t) => t.clone(),
            None => {
                let source = "
you need to act like ".to_owned();
                let source = source.concat(self.character.bot_name.as_str());
                let source = source.concat(
                    "
this character has following information you MUST to take care
",
                );
                let source = source.concat(self.character.bot_info.as_str());
                let source = source.concat("

the person you speek to is ");
                let source = source.concat(self.character.user_name.as_str());
                let source = source.concat(
                    "
the person you speek to has following information 
",
                );
                let source = source.concat(self.character.user_info.as_str());
                let source = source.concat("

{question}");
                PromptTemplate::parse_from_string(source.as_str())
            },
        }
    }

    fn create_output(&self, generation: Generation) -> (r: Option<StrMap<Message>>) {
        answer_of(generation)
    }

    fn begin(&self, history: &Vec<Message>, input: &StringMap) -> (r: Step) {
        send_single(Stage::Single, history, self.prepare_prompt(input))
    }

    fn resume(&self, stage: Stage, history: &Vec<Message>, input: &StringMap, event: Event) -> (r:
        Step) {
        finish_with(stage, Stage::Single, event)
    }
}

} // verus!

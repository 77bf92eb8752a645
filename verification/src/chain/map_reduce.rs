//! Map, then reduce: one call for each indexed sub-input, then one call that
//! is shown all their answers.

use crate::chain::fan_out::{
    append_lines, first_answers, gather_answers, join_lines, map_phase, rest_inputs, split_inputs,
    start_map,
};
use crate::chain::{
    answer_of, answer_output, finish, finish_with, send_single, single_turn, user_prompt, Chain,
    Event, EventView, Stage, Step, StepView,
};
use crate::prompt_template::{PromptTemplate, TemplateView};
use crate::schema::{Generation, GenerationView, Message, MessageView};
use crate::str_map::{StrMap, StringMap};
use vstd::prelude::*;

verus! {

/// The inputs whose keys are indexes each hold a sub-input, as a JSON object
/// of strings. The map chain's template is filled from each sub-input and sent
/// on its own; the reduce chain's template is filled from the other inputs,
/// and the answers of the map phase go below it, one per line, in the order of
/// the sub-inputs' keys.
#[derive(Debug, PartialEq, Eq)]
pub struct MapReduceChain<MapChain: Chain, ReduceChain: Chain> {
    pub map_chain: MapChain,
    pub reduce_chain: ReduceChain,
}

/// The reducing call: the reduce prompt for the ordinary inputs, and below it
/// the first candidate of each generation, in order.
pub open spec fn reduce_phase(
    t: TemplateView,
    history: Seq<MessageView>,
    input: Seq<(Seq<char>, Seq<char>)>,
    expected: usize,
    g: Seq<GenerationView>,
) -> StepView {
    if g.len() != expected {
        StepView::Fail
    } else {
        match (first_answers(g, g.len()), user_prompt(t, rest_inputs(input, input.len()))) {
            (Some(a), Some(p)) => single_turn(
                Stage::Reducing,
                history,
                Some(
                    MessageView {
                        role: p.role,
                        content: p.content + seq!['\n'] + join_lines(a, a.len()),
                    },
                ),
            ),
            _ => StepView::Fail,
        }
    }
}

impl<MapChain: Chain, ReduceChain: Chain> Chain for MapReduceChain<MapChain, ReduceChain> {
    open spec fn input_keys_spec(&self) -> Seq<Seq<char>> {
        self.map_chain.input_keys_spec()
    }

    open spec fn output_keys_spec(&self) -> Seq<Seq<char>> {
        self.reduce_chain.output_keys_spec()
    }

    open spec fn template_spec(&self) -> TemplateView {
        self.map_chain.template_spec()
    }

    open spec fn output_spec(&self, generation: GenerationView) -> Option<
        Seq<(Seq<char>, MessageView)>,
    > {
        answer_output(generation)
    }

    open spec fn begin_spec(
        &self,
        history: Seq<MessageView>,
        input: Seq<(Seq<char>, Seq<char>)>,
    ) -> StepView {
        map_phase(self.map_chain.template_spec(), input)
    }

    open spec fn resume_spec(
        &self,
        stage: Stage,
        history: Seq<MessageView>,
        input: Seq<(Seq<char>, Seq<char>)>,
        event: EventView,
    ) -> StepView {
        match stage {
            Stage::Mapped(n) => match event {
                EventView::Generated(g) => reduce_phase(
                    self.reduce_chain.template_spec(),
                    history,
                    input,
                    n,
                    g,
                ),
                _ => StepView::Fail,
            },
            Stage::Reducing => finish(stage, Stage::Reducing, event),
            _ => StepView::Fail,
        }
    }

    fn get_input_keys(&self) -> (r: Vec<String>) {
        self.map_chain.get_input_keys()
    }

    fn get_output_keys(&self) -> (r: Vec<String>) {
        self.reduce_chain.get_output_keys()
    }

    fn get_prompt_template(&self) -> (r: PromptTemplate) {
        self.map_chain.get_prompt_template()
    }

    fn create_output(&self, generation: Generation) -> (r: Option<StrMap<Message>>) {
        answer_of(generation)
    }

    fn begin(&self, history: &Vec<Message>, input: &StringMap) -> (r: Step) {
        start_map(&self.map_chain, input)
    }

    fn resume(&self, stage: Stage, history: &Vec<Message>, input: &StringMap, event: Event) -> (r:
        Step) {
        match stage {
            Stage::Mapped(n) => match event {
                Event::Generated(g) => {
                    if g.len() != n {
                        return Step::Fail;
                    }
                    let answers = match gather_answers(&g) {
                        Some(a) => a,
                        None => {
                            return Step::Fail;
                        },
                    };
                    let (_subs, rest) = split_inputs(input);
                    let prompt = match self.reduce_chain.prepare_prompt(&rest) {
                        Some(p) => p,
                        None => {
                            return Step::Fail;
                        },
                    };
                    let content = append_lines(prompt.content.as_str(), &answers);
                    let full = Message { role: prompt.role, content };
                    send_single(Stage::Reducing, history, Some(full))
                },
                Event::Scored(_) => Step::Fail,
            },
            Stage::Reducing => finish_with(Stage::Reducing, Stage::Reducing, event),
            _ => Step::Fail,
        }
    }
}

} // verus!

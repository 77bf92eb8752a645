use limitchain::chain::character_chain::{Character, CharacterChain};
use limitchain::chain::fan_out::{append_lines, parses_as_index, split_inputs};
use limitchain::chain::llm_chain::LLMChain;
use limitchain::chain::map_reduce::MapReduceChain;
use limitchain::chain::map_rerank::MapRerankChain;
use limitchain::chain::seq_chain::SeqChain;
use limitchain::chain::{Chain, Event, Scored, Stage, Step};
use limitchain::prompt_template::PromptTemplate;
use limitchain::schema::{Generation, Message};
use limitchain::str_map::StringMap;

fn map_of(pairs: &[(&str, &str)]) -> StringMap {
    let mut m = StringMap::new();
    for (k, v) in pairs {
        m.insert(k.to_string(), v.to_string());
    }
    m
}

fn msg(role: &str, content: &str) -> Message {
    Message {
        role: role.to_string(),
        content: content.to_string(),
    }
}

fn gen(content: &str) -> Generation {
    Generation {
        text: vec![msg("assistant", content)],
        info: None,
    }
}

fn template(source: &str) -> Option<PromptTemplate> {
    Some(PromptTemplate::from(source.to_string()))
}

/// A number that orders scores as the scores are ordered.
fn rank(score: f64) -> i64 {
    let bits = score.to_bits() as i64;
    bits ^ ((((bits >> 63) as u64) >> 1) as i64)
}

/// Reads `{"score": .., "doc": ..}` far enough for these tests.
fn read_score(text: &str) -> Option<Scored> {
    let value: serde_json::Value = serde_json::from_str(text).ok()?;
    let score = value.get("score")?.as_f64()?;
    Some(Scored {
        score: rank(score),
        doc: serde_json::to_string(&value).ok()?,
    })
}

/// Drives a chain to its end. The backend sees every call and answers it.
fn run<C: Chain>(
    chain: &C,
    history: &Vec<Message>,
    input: &StringMap,
    backend: &mut dyn FnMut(&Vec<Message>) -> Generation,
) -> Option<Generation> {
    let mut step = chain.begin(history, input);
    loop {
        step = match step {
            Step::Done(g) => return Some(g),
            Step::Fail => return None,
            Step::Generate(stage, batch) => {
                let answers = batch.iter().map(|m| backend(m)).collect();
                chain.resume(stage, history, input, Event::Generated(answers))
            }
            Step::Score(stage, texts) => {
                let readings = texts.iter().map(|t| read_score(t)).collect();
                chain.resume(stage, history, input, Event::Scored(readings))
            }
        }
    }
}

#[test]
fn a_plain_chain_sends_history_and_prompt() {
    let chain = LLMChain::new(template("Q: {question}"));
    let history = vec![msg("user", "hi"), msg("assistant", "hello")];
    let input = map_of(&[("question", "What is human?")]);
    assert_eq!(chain.get_input_keys(), vec!["question".to_string()]);
    assert_eq!(chain.get_output_keys(), vec!["answer".to_string()]);
    assert_eq!(
        chain.prepare_prompt(&input),
        Some(msg("user", "Q: What is human?"))
    );
    let step = chain.begin(&history, &input);
    assert_eq!(
        step,
        Step::Generate(
            Stage::Single,
            vec![vec![
                msg("user", "hi"),
                msg("assistant", "hello"),
                msg("user", "Q: What is human?")
            ]]
        )
    );
    let done = chain.resume(
        Stage::Single,
        &history,
        &input,
        Event::Generated(vec![gen("a being")]),
    );
    assert_eq!(done, Step::Done(gen("a being")));
    let out = chain.create_output(gen("a being")).unwrap();
    assert_eq!(out.len(), 1);
    assert_eq!(out.get("answer"), Some(&msg("assistant", "a being")));
}

#[test]
fn a_plain_chain_without_template_sends_the_question() {
    let chain = LLMChain::new(None);
    assert_eq!(chain.get_input_keys(), vec!["question".to_string()]);
    assert_eq!(
        chain.get_prompt_template(),
        PromptTemplate::from("{question}".to_string())
    );
    assert_eq!(
        chain.begin(&vec![], &map_of(&[("question", "why?")])),
        Step::Generate(Stage::Single, vec![vec![msg("user", "why?")]])
    );
}

#[test]
fn a_chain_fails_where_its_prompt_cannot_be_made() {
    let chain = LLMChain::new(template("{question}"));
    assert_eq!(chain.prepare_prompt(&map_of(&[])), None);
    assert_eq!(chain.begin(&vec![], &map_of(&[])), Step::Fail);
}

#[test]
fn a_chain_fails_on_an_outcome_that_does_not_fit() {
    let chain = LLMChain::new(None);
    let input = map_of(&[("question", "why?")]);
    let h = vec![];
    assert_eq!(
        chain.resume(Stage::Joined, &h, &input, Event::Generated(vec![gen("x")])),
        Step::Fail
    );
    assert_eq!(
        chain.resume(Stage::Single, &h, &input, Event::Generated(vec![])),
        Step::Fail
    );
    assert_eq!(
        chain.resume(
            Stage::Single,
            &h,
            &input,
            Event::Generated(vec![gen("x"), gen("y")])
        ),
        Step::Fail
    );
    assert_eq!(
        chain.resume(Stage::Single, &h, &input, Event::Scored(vec![])),
        Step::Fail
    );
    // a generation without candidate gives no output
    assert_eq!(
        chain.create_output(Generation {
            text: vec![],
            info: None
        }),
        None
    );
}

#[test]
fn a_character_chain_describes_the_character() {
    let chain = CharacterChain::new(
        Character {
            user_info: "likes games".to_string(),
            bot_info: "a knight".to_string(),
            bot_name: "Lancelot".to_string(),
            user_name: "akarachan".to_string(),
        },
        None,
    );
    assert_eq!(chain.get_input_keys(), vec!["question".to_string()]);
    let prompt = chain
        .prepare_prompt(&map_of(&[("question", "who are you?")]))
        .unwrap();
    assert_eq!(prompt.role, "user");
    assert_eq!(
        prompt.content,
        "
you need to act like Lancelot
this character has following information you MUST to take care
a knight

the person you speek to is akarachan
the person you speek to has following information 
likes games

who are you?"
    );
    let own = CharacterChain::new(
        Character {
            user_info: "".to_string(),
            bot_info: "".to_string(),
            bot_name: "".to_string(),
            user_name: "".to_string(),
        },
        template("{a} {b}"),
    );
    assert_eq!(
        own.get_input_keys(),
        vec!["a".to_string(), "b".to_string()]
    );
}

#[test]
fn a_sequence_joins_the_first_answer_with_the_second_question() {
    let chain = SeqChain::new(
        None,
        LLMChain::new(template("{question1}")),
        LLMChain::new(template("{question2}")),
    );
    assert_eq!(
        chain.get_input_keys(),
        vec!["question2".to_string(), "question1".to_string()]
    );
    assert_eq!(chain.get_output_keys(), vec!["answer".to_string()]);
    let input = map_of(&[
        ("question1", "what does RFC mean?"),
        ("question2", "write a brief summary of that"),
    ]);
    let history = vec![msg("system", "be brief")];
    let mut calls: Vec<Vec<Message>> = vec![];
    let result = run(&chain, &history, &input, &mut |messages| {
        calls.push(messages.clone());
        gen(if calls.len() == 1 {
            "request for comments"
        } else {
            "RFC: a memo"
        })
    });
    assert_eq!(result, Some(gen("RFC: a memo")));
    assert_eq!(calls.len(), 2);
    assert_eq!(
        calls[0],
        vec![msg("system", "be brief"), msg("user", "what does RFC mean?")]
    );
    assert_eq!(
        calls[1],
        vec![
            msg("system", "be brief"),
            msg(
                "user",
                "background: request for comments\n\nquestion: write a brief summary of that"
            )
        ]
    );
}

#[test]
fn a_sequence_fails_with_its_parts() {
    let chain = SeqChain::new(
        template("{previous_output} / {question} / {more}"),
        LLMChain::new(template("{question1}")),
        LLMChain::new(template("{question2}")),
    );
    // the first chain cannot make its prompt
    assert_eq!(
        chain.begin(&vec![], &map_of(&[("question2", "b")])),
        Step::Fail
    );
    // the second chain cannot make its prompt: the first call goes out, then the run fails
    let input = map_of(&[("question1", "a")]);
    let mut n = 0;
    assert_eq!(
        run(&chain, &vec![], &input, &mut |_| {
            n += 1;
            gen("x")
        }),
        None
    );
    assert_eq!(n, 1);
    // the join template wants a variable that is not there
    let input = map_of(&[("question1", "a"), ("question2", "b")]);
    assert_eq!(run(&chain, &vec![], &input, &mut |_| gen("x")), None);
    // the first answer holds no candidate
    let chain = SeqChain::new(
        None,
        LLMChain::new(template("{question1}")),
        LLMChain::new(template("{question2}")),
    );
    assert_eq!(
        run(&chain, &vec![], &input, &mut |_| Generation {
            text: vec![],
            info: None
        }),
        None
    );
}

#[test]
fn sequences_nest() {
    let inner = SeqChain::new(
        template("{previous_output}+{question}"),
        LLMChain::new(template("{a}")),
        LLMChain::new(template("{b}")),
    );
    let outer = SeqChain::new(
        template("{previous_output}*{question}"),
        inner,
        LLMChain::new(template("{c}")),
    );
    let input = map_of(&[("a", "1"), ("b", "2"), ("c", "3")]);
    let mut seen: Vec<String> = vec![];
    let result = run(&outer, &vec![], &input, &mut |messages| {
        let prompt = messages.last().unwrap().content.clone();
        seen.push(prompt.clone());
        gen(&format!("<{}>", prompt))
    });
    assert_eq!(seen, vec!["1", "<1>+2", "<<1>+2>*3"]);
    assert_eq!(result, Some(gen("<<<1>+2>*3>")));
    assert_eq!(
        outer.begin(&vec![], &input),
        Step::Generate(
            Stage::First(Box::new(Stage::First(Box::new(Stage::Single)))),
            vec![vec![msg("user", "1")]]
        )
    );
}

#[test]
fn map_reduce_keeps_the_order_of_the_sub_inputs() {
    let chain = MapReduceChain {
        map_chain: LLMChain::new(template("{question}")),
        reduce_chain: LLMChain::new(template("{question}")),
    };
    let input = map_of(&[
        ("question", "tie these together:"),
        ("0", r#"{"question": "A"}"#),
        ("1", r#"{"question": "B"}"#),
        ("2", r#"{"question": "C"}"#),
    ]);
    let history = vec![msg("system", "s")];
    let step = chain.begin(&history, &input);
    assert_eq!(
        step,
        Step::Generate(
            Stage::Mapped(3),
            vec![
                vec![msg("user", "A")],
                vec![msg("user", "B")],
                vec![msg("user", "C")]
            ]
        )
    );
    let step = chain.resume(
        Stage::Mapped(3),
        &history,
        &input,
        Event::Generated(vec![gen("result of A"), gen("result of B"), gen("result of C")]),
    );
    assert_eq!(
        step,
        Step::Generate(
            Stage::Reducing,
            vec![vec![
                msg("system", "s"),
                msg(
                    "user",
                    "tie these together:\nresult of A\nresult of B\nresult of C"
                )
            ]]
        )
    );
    let step = chain.resume(
        Stage::Reducing,
        &history,
        &input,
        Event::Generated(vec![gen("ABC")]),
    );
    assert_eq!(step, Step::Done(gen("ABC")));
    let mut n = 0;
    assert_eq!(
        run(&chain, &history, &input, &mut |_| {
            n += 1;
            gen("x")
        }),
        Some(gen("x"))
    );
    assert_eq!(n, 4);
}

#[test]
fn map_reduce_skips_a_sub_input_that_cannot_be_read() {
    let chain = MapReduceChain {
        map_chain: LLMChain::new(template("{question}")),
        reduce_chain: LLMChain::new(template("{question} {1:\"\"} {2:\"-\"}")),
    };
    let input = map_of(&[
        ("question", "Q"),
        ("1", "not json"),
        ("2", r#"{"question": "B"}"#),
        ("x3", r#"{"question": "C"}"#),
    ]);
    let (subs, rest) = split_inputs(&input);
    assert_eq!(subs, vec![map_of(&[("question", "B")])]);
    assert_eq!(
        rest,
        map_of(&[
            ("question", "Q"),
            ("1", "not json"),
            ("x3", r#"{"question": "C"}"#)
        ])
    );
    assert_eq!(
        chain.begin(&vec![], &input),
        Step::Generate(Stage::Mapped(1), vec![vec![msg("user", "B")]])
    );
    // the binding that could not be read is still an input of the reduce prompt
    assert_eq!(
        chain.resume(
            Stage::Mapped(1),
            &vec![],
            &input,
            Event::Generated(vec![gen("b")])
        ),
        Step::Generate(
            Stage::Reducing,
            vec![vec![msg("user", "Q not json -\nb")]]
        )
    );
}

#[test]
fn map_reduce_without_sub_inputs_still_reduces() {
    let chain = MapReduceChain {
        map_chain: LLMChain::new(template("{question}")),
        reduce_chain: LLMChain::new(template("{question}")),
    };
    let input = map_of(&[("question", "Q")]);
    assert_eq!(
        chain.begin(&vec![], &input),
        Step::Generate(Stage::Mapped(0), vec![])
    );
    assert_eq!(
        chain.resume(Stage::Mapped(0), &vec![], &input, Event::Generated(vec![])),
        Step::Generate(Stage::Reducing, vec![vec![msg("user", "Q\n")]])
    );
}

#[test]
fn map_reduce_fails_where_a_part_is_missing() {
    let chain = MapReduceChain {
        map_chain: LLMChain::new(template("{question}")),
        reduce_chain: LLMChain::new(template("{question}")),
    };
    // a sub-input without the variable of the map template
    let input = map_of(&[("question", "Q"), ("1", r#"{"other": "A"}"#)]);
    assert_eq!(chain.begin(&vec![], &input), Step::Fail);
    let input = map_of(&[("question", "Q"), ("1", r#"{"question": "A"}"#)]);
    // fewer answers than calls
    assert_eq!(
        chain.resume(Stage::Mapped(1), &vec![], &input, Event::Generated(vec![])),
        Step::Fail
    );
    // an answer without candidate
    assert_eq!(
        chain.resume(
            Stage::Mapped(1),
            &vec![],
            &input,
            Event::Generated(vec![Generation {
                text: vec![],
                info: None
            }])
        ),
        Step::Fail
    );
    // no input for the reduce template
    let input = map_of(&[("1", r#"{"question": "A"}"#)]);
    assert_eq!(
        chain.resume(
            Stage::Mapped(1),
            &vec![],
            &input,
            Event::Generated(vec![gen("a")])
        ),
        Step::Fail
    );
}

#[test]
fn keys_that_read_as_numbers_are_indexes() {
    for k in ["0", "1", "007", "+5", "18446744073709551615"] {
        assert_eq!(parses_as_index(k), k.parse::<usize>().is_ok(), "{}", k);
        assert!(parses_as_index(k), "{}", k);
    }
    for k in [
        "", "+", "-", "-1", "1a", "a1", " 1", "1 ", "1.0", "１", "++1",
        "18446744073709551616", "99999999999999999999999",
    ] {
        assert_eq!(parses_as_index(k), k.parse::<usize>().is_ok(), "{}", k);
        assert!(!parses_as_index(k), "{}", k);
    }
}

#[test]
fn lines_are_joined_in_order() {
    assert_eq!(append_lines("head", &vec![]), "head\n");
    assert_eq!(append_lines("head", &vec!["a".to_string()]), "head\na");
    assert_eq!(
        append_lines("", &vec!["a".to_string(), "".to_string(), "c".to_string()]),
        "\na\n\nc"
    );
}

#[test]
fn map_rerank_returns_the_candidate_with_the_highest_score() {
    let chain = MapRerankChain {
        prompt_template: None,
        map_chain: LLMChain::new(template("{question}")),
    };
    assert_eq!(
        chain.get_input_keys(),
        vec!["question".to_string(), "question".to_string()]
    );
    assert_eq!(
        chain.get_output_keys(),
        vec!["answer".to_string(), "score".to_string()]
    );
    let input = map_of(&[
        ("question", "what is a computer program"),
        ("1", r#"{"question": "What is human?"}"#),
        ("2", r#"{"question": "What is iphone?"}"#),
        ("3", r#"{"question": "What is programmer?"}"#),
    ]);
    let scores = [0.2, 0.9, 0.5];
    let mut calls: Vec<String> = vec![];
    let result = run(&chain, &vec![msg("system", "unused")], &input, &mut |messages| {
        assert_eq!(messages.len(), 1);
        let n = calls.len();
        calls.push(messages[0].content.clone());
        if n < 3 {
            gen(&format!("answer {}", n))
        } else {
            gen(&format!(
                "{{\"score\": {}, \"doc\": \"answer {}\"}}",
                scores[n - 3],
                n - 3
            ))
        }
    });
    assert_eq!(calls.len(), 6);
    assert_eq!(calls[0], "What is human?");
    assert_eq!(calls[2], "What is programmer?");
    assert_eq!(
        calls[4],
        "score the relativeness of the document to the answer from 0.0 to 1.0
Question: what is a computer program
Doc: answer 1

output format: {\"score\": your score goes here, \"doc\": copy the Doc above }
for example: {\"score\": 0.5, \"doc\": \"blablabla\"}"
    );
    assert_eq!(
        result,
        Some(gen(
            &serde_json::to_string(
                &serde_json::from_str::<serde_json::Value>(
                    "{\"score\": 0.9, \"doc\": \"answer 1\"}"
                )
                .unwrap()
            )
            .unwrap()
        ))
    );
}

fn scored(score: f64, doc: &str) -> Option<Scored> {
    Some(Scored {
        score: rank(score),
        doc: doc.to_string(),
    })
}

#[test]
fn ranking_picks_the_first_of_the_best() {
    let chain = MapRerankChain {
        prompt_template: None,
        map_chain: LLMChain::new(None),
    };
    let input = map_of(&[]);
    let h = vec![];
    let pick = |readings: Vec<Option<Scored>>| {
        chain.resume(
            Stage::Ranking(readings.len()),
            &h,
            &input,
            Event::Scored(readings),
        )
    };
    assert_eq!(
        pick(vec![scored(0.2, "a"), scored(0.9, "b"), scored(0.5, "c")]),
        Step::Done(gen("b"))
    );
    assert_eq!(
        pick(vec![scored(0.9, "a"), scored(0.9, "b"), scored(0.5, "c")]),
        Step::Done(gen("a"))
    );
    assert_eq!(
        pick(vec![scored(-1.0, "a"), scored(-0.5, "b"), scored(-2.0, "c")]),
        Step::Done(gen("b"))
    );
    assert_eq!(pick(vec![scored(0.0, "only")]), Step::Done(gen("only")));
    // one answer that cannot be read spoils the run; so does having none
    assert_eq!(pick(vec![scored(0.2, "a"), None]), Step::Fail);
    assert_eq!(pick(vec![]), Step::Fail);
    // as many readings as scoring calls
    assert_eq!(
        chain.resume(
            Stage::Ranking(2),
            &h,
            &input,
            Event::Scored(vec![scored(0.2, "a")])
        ),
        Step::Fail
    );
}

#[test]
fn map_rerank_fails_without_a_question_or_a_readable_score() {
    let chain = MapRerankChain {
        prompt_template: None,
        map_chain: LLMChain::new(template("{q}")),
    };
    let input = map_of(&[("1", r#"{"q": "A"}"#)]);
    assert_eq!(
        chain.resume(
            Stage::Mapped(1),
            &vec![],
            &input,
            Event::Generated(vec![gen("a")])
        ),
        Step::Fail
    );
    let input = map_of(&[("question", "Q"), ("1", r#"{"q": "A"}"#)]);
    assert_eq!(
        run(&chain, &vec![], &input, &mut |_| gen("no json")),
        None
    );
    // the answers to the scoring calls go to be read as they are
    assert_eq!(
        chain.resume(
            Stage::Scoring(1),
            &vec![],
            &input,
            Event::Generated(vec![gen("{\"score\": 1}")])
        ),
        Step::Score(Stage::Ranking(1), vec!["{\"score\": 1}".to_string()])
    );
}

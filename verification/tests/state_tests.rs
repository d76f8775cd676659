use promptoml::condition::Condition;
use promptoml::error::Error;
use promptoml::eval::Context;
use promptoml::goto::Goto;
use promptoml::num::Num;
use promptoml::parser::{parse, Expr};
use promptoml::config::{load, StateConfig};
use promptoml::prompt::{
    bind_reply, prompt_options, ConfirmPrompt, MultiSelectPrompt, Prompt, PromptKind, PromptReply,
    PromptType, SelectPrompt, TextPrompt,
};
use promptoml::state::{Node, State, StateMachine};
use promptoml::value::Value;

struct LinePrompt {
    line: String,
}

impl Prompt for LinePrompt {
    fn run(
        &mut self,
        _kind: PromptKind,
        _message: &str,
        _options: &Vec<String>,
    ) -> Result<PromptReply, Error> {
        Ok(PromptReply::Answer(self.line.clone()))
    }
}

fn node(name: &str, state: State) -> (String, Node) {
    (name.to_string(), Node { name: name.to_string(), state })
}

fn text_prompt(message: &str, to: &str) -> State {
    State::Prompt(
        PromptType::Text(TextPrompt { message: message.to_string() }),
        to.to_string(),
    )
}

#[test]
fn test_state_machine() {
    let nodes = vec![
        node("start", text_prompt("What is your name?", "end")),
        node("end", State::Done),
    ];
    let mut sm = StateMachine::new(nodes, Context::new(Vec::new()));
    let mut handler = LinePrompt { line: "Alice".to_string() };
    sm.run("start".to_string(), &mut handler).unwrap();
}

#[test]
fn test_prompt_binds_declared_name() {
    let nodes = vec![
        node("start", text_prompt("What is your name?", "end")),
        node("end", State::Done),
    ];
    let mut sm = StateMachine::new(nodes, Context::new(Vec::new()));
    let mut handler = LinePrompt { line: "Alice".to_string() };
    sm.run("start".to_string(), &mut handler).unwrap();
    let bound = sm
        .context
        .get_context()
        .iter()
        .find(|(k, _)| k == "start")
        .map(|(_, v)| v.clone());
    assert!(bound.unwrap().value_eq(&Value::String("Alice".to_string())));
}

#[test]
fn test_confirm_reads_case_insensitively() {
    let nodes = vec![
        node(
            "ask",
            State::Prompt(
                PromptType::Confirm(ConfirmPrompt { message: "Sure?".to_string() }),
                "end".to_string(),
            ),
        ),
        node("end", State::Done),
    ];
    let mut sm = StateMachine::new(nodes, Context::new(Vec::new()));
    let mut handler = LinePrompt { line: "YES".to_string() };
    sm.run("ask".to_string(), &mut handler).unwrap();
    let bound = sm
        .context
        .get_context()
        .iter()
        .find(|(k, _)| k == "ask")
        .map(|(_, v)| v.clone());
    assert!(bound.unwrap().value_eq(&Value::Boolean(true)));
}

#[test]
fn test_confirm_rejects_other_answers() {
    let nodes = vec![
        node(
            "ask",
            State::Prompt(
                PromptType::Confirm(ConfirmPrompt { message: "Sure?".to_string() }),
                "end".to_string(),
            ),
        ),
        node("end", State::Done),
    ];
    let mut sm = StateMachine::new(nodes, Context::new(Vec::new()));
    let mut handler = LinePrompt { line: "maybe".to_string() };
    let e = sm.run("ask".to_string(), &mut handler).unwrap_err();
    assert_eq!(
        e,
        Error::FailedToRunPrompt("Invalid confirmation response: maybe".to_string())
    );
}

#[test]
fn test_assign_and_condition_flow() {
    let nodes = vec![
        node("age", State::Assign(parse("21").unwrap(), "check".to_string())),
        node(
            "check",
            State::Condition(Condition {
                condition: parse("$age > 18").unwrap(),
                branches: vec![
                    ("true".to_string(), parse("'adult'").unwrap()),
                    ("false".to_string(), parse("'end'").unwrap()),
                ],
            }),
        ),
        node("adult", State::Assign(parse("true").unwrap(), "end".to_string())),
        node("end", State::Done),
    ];
    let mut sm = StateMachine::new(nodes, Context::new(Vec::new()));
    let mut handler = LinePrompt { line: String::new() };
    sm.run("age".to_string(), &mut handler).unwrap();
    let bound = sm
        .context
        .get_context()
        .iter()
        .find(|(k, _)| k == "adult")
        .map(|(_, v)| v.clone());
    assert!(bound.unwrap().value_eq(&Value::Boolean(true)));
}

#[test]
fn test_remove_clears_binding() {
    let nodes = vec![
        node("x", State::Assign(parse("1").unwrap(), "drop".to_string())),
        (
            "drop".to_string(),
            Node { name: "x".to_string(), state: State::Remove("end".to_string()) },
        ),
        node("end", State::Done),
    ];
    let mut sm = StateMachine::new(nodes, Context::new(Vec::new()));
    let mut handler = LinePrompt { line: String::new() };
    sm.run("x".to_string(), &mut handler).unwrap();
    assert!(sm.context.get_context().iter().all(|(k, _)| k != "x"));
}

#[test]
fn test_goto_follows_computed_target() {
    let nodes = vec![
        node("jump", State::Goto(Goto::new(parse("'end'").unwrap()))),
        node("end", State::Done),
    ];
    let mut sm = StateMachine::new(nodes, Context::new(Vec::new()));
    let mut handler = LinePrompt { line: String::new() };
    sm.run("jump".to_string(), &mut handler).unwrap();
}

#[test]
fn test_goto_target_must_be_string() {
    let nodes = vec![
        node("jump", State::Goto(Goto::new(Expr::Value(Value::Number(Num::new(1, 0)))))),
        node("end", State::Done),
    ];
    let mut sm = StateMachine::new(nodes, Context::new(Vec::new()));
    let mut handler = LinePrompt { line: String::new() };
    let e = sm.run("jump".to_string(), &mut handler).unwrap_err();
    assert_eq!(
        e,
        Error::InvalidTransition("Goto target must be a string".to_string())
    );
}

#[test]
fn test_invalid_start_node() {
    let nodes = vec![node("end", State::Done)];
    let mut sm = StateMachine::new(nodes, Context::new(Vec::new()));
    let mut handler = LinePrompt { line: String::new() };
    let e = sm.run("nowhere".to_string(), &mut handler).unwrap_err();
    assert_eq!(e, Error::InvalidTransition("Invalid start node: nowhere".to_string()));
}

#[test]
fn test_invalid_transition_from_prompt() {
    let nodes = vec![node("start", text_prompt("Name?", "missing"))];
    let mut sm = StateMachine::new(nodes, Context::new(Vec::new()));
    let mut handler = LinePrompt { line: "x".to_string() };
    let e = sm.run("start".to_string(), &mut handler).unwrap_err();
    assert_eq!(
        e,
        Error::InvalidTransition("Invalid transition from start to missing".to_string())
    );
}

#[test]
fn test_invalid_transition_from_assign() {
    let nodes = vec![node("a", State::Assign(parse("1").unwrap(), "missing".to_string()))];
    let mut sm = StateMachine::new(nodes, Context::new(Vec::new()));
    let mut handler = LinePrompt { line: String::new() };
    let e = sm.run("a".to_string(), &mut handler).unwrap_err();
    assert_eq!(
        e,
        Error::InvalidTransition("Invalid transition from a to missing".to_string())
    );
}

#[test]
fn test_invalid_transition_from_remove() {
    let nodes = vec![node("r", State::Remove("missing".to_string()))];
    let mut sm = StateMachine::new(nodes, Context::new(Vec::new()));
    let mut handler = LinePrompt { line: String::new() };
    let e = sm.run("r".to_string(), &mut handler).unwrap_err();
    assert_eq!(
        e,
        Error::InvalidTransition("Invalid transition from r to missing".to_string())
    );
}

#[test]
fn test_invalid_transition_from_condition() {
    let nodes = vec![
        node(
            "c",
            State::Condition(Condition {
                condition: parse("true").unwrap(),
                branches: vec![("true".to_string(), parse("'missing'").unwrap())],
            }),
        ),
    ];
    let mut sm = StateMachine::new(nodes, Context::new(Vec::new()));
    let mut handler = LinePrompt { line: String::new() };
    let e = sm.run("c".to_string(), &mut handler).unwrap_err();
    assert_eq!(
        e,
        Error::InvalidTransition("Invalid transition from c to missing".to_string())
    );
}

#[test]
fn test_reprompt_cycle_terminates_when_condition_met() {
    // a self-cycle by design: assign counts up through a goto until the
    // condition moves on
    let nodes = vec![
        node("init", State::Assign(parse("0").unwrap(), "step".to_string())),
        (
            "step".to_string(),
            Node {
                name: "init".to_string(),
                state: State::Assign(parse("$init + 1").unwrap(), "check".to_string()),
            },
        ),
        node(
            "check",
            State::Condition(Condition {
                condition: parse("$init < 3").unwrap(),
                branches: vec![
                    ("true".to_string(), parse("'step'").unwrap()),
                    ("false".to_string(), parse("'end'").unwrap()),
                ],
            }),
        ),
        node("end", State::Done),
    ];
    let mut sm = StateMachine::new(nodes, Context::new(Vec::new()));
    let mut handler = LinePrompt { line: String::new() };
    sm.run("init".to_string(), &mut handler).unwrap();
    let bound = sm
        .context
        .get_context()
        .iter()
        .find(|(k, _)| k == "init")
        .map(|(_, v)| v.clone());
    assert!(bound.unwrap().value_eq(&Value::Number(Num::new(3, 0))));
}

struct ChoicesPrompt {
    seen_options: Vec<String>,
    choices: Vec<String>,
}

impl Prompt for ChoicesPrompt {
    fn run(
        &mut self,
        _kind: PromptKind,
        _message: &str,
        options: &Vec<String>,
    ) -> Result<PromptReply, Error> {
        self.seen_options = options.clone();
        Ok(PromptReply::Choices(self.choices.clone()))
    }
}

#[test]
fn test_select_options_are_evaluated_and_flattened() {
    let nodes = vec![
        node(
            "pick",
            State::Prompt(
                PromptType::Select(SelectPrompt {
                    message: "Pick one".to_string(),
                    options: vec![parse("'a'").unwrap(), parse("['b', 'c']").unwrap()],
                }),
                "end".to_string(),
            ),
        ),
        node("end", State::Done),
    ];
    let mut sm = StateMachine::new(nodes, Context::new(Vec::new()));
    let mut handler = ChoicesPrompt { seen_options: Vec::new(), choices: Vec::new() };
    // a Choices reply is the wrong shape for a single selection
    let e = sm.run("pick".to_string(), &mut handler).unwrap_err();
    assert_eq!(
        e,
        Error::FailedToRunPrompt("Prompt returned the wrong kind of value".to_string())
    );
    // the handler still saw the flattened option strings
    assert_eq!(
        handler.seen_options,
        vec!["a".to_string(), "b".to_string(), "c".to_string()]
    );
}

#[test]
fn test_multi_select_binds_array() {
    let nodes = vec![
        node(
            "pick",
            State::Prompt(
                PromptType::MultiSelect(MultiSelectPrompt {
                    message: "Pick some".to_string(),
                    options: vec![parse("'a'").unwrap(), parse("'b'").unwrap()],
                }),
                "end".to_string(),
            ),
        ),
        node("end", State::Done),
    ];
    let mut sm = StateMachine::new(nodes, Context::new(Vec::new()));
    let mut handler = ChoicesPrompt {
        seen_options: Vec::new(),
        choices: vec!["a".to_string(), "b".to_string()],
    };
    sm.run("pick".to_string(), &mut handler).unwrap();
    let bound = sm
        .context
        .get_context()
        .iter()
        .find(|(k, _)| k == "pick")
        .map(|(_, v)| v.clone());
    let expected = Value::Array(vec![
        Value::String("a".to_string()),
        Value::String("b".to_string()),
    ]);
    assert!(bound.unwrap().value_eq(&expected));
}

#[test]
fn test_loaded_flow_runs_end_to_end() {
    let states = vec![
        (
            "name".to_string(),
            StateConfig::Text {
                name: "name".to_string(),
                message: "What is your name?".to_string(),
                to: "check".to_string(),
            },
        ),
        (
            "check".to_string(),
            StateConfig::Condition {
                name: "check".to_string(),
                condition: "$name == 'Alice'".to_string(),
                branches: vec![
                    ("true".to_string(), "'end'".to_string()),
                    ("false".to_string(), "'name'".to_string()),
                ],
            },
        ),
        ("end".to_string(), StateConfig::Done),
    ];
    let (start, nodes) = load("name".to_string(), states).unwrap();
    let mut sm = StateMachine::new(nodes, Context::new(Vec::new()));
    let mut handler = LinePrompt { line: "Alice".to_string() };
    sm.run(start, &mut handler).unwrap();
    let bound = sm
        .context
        .get_context()
        .iter()
        .find(|(k, _)| k == "name")
        .map(|(_, v)| v.clone());
    assert!(bound.unwrap().value_eq(&Value::String("Alice".to_string())));
}

#[test]
fn test_bind_reply_semantics() {
    // a confirmation reads its answer case-insensitively
    let v = bind_reply(PromptKind::Confirm, PromptReply::Answer("No".to_string())).unwrap();
    assert!(v.value_eq(&Value::Boolean(false)));
    // a text widget binds the answer's own text
    let v = bind_reply(PromptKind::Text, PromptReply::Answer("hi".to_string())).unwrap();
    assert!(v.value_eq(&Value::String("hi".to_string())));
    // a reply of the wrong shape is rejected
    let e = bind_reply(PromptKind::Text, PromptReply::Choices(vec![])).unwrap_err();
    assert_eq!(
        e,
        Error::FailedToRunPrompt("Prompt returned the wrong kind of value".to_string())
    );
}

#[test]
fn test_prompt_options_are_flattened() {
    let mut context = Context::new(Vec::new());
    context.set_variable(
        "xs".to_string(),
        Value::Array(vec![
            Value::String("b".to_string()),
            Value::String("c".to_string()),
        ]),
    );
    let pt = PromptType::Select(SelectPrompt {
        message: "Pick".to_string(),
        options: vec![parse("'a'").unwrap(), parse("$xs").unwrap()],
    });
    let got = prompt_options(&pt, &mut context).unwrap();
    assert_eq!(got, vec!["a".to_string(), "b".to_string(), "c".to_string()]);
    // a failing option expression is the step's failure
    let bad = PromptType::Select(SelectPrompt {
        message: "Pick".to_string(),
        options: vec![parse("$missing").unwrap()],
    });
    let e = prompt_options(&bad, &mut context).unwrap_err();
    assert_eq!(e, Error::UndefinedVariable("missing".to_string()));
}

use promptoml::config::{load, StateConfig};
use promptoml::error::Error;
use promptoml::parser::{parse, BinOp, Expr, UnaryOp};
use promptoml::prompt::PromptType;
use promptoml::num::Num;
use promptoml::state::{Node, State};
use promptoml::value::Value;

fn find<'a>(nodes: &'a Vec<(String, Node)>, key: &str) -> &'a Node {
    &nodes.iter().find(|(k, _)| k == key).unwrap().1
}

#[test]
fn test_load_config() {
    let states = vec![
        (
            "name".to_string(),
            StateConfig::Text {
                name: "name".to_string(),
                message: "What is your name?".to_string(),
                to: "age".to_string(),
            },
        ),
        (
            "age".to_string(),
            StateConfig::Text {
                name: "age".to_string(),
                message: "What is your age?".to_string(),
                to: "age_condition".to_string(),
            },
        ),
        (
            "age_condition".to_string(),
            StateConfig::Condition {
                name: "age_condition".to_string(),
                condition: "$age > 18".to_string(),
                branches: vec![
                    ("true".to_string(), "gender".to_string()),
                    ("false".to_string(), "end".to_string()),
                ],
            },
        ),
        (
            "gender".to_string(),
            StateConfig::Select {
                name: "gender".to_string(),
                message: "What is your gender?".to_string(),
                options: vec![
                    "Male".to_string(),
                    "Female".to_string(),
                    "Other".to_string(),
                ],
                to: "end".to_string(),
            },
        ),
        ("end".to_string(), StateConfig::Done),
    ];

    let (start, nodes) = load("name".to_string(), states).unwrap();
    assert_eq!(start, "name");
    assert_eq!(nodes.len(), 5);

    let name_node = find(&nodes, "name");
    match &name_node.state {
        State::Prompt(PromptType::Text(_), to) => assert_eq!(to, "age"),
        _ => panic!("Expected text prompt"),
    }

    let condition_node = find(&nodes, "age_condition");
    match &condition_node.state {
        State::Condition(condition) => {
            let expected = Expr::BinaryOp {
                op: BinOp::Gt,
                left: Box::new(Expr::UnaryOp {
                    op: UnaryOp::Dollar,
                    expr: Box::new(Expr::Value(Value::Symbol("age".to_string()))),
                }),
                right: Box::new(Expr::Value(Value::Number(Num::new(18, 0)))),
            };
            assert!(condition.condition.expr_eq(&expected));
            let t = &condition.branches.iter().find(|(k, _)| k == "true").unwrap().1;
            assert!(t.expr_eq(&Expr::Value(Value::Symbol("gender".to_string()))));
            let f = &condition.branches.iter().find(|(k, _)| k == "false").unwrap().1;
            assert!(f.expr_eq(&Expr::Value(Value::Symbol("end".to_string()))));
        },
        _ => panic!("Expected condition"),
    }

    let end_node = find(&nodes, "end");
    assert!(matches!(end_node.state, State::Done));
}

#[test]
fn test_load_rejects_bad_expression() {
    let states = vec![
        (
            "c".to_string(),
            StateConfig::Condition {
                name: "c".to_string(),
                condition: "== nope".to_string(),
                branches: Vec::new(),
            },
        ),
    ];
    assert!(matches!(load("c".to_string(), states), Err(Error::ParseError(_))));
}

#[test]
fn test_load_remove_and_goto() {
    let states = vec![
        (
            "r".to_string(),
            StateConfig::Remove { name: "x".to_string(), to: "g".to_string() },
        ),
        (
            "g".to_string(),
            StateConfig::Goto { name: "g".to_string(), target: "'end'".to_string() },
        ),
        ("end".to_string(), StateConfig::Done),
    ];
    let (_, nodes) = load("r".to_string(), states).unwrap();
    assert!(matches!(find(&nodes, "r").state, State::Remove(_)));
    match &find(&nodes, "g").state {
        State::Goto(g) => {
            assert!(g.target.expr_eq(&parse("'end'").unwrap()));
        },
        _ => panic!("Expected goto"),
    }
}

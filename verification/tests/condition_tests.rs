use promptoml::condition::Condition;
use promptoml::error::Error;
use promptoml::eval::Context;
use promptoml::parser::Expr;
use promptoml::value::Value;

#[test]
fn test_condition_eval() {
    let cond = Condition {
        condition: Expr::Value(Value::Boolean(true)),
        branches: vec![
            ("true".to_string(), Expr::Value(Value::String("true".to_string()))),
            ("false".to_string(), Expr::Value(Value::String("false".to_string()))),
        ],
    };
    let context = Context::new(Vec::new());
    let result = cond.eval(&context).unwrap();
    assert_eq!(result, "true");
}

#[test]
fn test_condition_eval_false() {
    let cond = Condition {
        condition: Expr::Value(Value::Boolean(false)),
        branches: vec![
            ("true".to_string(), Expr::Value(Value::String("true".to_string()))),
            ("false".to_string(), Expr::Value(Value::String("false".to_string()))),
        ],
    };
    let context = Context::new(Vec::new());
    let result = cond.eval(&context).unwrap();
    assert_eq!(result, "false");
}

#[test]
fn test_condition_eval_type_error() {
    let cond = Condition {
        condition: Expr::Value(Value::String("true".to_string())),
        branches: Vec::new(),
    };
    let context = Context::new(Vec::new());
    let result = cond.eval(&context);
    assert_eq!(
        result,
        Err(Error::TypeError("Condition must evaluate to a boolean".to_string()))
    );
}

#[test]
fn test_condition_eval_missing_branch() {
    let cond = Condition {
        condition: Expr::Value(Value::Boolean(true)),
        branches: Vec::new(),
    };
    let context = Context::new(Vec::new());
    let result = cond.eval(&context);
    assert_eq!(result, Err(Error::MissingBranch("true".to_string())));
}

#[test]
fn test_condition_branch_symbol_accepted() {
    // a branch that evaluates to a bare symbol is read as its text
    let cond = Condition {
        condition: Expr::Value(Value::Boolean(true)),
        branches: vec![
            ("true".to_string(), Expr::Value(Value::Symbol("next_node".to_string()))),
        ],
    };
    let context = Context::new(Vec::new());
    assert_eq!(cond.eval(&context).unwrap(), "next_node");
}

#[test]
fn test_condition_branch_must_be_text() {
    let cond = Condition {
        condition: Expr::Value(Value::Boolean(true)),
        branches: vec![
            ("true".to_string(), Expr::Value(Value::Boolean(true))),
        ],
    };
    let context = Context::new(Vec::new());
    assert_eq!(
        cond.eval(&context),
        Err(Error::TypeError("Condition must evaluate to a string".to_string()))
    );
}

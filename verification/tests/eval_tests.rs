use promptoml::error::Error;
use promptoml::eval::{eval, Context};
use promptoml::num::Num;
use promptoml::parser::{parse, Expr, UnaryOp};
use promptoml::value::{obj_set, Value};

fn number(m: i64, s: u32) -> Value {
    Value::Number(Num::new(m, s))
}

fn eval_str(src: &str, ctx: &Context) -> Result<Value, Error> {
    eval(&parse(src).unwrap(), ctx)
}

#[test]
fn test_eval_basic() {
    let mut context = Context::new(Vec::new());
    context.set_variable("x".to_string(), number(42, 0));
    let obj = obj_set(
        Vec::new(),
        "field".to_string(),
        Value::String("Hello World".to_string()),
    );
    context.set_variable("obj".to_string(), Value::Object(obj));

    let v = eval_str("$x", &context).unwrap();
    assert!(v.value_eq(&number(42, 0)));

    let v = eval_str("42 == 42", &context).unwrap();
    assert!(v.value_eq(&Value::Boolean(true)));

    let v = eval_str("$obj.field", &context).unwrap();
    assert!(v.value_eq(&Value::String("Hello World".to_string())));
}

#[test]
fn test_eval_index() {
    let mut context = Context::new(Vec::new());
    context.set_variable(
        "x".to_string(),
        Value::Array(vec![
            Value::String("Hello".to_string()),
            Value::String("World".to_string()),
        ]),
    );
    let v = eval_str("$x[0]", &context).unwrap();
    assert!(v.value_eq(&Value::String("Hello".to_string())));
}

#[test]
fn test_eval_index_out_of_bounds() {
    let mut context = Context::new(Vec::new());
    context.set_variable("x".to_string(), Value::Array(vec![]));
    let e = eval_str("$x[0]", &context).unwrap_err();
    assert_eq!(e, Error::IndexOutOfBounds("Index 0 is out of bounds".to_string()));
}

#[test]
fn test_eval_index_string() {
    let mut context = Context::new(Vec::new());
    context.set_variable("x".to_string(), Value::String("Hello".to_string()));
    let v = eval_str("$x[0]", &context).unwrap();
    assert!(v.value_eq(&Value::String("H".to_string())));
}

#[test]
fn test_eval_function_keys() {
    let mut context = Context::new(Vec::new());
    let mut obj = Vec::new();
    obj = obj_set(obj, "key1".to_string(), Value::String("value1".to_string()));
    obj = obj_set(obj, "key2".to_string(), Value::String("value2".to_string()));
    context.set_variable("obj".to_string(), Value::Object(obj));

    let v = eval_str("keys($obj)", &context).unwrap();
    let expected = Value::Array(vec![
        Value::String("key1".to_string()),
        Value::String("key2".to_string()),
    ]);
    assert!(v.value_eq(&expected));
}

#[test]
fn test_eval_function_len() {
    let mut context = Context::new(Vec::new());
    context.set_variable(
        "arr".to_string(),
        Value::Array(vec![
            Value::String("Hello".to_string()),
            Value::String("World".to_string()),
        ]),
    );
    let v = eval_str("len($arr)", &context).unwrap();
    assert!(v.value_eq(&number(2, 0)));
}

#[test]
fn test_eval_function_split() {
    let mut context = Context::new(Vec::new());
    context.set_variable("str".to_string(), Value::String("Hello,World".to_string()));
    let v = eval_str("split($str, ',')", &context).unwrap();
    let expected = Value::Array(vec![
        Value::String("Hello".to_string()),
        Value::String("World".to_string()),
    ]);
    assert!(v.value_eq(&expected));
}

#[test]
fn test_eval_split_empty_separator_cuts_every_boundary() {
    // the grammar has no empty string literal, so the call is built directly
    let mut context = Context::new(Vec::new());
    context.set_variable("str".to_string(), Value::String("ab".to_string()));
    let call = Expr::Function {
        name: "split".to_string(),
        args: vec![
            Expr::UnaryOp {
                op: UnaryOp::Dollar,
                expr: Box::new(Expr::Value(Value::Symbol("str".to_string()))),
            },
            Expr::Value(Value::String("".to_string())),
        ],
    };
    let v = eval(&call, &context).unwrap();
    let expected = Value::Array(vec![
        Value::String("".to_string()),
        Value::String("a".to_string()),
        Value::String("b".to_string()),
        Value::String("".to_string()),
    ]);
    assert!(v.value_eq(&expected));
}

#[test]
fn test_eval_precedence() {
    let context = Context::new(Vec::new());
    let v = eval_str("1 + 2 * 3", &context).unwrap();
    assert!(v.value_eq(&number(7, 0)));
}

#[test]
fn test_eval_grouping() {
    let context = Context::new(Vec::new());
    let v = eval_str("(1 + 2) * 3", &context).unwrap();
    assert!(v.value_eq(&number(9, 0)));
}

#[test]
fn test_eval_args_access() {
    let args = obj_set(Vec::new(), "value".to_string(), number(1, 0));
    let context = Context::new(args);
    let v = eval_str("$args.value == 1", &context).unwrap();
    assert!(v.value_eq(&Value::Boolean(true)));
}

#[test]
fn test_eval_arithmetic_exact() {
    let context = Context::new(Vec::new());
    assert!(eval_str("5 - 3", &context).unwrap().value_eq(&number(2, 0)));
    assert!(eval_str("6 / 2", &context).unwrap().value_eq(&number(3, 0)));
    // decimal arithmetic is exact, not binary floating point
    assert!(eval_str("0.1 + 0.2", &context).unwrap().value_eq(&number(3, 1)));
    assert!(eval_str("1.5 * 2", &context).unwrap().value_eq(&number(3, 0)));
    assert!(eval_str("1 / 8", &context).unwrap().value_eq(&number(125, 3)));
}

#[test]
fn test_eval_division_by_zero_rejected() {
    // division by zero is rejected explicitly rather than yielding an
    // infinity
    let context = Context::new(Vec::new());
    let e = eval_str("1 / 0", &context).unwrap_err();
    assert_eq!(e, Error::TypeError("Division by zero".to_string()));
}

#[test]
fn test_eval_division_without_exact_result_rejected() {
    // a quotient with no finite decimal form is rejected rather than rounded
    let context = Context::new(Vec::new());
    let e = eval_str("1 / 3", &context).unwrap_err();
    assert_eq!(e, Error::TypeError("Division has no exact result in range".to_string()));
}

#[test]
fn test_eval_undefined_variable() {
    let context = Context::new(Vec::new());
    let e = eval_str("$nope", &context).unwrap_err();
    assert_eq!(e, Error::UndefinedVariable("nope".to_string()));
}

#[test]
fn test_eval_not_requires_boolean() {
    let context = Context::new(Vec::new());
    let e = eval_str("!5", &context).unwrap_err();
    assert_eq!(e, Error::TypeError("Not operator requires a boolean".to_string()));

    let v = eval_str("!false", &context).unwrap();
    assert!(v.value_eq(&Value::Boolean(true)));
}

#[test]
fn test_eval_string_number_equality() {
    let context = Context::new(Vec::new());
    // a string equals a number exactly when it is its canonical rendering
    assert!(eval_str("'42' == 42", &context).unwrap().value_eq(&Value::Boolean(true)));
    assert!(eval_str("'0.5' == 0.5", &context).unwrap().value_eq(&Value::Boolean(true)));
    assert!(eval_str("'42.0' == 42", &context).unwrap().value_eq(&Value::Boolean(false)));
    // all other cross-variant pairs are unequal
    assert!(eval_str("'true' == true", &context).unwrap().value_eq(&Value::Boolean(false)));
    assert!(eval_str("1 == true", &context).unwrap().value_eq(&Value::Boolean(false)));
}

#[test]
fn test_eval_object_equality_ignores_insertion_order() {
    let mut context = Context::new(Vec::new());
    let mut a = Vec::new();
    a = obj_set(a, "x".to_string(), Value::Number(Num::new(1, 0)));
    a = obj_set(a, "y".to_string(), Value::Number(Num::new(2, 0)));
    let mut b = Vec::new();
    b = obj_set(b, "y".to_string(), Value::Number(Num::new(2, 0)));
    b = obj_set(b, "x".to_string(), Value::Number(Num::new(1, 0)));
    let va = Value::Object(a);
    let vb = Value::Object(b);
    assert!(va.value_eq(&vb));
    context.set_variable("a".to_string(), va);
    context.set_variable("b".to_string(), vb);
    assert!(eval_str("$a == $b", &context).unwrap().value_eq(&Value::Boolean(true)));
}

#[test]
fn test_eval_comparisons() {
    let context = Context::new(Vec::new());
    assert!(eval_str("2 > 1", &context).unwrap().value_eq(&Value::Boolean(true)));
    assert!(eval_str("2 >= 2", &context).unwrap().value_eq(&Value::Boolean(true)));
    assert!(eval_str("'a' < 'b'", &context).unwrap().value_eq(&Value::Boolean(true)));
    assert!(eval_str("false < true", &context).unwrap().value_eq(&Value::Boolean(true)));
    assert!(eval_str("[1, 2] < [1, 3]", &context).unwrap().value_eq(&Value::Boolean(true)));
    assert!(eval_str("[1] < [1, 2]", &context).unwrap().value_eq(&Value::Boolean(true)));
    // a string is ordered against a number by reading it as a decimal
    assert!(eval_str("'1.50' > 1", &context).unwrap().value_eq(&Value::Boolean(true)));
}

#[test]
fn test_eval_unordered_comparison_fails() {
    let context = Context::new(Vec::new());
    let e = eval_str("'a' > 1", &context).unwrap_err();
    assert_eq!(e, Error::TypeError("Values of these types cannot be ordered".to_string()));
    let e = eval_str("true > []", &context).unwrap_err();
    assert_eq!(e, Error::TypeError("Values of these types cannot be ordered".to_string()));
}

#[test]
fn test_eval_unknown_function() {
    let context = Context::new(Vec::new());
    let e = eval_str("nosuch(1)", &context).unwrap_err();
    assert_eq!(e, Error::TypeError("Unknown function: nosuch".to_string()));
}

#[test]
fn test_eval_field_not_found() {
    let mut context = Context::new(Vec::new());
    context.set_variable("obj".to_string(), Value::Object(Vec::new()));
    let e = eval_str("$obj.nope", &context).unwrap_err();
    assert_eq!(e, Error::TypeError("Field 'nope' not found in object".to_string()));
}

#[test]
fn test_eval_index_truncates() {
    let mut context = Context::new(Vec::new());
    context.set_variable(
        "x".to_string(),
        Value::Array(vec![
            Value::String("a".to_string()),
            Value::String("b".to_string()),
        ]),
    );
    let v = eval_str("$x[0.9]", &context).unwrap();
    assert!(v.value_eq(&Value::String("a".to_string())));
}

#[test]
fn test_eval_len_of_string_counts_characters() {
    let mut context = Context::new(Vec::new());
    context.set_variable("s".to_string(), Value::String("héllo".to_string()));
    let v = eval_str("len($s)", &context).unwrap();
    assert!(v.value_eq(&number(5, 0)));
}

#[test]
fn test_remove_variable() {
    let mut context = Context::new(Vec::new());
    context.set_variable("x".to_string(), number(1, 0));
    context.remove_variable("x".to_string());
    let e = eval_str("$x", &context).unwrap_err();
    assert_eq!(e, Error::UndefinedVariable("x".to_string()));
}

#[test]
fn test_error_messages() {
    // the message of each failure kind carries its prefix
    assert_eq!(
        Error::FailedToCreatePrompt("boom".to_string()).message(),
        "Failed to create prompt: boom"
    );
    assert_eq!(
        Error::MissingBranch("true".to_string()).message(),
        "Missing branch: true"
    );
    assert_eq!(Error::TypeError("t".to_string()).message(), "Type error: t");
}

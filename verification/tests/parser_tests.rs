use promptoml::error::Error;
use promptoml::num::Num;
use promptoml::parser::{parse, BinOp, Expr, UnaryOp};
use promptoml::value::Value;

fn num(m: i64, s: u32) -> Expr {
    Expr::Value(Value::Number(Num::new(m, s)))
}

fn sym(s: &str) -> Expr {
    Expr::Value(Value::Symbol(s.to_string()))
}

fn dollar(e: Expr) -> Expr {
    Expr::UnaryOp { op: UnaryOp::Dollar, expr: Box::new(e) }
}

fn bin(op: BinOp, l: Expr, r: Expr) -> Expr {
    Expr::BinaryOp { op, left: Box::new(l), right: Box::new(r) }
}

#[test]
fn test_parse_string() {
    let r = parse("'hello'").unwrap();
    assert!(r.expr_eq(&Expr::Value(Value::String("hello".to_string()))));
}

#[test]
fn test_parse_number() {
    let r = parse("123.45").unwrap();
    assert!(r.expr_eq(&num(12345, 2)));
}

#[test]
fn test_parse_boolean() {
    let r = parse("true").unwrap();
    assert!(r.expr_eq(&Expr::Value(Value::Boolean(true))));
}

#[test]
fn test_parse_symbol() {
    let r = parse("variable_name").unwrap();
    assert!(r.expr_eq(&sym("variable_name")));
}

#[test]
fn test_parse_dollar() {
    let r = parse("$state").unwrap();
    assert!(r.expr_eq(&dollar(sym("state"))));
}

#[test]
fn test_parse_binary() {
    let r = parse("value == 1").unwrap();
    assert!(r.expr_eq(&bin(BinOp::Eq, sym("value"), num(1, 0))));
}

#[test]
fn test_parse_condition() {
    let r = parse("$args.value == 1").unwrap();
    let expected = bin(
        BinOp::Eq,
        bin(BinOp::Dot, dollar(sym("args")), sym("value")),
        num(1, 0),
    );
    assert!(r.expr_eq(&expected));
}

#[test]
fn test_parse_too_many_dots() {
    let r = parse("$value.field.field").unwrap();
    let expected = bin(
        BinOp::Dot,
        bin(BinOp::Dot, dollar(sym("value")), sym("field")),
        sym("field"),
    );
    assert!(r.expr_eq(&expected));
}

#[test]
fn test_parse_function() {
    let r = parse("len('hello')").unwrap();
    let expected = Expr::Function {
        name: "len".to_string(),
        args: vec![Expr::Value(Value::String("hello".to_string()))],
    };
    assert!(r.expr_eq(&expected));

    let r = parse("contains($state.name)").unwrap();
    let expected = Expr::Function {
        name: "contains".to_string(),
        args: vec![bin(BinOp::Dot, dollar(sym("state")), sym("name"))],
    };
    assert!(r.expr_eq(&expected));
}

#[test]
fn test_parse_index_access() {
    let r = parse("$args.users['admin']").unwrap();
    let expected = bin(
        BinOp::Index,
        bin(BinOp::Dot, dollar(sym("args")), sym("users")),
        Expr::Value(Value::String("admin".to_string())),
    );
    assert!(r.expr_eq(&expected));

    let r = parse("$args.data[$key]").unwrap();
    let expected = bin(
        BinOp::Index,
        bin(BinOp::Dot, dollar(sym("args")), sym("data")),
        dollar(sym("key")),
    );
    assert!(r.expr_eq(&expected));
}

#[test]
fn test_parse_array() {
    let r = parse("[1, 2, 3]").unwrap();
    let expected = Expr::Value(Value::Array(vec![
        Value::Number(Num::new(1, 0)),
        Value::Number(Num::new(2, 0)),
        Value::Number(Num::new(3, 0)),
    ]));
    assert!(r.expr_eq(&expected));

    let r = parse("['a', 'b', 'c']").unwrap();
    let expected = Expr::Value(Value::Array(vec![
        Value::String("a".to_string()),
        Value::String("b".to_string()),
        Value::String("c".to_string()),
    ]));
    assert!(r.expr_eq(&expected));

    let r = parse("[]").unwrap();
    assert!(r.expr_eq(&Expr::Value(Value::Array(vec![]))));

    let r = parse("['text', 123, true]").unwrap();
    let expected = Expr::Value(Value::Array(vec![
        Value::String("text".to_string()),
        Value::Number(Num::new(123, 0)),
        Value::Boolean(true),
    ]));
    assert!(r.expr_eq(&expected));
}

#[test]
fn test_array_in_expression() {
    let r = parse("$data[0]").unwrap();
    let expected = bin(BinOp::Index, dollar(sym("data")), num(0, 0));
    assert!(r.expr_eq(&expected));
}

#[test]
fn test_parse_function_multiple_args() {
    let r = parse("concat($array1, $array2)").unwrap();
    let expected = Expr::Function {
        name: "concat".to_string(),
        args: vec![dollar(sym("array1")), dollar(sym("array2"))],
    };
    assert!(r.expr_eq(&expected));

    let r = parse("join($array, ', ', $suffix)").unwrap();
    let expected = Expr::Function {
        name: "join".to_string(),
        args: vec![
            dollar(sym("array")),
            Expr::Value(Value::String(", ".to_string())),
            dollar(sym("suffix")),
        ],
    };
    assert!(r.expr_eq(&expected));
}

#[test]
fn test_parse_arithmetic() {
    let r = parse("1 + 2").unwrap();
    assert!(r.expr_eq(&bin(BinOp::Add, num(1, 0), num(2, 0))));

    let r = parse("5 - 3").unwrap();
    assert!(r.expr_eq(&bin(BinOp::Sub, num(5, 0), num(3, 0))));

    let r = parse("2 * 3").unwrap();
    assert!(r.expr_eq(&bin(BinOp::Mul, num(2, 0), num(3, 0))));

    let r = parse("6 / 2").unwrap();
    assert!(r.expr_eq(&bin(BinOp::Div, num(6, 0), num(2, 0))));

    let r = parse("1 + 2 * 3").unwrap();
    assert!(r.expr_eq(&bin(BinOp::Add, num(1, 0), bin(BinOp::Mul, num(2, 0), num(3, 0)))));

    let r = parse("(1 + 2) * 3").unwrap();
    assert!(r.expr_eq(&bin(BinOp::Mul, bin(BinOp::Add, num(1, 0), num(2, 0)), num(3, 0))));

    let r = parse("$base + $tax * $quantity").unwrap();
    let expected = bin(
        BinOp::Add,
        dollar(sym("base")),
        bin(BinOp::Mul, dollar(sym("tax")), dollar(sym("quantity"))),
    );
    assert!(r.expr_eq(&expected));

    let r = parse("($base + $tax) * $quantity").unwrap();
    let expected = bin(
        BinOp::Mul,
        bin(BinOp::Add, dollar(sym("base")), dollar(sym("tax"))),
        dollar(sym("quantity")),
    );
    assert!(r.expr_eq(&expected));
}

#[test]
fn test_parse_deterministic() {
    let a = parse("len($arr) + 2 * 3").unwrap();
    let b = parse("len($arr) + 2 * 3").unwrap();
    assert!(a.expr_eq(&b));
}

#[test]
fn test_parse_rejects_garbage() {
    assert!(matches!(parse("=="), Err(Error::ParseError(_))));
    assert!(matches!(parse(""), Err(Error::ParseError(_))));
}

#[test]
fn test_parse_trailing_input() {
    match parse("1 2") {
        Err(Error::TrailingInput(rest)) => assert_eq!(rest, " 2"),
        other => panic!("expected trailing input, got {:?}", other),
    }
}

#[test]
fn test_parse_trims_whitespace() {
    let r = parse("  42  ").unwrap();
    assert!(r.expr_eq(&num(42, 0)));
}

#[test]
fn test_parse_normalizes_number() {
    // 1.50 and 1.5 denote the same decimal
    let a = parse("1.50").unwrap();
    let b = parse("1.5").unwrap();
    assert!(a.expr_eq(&b));
}

#[test]
fn test_parse_not_binds_one_atom() {
    let r = parse("!true").unwrap();
    let expected = Expr::UnaryOp {
        op: UnaryOp::Not,
        expr: Box::new(Expr::Value(Value::Boolean(true))),
    };
    assert!(r.expr_eq(&expected));
}

#[test]
fn test_parse_rejects_oversized_number() {
    // a digit-led token is always a number; one beyond the representable
    // range is rejected, not read as a symbol
    assert!(matches!(parse("99999999999999999999999"), Err(Error::ParseError(_))));
    assert!(matches!(parse("1.0000000000000000000001"), Err(Error::ParseError(_))));
}

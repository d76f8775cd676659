use promptoml::eval::{eval, Context};
use promptoml::num::{str_to_num, Num};
use promptoml::parser::parse;
use promptoml::utils::get_options;
use promptoml::value::{obj_set, str_cmp, Value};

#[test]
fn test_number_rendering() {
    let mut context = Context::new(Vec::new());
    context.set_variable("n".to_string(), Value::Number(Num::new(12345, 2)));
    context.set_variable("m".to_string(), Value::Number(Num::new(-5, 1)));
    context.set_variable("z".to_string(), Value::Number(Num::new(0, 0)));
    // the canonical rendering shows the shortest decimal form
    let v = eval(&parse("$n == '123.45'").unwrap(), &context).unwrap();
    assert!(v.value_eq(&Value::Boolean(true)));
    let v = eval(&parse("$m == '-0.5'").unwrap(), &context).unwrap();
    assert!(v.value_eq(&Value::Boolean(true)));
    let v = eval(&parse("$z == '0'").unwrap(), &context).unwrap();
    assert!(v.value_eq(&Value::Boolean(true)));
}

#[test]
fn test_number_reading() {
    // reading a decimal normalizes it
    let a = str_to_num("1.50").unwrap();
    let b = str_to_num("1.5").unwrap();
    assert!(Value::Number(a).value_eq(&Value::Number(b)));
    let n = str_to_num("-42").unwrap();
    assert!(Value::Number(n).value_eq(&Value::Number(Num::new(-42, 0))));
    assert!(str_to_num("1.2.3").is_none());
    assert!(str_to_num("abc").is_none());
    assert!(str_to_num("").is_none());
    assert!(str_to_num("1.").is_none());
}

#[test]
fn test_number_arithmetic_methods() {
    let a = Num::new(15, 1);
    let b = Num::new(25, 1);
    let sum = a.try_add(&b).unwrap();
    assert!(Value::Number(sum).value_eq(&Value::Number(Num::new(4, 0))));
    let diff = a.try_sub(&b).unwrap();
    assert!(Value::Number(diff).value_eq(&Value::Number(Num::new(-1, 0))));
    let prod = a.try_mul(&b).unwrap();
    assert!(Value::Number(prod).value_eq(&Value::Number(Num::new(375, 2))));
    let quot = a.try_div(&b).unwrap();
    assert!(Value::Number(quot).value_eq(&Value::Number(Num::new(6, 1))));
    // a divisor of zero has no quotient
    assert!(a.try_div(&Num::new(0, 0)).is_none());
}

#[test]
fn test_string_order() {
    assert_eq!(str_cmp("abc", "abd"), std::cmp::Ordering::Less);
    assert_eq!(str_cmp("ab", "abc"), std::cmp::Ordering::Less);
    assert_eq!(str_cmp("b", "abc"), std::cmp::Ordering::Greater);
    assert_eq!(str_cmp("same", "same"), std::cmp::Ordering::Equal);
}

#[test]
fn test_object_set_replaces_and_sorts() {
    let mut o = Vec::new();
    o = obj_set(o, "b".to_string(), Value::Number(Num::new(1, 0)));
    o = obj_set(o, "a".to_string(), Value::Number(Num::new(2, 0)));
    o = obj_set(o, "b".to_string(), Value::Number(Num::new(3, 0)));
    assert_eq!(o.len(), 2);
    assert_eq!(o[0].0, "a");
    assert_eq!(o[1].0, "b");
    assert!(o[1].1.value_eq(&Value::Number(Num::new(3, 0))));
}

#[test]
fn test_value_equality_is_structural() {
    let a = Value::Array(vec![
        Value::Number(Num::new(1, 0)),
        Value::String("x".to_string()),
    ]);
    let b = Value::Array(vec![
        Value::Number(Num::new(1, 0)),
        Value::String("x".to_string()),
    ]);
    assert!(a.value_eq(&b));
    let c = Value::Array(vec![Value::Number(Num::new(1, 0))]);
    assert!(!a.value_eq(&c));
}

#[test]
fn test_get_options_flattens() {
    let mut context = Context::new(Vec::new());
    let mut obj = Vec::new();
    obj = obj_set(obj, "b".to_string(), Value::String("two".to_string()));
    obj = obj_set(obj, "a".to_string(), Value::String("one".to_string()));
    let options = vec![
        Value::String("plain".to_string()),
        Value::Number(Num::new(25, 1)),
        Value::Boolean(true),
        Value::Symbol("word".to_string()),
        Value::Array(vec![
            Value::String("in_a".to_string()),
            Value::Array(vec![Value::String("in_b".to_string())]),
        ]),
        Value::Object(obj),
    ];
    let got = get_options(options, &mut context).unwrap();
    // objects contribute their values, in canonical key order
    assert_eq!(
        got,
        vec![
            "plain".to_string(),
            "2.5".to_string(),
            "true".to_string(),
            "word".to_string(),
            "in_a".to_string(),
            "in_b".to_string(),
            "one".to_string(),
            "two".to_string(),
        ]
    );
}

#[test]
fn test_number_limits() {
    // the largest representable magnitude still reads and renders
    let big = str_to_num("18446744073709551615").unwrap();
    assert!(Value::Number(big).value_eq(&Value::String(
        "18446744073709551615".to_string()
    )));
    // one digit more does not fit
    assert!(str_to_num("184467440737095516150").is_none());
}

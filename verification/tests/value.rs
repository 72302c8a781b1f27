use steer::ast::{Expr, Stmt};
use steer::parser::parse;
use steer::value::{eval, eval_literal, values_eq, EvalError, Value, Vars};

fn expr_of(src: &str) -> Expr {
    let m = parse(&format!("__x = {src}\n")).unwrap();
    match m.body.into_iter().next().unwrap().value {
        Stmt::Assign { value, .. } => value.value,
        _ => unreachable!(),
    }
}

fn vars(pairs: &[(&str, &str)]) -> Vars {
    let mut v = Vars::new();
    for (k, x) in pairs {
        v.insert(k.to_string(), Value::Str(x.to_string()));
    }
    v
}

#[test]
fn eval_int_float_string() {
    assert_eq!(eval(&expr_of("42"), &Vars::new()), Ok(Value::Int(42)));
    assert_eq!(eval(&expr_of("1.5"), &Vars::new()), Ok(Value::Float("1.5".into())));
}

#[test]
fn eval_var_lookup() {
    let mut v = Vars::new();
    v.insert("name".to_string(), Value::Str("bob".into()));
    assert_eq!(eval(&expr_of("name"), &v), Ok(Value::Str("bob".into())));
}

#[test]
fn eval_unset_var_is_error() {
    assert_eq!(
        eval(&expr_of("missing"), &Vars::new()),
        Err(EvalError::UnsetVar("missing".into()))
    );
}

#[test]
fn eval_arithmetic() {
    assert_eq!(eval(&expr_of("1 + 2 * 3"), &Vars::new()), Ok(Value::Int(7)));
    assert_eq!(eval(&expr_of("7 / 2"), &Vars::new()), Ok(Value::Int(3)));
}

#[test]
fn eval_div_by_zero() {
    assert!(matches!(eval(&expr_of("1 / 0"), &Vars::new()), Err(EvalError::Arithmetic(_))));
}

#[test]
fn eval_string_equality() {
    let v = vars(&[("gate", "yes")]);
    assert_eq!(eval(&expr_of("gate == \"yes\""), &v), Ok(Value::Bool(true)));
    assert_eq!(eval(&expr_of("gate != \"yes\""), &v), Ok(Value::Bool(false)));
}

#[test]
fn eval_numeric_comparison() {
    assert_eq!(eval(&expr_of("3 > 2"), &Vars::new()), Ok(Value::Bool(true)));
    assert_eq!(eval(&expr_of("3 < 2"), &Vars::new()), Ok(Value::Bool(false)));
}

#[test]
fn eval_string_interpolation_resolves() {
    let mut v = Vars::new();
    v.insert("who".to_string(), Value::Str("world".into()));
    assert_eq!(eval(&expr_of("\"hi {who}\""), &v), Ok(Value::Str("hi world".into())));
}

#[test]
fn eval_literal_keeps_placeholder() {
    let m = parse("__x = \"a {x}\"\n").unwrap();
    let e = match &m.body[0].value {
        Stmt::Assign { value, .. } => value,
        _ => unreachable!(),
    };
    assert_eq!(eval_literal(e), Value::Str("a {x}".into()));
}

#[test]
fn truthiness() {
    assert!(Value::Str("x".into()).truthy());
    assert!(!Value::Null.truthy());
    assert!(!Value::Bool(false).truthy());
}

#[test]
fn eval_and_or_not() {
    assert_eq!(eval(&expr_of("true and false"), &Vars::new()), Ok(Value::Bool(false)));
    assert_eq!(eval(&expr_of("true and true"), &Vars::new()), Ok(Value::Bool(true)));
    assert_eq!(eval(&expr_of("true or false"), &Vars::new()), Ok(Value::Bool(true)));
    assert_eq!(eval(&expr_of("false or false"), &Vars::new()), Ok(Value::Bool(false)));
    assert_eq!(eval(&expr_of("not true"), &Vars::new()), Ok(Value::Bool(false)));
    assert_eq!(eval(&expr_of("not false"), &Vars::new()), Ok(Value::Bool(true)));
}

#[test]
fn eval_logical_short_circuits() {
    assert_eq!(eval(&expr_of("false and missing"), &Vars::new()), Ok(Value::Bool(false)));
    assert_eq!(eval(&expr_of("true or missing"), &Vars::new()), Ok(Value::Bool(true)));
}

// ---- further cases ----

#[test]
fn truthiness_of_numbers_and_collections() {
    assert!(Value::Int(0).truthy());
    assert!(Value::Float("0.0".into()).truthy());
    assert!(!Value::Str(String::new()).truthy());
    assert!(!Value::List(vec![]).truthy());
    assert!(Value::List(vec![Value::Null]).truthy());
}

#[test]
fn render_of_values() {
    assert_eq!(Value::Null.render(), "");
    assert_eq!(Value::Bool(true).render(), "true");
    assert_eq!(Value::Int(-12).render(), "-12");
    assert_eq!(
        Value::List(vec![Value::Str("a".into()), Value::Int(1)]).render(),
        "a, 1"
    );
    assert_eq!(
        Value::Object(vec![("k".into(), Value::Str("v\"".into()))]).render(),
        "{\"Object\":{\"k\":{\"Str\":\"v\\\"\"}}}"
    );
}

#[test]
fn integer_overflow_is_an_arithmetic_error() {
    assert!(matches!(
        eval(&expr_of("9223372036854775807 + 1"), &Vars::new()),
        Err(EvalError::Arithmetic(_))
    ));
}

#[test]
fn float_arithmetic_is_refused() {
    assert_eq!(
        eval(&expr_of("7.0 / 2"), &Vars::new()),
        Err(EvalError::TypeError("floating-point operands are not supported".into()))
    );
}

#[test]
fn string_ordering() {
    assert_eq!(eval(&expr_of("\"a\" < \"b\""), &Vars::new()), Ok(Value::Bool(true)));
}

#[test]
fn mixed_equality_is_an_error() {
    assert_eq!(
        values_eq(&Value::Int(1), &Value::Str("1".into())),
        Err(EvalError::TypeError("cannot compare 1 and 1 for equality".into()))
    );
}

#[test]
fn calls_are_not_values() {
    assert_eq!(eval(&expr_of("task(\"x\")"), &Vars::new()), Err(EvalError::UnexpectedCall));
}

#[test]
fn eval_error_messages() {
    assert_eq!(EvalError::UnsetVar("x".into()).message(), "variable `x` is not set");
    assert_eq!(EvalError::UnexpectedCall.message(), "unexpected call in expression");
}

#[test]
fn decimals_show_in_their_shortest_form() {
    assert_eq!(eval(&expr_of("2.50"), &Vars::new()), Ok(Value::Float("2.5".into())));
    assert_eq!(eval(&expr_of("3.0"), &Vars::new()), Ok(Value::Float("3".into())));
    assert_eq!(eval(&expr_of("007.25"), &Vars::new()), Ok(Value::Float("7.25".into())));
    assert_eq!(eval(&expr_of("0.5"), &Vars::new()).unwrap().render(), "0.5");
    assert_eq!(eval(&expr_of("2.0"), &Vars::new()).unwrap().render(), "2");
}

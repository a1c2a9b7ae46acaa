use cubicle::value::Value;

fn v(s: &str) -> Value {
    Value::from_str(s).unwrap()
}

fn text(s: &str) -> Value {
    Value::String(s.to_string())
}

#[test]
fn integers() {
    assert_eq!(v("42"), Value::Integer(42));
    assert_eq!(v(" -7 "), Value::Integer(-7));
    assert_eq!(v("+3"), Value::Integer(3));
    assert_eq!(v("\t30\n"), Value::Integer(30));
    assert_eq!(v("\u{3000}5\u{a0}"), Value::Integer(5));
}

#[test]
fn floats_keep_their_text() {
    assert_eq!(v("3.5"), Value::Float("3.5".to_string()));
    assert_eq!(v(" 1e5 "), Value::Float("1e5".to_string()));
    assert_eq!(v(".5"), Value::Float(".5".to_string()));
    assert_eq!(v("5."), Value::Float("5.".to_string()));
    assert_eq!(v("-2.5E-3"), Value::Float("-2.5E-3".to_string()));
    assert_eq!(v("inf"), Value::Float("inf".to_string()));
    assert_eq!(v("-Infinity"), Value::Float("-Infinity".to_string()));
    assert_eq!(v("NaN"), Value::Float("NaN".to_string()));
    assert_eq!(
        v("99999999999999999999"),
        Value::Float("99999999999999999999".to_string())
    );
    for t in ["3.5", "1e5", ".5", "5.", "-2.5E-3", "inf", "-Infinity", "NaN", "99999999999999999999"] {
        assert!(t.parse::<f64>().is_ok());
    }
}

#[test]
fn texts_that_are_not_numbers() {
    for t in ["e5", "+", "-", ".", "1e", "1e+", "in", "nana", "1.2.3", "0x10", "1_000"] {
        assert!(t.parse::<f64>().is_err());
        assert_eq!(v(t), text(t));
    }
}

#[test]
fn booleans() {
    assert_eq!(v("true"), Value::Boolean(true));
    assert_eq!(v(" false "), Value::Boolean(false));
    assert_eq!(v("True"), text("True"));
}

#[test]
fn strings() {
    assert_eq!(v("\"hi there\""), text("hi there"));
    assert_eq!(v("  \"x\"  "), text("x"));
    assert_eq!(v("\"\""), text(""));
    assert_eq!(v("\""), text("\""));
    assert_eq!(v("Alice"), text("Alice"));
    assert_eq!(v("  Alice  "), text("  Alice  "));
    assert_eq!(v(""), text(""));
}

#[test]
fn lists() {
    assert_eq!(v("[]"), Value::List(vec![]));
    assert_eq!(v(" [  ] "), Value::List(vec![]));
    assert_eq!(
        v("[1, 2.5, x, true, \"q\"]"),
        Value::List(vec![
            Value::Integer(1),
            Value::Float("2.5".to_string()),
            text("x"),
            Value::Boolean(true),
            text("q"),
        ])
    );
    assert_eq!(v("[1,]"), Value::List(vec![Value::Integer(1), text("")]));
    assert_eq!(v("[[1]]"), Value::List(vec![Value::List(vec![Value::Integer(1)])]));
    assert_eq!(v("[[1,2]]"), Value::List(vec![text("[1"), text("2]")]));
    assert_eq!(v("["), text("["));
}

#[test]
fn copies_are_equal() {
    let x = v("[1, a, [2]]");
    assert_eq!(x.duplicate(), x);
    assert_eq!(x.clone(), x);
}

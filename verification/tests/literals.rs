//! Tests of the literal parser: strings with escapes, lists, hashes,
//! booleans, numbers, and the render/parse round trip.

use pipeconf::parsers::{string, list, hash, boolean, number, value, render_value, Parsed};
use pipeconf::types::{Value, Num};

fn cs(s: &str) -> Vec<char> {
    s.chars().collect()
}

fn num(neg: bool, mantissa: u64, exp: i32) -> Num {
    Num { neg, mantissa, exp }
}

#[test]
fn test_string_simple() {
    let s = cs(r#""string""#);
    let expected = cs("string");
    match string(&s, 0) {
        Parsed::Found(v, _) => assert_eq!(v, expected),
        _ => panic!("string literal did not parse"),
    }
}

#[test]
fn test_string_quote() {
    let s = cs(r#""stri\"ng""#);
    let expected = cs("stri\"ng");
    match string(&s, 0) {
        Parsed::Found(v, _) => assert_eq!(v, expected),
        _ => panic!("string literal did not parse"),
    }
}

#[test]
fn test_string_tab() {
    let s = cs(r#""stri\tng""#);
    let expected = cs("stri\tng");
    match string(&s, 0) {
        Parsed::Found(v, _) => assert_eq!(v, expected),
        _ => panic!("string literal did not parse"),
    }
}

#[test]
fn test_string_single_quote() {
    let s = cs(r#""stri\'ng""#);
    let expected = cs("stri\'ng");
    match string(&s, 0) {
        Parsed::Found(v, _) => assert_eq!(v, expected),
        _ => panic!("string literal did not parse"),
    }
}

#[test]
fn test_string_new_line() {
    let s = cs(r#""stri\nng""#);
    let expected = cs("stri\nng");
    match string(&s, 0) {
        Parsed::Found(v, _) => assert_eq!(v, expected),
        _ => panic!("string literal did not parse"),
    }
}

#[test]
fn test_string_backslash() {
    let s = cs(r#""stri\\ng""#);
    let expected = cs("stri\\ng");
    match string(&s, 0) {
        Parsed::Found(v, _) => assert_eq!(v, expected),
        _ => panic!("string literal did not parse"),
    }
}

#[test]
fn test_string_invalid_escape() {
    let s = cs(r#""stri\qng""#);
    match string(&s, 0) {
        Parsed::Fail(pipeconf::types::ParseError::InvalidEscape { pos }) => assert_eq!(pos, 6),
        _ => panic!("unsupported escape was not rejected"),
    }
}

#[test]
fn test_string_pattern_escapes() {
    // the fixed set of pattern-prone characters is re-emitted behind a
    // literal backslash
    let s = cs(r#""a\%b\.c\sd""#);
    let expected = cs("a\\%b\\.c\\sd");
    match string(&s, 0) {
        Parsed::Found(v, _) => assert_eq!(v, expected),
        _ => panic!("string literal did not parse"),
    }
}

#[test]
fn test_list() {
    let s = cs(r#"[ "test1",  "test2"]"#);
    let expected = vec![Value::Str(cs("test1")), Value::Str(cs("test2"))];
    match list(&s, 0) {
        Parsed::Found(v, _) => assert_eq!(v, expected),
        _ => panic!("list literal did not parse"),
    }
}

#[test]
fn test_hash() {
    let s = cs(
        "\n{ \"mt_mon_connections\" => \"integer\"\n\"mt_mon_connections\" => \"integer\"\n}\n",
    );
    // the hash parser starts at the opening brace itself
    let start = 1;
    let expected = vec![(cs("mt_mon_connections"), Value::Str(cs("integer")))];
    match hash(&s, start) {
        Parsed::Found(h, _) => assert_eq!(h, expected),
        _ => panic!("hash literal did not parse"),
    }
}

#[test]
fn test_bool() {
    let s = cs("true");
    match boolean(&s, 0) {
        Parsed::Found(b, _) => assert_eq!(b, true),
        _ => panic!("boolean literal did not parse"),
    }
}

#[test]
fn test_number() {
    let s = cs("12345.0");
    match number(&s, 0) {
        Parsed::Found(v, _) => assert_eq!(v, Value::Number(num(false, 12345, 0))),
        _ => panic!("number literal did not parse"),
    }
}

#[test]
fn test_number_forms() {
    let cases: Vec<(&str, Num)> = vec![
        ("0", num(false, 0, 0)),
        ("0.0", num(false, 0, 0)),
        ("2", num(false, 2, 0)),
        ("0.5", num(false, 5, -1)),
        ("-3.14", num(true, 314, -2)),
        ("12e5", num(false, 12, 5)),
        ("1200", num(false, 12, 2)),
        ("5e-7", num(false, 5, -7)),
        ("+3", num(false, 3, 0)),
    ];
    for (text, expected) in cases {
        let s = cs(text);
        match number(&s, 0) {
            Parsed::Found(v, _) => assert_eq!(v, Value::Number(expected), "{}", text),
            _ => panic!("number {} did not parse", text),
        }
    }
}

#[test]
fn test_value_skips_comments() {
    let s = cs("# a comment\n# another\n  \"x\"");
    match value(&s, 0) {
        Parsed::Found(v, _) => assert_eq!(v, Value::Str(cs("x"))),
        _ => panic!("value after comments did not parse"),
    }
}

#[test]
fn test_consecutive_comments_skip() {
    let s = cs("# one\n# two\n# three\ntrue");
    match value(&s, 0) {
        Parsed::Found(v, _) => assert_eq!(v, Value::Boolean(true)),
        _ => panic!("value behind several comment lines did not parse"),
    }
}

#[test]
fn test_unclosed_list_fails() {
    let s = cs(r#"["a", "b""#);
    match value(&s, 0) {
        Parsed::Fail(_) => {}
        _ => panic!("unclosed list was accepted"),
    }
}

fn assert_round_trip(v: Value) {
    let text = render_value(&v);
    match value(&text, 0) {
        Parsed::Found(back, end) => {
            assert_eq!(end, text.len());
            assert_eq!(back, v);
        }
        _ => panic!("rendered value did not parse back: {:?}", text),
    }
}

#[test]
fn test_round_trip_scalars() {
    assert_round_trip(Value::Str(cs("hello \"world\"\n\t\\")));
    assert_round_trip(Value::Str(cs("")));
    assert_round_trip(Value::Boolean(true));
    assert_round_trip(Value::Boolean(false));
    assert_round_trip(Value::Number(Num { neg: false, mantissa: 0, exp: 0 }));
    assert_round_trip(Value::Number(Num { neg: true, mantissa: 314, exp: -2 }));
    assert_round_trip(Value::Number(Num { neg: false, mantissa: 5, exp: -9 }));
    assert_round_trip(Value::Number(Num { neg: false, mantissa: 7, exp: 12 }));
}

#[test]
fn test_round_trip_composites() {
    let inner = Value::Hash(vec![
        (cs("message"), Value::Str(cs("a\\%b"))),
        (cs("count"), Value::Number(Num { neg: false, mantissa: 3, exp: 0 })),
    ]);
    let v = Value::List(vec![
        Value::Str(cs("x")),
        Value::List(vec![]),
        Value::Hash(vec![]),
        inner,
        Value::Boolean(false),
    ]);
    assert_round_trip(v);
}

#[test]
fn test_render_exact() {
    let v = Value::Number(Num { neg: true, mantissa: 314, exp: -2 });
    assert_eq!(render_value(&v), cs("-3.14"));
    let l = Value::List(vec![
        Value::Number(Num { neg: false, mantissa: 1, exp: 0 }),
        Value::Boolean(true),
    ]);
    assert_eq!(render_value(&l), cs("[1,true]"));
}

//! The parser exercised through its public entry points.

use w_json::parse::{parse_array, parse_bool, parse_json, parse_null, parse_number, parse_object,
    parse_string, parse_value, Cursor};
use w_json::value::{FloatLit, Num, Value};

/// The 64-bit float a decimal literal stands for: the integer and
/// fractional digits joined by `.`, parsed, with the sign applied.
fn float_lit_value(f: &FloatLit) -> f64 {
    let v: f64 = format!("{}.{}", f.int_part, f.frac_part).parse().unwrap();
    if f.neg {
        -v
    } else {
        v
    }
}

#[test]
fn test_parse_null_should_work() {
    let input = Cursor::new("null");
    let ret = parse_null(input);
    assert!(ret.is_ok());
}

#[test]
fn test_parse_bool_should_work() {
    let input = Cursor::new("true");
    let (ret, _) = parse_bool(input).unwrap();
    assert!(ret);

    let input = Cursor::new("false");
    let (ret, _) = parse_bool(input).unwrap();
    assert!(!ret);
}

#[test]
fn test_parse_number_should_work() {
    let input = Cursor::new("123");
    let (ret, _) = parse_number(input).unwrap();
    assert_eq!(ret, Num::Int(123));

    let input = Cursor::new("-123");
    let (ret, _) = parse_number(input).unwrap();
    assert_eq!(ret, Num::Int(-123));

    let input = Cursor::new("123.456");
    let (ret, _) = parse_number(input).unwrap();
    match &ret {
        Num::Float(f) => assert_eq!(float_lit_value(f), 123.456),
        Num::Int(_) => panic!("expected a float"),
    }
    assert_eq!(
        ret,
        Num::Float(FloatLit {
            neg: false,
            int_part: "123".to_string(),
            frac_part: "456".to_string(),
        })
    );

    let input = Cursor::new("-123.456");
    let (ret, _) = parse_number(input).unwrap();
    match &ret {
        Num::Float(f) => assert_eq!(float_lit_value(f), -123.456),
        Num::Int(_) => panic!("expected a float"),
    }
    assert_eq!(
        ret,
        Num::Float(FloatLit {
            neg: true,
            int_part: "123".to_string(),
            frac_part: "456".to_string(),
        })
    );

    let input = Cursor::new("0");
    let (ret, _) = parse_number(input).unwrap();
    assert_eq!(ret, Num::Int(0));
}

#[test]
fn test_parse_string_should_work() {
    let input = Cursor::new(r#""hello""#);
    let (ret, _) = parse_string(input).unwrap();
    assert_eq!(ret, "hello");

    let input = Cursor::new(r#""""#);
    let (ret, _) = parse_string(input).unwrap();
    assert_eq!(ret, "");
}

#[test]
fn test_parse_array_should_work() {
    let input = Cursor::new(r#"[1, 2, 3]"#);
    let (ret, _) = parse_array(input).unwrap();
    assert_eq!(
        ret,
        vec![
            Value::Number(Num::Int(1)),
            Value::Number(Num::Int(2)),
            Value::Number(Num::Int(3)),
        ]
    );

    let input = Cursor::new(r#"[1, "hello", null]"#);
    let (ret, _) = parse_array(input).unwrap();
    assert_eq!(
        ret,
        vec![
            Value::Number(Num::Int(1)),
            Value::String("hello".to_string()),
            Value::Null,
        ]
    );
}

#[test]
fn test_parse_object_should_work() {
    let input = Cursor::new(r#"{"a": 1, "b": "hello", "c": null}"#);
    let (ret, _) = parse_object(input).unwrap();
    assert_eq!(
        ret,
        vec![
            ("a".to_string(), Value::Number(Num::Int(1))),
            ("b".to_string(), Value::String("hello".to_string())),
            ("c".to_string(), Value::Null),
        ]
    );
}

#[test]
fn parse_value_dispatches_in_order() {
    let (v, _) = parse_value(Cursor::new("null")).unwrap();
    assert_eq!(v, Value::Null);
    let (v, _) = parse_value(Cursor::new("true")).unwrap();
    assert_eq!(v, Value::Bool(true));
    let (v, _) = parse_value(Cursor::new("42")).unwrap();
    assert_eq!(v, Value::Number(Num::Int(42)));
    let (v, _) = parse_value(Cursor::new(r#""x""#)).unwrap();
    assert_eq!(v, Value::String("x".to_string()));
    let (v, _) = parse_value(Cursor::new("[]")).unwrap();
    assert_eq!(v, Value::Array(vec![]));
    let (v, _) = parse_value(Cursor::new(r#"{"k": 0}"#)).unwrap();
    assert_eq!(
        v,
        Value::Object(vec![("k".to_string(), Value::Number(Num::Int(0)))])
    );
}

#[test]
fn parse_null_consumes_whole_input() {
    let c2 = parse_null(Cursor::new("null")).unwrap();
    assert!(c2.at_end());
    assert_eq!(c2.offset(), 4);
}

#[test]
fn parse_json_parses_nested_document() {
    let s = r#"{
        "name": "John Doe",
        "age": 30,
        "is_student": false,
        "marks": [90.0, -80.0, 85.1],
        "address": {
            "city": "New York",
            "zip": 10001
        }
    }"#;
    let v = parse_json(s).unwrap();
    match v {
        Value::Object(pairs) => {
            assert_eq!(pairs.len(), 5);
            assert_eq!(pairs[0].0, "name");
            assert_eq!(pairs[0].1, Value::String("John Doe".to_string()));
            assert_eq!(pairs[1].1, Value::Number(Num::Int(30)));
            assert_eq!(pairs[2].1, Value::Bool(false));
            match &pairs[3].1 {
                Value::Array(marks) => {
                    assert_eq!(marks.len(), 3);
                    match &marks[2] {
                        Value::Number(Num::Float(f)) => {
                            assert_eq!(float_lit_value(f), 85.1);
                            assert!(!f.neg);
                        }
                        other => panic!("expected a float, got {:?}", other),
                    }
                }
                other => panic!("expected an array, got {:?}", other),
            }
        }
        other => panic!("expected an object, got {:?}", other),
    }
}

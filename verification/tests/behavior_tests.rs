//! Edge cases: errors with their offsets and kinds, the minimum-one-pair
//! rule for objects, duplicate keys, trailing input, and a concrete
//! round trip through the canonical rendering.

use w_json::error::{ErrorKind, ParseError};
use w_json::parse::{parse_array, parse_json, parse_number, parse_object, parse_string, Cursor};
use w_json::value::{Num, Value};

#[test]
fn empty_object_is_rejected() {
    let e = parse_json("{}").unwrap_err();
    assert_eq!(e.kind, ErrorKind::StructuralMismatch);
    assert_eq!(e.pos, 1);
}

#[test]
fn malformed_inputs_fail_with_a_position() {
    let e = parse_json("{").unwrap_err();
    assert_eq!(e, ParseError { pos: 1, kind: ErrorKind::StructuralMismatch });

    // At the top level the dispatcher reports its final fallback (the
    // object alternative), which fails where `{` was expected; the array
    // parser itself names the structural problem.
    let e = parse_json("[1,]").unwrap_err();
    assert_eq!(e, ParseError { pos: 0, kind: ErrorKind::LiteralMismatch });
    let e = parse_array(Cursor::new("[1,]")).unwrap_err();
    assert_eq!(e, ParseError { pos: 2, kind: ErrorKind::StructuralMismatch });

    let e = parse_json("tru").unwrap_err();
    assert_eq!(e.pos, 0);

    let e = parse_json("").unwrap_err();
    assert_eq!(e, ParseError { pos: 0, kind: ErrorKind::UnexpectedEnd });
}

#[test]
fn unterminated_string_reports_its_opening_quote() {
    let e = parse_string(Cursor::new("\"abc")).unwrap_err();
    assert_eq!(e, ParseError { pos: 0, kind: ErrorKind::UnexpectedEnd });
}

#[test]
fn unclosed_array_is_a_structural_mismatch() {
    let e = parse_array(Cursor::new("[1, 2")).unwrap_err();
    assert_eq!(e, ParseError { pos: 5, kind: ErrorKind::StructuralMismatch });
}

#[test]
fn integer_beyond_i64_is_rejected() {
    let e = parse_number(Cursor::new("9223372036854775808")).unwrap_err();
    assert_eq!(e, ParseError { pos: 0, kind: ErrorKind::LiteralMismatch });

    let (n, _) = parse_number(Cursor::new("9223372036854775807")).unwrap();
    assert_eq!(n, Num::Int(i64::MAX));

    let (n, _) = parse_number(Cursor::new("-9223372036854775807")).unwrap();
    assert_eq!(n, Num::Int(-i64::MAX));
}

#[test]
fn minus_zero_is_integer_zero() {
    let (n, _) = parse_number(Cursor::new("-0")).unwrap();
    assert_eq!(n, Num::Int(0));
}

#[test]
fn number_must_have_digits() {
    assert!(parse_number(Cursor::new("-")).is_err());
    assert!(parse_number(Cursor::new("-x")).is_err());
    assert!(parse_number(Cursor::new("1.")).is_err());
    assert!(parse_number(Cursor::new("1.x")).is_err());
}

#[test]
fn fractional_digits_are_kept_verbatim() {
    let (n, _) = parse_number(Cursor::new("1.0456")).unwrap();
    match n {
        Num::Float(f) => {
            assert_eq!(f.int_part, "1");
            assert_eq!(f.frac_part, "0456");
            assert!(!f.neg);
        }
        Num::Int(_) => panic!("expected a float"),
    }
}

#[test]
fn no_escape_interpretation_in_strings() {
    let (s, _) = parse_string(Cursor::new(r#""a\nb""#)).unwrap();
    assert_eq!(s, "a\\nb");

    let (s, c2) = parse_string(Cursor::new(r#""a\""#)).unwrap();
    assert_eq!(s, "a\\");
    assert!(c2.at_end());
}

#[test]
fn duplicate_keys_collapse_to_the_last_value() {
    let (pairs, _) = parse_object(Cursor::new(r#"{"a": 1, "b": 2, "a": 3}"#)).unwrap();
    assert_eq!(
        pairs,
        vec![
            ("a".to_string(), Value::Number(Num::Int(3))),
            ("b".to_string(), Value::Number(Num::Int(2))),
        ]
    );
}

#[test]
fn trailing_input_is_left_unconsumed() {
    let v = parse_json("nullx").unwrap();
    assert_eq!(v, Value::Null);

    let v = parse_json("[1] trailing").unwrap();
    assert_eq!(v, Value::Array(vec![Value::Number(Num::Int(1))]));
}

#[test]
fn whitespace_is_tolerated_around_separators() {
    let v = parse_json(" [ 1 ,\t2 ,\n3 ] ").unwrap();
    assert_eq!(
        v,
        Value::Array(vec![
            Value::Number(Num::Int(1)),
            Value::Number(Num::Int(2)),
            Value::Number(Num::Int(3)),
        ])
    );
}

#[test]
fn leading_whitespace_before_a_literal_fails() {
    assert!(parse_json(" null").is_err());
}

#[test]
fn canonical_rendering_round_trips() {
    let v1 = parse_json(r#"{"a": [1, -2.5, "x", null], "b": true}"#).unwrap();
    let v2 = parse_json(r#"{"a":[1,-2.5,"x",null],"b":true}"#).unwrap();
    assert_eq!(v1, v2);
}

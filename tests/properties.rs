use fuz_json_parser::json_parse;
use fuz_json_parser::values::JsonNum::{Float, Int};
use fuz_json_parser::values::JsonValue;
use fuz_json_parser::values::JsonValue::{Array, Bool, Null, Num, Obj};

fn text(s: &str) -> JsonValue {
    JsonValue::String(s.to_string())
}

fn sample() -> &'static str {
    "{\"name\": \"fuz\", \"list\": [1, -2, 3.25, true, false, null, [], {}], \"nested\": {\"a\": {\"b\": [\"x\", \"y\"]}}, \"big\": -170141183460469231731687303715884105728}"
}

#[test]
fn round_trip_through_encode() {
    let v = json_parse(sample()).unwrap();
    let again = json_parse(&v.encode()).unwrap();
    assert_eq!(again, v);
}

#[test]
fn round_trip_keeps_point_literals() {
    let v = json_parse("[1.0, -0.5, 10., .25]").unwrap();
    assert_eq!(v.encode(), "[1.0,-0.5,10.,.25]");
    assert_eq!(json_parse(&v.encode()).unwrap(), v);
}

#[test]
fn round_trip_of_control_characters() {
    let v = json_parse("[\"a\\nb\\tc\\r\"]").unwrap();
    assert_eq!(json_parse(&v.encode()).unwrap(), v);
}

#[test]
fn encode_does_not_escape_quotes() {
    let v = json_parse(r#"["\""]"#).unwrap();
    assert_eq!(v.encode(), "[\"\"\"]");
    assert!(json_parse(&v.encode()).is_err());
}

#[test]
fn parse_twice_gives_equal_values() {
    let s = sample();
    assert_eq!(json_parse(s), json_parse(s));
    assert_eq!(json_parse("[1,"), json_parse("[1,"));
}

#[test]
fn whitespace_between_tokens() {
    let compact = json_parse("{\"a\":[1,2,{\"b\":null}],\"c\":\"d\"}").unwrap();
    let spaced =
        json_parse(" \n\t{ \"a\" :\t[ 1 ,\n2 , { \"b\"\n:\nnull } ] , \"c\" : \"d\" }\n \t").unwrap();
    assert_eq!(spaced, compact);
}

#[test]
fn other_whitespace_is_not_skipped() {
    assert!(json_parse("[1,\r2]").is_err());
    assert!(json_parse("\r1").is_err());
}

#[test]
fn true_and_false_in_any_case() {
    for t in ["TRUE", "True", "tRuE", "true", "trUE"] {
        assert_eq!(json_parse(t), Ok(Bool(true)));
    }
    for t in ["FALSE", "False", "fAlSe", "false"] {
        assert_eq!(json_parse(t), Ok(Bool(false)));
    }
}

#[test]
fn null_only_in_lower_case() {
    assert_eq!(json_parse("null"), Ok(Null));
    assert!(json_parse("NULL").is_err());
    assert!(json_parse("Null").is_err());
    assert!(json_parse("nULL").is_err());
}

#[test]
fn blank_inputs_are_null() {
    assert_eq!(json_parse(""), Ok(Null));
    assert_eq!(json_parse("   "), Ok(Null));
    assert_eq!(json_parse("\t\n"), Ok(Null));
    assert_eq!(json_parse("[]"), Ok(Array(vec![])));
    assert_eq!(json_parse("{}"), Ok(Obj(vec![])));
}

#[test]
fn listed_error_inputs() {
    for s in ["randomtext", "\"unmatched quote", "[\"abc]", "[,,,,,,]", "[{]}", "}", "{", "]", "["] {
        assert!(json_parse(s).is_err(), "{} should not parse", s);
    }
}

#[test]
fn ten_nested_arrays() {
    let mut expected = Array(vec![]);
    for _ in 0..9 {
        expected = Array(vec![expected]);
    }
    assert_eq!(json_parse("[[[[[[[[[[]]]]]]]]]]"), Ok(expected));
}

#[test]
fn escapes() {
    assert_eq!(
        json_parse(r#"["\"", "\\"]"#),
        Ok(Array(vec![text("\""), text("\\")]))
    );
    assert_eq!(json_parse(r#""a\nb\tc\rd""#), Ok(text("a\nb\tc\rd")));
    assert_eq!(json_parse(r#""\u0041\u00e9\u4e2D""#), Ok(text("Aé中")));
}

#[test]
fn bad_escapes() {
    assert!(json_parse(r#""\x""#).is_err());
    assert!(json_parse(r#""\u00g1""#).is_err());
    assert!(json_parse(r#""\u+041""#).is_err());
    assert!(json_parse(r#""\ud800""#).is_err());
    assert!(json_parse(r#""\u00"#).is_err());
    assert!(json_parse("\"\\").is_err());
}

#[test]
fn numbers() {
    assert_eq!(json_parse("1"), Ok(Num(Int(1))));
    assert_eq!(json_parse("-0"), Ok(Num(Int(0))));
    assert_eq!(json_parse("007"), Ok(Num(Int(7))));
    assert_eq!(json_parse("-42"), Ok(Num(Int(-42))));
    assert_eq!(json_parse("1.1"), Ok(Num(Float("1.1".to_string()))));
    assert_eq!(
        json_parse("170141183460469231731687303715884105727"),
        Ok(Num(Int(i128::MAX)))
    );
    assert_eq!(
        json_parse("-170141183460469231731687303715884105728"),
        Ok(Num(Int(i128::MIN)))
    );
    assert_eq!(json_parse("-.5"), Ok(Num(Float("-.5".to_string()))));
    assert_eq!(json_parse("2."), Ok(Num(Float("2.".to_string()))));
}

#[test]
fn float_literals_hold_ieee_doubles() {
    let v = json_parse("[1.1, -2.5, 0.1, 10., .25, -.5]").unwrap();
    let expected: [f64; 6] = [1.1, -2.5, 0.1, 10.0, 0.25, -0.5];
    for (i, x) in expected.iter().enumerate() {
        assert_eq!(v.at(i).encode().parse::<f64>().unwrap(), *x);
    }
}

#[test]
fn bad_numbers() {
    assert!(json_parse("170141183460469231731687303715884105728").is_err());
    assert!(json_parse("-170141183460469231731687303715884105729").is_err());
    assert!(json_parse("1.2.3").is_err());
    assert!(json_parse("-").is_err());
    assert!(json_parse(".").is_err());
    assert!(json_parse("-.").is_err());
    assert!(json_parse("1-2").is_err());
    assert!(json_parse("--1.5").is_err());
}

#[test]
fn later_key_replaces_earlier() {
    assert_eq!(
        json_parse("{\"a\": 1, \"b\": 2, \"a\": 3}"),
        Ok(Obj(vec![
            ("a".to_string(), Num(Int(3))),
            ("b".to_string(), Num(Int(2)))
        ]))
    );
}

#[test]
fn text_after_the_value_is_not_read() {
    assert_eq!(json_parse("[] xyz"), Ok(Array(vec![])));
    assert_eq!(json_parse("12 34"), Ok(Num(Int(12))));
}

#[test]
fn separator_errors() {
    assert!(json_parse("[1 2]").is_err());
    assert!(json_parse("{\"a\" 1}").is_err());
    assert!(json_parse("{\"a\": 1 \"b\": 2}").is_err());
    assert!(json_parse("{1: 2}").is_err());
    assert!(json_parse("[1,]").is_err());
    assert!(json_parse("tru").is_err());
    assert!(json_parse("fals").is_err());
}

#[test]
fn error_messages() {
    let e = json_parse("[").unwrap_err();
    assert_eq!(e.message(), "Invalid JSON\t unexpected end of string");
    let e = json_parse("  ?").unwrap_err();
    assert_eq!(e.message(), "Invalid JSON\tunknown character at position: 2 `?`");
    let e = json_parse("[1 2]").unwrap_err();
    assert_eq!(
        e.message(),
        "Invalid json string error at position 4  expected either `,` or `]` instead found `2`"
    );
    let e = json_parse("tXue").unwrap_err();
    assert_eq!(
        e.message(),
        "failed assert expected \"true\"\n`X` is not equal to `r` at position 2"
    );
}

#[test]
fn failing_twice_gives_the_same_message() {
    for s in ["[1 2]", "{\"a\" 1}", "\"\\q\"", "tXue", "-"] {
        let a = json_parse(s).unwrap_err();
        let b = json_parse(s).unwrap_err();
        assert_eq!(a, b);
        assert!(!a.message().is_empty());
    }
}

#[test]
fn error_from_text() {
    let e = fuz_json_parser::error::FuzJsonParseError::from("bad input".to_string());
    assert_eq!(e.message(), "bad input");
}

#[test]
fn encode_is_compact() {
    let v = json_parse("[ 1 , \"a\" , true , null , { \"k\" : [ ] } , -7 ]").unwrap();
    assert_eq!(v.encode(), "[1,\"a\",true,null,{\"k\":[]},-7]");
}

#[test]
fn display_of_small_values() {
    let v = json_parse("[1, \"a\", {\"k\": false}]").unwrap();
    assert_eq!(v.to_display_string(), "[1, \"a\", {\"k\":false}]");
    assert_eq!(Null.to_display_string(), "null");
}

#[test]
fn display_breaks_large_arrays() {
    let v = json_parse("[1,2,3,4,5,6,7,8,9,10]").unwrap();
    assert_eq!(
        v.to_display_string(),
        "[\n   1, 2, 3, 4, 5, \n   6, 7, 8, 9, 10\n]"
    );
    let nine = json_parse("[1,2,3,4,5,6,7,8,9]").unwrap();
    assert_eq!(nine.to_display_string(), "[1, 2, 3, 4, 5, 6, 7, 8, 9]");
}

#[test]
fn display_breaks_large_objects() {
    let v = json_parse(
        "{\"a\":1,\"b\":2,\"c\":3,\"d\":4,\"e\":5,\"f\":6,\"g\":7,\"h\":8,\"i\":9,\"j\":10,\"k\":11}",
    )
    .unwrap();
    assert_eq!(
        v.to_display_string(),
        "{\n   \"a\":1, \"b\":2, \"c\":3, \"d\":4, \"e\":5, \n   \"f\":6, \"g\":7, \"h\":8, \"i\":9, \"j\":10, \n   \"k\":11\n}"
    );
}

#[test]
fn indexing() {
    let v = json_parse(sample()).unwrap();
    assert_eq!(v.get("name"), &text("fuz"));
    assert_eq!(v.get("list").at(1), &Num(Int(-2)));
    assert_eq!(v.get("nested").get("a").get("b").at(1).unwrap_string(), "y");
    assert_eq!(v.get("list").at(3).unwrap_bool(), true);
    assert_eq!(v.get("list").at(0).unwrap_int(), 1);
    assert_eq!(v.get("big").unwrap_int(), i128::MIN);
    assert_eq!(v.get("name").at(0), &Null);
    assert_eq!(v.get("list").get("x"), &Null);
    assert_eq!(JsonValue::default(), Null);
}

#[test]
fn number_accessors() {
    let v = json_parse("[3, 3.5]").unwrap();
    match (v.at(0), v.at(1)) {
        (Num(i), Num(f)) => {
            assert_eq!(i.unwrap_int(), 3);
            assert_eq!(f.float_text(), "3.5");
        }
        _ => panic!("expected numbers"),
    }
    assert!(matches!(v.at(1), Num(Float(_))));
}

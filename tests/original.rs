use fuz_json_parser::json_parse;
use fuz_json_parser::values::JsonNum::{Float, Int};
use fuz_json_parser::values::JsonValue;
use fuz_json_parser::values::JsonValue::{Array, Bool, Null, Num, Obj};

fn float_of(v: &JsonValue) -> f64 {
    match v {
        Num(Float(t)) => t.parse::<f64>().unwrap(),
        other => panic!("expected a float, found {:?}", other),
    }
}

#[test]
fn basic_value_types() {
    assert_eq!(json_parse("[]"), Ok(Array(vec![])));
    assert_eq!(json_parse("{}"), Ok(Obj(vec![])));
    assert_eq!(json_parse("    "), Ok(Null));
    assert_eq!(json_parse("1"), Ok(Num(Int(1))));
    assert_eq!(float_of(&json_parse("1.1").unwrap()), 1.1);
    assert_eq!(json_parse("null"), Ok(Null));
    assert_eq!(json_parse("true"), Ok(Bool(true)));

    assert_eq!(
        json_parse("\"string\""),
        Ok(JsonValue::String("string".into()))
    );
}

#[test]
fn bools() {
    assert_eq!(json_parse("true"), Ok(Bool(true)));
    assert_eq!(json_parse("false"), Ok(Bool(false)));
    assert_eq!(json_parse("False"), Ok(Bool(false)));
    assert_eq!(json_parse("TRUE"), Ok(Bool(true)));
    assert_eq!(json_parse("fAlSE"), Ok(Bool(false)));
}

#[test]
fn map1() {
    assert_eq!(
        json_parse("{\"val\": 1}"),
        Ok(Obj(vec![("val".to_string(), Num(Int(1)))]))
    );
}

fn six_members() -> JsonValue {
    Obj(vec![
        ("val1".to_string(), Num(Int(1))),
        ("val2".to_string(), Num(Int(2))),
        ("val3".to_string(), JsonValue::String("str1".to_string())),
        ("val4".to_string(), JsonValue::String("str2".to_string())),
        ("val5".to_string(), JsonValue::String("str3".to_string())),
        ("val6".to_string(), JsonValue::String("str4".to_string())),
    ])
}

#[test]
fn map2() {
    assert_eq!(
        json_parse("{\"val1\": 1,\"val2\":2, \"val3\":\"str1\", \"val4\": \"str2\", \"val5\":\"str3\", \"val6\": \"str4\"}"),
        Ok(six_members())
    );
}

#[test]
fn quote_types() {
    assert_eq!(
        json_parse("[\"val\",\"val\",\"val\",\"val\",\"val\"]"),
        Ok(Array(vec![
            JsonValue::String("val".into()),
            JsonValue::String("val".into()),
            JsonValue::String("val".into()),
            JsonValue::String("val".into()),
            JsonValue::String("val".into())
        ]))
    );

    assert_eq!(
        json_parse("{\"val1\": 1,\"val2\":2, \"val3\":\"str1\", \"val4\": \"str2\", \"val5\":\"str3\", \"val6\": \"str4\"}"),
        Ok(six_members())
    );
}

#[test]
fn arrays() {
    assert_eq!(
        json_parse("[[[[[[[[[[]]]]]]]]]]"),
        Ok(Array(vec![Array(vec![Array(vec![Array(vec![Array(
            vec![Array(vec![Array(vec![Array(vec![Array(vec![Array(
                vec![]
            )])])])])]
        )])])])]))
    );
}

#[test]
fn edge_cases1() {
    assert_eq!(
        json_parse(r#"["\"", "\\"]"#),
        Ok(Array(vec![
            JsonValue::String("\"".into()),
            JsonValue::String("\\".into())
        ]))
    );
}

#[test]
fn edge_cases2() {
    assert_eq!(
        json_parse(r#"[":" , ","]"#),
        Ok(Array(vec![
            JsonValue::String(":".into()),
            JsonValue::String(",".into())
        ]))
    );
}

#[test]
fn edge_cases3() {
    assert_eq!(
        json_parse(r#"["," , "b"]"#),
        Ok(Array(vec![
            JsonValue::String(",".into()),
            JsonValue::String("b".into())
        ]))
    );
}

#[test]
fn edge_cases4() {
    assert_eq!(json_parse("[          ]"), Ok(Array(vec![])));
}

#[test]
fn invalid_json1() {
    assert!(json_parse("randomtext").is_err());
}

#[test]
fn invalid_json2() {
    assert!(json_parse("\"unmatched quote").is_err());
}

#[test]
fn invalid_json3() {
    assert!(json_parse("'unmatched single quote").is_err());
}

#[test]
fn invalid_json4() {
    assert!(json_parse("[\"abc]").is_err());
}

#[test]
fn invalid_json5() {
    assert!(json_parse("[,,,,,,]").is_err());
}

#[test]
fn invalid_json6() {
    assert!(json_parse("['heds\\']").is_err());
}

#[test]
fn invalid_json7() {
    assert!(json_parse("[\\\"abc]").is_err());
}

#[test]
fn invalid_json8() {
    assert!(json_parse("[{]}").is_err());
}

#[test]
fn invalid_json9() {
    assert!(json_parse("}").is_err());
    assert!(json_parse("{").is_err());
    assert!(json_parse("]").is_err());
    assert!(json_parse("[").is_err());
}

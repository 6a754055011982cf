use holycontainer::json::{array, object, parse, string, JsonValue};

#[test]
fn json_parses_nested_document() {
    let v = parse(r#" { "a": [1, 2.5, -3e2], "b": {"c": null, "d": true}, "e": "x\ny" } "#).unwrap();
    let a = v.get("a").unwrap().as_array().unwrap();
    assert_eq!(a.len(), 3);
    assert_eq!(a[0].as_i64(), Some(1));
    match &a[1] {
        JsonValue::Number(t) => assert_eq!(t, "2.5"),
        _ => panic!("not a number"),
    }
    match &a[2] {
        JsonValue::Number(t) => assert_eq!(t, "-3e2"),
        _ => panic!("not a number"),
    }
    assert!(matches!(v.get("b").unwrap().get("c"), Some(JsonValue::Null)));
    assert_eq!(v.get("b").unwrap().get("d").unwrap().as_bool(), Some(true));
    assert_eq!(v.get("e").unwrap().as_str(), Some("x\ny"));
    assert!(v.get("zz").is_none());
}

#[test]
fn json_rejects_trailing_data() {
    assert!(parse("1 2").is_err());
    assert!(parse("[1,]").is_err());
    assert!(parse("{\"a\" 1}").is_err());
    assert!(parse("").is_err());
    assert!(parse("tru").is_err());
    assert!(parse("01").is_err());
    assert!(parse("1.").is_err());
    assert!(parse("1e").is_err());
    assert!(parse("\"abc").is_err());
    assert!(parse("\"\\q\"").is_err());
}

#[test]
fn json_unicode_escapes() {
    let v = parse(r#""\u0041\u00e9\ud83d\ude00""#).unwrap();
    assert_eq!(v.as_str(), Some("A\u{e9}\u{1F600}"));
    // an unpaired low surrogate gives nothing
    let w = parse(r#""a\udc00b""#).unwrap();
    assert_eq!(w.as_str(), Some("ab"));
    // a high surrogate not followed by an escape is an error
    assert!(parse(r#""\ud83dx""#).is_err());
    // a bad hex digit is an error
    assert!(parse(r#""\u00g0""#).is_err());
}

#[test]
fn json_duplicate_key_keeps_place_takes_last_value() {
    let v = parse(r#"{"k": 1, "j": 2, "k": 3}"#).unwrap();
    let m = v.as_object().unwrap();
    assert_eq!(m.len(), 2);
    assert_eq!(m[0].0, "k");
    assert_eq!(m[0].1.as_i64(), Some(3));
    assert_eq!(v.get("k").unwrap().as_i64(), Some(3));
}

#[test]
fn json_as_i64_integer_literals_only() {
    assert_eq!(parse("-9223372036854775808").unwrap().as_i64(), Some(i64::MIN));
    assert_eq!(parse("9223372036854775807").unwrap().as_i64(), Some(i64::MAX));
    assert_eq!(parse("9223372036854775808").unwrap().as_i64(), None);
    assert_eq!(parse("1.5").unwrap().as_i64(), None);
    assert_eq!(parse("\"5\"").unwrap().as_i64(), None);
}

#[test]
fn json_index_and_kinds() {
    let v = parse("[false, \"s\"]").unwrap();
    assert_eq!(v.index(0).unwrap().as_bool(), Some(false));
    assert_eq!(v.index(1).unwrap().as_str(), Some("s"));
    assert!(v.index(2).is_none());
    assert!(v.as_object().is_none());
    assert!(v.get("x").is_none());
}

#[test]
fn json_writes_compact_text() {
    let v = object(vec![
        ("name", string("a\"b")),
        ("list", array(vec![JsonValue::Null, JsonValue::Bool(true)])),
        ("name", string("c")),
    ]);
    assert_eq!(v.to_json_string(), r#"{"name":"c","list":[null,true]}"#);
    let w = parse(r#"{"x": [1, {"y": "\t"}]}"#).unwrap();
    assert_eq!(w.to_json_string(), r#"{"x":[1,{"y":"\t"}]}"#);
}

#[test]
fn json_text_roundtrip_on_example() {
    let src = r#"{"a":[1,2,{"b":"c\\d"}],"e":false}"#;
    let v = parse(src).unwrap();
    assert_eq!(v.to_json_string(), src);
    let again = parse(&v.to_json_string()).unwrap();
    assert_eq!(again.to_json_string(), src);
}

#[test]
fn json_write_then_read_gives_the_value() {
    let v = object(vec![
        ("name", string("a \"quoted\"\tname\u{1}")),
        ("list", array(vec![JsonValue::Number("-1.5e3".to_string()), JsonValue::Null, JsonValue::Bool(false)])),
        ("empty", array(vec![])),
        ("inner", object(vec![("k", JsonValue::Number("0".to_string()))])),
    ]);
    let text = v.to_json_string();
    assert_eq!(
        text,
        "{\"name\":\"a \\\"quoted\\\"\\tname\\u0001\",\"list\":[-1.5e3,null,false],\"empty\":[],\"inner\":{\"k\":0}}"
    );
    let back = parse(&text).unwrap();
    assert_eq!(back.to_json_string(), text);
    assert_eq!(back.get("name").unwrap().as_str(), Some("a \"quoted\"\tname\u{1}"));
    assert_eq!(back.get("inner").unwrap().get("k").unwrap().as_i64(), Some(0));
}

#[test]
fn json_strings_are_decoded_as_utf8() {
    let v = parse(r#""café \u00e9\ud83d\ude00""#).unwrap();
    assert_eq!(v.as_str(), Some("café é😀"));
    let o = parse("{\"名前\": \"値\"}").unwrap();
    assert_eq!(o.get("名前").unwrap().as_str(), Some("値"));
}

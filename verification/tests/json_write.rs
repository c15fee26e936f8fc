use fruits::json_indent::JsonIndentState;
use fruits::json_parse::{JsonNumberText, JsonValue};
use fruits::json_write::write_preindented;

fn num(n: i128) -> JsonValue {
    JsonValue::Number(JsonNumberText::Int(n))
}

fn flat(v: &JsonValue) -> String {
    let mut s = String::new();
    fruits::json_write::write(v, &mut s, None);
    s
}

fn indented(v: &JsonValue, size: usize) -> String {
    let mut s = String::new();
    v.write(&mut s, Some(size));
    s
}

#[test]
fn write_scalars() {
    assert_eq!(flat(&JsonValue::Null), "null");
    assert_eq!(flat(&JsonValue::Bool(true)), "true");
    assert_eq!(flat(&JsonValue::Bool(false)), "false");
    assert_eq!(flat(&num(0)), "0");
    assert_eq!(flat(&num(-42)), "-42");
    assert_eq!(flat(&num(i128::MIN)), i128::MIN.to_string());
    assert_eq!(flat(&num(i128::MAX)), i128::MAX.to_string());
    assert_eq!(flat(&JsonValue::Number(JsonNumberText::Decimal("1.50".to_string()))), "1.50");
    assert_eq!(flat(&JsonValue::String("hi".to_string())), "\"hi\"");
}

#[test]
fn write_flat_containers() {
    let v = JsonValue::Array(vec![num(1), JsonValue::String("a".to_string()), JsonValue::Bool(true)]);
    assert_eq!(flat(&v), "[1,\"a\",true]");
    let o = JsonValue::Object(vec![
        ("x".to_string(), num(1)),
        ("y".to_string(), JsonValue::Array(vec![])),
    ]);
    assert_eq!(flat(&o), "{\"x\":1,\"y\":[]}");
    assert_eq!(flat(&JsonValue::Object(vec![])), "{}");
}

#[test]
fn write_indented_nesting() {
    let v = JsonValue::Array(vec![
        num(1),
        JsonValue::Object(vec![("k".to_string(), JsonValue::Array(vec![]))]),
    ]);
    assert_eq!(indented(&v, 2), "[\n  1,\n  {\n    \"k\": []\n  }\n]");
}

#[test]
fn write_preindented_starts_at_given_level() {
    let v = JsonValue::Array(vec![num(7)]);
    let mut s = String::from(">");
    write_preindented(&v, &mut s, Some(JsonIndentState { size: 4, count: 1 }));
    assert_eq!(s, ">[\n        7\n    ]");
}

#[test]
fn write_then_parse_gives_same_text() {
    let v = JsonValue::Object(vec![
        ("a".to_string(), num(3)),
        ("b".to_string(), JsonValue::Array(vec![JsonValue::Null])),
    ]);
    let text = flat(&v);
    let chars: Vec<char> = text.chars().collect();
    let parsed = JsonValue::parse(&chars).unwrap();
    assert_eq!(flat(&parsed), text);
}

#[test]
fn indented_text_parses_back_to_the_same_value() {
    let v = JsonValue::Object(vec![
        ("list".to_string(), JsonValue::Array(vec![num(0), num(12), JsonValue::Bool(true)])),
        ("name".to_string(), JsonValue::String("pear".to_string())),
        ("none".to_string(), JsonValue::Null),
        ("inner".to_string(), JsonValue::Object(vec![("k".to_string(), JsonValue::Array(vec![]))])),
    ]);
    let text = indented(&v, 3);
    let chars: Vec<char> = text.chars().collect();
    let parsed = JsonValue::parse(&chars).unwrap();
    assert_eq!(flat(&parsed), flat(&v));
}

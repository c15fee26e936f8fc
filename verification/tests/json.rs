use fruits::json_parse::{parse_json, JsonNumberText, JsonValue};

fn chars(s: &str) -> Vec<char> {
    s.chars().collect()
}

fn show(v: &JsonValue) -> String {
    match v {
        JsonValue::Null => String::from("null"),
        JsonValue::Bool(b) => format!("{}", b),
        JsonValue::Number(JsonNumberText::Int(n)) => format!("{}", n),
        JsonValue::Number(JsonNumberText::Decimal(t)) => format!("d{}", t),
        JsonValue::String(t) => format!("'{}'", t),
        JsonValue::Array(a) => format!("[{}]", a.iter().map(show).collect::<Vec<_>>().join(",")),
        JsonValue::Object(o) => format!(
            "{{{}}}",
            o.iter().map(|(k, v)| format!("{}:{}", k, show(v))).collect::<Vec<_>>().join(",")
        ),
    }
}

fn parse_all(s: &str) -> Option<(String, usize)> {
    parse_json(&chars(s), 0).map(|(v, e)| (show(&v), e))
}

fn num(n: i128) -> String {
    format!("{}", n)
}

#[test]
fn json_words() {
    assert_eq!(parse_all("null"), Some((String::from("null"), 4)));
    assert_eq!(parse_all("  true,"), Some((String::from("true"), 6)));
    assert_eq!(parse_all("false"), Some((String::from("false"), 4)));
    assert_eq!(parse_all("nul"), None);
    assert_eq!(parse_all("nax"), None);
    assert_eq!(parse_all("x"), None);
    assert_eq!(parse_all("   "), None);
}

#[test]
fn json_numbers() {
    assert_eq!(parse_all("123 "), Some((num(123), 3)));
    assert_eq!(parse_all("007"), Some((num(7), 3)));
    assert_eq!(
        parse_all("1.5.2"),
        Some((String::from("d1.5"), 3))
    );
    assert_eq!(
        parse_all(".5"),
        Some((String::from("d.5"), 2))
    );
    assert_eq!(parse_all("."), None);
    assert_eq!(parse_all("170141183460469231731687303715884105727"), Some((num(i128::MAX), 39)));
    assert_eq!(parse_all("170141183460469231731687303715884105728"), None);
}

#[test]
fn json_strings_and_arrays() {
    assert_eq!(parse_all("\"hi there\"x"), Some((String::from("'hi there'"), 10)));
    assert_eq!(parse_all("\"open"), None);
    assert_eq!(
        parse_all("[1, 2 ,3]"),
        Some((String::from("[1,2,3]"), 9))
    );
    assert_eq!(parse_all("[]"), Some((String::from("[]"), 2)));
    assert_eq!(parse_all("[1,]"), Some((String::from("[1]"), 4)));
    assert_eq!(parse_all("[1 2]"), None);
    assert_eq!(parse_all("[1"), None);
}

#[test]
fn json_objects() {
    assert_eq!(
        parse_all("{\"a\": 1, \"b\" : [null ]}"),
        Some((String::from("{a:1,b:[null]}"), 23))
    );
    assert_eq!(parse_all("{\"a\":1,\"a\":2}"), None);
    assert_eq!(parse_all("{}"), Some((String::from("{}"), 2)));
    assert_eq!(parse_all("{\"a\":1,}"), Some((String::from("{}"), 8)));
    assert_eq!(parse_all("{\"a\" 1}"), None);
    assert!(JsonValue::parse(&chars(" [false]")).is_none());
    assert_eq!(parse_json(&chars("x 5"), 1).map(|(v, e)| (show(&v), e)), Some((num(5), 3)));
    assert_eq!(JsonValue::parse(&chars(" [true]")).map(|v| show(&v)), Some(String::from("[true]")));
}

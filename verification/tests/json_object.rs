use fruits::json_object::JsonObject;
use fruits::json_parse::{JsonNumberText, JsonValue};

fn num(n: i128) -> JsonValue {
    JsonValue::Number(JsonNumberText::Int(n))
}

fn as_int(v: Option<&JsonValue>) -> Option<i128> {
    match v {
        Some(JsonValue::Number(JsonNumberText::Int(n))) => Some(*n),
        _ => None,
    }
}

#[test]
fn push_field_refuses_a_taken_name() {
    let mut o = JsonObject::new();
    assert!(o.push_field("a".to_string(), num(1)).is_ok());
    assert!(o.push_field("b".to_string(), num(2)).is_ok());
    let back = o.push_field("a".to_string(), num(3)).unwrap_err();
    assert_eq!(back.name, "a");
    assert_eq!(as_int(Some(&back.value)), Some(3));
    assert_eq!(o.field_names(), &["a".to_string(), "b".to_string()]);
    assert_eq!(as_int(o.get_value("a")), Some(1));
    assert_eq!(as_int(o.get_value("b")), Some(2));
    assert!(o.get_value("c").is_none());
}

#[test]
fn with_field_chains_and_hands_back_on_conflict() {
    let o = JsonObject::new().with_field("x".to_string(), num(1)).ok().unwrap();
    let o = o.with_field("y".to_string(), JsonValue::Null).ok().unwrap();
    let (o, f) = match o.with_field("x".to_string(), num(9)) {
        Err(pair) => pair,
        Ok(_) => panic!("a taken name was accepted"),
    };
    assert_eq!(f.name, "x");
    assert_eq!(o.field_names().len(), 2);
    let fields = o.into_fields();
    let names: Vec<&str> = fields.iter().map(|f| f.name.as_str()).collect();
    assert_eq!(names, vec!["x", "y"]);
}

#[test]
fn object_becomes_a_json_value_in_order() {
    let mut o = JsonObject::new();
    assert!(o.push_field("k".to_string(), num(5)).is_ok());
    assert!(o.push_field("j".to_string(), JsonValue::Bool(true)).is_ok());
    match o.into_value() {
        JsonValue::Object(v) => {
            assert_eq!(v.len(), 2);
            assert_eq!(v[0].0, "k");
            assert_eq!(v[1].0, "j");
        },
        _ => panic!("not an object"),
    }
}

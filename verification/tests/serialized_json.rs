use fruits::json_parse::{JsonNumberText, JsonValue};
use fruits::serialized_json::{int_from_json, int_to_json, map_fields_from_json, map_fields_to_json};

fn num(n: i128) -> JsonValue {
    JsonValue::Number(JsonNumberText::Int(n))
}

fn names(v: &[(String, JsonValue)]) -> Vec<&str> {
    v.iter().map(|f| f.0.as_str()).collect()
}

#[test]
fn ints_are_clamped_for_json() {
    assert_eq!(int_to_json(5), 5);
    assert_eq!(int_to_json(i128::MAX), u64::MAX as i128);
    assert_eq!(int_to_json(i128::MIN), i64::MIN as i128);
    assert_eq!(int_from_json(-3), Some(-3));
    assert_eq!(int_from_json(u64::MAX as i128 + 1), None);
}

#[test]
fn variant_goes_first_and_reserved_fields_are_skipped() {
    let fields = vec![
        ("a".to_string(), num(1)),
        ("$enum_variant".to_string(), num(2)),
        ("b".to_string(), JsonValue::Null),
    ];
    let out = map_fields_to_json(fields, Some("Circle".to_string()));
    assert_eq!(names(&out), vec!["$enum_variant", "a", "b"]);
    match &out[0].1 {
        JsonValue::String(t) => assert_eq!(t, "Circle"),
        _ => panic!("variant is no string"),
    }
    let plain = map_fields_to_json(vec![("x".to_string(), num(0))], None);
    assert_eq!(names(&plain), vec!["x"]);
}

#[test]
fn variant_is_read_back_from_a_string_only() {
    let fields = vec![
        ("$enum_variant".to_string(), JsonValue::String("Rect".to_string())),
        ("w".to_string(), num(3)),
    ];
    let (rest, variant) = map_fields_from_json(fields);
    assert_eq!(names(&rest), vec!["w"]);
    assert_eq!(variant, Some("Rect".to_string()));
    let (rest, variant) = map_fields_from_json(vec![("$enum_variant".to_string(), num(1))]);
    assert!(rest.is_empty());
    assert_eq!(variant, None);
}

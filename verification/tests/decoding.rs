use fruits::decoding::{deserialize_int, IntComplaint, IntSource};

#[test]
fn reads_integers_in_range_without_complaint() {
    assert_eq!(deserialize_int(&IntSource::Int(42), 0, 255), (42, None));
    assert_eq!(deserialize_int(&IntSource::Int(-5), -128, 127), (-5, None));
}

#[test]
fn clamps_integers_out_of_range() {
    assert_eq!(deserialize_int(&IntSource::Int(300), 0, 255), (255, Some(IntComplaint::Clamped)));
    assert_eq!(deserialize_int(&IntSource::Int(-1), 0, 255), (0, Some(IntComplaint::Clamped)));
}

#[test]
fn non_integers_read_with_a_complaint() {
    assert_eq!(deserialize_int(&IntSource::Null, 0, 255), (0, Some(IntComplaint::FromNull)));
    assert_eq!(
        deserialize_int(&IntSource::Composite, 0, 255),
        (0, Some(IntComplaint::FromComposite))
    );
    assert_eq!(deserialize_int(&IntSource::Bool(true), 0, 255), (1, Some(IntComplaint::FromBool)));
    assert_eq!(deserialize_int(&IntSource::Bool(false), 0, 255), (0, Some(IntComplaint::FromBool)));
    assert_eq!(deserialize_int(&IntSource::Float(1000), 0, 255), (255, Some(IntComplaint::FromFloat)));
}

#[test]
fn text_is_parsed_then_clamped() {
    assert_eq!(
        deserialize_int(&IntSource::Text("42".to_string()), 0, 255),
        (42, Some(IntComplaint::FromText))
    );
    assert_eq!(
        deserialize_int(&IntSource::Text("-7".to_string()), 0, 255),
        (0, Some(IntComplaint::FromText))
    );
    assert_eq!(
        deserialize_int(&IntSource::Text("abc".to_string()), 5, 10),
        (5, Some(IntComplaint::FromText))
    );
}

fn names() -> Vec<String> {
    vec!["Empty".to_string(), "Circle".to_string(), "Rect".to_string()]
}

#[test]
fn enum_uses_the_tagged_variant_first() {
    let attempt = |i: usize| Some(i * 10);
    let tag = "Rect".to_string();
    assert_eq!(fruits::decoding::finish_enum(&names(), Some(&tag), &attempt), (Some(20), false));
}

#[test]
fn enum_falls_back_in_order_when_the_tag_is_unknown() {
    let attempt = |i: usize| if i >= 1 { Some(i) } else { None };
    let tag = "Square".to_string();
    assert_eq!(fruits::decoding::finish_enum(&names(), Some(&tag), &attempt), (Some(1), true));
    assert_eq!(fruits::decoding::finish_enum(&names(), None, &attempt), (Some(1), true));
}

#[test]
fn enum_falls_back_when_the_tagged_variant_fails() {
    let attempt = |i: usize| if i == 0 { Some(7usize) } else { None };
    let tag = "Circle".to_string();
    assert_eq!(fruits::decoding::finish_enum(&names(), Some(&tag), &attempt), (Some(7), true));
}

#[test]
fn enum_with_no_decoding_variant_is_none() {
    let attempt = |_i: usize| None::<u8>;
    let tag = "Empty".to_string();
    assert_eq!(fruits::decoding::finish_enum(&names(), Some(&tag), &attempt), (None, true));
}

#[test]
fn text_reads_only_a_signed_decimal_integer() {
    let read = |t: &str| deserialize_int(&IntSource::Text(t.to_string()), -1000, 1000).0;
    assert_eq!(read("+5"), 5);
    assert_eq!(read("-12"), -12);
    assert_eq!(read("007"), 7);
    assert_eq!(read("12a"), 0);
    assert_eq!(read(" 3"), 0);
    assert_eq!(read(""), 0);
    assert_eq!(read("-"), 0);
    assert_eq!(read("1_000"), 0);
    assert_eq!(read("999999999999999999999999999999999999999999"), 0);
}

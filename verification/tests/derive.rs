use fruits::derive_text::{deserialize_impl, serialize_impl, FieldsShape, TypeShape};

const SER_HEAD: &str = "fn serialize(&self, mut ctx: PureSerializerCtx) -> SerializedValue { ";
const DE_HEAD: &str =
    "fn deserialize(mut ctx: PureSerializerCtx, value: &SerializedValue) -> Option<Self> { ";

fn player() -> TypeShape {
    TypeShape::Struct(FieldsShape::Named(vec!["name".to_string(), "score".to_string()]))
}

fn shape_enum() -> TypeShape {
    TypeShape::Enum(vec![
        ("Empty".to_string(), FieldsShape::Unit),
        ("Circle".to_string(), FieldsShape::Unnamed(1)),
        (
            "Rect".to_string(),
            FieldsShape::Named(vec!["w".to_string(), "h".to_string()]),
        ),
    ])
}

#[test]
fn serialize_named_struct() {
    let expected = format!(
        "{}ctx.serialize_map().with_field(\"name\", &self.name).with_field(\"score\", &self.score).finish_as_map(true) }} ",
        SER_HEAD
    );
    assert_eq!(serialize_impl(&player()), expected);
}

#[test]
fn deserialize_named_struct() {
    let expected = format!(
        "{}ctx.deserialize_map(value, |mut ctx| {{ Some(Self {{name: ctx.get_field(\"name\")?,score: ctx.get_field(\"score\")?,}})}}) }} ",
        DE_HEAD
    );
    assert_eq!(deserialize_impl(&player()), expected);
}

#[test]
fn tuple_struct_fields_are_keyed_by_index() {
    let shape = TypeShape::Struct(FieldsShape::Unnamed(2));
    let ser = format!(
        "{}ctx.serialize_map().with_field(\"0\", &self.0).with_field(\"1\", &self.1).finish_as_map(true) }} ",
        SER_HEAD
    );
    let de = format!(
        "{}ctx.deserialize_map(value, |mut ctx| {{ Some(Self(ctx.get_field(\"0\")?,ctx.get_field(\"1\")?,))}}) }} ",
        DE_HEAD
    );
    assert_eq!(serialize_impl(&shape), ser);
    assert_eq!(deserialize_impl(&shape), de);
}

#[test]
fn tuple_struct_with_many_fields_writes_two_digit_keys() {
    let shape = TypeShape::Struct(FieldsShape::Unnamed(11));
    let ser = serialize_impl(&shape);
    assert!(ser.contains(".with_field(\"9\", &self.9).with_field(\"10\", &self.10).finish_as_map(true)"));
}

#[test]
fn unit_struct_is_an_empty_map() {
    let shape = TypeShape::Struct(FieldsShape::Unit);
    assert_eq!(
        serialize_impl(&shape),
        format!("{}ctx.serialize_map().finish_as_map(true) }} ", SER_HEAD)
    );
    assert_eq!(
        deserialize_impl(&shape),
        format!("{}ctx.deserialize_map(value, |mut ctx| {{ Some(Self)}}) }} ", DE_HEAD)
    );
}

#[test]
fn enum_serializes_every_variant_kind() {
    let expected = format!(
        "{}let variants = [\"Empty\", \"Circle\", \"Rect\"].into_iter().map(FfiString::from).collect();match self {{Self::Empty => ctx.serialize_map().finish_as_enum(true, \"Empty\", variants),Self::Circle(arg_0) => ctx.serialize_map().with_field(\"0\", arg_0).finish_as_enum(true, \"Circle\", variants),Self::Rect {{ w: f_w, h: f_h }} => ctx.serialize_map().with_field(\"w\", f_w).with_field(\"h\", f_h).finish_as_enum(true, \"Rect\", variants),}} }} ",
        SER_HEAD
    );
    assert_eq!(serialize_impl(&shape_enum()), expected);
}

#[test]
fn enum_deserializes_every_variant_kind() {
    let expected = format!(
        "{}ctx.deserialize_enum().variant(\"Empty\", |mut ctx, value| {{ctx.deserialize_map(value, |mut ctx| {{ Some(Self::Empty) }})}}).variant(\"Circle\", |mut ctx, value| {{ctx.deserialize_map(value, |mut ctx| {{ Some(Self::Circle (ctx.get_field(\"0\")?,))}})}}).variant(\"Rect\", |mut ctx, value| {{ctx.deserialize_map(value, |mut ctx| {{ Some(Self::Rect {{w: ctx.get_field(\"w\")?,h: ctx.get_field(\"h\")?,}})}})}}).finish(value) }} ",
        DE_HEAD
    );
    assert_eq!(deserialize_impl(&shape_enum()), expected);
}

#[test]
fn enum_tuple_variant_binds_each_position() {
    let shape = TypeShape::Enum(vec![("Pair".to_string(), FieldsShape::Unnamed(2))]);
    let ser = serialize_impl(&shape);
    assert!(ser.contains("Self::Pair(arg_0, arg_1) => ctx.serialize_map().with_field(\"0\", arg_0).with_field(\"1\", arg_1)"));
}

#[test]
fn derive_generic_type_with_where_clause() {
    let shape = TypeShape::Struct(FieldsShape::Named(vec!["value".to_string()]));
    let out = fruits::derive_text::derive(
        &"< T >".to_string(),
        &vec!["T".to_string()],
        &"Wrapper".to_string(),
        &Some("T : Clone".to_string()),
        &shape,
    );
    let expected = format!(
        "impl< T > Serializable for Wrapper<T,> where Self: 'static , T : Clone {{ {}{} }} ",
        serialize_impl(&shape),
        deserialize_impl(&shape)
    );
    assert_eq!(out, expected);
}

#[test]
fn derive_plain_type_has_empty_parameter_list() {
    let shape = TypeShape::Struct(FieldsShape::Unit);
    let out = fruits::derive_text::derive(&String::new(), &vec![], &"Marker".to_string(), &None, &shape);
    assert!(out.starts_with("impl Serializable for Marker<> where Self: 'static  { fn serialize"));
    assert!(out.ends_with(" }  } "));
}

#[test]
fn every_field_and_variant_is_keyed_by_its_name() {
    let ser = serialize_impl(&player());
    let de = deserialize_impl(&player());
    for f in ["name", "score"] {
        assert!(ser.contains(&format!(".with_field(\"{f}\", &self.{f})")));
        assert!(de.contains(&format!("{f}: ctx.get_field(\"{f}\")?,")));
    }
    let ser = serialize_impl(&shape_enum());
    let de = deserialize_impl(&shape_enum());
    for v in ["Empty", "Circle", "Rect"] {
        assert!(ser.contains(&format!("\"{v}\"")));
        assert!(de.contains(&format!(".variant(\"{v}\", |mut ctx, value| {{")));
    }
}

#[test]
fn derive_from_item_tokens() {
    let out = fruits::derive_text::derive_from_tokens("struct Player { name: String, score: u32 }").unwrap();
    let expected = format!(
        "impl Serializable for Player<> where Self: 'static  {{ {}{} }} ",
        serialize_impl(&player()),
        deserialize_impl(&player())
    );
    assert_eq!(out, expected);
}

#[test]
fn derive_from_generic_enum_tokens() {
    let out = fruits::derive_text::derive_from_tokens(
        "enum Shape<'a, T: Copy, const N: usize> where T: Clone { Empty, Circle(f32), Rect { w: f32, h: f32 } }",
    )
    .unwrap();
    assert!(out.starts_with("impl"));
    assert!(out.contains("const N"));
    assert!(out.contains(" Serializable for Shape<'a,T,N,> where Self: 'static , T"));
    assert!(out.contains(&serialize_impl(&shape_enum())));
    assert!(out.contains(&deserialize_impl(&shape_enum())));
}

#[test]
fn derive_refuses_unions_and_non_items() {
    assert!(fruits::derive_text::derive_from_tokens("union U { a: u8, b: u16 }").is_none());
    assert!(fruits::derive_text::derive_from_tokens("fn f() {}").is_none());
}

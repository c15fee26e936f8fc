use vstd::prelude::*;
use crate::text::{decimal, usize_to_string};
use quote::ToTokens;
use syn::{Data, DeriveInput, Fields, GenericParam};

verus! {

/// The fields of a struct or of an enum variant: named, positional (how many), or none.
pub enum FieldsShape {
    Named(Vec<String>),
    Unnamed(usize),
    Unit,
}

/// The shape of a type the serializer is derived for: a struct, or an enum with its
/// variants' names and fields in order.
pub enum TypeShape {
    Struct(FieldsShape),
    Enum(Vec<(String, FieldsShape)>),
}

/// The pieces `f` gives for the items of `s`, one after another.
pub open spec fn concat_map<A>(s: Seq<A>, f: spec_fn(A) -> Seq<char>) -> Seq<char>
    decreases s.len(),
{
    if s.len() == 0 {
        Seq::empty()
    } else {
        concat_map(s.drop_last(), f) + f(s.last())
    }
}

/// The pieces `f` gives for the items of `s`, separated by `", "`.
pub open spec fn join_map<A>(s: Seq<A>, f: spec_fn(A) -> Seq<char>) -> Seq<char>
    decreases s.len(),
{
    if s.len() == 0 {
        Seq::empty()
    } else if s.len() == 1 {
        f(s[0])
    } else {
        join_map(s.drop_last(), f) + ", "@ + f(s.last())
    }
}

/// The positions `0..n`.
pub open spec fn positions(n: nat) -> Seq<nat> {
    Seq::new(n, |i: int| i as nat)
}

/// The views of the strings `s`.
pub open spec fn texts(s: Seq<String>) -> Seq<Seq<char>> {
    s.map_values(|t: String| t@)
}

/// A named field read from `self` into a map being built.
pub open spec fn ser_named_field() -> spec_fn(Seq<char>) -> Seq<char> {
    |f: Seq<char>| ".with_field(\""@ + f + "\", &self."@ + f + ")"@
}

/// A positional field read from `self` into a map being built.
pub open spec fn ser_unnamed_field() -> spec_fn(nat) -> Seq<char> {
    |i: nat| ".with_field(\""@ + decimal(i) + "\", &self."@ + decimal(i) + ")"@
}

/// A variant's name in quotes.
pub open spec fn quoted() -> spec_fn(Seq<char>) -> Seq<char> {
    |v: Seq<char>| "\""@ + v + "\""@
}

/// A named field of a variant bound to `f_<field>`.
pub open spec fn named_binding() -> spec_fn(Seq<char>) -> Seq<char> {
    |f: Seq<char>| f + ": f_"@ + f
}

/// A named field of a variant, from its binding, into a map being built.
pub open spec fn ser_bound_field() -> spec_fn(Seq<char>) -> Seq<char> {
    |f: Seq<char>| ".with_field(\""@ + f + "\", f_"@ + f + ")"@
}

/// A positional field of a variant bound to `arg_<index>`.
pub open spec fn unnamed_binding() -> spec_fn(nat) -> Seq<char> {
    |i: nat| "arg_"@ + decimal(i)
}

/// A positional field of a variant, from its binding, into a map being built.
pub open spec fn ser_arg_field() -> spec_fn(nat) -> Seq<char> {
    |i: nat| ".with_field(\""@ + decimal(i) + "\", arg_"@ + decimal(i) + ")"@
}

/// A named field read from the map being taken apart.
pub open spec fn de_named_field() -> spec_fn(Seq<char>) -> Seq<char> {
    |f: Seq<char>| f + ": ctx.get_field(\""@ + f + "\")?,"@
}

/// A positional field read from the map being taken apart.
pub open spec fn de_unnamed_field() -> spec_fn(nat) -> Seq<char> {
    |i: nat| "ctx.get_field(\""@ + decimal(i) + "\")?,"@
}

/// A generic parameter of the type, followed by a comma.
pub open spec fn type_param() -> spec_fn(Seq<char>) -> Seq<char> {
    |p: Seq<char>| p + ","@
}

/// The match arm that serializes variant `v` with fields `fields`.
pub open spec fn ser_arm(v: Seq<char>, fields: FieldsShape) -> Seq<char> {
    match fields {
        FieldsShape::Named(fs) => "Self::"@ + v + " { "@ + join_map(texts(fs@), named_binding())
            + " } => ctx.serialize_map()"@ + concat_map(texts(fs@), ser_bound_field())
            + ".finish_as_enum(true, \""@ + v + "\", variants),"@,
        FieldsShape::Unnamed(n) => "Self::"@ + v + "("@ + join_map(
            positions(n as nat),
            unnamed_binding(),
        ) + ") => ctx.serialize_map()"@ + concat_map(positions(n as nat), ser_arg_field())
            + ".finish_as_enum(true, \""@ + v + "\", variants),"@,
        FieldsShape::Unit => "Self::"@ + v + " => ctx.serialize_map().finish_as_enum(true, \""@ + v
            + "\", variants),"@,
    }
}

/// The match arms of every variant.
pub open spec fn ser_arms(vs: Seq<(String, FieldsShape)>) -> Seq<char>
    decreases vs.len(),
{
    if vs.len() == 0 {
        Seq::empty()
    } else {
        ser_arms(vs.drop_last()) + ser_arm(vs.last().0@, vs.last().1)
    }
}

/// The variants' names.
pub open spec fn variant_names(vs: Seq<(String, FieldsShape)>) -> Seq<Seq<char>> {
    vs.map_values(|v: (String, FieldsShape)| v.0@)
}

/// The body of `serialize` for `shape`.
pub open spec fn serialize_body(shape: TypeShape) -> Seq<char> {
    match shape {
        TypeShape::Struct(FieldsShape::Named(fs)) => "ctx.serialize_map()"@ + concat_map(
            texts(fs@),
            ser_named_field(),
        ) + ".finish_as_map(true)"@,
        TypeShape::Struct(FieldsShape::Unnamed(n)) => "ctx.serialize_map()"@ + concat_map(
            positions(n as nat),
            ser_unnamed_field(),
        ) + ".finish_as_map(true)"@,
        TypeShape::Struct(FieldsShape::Unit) => "ctx.serialize_map().finish_as_map(true)"@,
        TypeShape::Enum(vs) => "let variants = ["@ + join_map(variant_names(vs@), quoted())
            + "].into_iter().map(FfiString::from).collect();"@ + "match self {"@ + ser_arms(vs@)
            + "}"@,
    }
}

/// The `serialize` method derived for `shape`.
pub open spec fn serialize_impl_text(shape: TypeShape) -> Seq<char> {
    "fn serialize(&self, mut ctx: PureSerializerCtx) -> SerializedValue { "@ + serialize_body(shape)
        + " } "@
}

/// What builds the value of variant `v` with fields `fields` from the map.
pub open spec fn de_variant_body(v: Seq<char>, fields: FieldsShape) -> Seq<char> {
    match fields {
        FieldsShape::Named(fs) => "ctx.deserialize_map(value, |mut ctx| { Some(Self::"@ + v + " {"@
            + concat_map(texts(fs@), de_named_field()) + "})})"@,
        FieldsShape::Unnamed(n) => "ctx.deserialize_map(value, |mut ctx| { Some(Self::"@ + v
            + " ("@ + concat_map(positions(n as nat), de_unnamed_field()) + "))})"@,
        FieldsShape::Unit => "ctx.deserialize_map(value, |mut ctx| { Some(Self::"@ + v + ") })"@,
    }
}

/// The variant registrations of every variant.
pub open spec fn de_variants(vs: Seq<(String, FieldsShape)>) -> Seq<char>
    decreases vs.len(),
{
    if vs.len() == 0 {
        Seq::empty()
    } else {
        de_variants(vs.drop_last()) + ".variant(\""@ + vs.last().0@ + "\", |mut ctx, value| {"@
            + de_variant_body(vs.last().0@, vs.last().1) + "})"@
    }
}

/// The body of `deserialize` for `shape`.
pub open spec fn deserialize_body(shape: TypeShape) -> Seq<char> {
    match shape {
        TypeShape::Struct(FieldsShape::Named(fs)) => "ctx.deserialize_map(value, |mut ctx| { Some(Self {"@
            + concat_map(texts(fs@), de_named_field()) + "})})"@,
        TypeShape::Struct(FieldsShape::Unnamed(n)) => "ctx.deserialize_map(value, |mut ctx| { Some(Self("@
            + concat_map(positions(n as nat), de_unnamed_field()) + "))})"@,
        TypeShape::Struct(FieldsShape::Unit) => "ctx.deserialize_map(value, |mut ctx| { Some(Self)})"@,
        TypeShape::Enum(vs) => "ctx.deserialize_enum()"@ + de_variants(vs@) + ".finish(value)"@,
    }
}

/// The `deserialize` method derived for `shape`.
pub open spec fn deserialize_impl_text(shape: TypeShape) -> Seq<char> {
    "fn deserialize(mut ctx: PureSerializerCtx, value: &SerializedValue) -> Option<Self> { "@
        + deserialize_body(shape) + " } "@
}

/// The whole impl derived for the type `ty_name` with generics `impl_generics` as
/// written, generic parameter names `params`, `where` predicates `predicates` where it
/// has a `where` clause, and shape `shape`.
pub open spec fn derive_text(
    impl_generics: Seq<char>,
    params: Seq<Seq<char>>,
    ty_name: Seq<char>,
    predicates: Option<Seq<char>>,
    shape: TypeShape,
) -> Seq<char> {
    "impl"@ + impl_generics + " Serializable for "@ + ty_name + "<"@ + concat_map(
        params,
        type_param(),
    ) + "> where Self: 'static "@ + match predicates {
        Some(p) => ", "@ + p,
        None => Seq::empty(),
    } + " { "@ + serialize_impl_text(shape) + deserialize_impl_text(shape) + " } "@
}

/// Appends a piece for each name of `fs`: with `which` 0 a field read from `self`, 1 a
/// field read from its binding, 2 a field read from the map, 3 a generic parameter.
#[verifier::spinoff_prover]
fn append_named(out: &mut String, fs: &Vec<String>, which: u8)
    requires
        which < 4,
    ensures
        final(out)@ == old(out)@ + concat_map(
            texts(fs@),
            if which == 0 {
                ser_named_field()
            } else if which == 1 {
                ser_bound_field()
            } else if which == 2 {
                de_named_field()
            } else {
                type_param()
            },
        ),
{
    let ghost f = if which == 0 {
        ser_named_field()
    } else if which == 1 {
        ser_bound_field()
    } else if which == 2 {
        de_named_field()
    } else {
        type_param()
    };
    let ghost head = out@;
    let mut i: usize = 0;
    assert(texts(fs@).take(0) =~= Seq::<Seq<char>>::empty());
    while i < fs.len()
        invariant
            i <= fs@.len(),
            which < 4,
            f == (if which == 0 {
                ser_named_field()
            } else if which == 1 {
                ser_bound_field()
            } else if which == 2 {
                de_named_field()
            } else {
                type_param()
            }),
            out@ == head + concat_map(texts(fs@).take(i as int), f),
        decreases fs@.len() - i,
    {
        let name = fs[i].as_str();
        if which == 0 {
            out.append(".with_field(\"");
            out.append(name);
            out.append("\", &self.");
            out.append(name);
            out.append(")");
        } else if which == 1 {
            out.append(".with_field(\"");
            out.append(name);
            out.append("\", f_");
            out.append(name);
            out.append(")");
        } else if which == 2 {
            out.append(name);
            out.append(": ctx.get_field(\"");
            out.append(name);
            out.append("\")?,");
        } else {
            out.append(name);
            out.append(",");
        }
        proof {
            let t = texts(fs@).take(i + 1);
            assert(t.drop_last() =~= texts(fs@).take(i as int));
            assert(t.last() == fs@[i as int]@);
        }
        i += 1;
        assert(out@ =~= head + concat_map(texts(fs@).take(i as int), f));
    }
    assert(texts(fs@).take(fs@.len() as int) =~= texts(fs@));
}

/// Appends a piece for each position below `n`: with `which` 0 a field read from
/// `self`, 1 a field read from its binding, 2 a field read from the map.
#[verifier::spinoff_prover]
#[verifier::rlimit(40)]
fn append_positions(out: &mut String, n: usize, which: u8)
    requires
        which < 3,
    ensures
        final(out)@ == old(out)@ + concat_map(
            positions(n as nat),
            if which == 0 {
                ser_unnamed_field()
            } else if which == 1 {
                ser_arg_field()
            } else {
                de_unnamed_field()
            },
        ),
{
    let ghost f = if which == 0 {
        ser_unnamed_field()
    } else if which == 1 {
        ser_arg_field()
    } else {
        de_unnamed_field()
    };
    let ghost head = out@;
    let mut i: usize = 0;
    assert(positions(0) =~= Seq::<nat>::empty());
    while i < n
        invariant
            i <= n,
            which < 3,
            f == (if which == 0 {
                ser_unnamed_field()
            } else if which == 1 {
                ser_arg_field()
            } else {
                de_unnamed_field()
            }),
            out@ == head + concat_map(positions(i as nat), f),
        decreases n - i,
    {
        let d = usize_to_string(i);
        if which == 0 {
            out.append(".with_field(\"");
            out.append(d.as_str());
            out.append("\", &self.");
            out.append(d.as_str());
            out.append(")");
        } else if which == 1 {
            out.append(".with_field(\"");
            out.append(d.as_str());
            out.append("\", arg_");
            out.append(d.as_str());
            out.append(")");
        } else {
            out.append("ctx.get_field(\"");
            out.append(d.as_str());
            out.append("\")?,");
        }
        proof {
            assert(positions((i + 1) as nat).drop_last() =~= positions(i as nat));
            assert(positions((i + 1) as nat).last() == i as nat);
        }
        i += 1;
        assert(out@ =~= head + concat_map(positions(i as nat), f));
    }
}

/// Appends the bindings of a variant's named fields, separated by `", "`.
fn append_named_bindings(out: &mut String, fs: &Vec<String>)
    ensures
        final(out)@ == old(out)@ + join_map(texts(fs@), named_binding()),
{
    let ghost head = out@;
    let mut i: usize = 0;
    assert(texts(fs@).take(0) =~= Seq::<Seq<char>>::empty());
    while i < fs.len()
        invariant
            i <= fs@.len(),
            out@ == head + join_map(texts(fs@).take(i as int), named_binding()),
        decreases fs@.len() - i,
    {
        if i > 0 {
            out.append(", ");
        }
        let name = fs[i].as_str();
        out.append(name);
        out.append(": f_");
        out.append(name);
        proof {
            let t = texts(fs@).take(i + 1);
            assert(t.drop_last() =~= texts(fs@).take(i as int));
            assert(t.last() == fs@[i as int]@);
            if i == 0 {
                assert(t[0] == fs@[0]@);
            }
        }
        i += 1;
        assert(out@ =~= head + join_map(texts(fs@).take(i as int), named_binding()));
    }
    assert(texts(fs@).take(fs@.len() as int) =~= texts(fs@));
}

/// Appends the bindings `arg_<i>` of a variant's positional fields, separated by `", "`.
fn append_unnamed_bindings(out: &mut String, n: usize)
    ensures
        final(out)@ == old(out)@ + join_map(positions(n as nat), unnamed_binding()),
{
    let ghost head = out@;
    let mut i: usize = 0;
    assert(positions(0) =~= Seq::<nat>::empty());
    while i < n
        invariant
            i <= n,
            out@ == head + join_map(positions(i as nat), unnamed_binding()),
        decreases n - i,
    {
        if i > 0 {
            out.append(", ");
        }
        let d = usize_to_string(i);
        out.append("arg_");
        out.append(d.as_str());
        proof {
            assert(positions((i + 1) as nat).drop_last() =~= positions(i as nat));
            assert(positions((i + 1) as nat).last() == i as nat);
            assert(positions((i + 1) as nat)[0] == 0nat);
        }
        i += 1;
        assert(out@ =~= head + join_map(positions(i as nat), unnamed_binding()));
    }
}

/// Appends the variants' names in quotes, separated by `", "`.
fn append_variant_names(out: &mut String, vs: &Vec<(String, FieldsShape)>)
    ensures
        final(out)@ == old(out)@ + join_map(variant_names(vs@), quoted()),
{
    let ghost head = out@;
    let mut i: usize = 0;
    assert(variant_names(vs@).take(0) =~= Seq::<Seq<char>>::empty());
    while i < vs.len()
        invariant
            i <= vs@.len(),
            out@ == head + join_map(variant_names(vs@).take(i as int), quoted()),
        decreases vs@.len() - i,
    {
        if i > 0 {
            out.append(", ");
        }
        out.append("\"");
        out.append(vs[i].0.as_str());
        out.append("\"");
        proof {
            let t = variant_names(vs@).take(i + 1);
            assert(t.drop_last() =~= variant_names(vs@).take(i as int));
            assert(t.last() == vs@[i as int].0@);
            if i == 0 {
                assert(t[0] == vs@[0].0@);
            }
        }
        i += 1;
        assert(out@ =~= head + join_map(variant_names(vs@).take(i as int), quoted()));
    }
    assert(variant_names(vs@).take(vs@.len() as int) =~= variant_names(vs@));
}

/// Appends the match arm that serializes variant `v`.
fn append_ser_arm(out: &mut String, v: &String, fields: &FieldsShape)
    ensures
        final(out)@ == old(out)@ + ser_arm(v@, *fields),
{
    let ghost head = out@;
    out.append("Self::");
    out.append(v.as_str());
    match fields {
        FieldsShape::Named(fs) => {
            out.append(" { ");
            append_named_bindings(out, fs);
            out.append(" } => ctx.serialize_map()");
            append_named(out, fs, 1);
            out.append(".finish_as_enum(true, \"");
            out.append(v.as_str());
            out.append("\", variants),");
        },
        FieldsShape::Unnamed(n) => {
            out.append("(");
            append_unnamed_bindings(out, *n);
            out.append(") => ctx.serialize_map()");
            append_positions(out, *n, 1);
            out.append(".finish_as_enum(true, \"");
            out.append(v.as_str());
            out.append("\", variants),");
        },
        FieldsShape::Unit => {
            out.append(" => ctx.serialize_map().finish_as_enum(true, \"");
            out.append(v.as_str());
            out.append("\", variants),");
        },
    }
    assert(out@ =~= head + ser_arm(v@, *fields));
}

/// Appends the `deserialize_map` call that builds variant `v`.
fn append_de_variant_body(out: &mut String, v: &String, fields: &FieldsShape)
    ensures
        final(out)@ == old(out)@ + de_variant_body(v@, *fields),
{
    let ghost head = out@;
    out.append("ctx.deserialize_map(value, |mut ctx| { Some(Self::");
    out.append(v.as_str());
    match fields {
        FieldsShape::Named(fs) => {
            out.append(" {");
            append_named(out, fs, 2);
            out.append("})})");
        },
        FieldsShape::Unnamed(n) => {
            out.append(" (");
            append_positions(out, *n, 2);
            out.append("))})");
        },
        FieldsShape::Unit => {
            out.append(") })");
        },
    }
    assert(out@ =~= head + de_variant_body(v@, *fields));
}

/// The `serialize` method of the serializer derived for `shape`.
pub fn serialize_impl(shape: &TypeShape) -> (r: String)
    ensures
        r@ == serialize_impl_text(*shape),
{
    let mut out = String::new();
    out.append("fn serialize(&self, mut ctx: PureSerializerCtx) -> SerializedValue { ");
    let ghost head = out@;
    match shape {
        TypeShape::Struct(FieldsShape::Named(fs)) => {
            out.append("ctx.serialize_map()");
            append_named(&mut out, fs, 0);
            out.append(".finish_as_map(true)");
        },
        TypeShape::Struct(FieldsShape::Unnamed(n)) => {
            out.append("ctx.serialize_map()");
            append_positions(&mut out, *n, 0);
            out.append(".finish_as_map(true)");
        },
        TypeShape::Struct(FieldsShape::Unit) => {
            out.append("ctx.serialize_map().finish_as_map(true)");
        },
        TypeShape::Enum(vs) => {
            out.append("let variants = [");
            append_variant_names(&mut out, vs);
            out.append("].into_iter().map(FfiString::from).collect();");
            out.append("match self {");
            let ghost arms_head = out@;
            let mut i: usize = 0;
            assert(vs@.take(0) =~= Seq::<(String, FieldsShape)>::empty());
            while i < vs.len()
                invariant
                    i <= vs@.len(),
                    out@ == arms_head + ser_arms(vs@.take(i as int)),
                decreases vs@.len() - i,
            {
                append_ser_arm(&mut out, &vs[i].0, &vs[i].1);
                proof {
                    assert(vs@.take(i + 1).drop_last() =~= vs@.take(i as int));
                    assert(vs@.take(i + 1).last() == vs@[i as int]);
                }
                i += 1;
            }
            assert(vs@.take(vs@.len() as int) =~= vs@);
            out.append("}");
        },
    }
    assert(out@ =~= head + serialize_body(*shape));
    out.append(" } ");
    assert(out@ =~= serialize_impl_text(*shape));
    out
}

/// The `deserialize` method of the serializer derived for `shape`.
pub fn deserialize_impl(shape: &TypeShape) -> (r: String)
    ensures
        r@ == deserialize_impl_text(*shape),
{
    let mut out = String::new();
    out.append("fn deserialize(mut ctx: PureSerializerCtx, value: &SerializedValue) -> Option<Self> { ");
    let ghost head = out@;
    match shape {
        TypeShape::Struct(FieldsShape::Named(fs)) => {
            out.append("ctx.deserialize_map(value, |mut ctx| { Some(Self {");
            append_named(&mut out, fs, 2);
            out.append("})})");
        },
        TypeShape::Struct(FieldsShape::Unnamed(n)) => {
            out.append("ctx.deserialize_map(value, |mut ctx| { Some(Self(");
            append_positions(&mut out, *n, 2);
            out.append("))})");
        },
        TypeShape::Struct(FieldsShape::Unit) => {
            out.append("ctx.deserialize_map(value, |mut ctx| { Some(Self)})");
        },
        TypeShape::Enum(vs) => {
            out.append("ctx.deserialize_enum()");
            let ghost vars_head = out@;
            let mut i: usize = 0;
            assert(vs@.take(0) =~= Seq::<(String, FieldsShape)>::empty());
            while i < vs.len()
                invariant
                    i <= vs@.len(),
                    out@ == vars_head + de_variants(vs@.take(i as int)),
                decreases vs@.len() - i,
            {
                out.append(".variant(\"");
                out.append(vs[i].0.as_str());
                out.append("\", |mut ctx, value| {");
                append_de_variant_body(&mut out, &vs[i].0, &vs[i].1);
                out.append("})");
                proof {
                    assert(vs@.take(i + 1).drop_last() =~= vs@.take(i as int));
                    assert(vs@.take(i + 1).last() == vs@[i as int]);
                }
                i += 1;
                assert(out@ =~= vars_head + de_variants(vs@.take(i as int)));
            }
            assert(vs@.take(vs@.len() as int) =~= vs@);
            out.append(".finish(value)");
        },
    }
    assert(out@ =~= head + deserialize_body(*shape));
    out.append(" } ");
    assert(out@ =~= deserialize_impl_text(*shape));
    out
}

/// The source text of the `Serializable` impl derived for the type `ty_name` with
/// generics `impl_generics` as written, generic parameter names `params`, `where`
/// predicates `predicates` where the type has a `where` clause, and shape `shape`.
pub fn derive(
    impl_generics: &String,
    params: &Vec<String>,
    ty_name: &String,
    predicates: &Option<String>,
    shape: &TypeShape,
) -> (r: String)
    ensures
        r@ == derive_text(
            impl_generics@,
            texts(params@),
            ty_name@,
            match predicates {
                Some(p) => Some(p@),
                None => None,
            },
            *shape,
        ),
{
    let mut out = String::new();
    out.append("impl");
    out.append(impl_generics.as_str());
    out.append(" Serializable for ");
    out.append(ty_name.as_str());
    out.append("<");
    append_named(&mut out, params, 3);
    out.append("> where Self: 'static ");
    match predicates {
        Some(p) => {
            out.append(", ");
            out.append(p.as_str());
        },
        None => {},
    }
    out.append(" { ");
    let s = serialize_impl(shape);
    out.append(s.as_str());
    let d = deserialize_impl(shape);
    out.append(d.as_str());
    out.append(" } ");
    let ghost preds = match predicates {
        Some(p) => Some(p@),
        None => None::<Seq<char>>,
    };
    assert(out@ =~= derive_text(impl_generics@, texts(params@), ty_name@, preds, *shape));
    out
}


/// `a` occurs in `b` as a contiguous run.
pub open spec fn is_infix(a: Seq<char>, b: Seq<char>) -> bool {
    exists|o: int| 0 <= o && o + a.len() <= b.len() && (#[trigger] b.skip(o)).take(a.len() as int) == a
}

proof fn lemma_infix_within(a: Seq<char>, b: Seq<char>, pre: Seq<char>, post: Seq<char>)
    requires
        is_infix(a, b),
    ensures
        is_infix(a, pre + b + post),
{
    let o = choose|o: int|
        0 <= o && o + a.len() <= b.len() && (#[trigger] b.skip(o)).take(a.len() as int) == a;
    let c = pre + b + post;
    let o2 = pre.len() + o;
    assert(c.skip(o2).take(a.len() as int) =~= a);
}

proof fn lemma_concat_map_has_piece<A>(s: Seq<A>, f: spec_fn(A) -> Seq<char>, k: int)
    requires
        0 <= k < s.len(),
    ensures
        is_infix(f(s[k]), concat_map(s, f)),
    decreases s.len(),
{
    let d = concat_map(s.drop_last(), f);
    if k == s.len() - 1 {
        let o = d.len() as int;
        assert(concat_map(s, f).skip(o).take(f(s[k]).len() as int) =~= f(s[k]));
    } else {
        lemma_concat_map_has_piece(s.drop_last(), f, k);
        assert(s.drop_last()[k] == s[k]);
        lemma_infix_within(f(s[k]), d, Seq::empty(), f(s.last()));
        assert(Seq::<char>::empty() + d + f(s.last()) =~= concat_map(s, f));
    }
}

/// Each named field of a struct is written as a map entry under its own name, and
/// read back from the entry of that name.
pub proof fn law_named_fields_keyed_by_name(fs: Vec<String>, k: int)
    requires
        0 <= k < fs@.len(),
    ensures
        is_infix(
            ".with_field(\""@ + fs@[k]@ + "\", &self."@ + fs@[k]@ + ")"@,
            serialize_impl_text(TypeShape::Struct(FieldsShape::Named(fs))),
        ),
        is_infix(
            fs@[k]@ + ": ctx.get_field(\""@ + fs@[k]@ + "\")?,"@,
            deserialize_impl_text(TypeShape::Struct(FieldsShape::Named(fs))),
        ),
{
    assert(texts(fs@)[k] == fs@[k]@);
    lemma_concat_map_has_piece(texts(fs@), ser_named_field(), k);
    lemma_concat_map_has_piece(texts(fs@), de_named_field(), k);
    let ser = concat_map(texts(fs@), ser_named_field());
    let de = concat_map(texts(fs@), de_named_field());
    lemma_infix_within(
        ser_named_field()(fs@[k]@),
        ser,
        "fn serialize(&self, mut ctx: PureSerializerCtx) -> SerializedValue { "@
            + "ctx.serialize_map()"@,
        ".finish_as_map(true)"@ + " } "@,
    );
    assert(serialize_impl_text(TypeShape::Struct(FieldsShape::Named(fs))) =~= (
    "fn serialize(&self, mut ctx: PureSerializerCtx) -> SerializedValue { "@ + "ctx.serialize_map()"@)
        + ser + (".finish_as_map(true)"@ + " } "@));
    lemma_infix_within(
        de_named_field()(fs@[k]@),
        de,
        "fn deserialize(mut ctx: PureSerializerCtx, value: &SerializedValue) -> Option<Self> { "@
            + "ctx.deserialize_map(value, |mut ctx| { Some(Self {"@,
        "})})"@ + " } "@,
    );
    assert(deserialize_impl_text(TypeShape::Struct(FieldsShape::Named(fs))) =~= (
    "fn deserialize(mut ctx: PureSerializerCtx, value: &SerializedValue) -> Option<Self> { "@
        + "ctx.deserialize_map(value, |mut ctx| { Some(Self {"@) + de + ("})})"@ + " } "@));
}

/// Each field of a tuple struct is written as a map entry under its index, and read
/// back from the entry of that index.
pub proof fn law_tuple_fields_keyed_by_index(n: usize, k: nat)
    requires
        k < n,
    ensures
        is_infix(
            ".with_field(\""@ + decimal(k) + "\", &self."@ + decimal(k) + ")"@,
            serialize_impl_text(TypeShape::Struct(FieldsShape::Unnamed(n))),
        ),
        is_infix(
            "ctx.get_field(\""@ + decimal(k) + "\")?,"@,
            deserialize_impl_text(TypeShape::Struct(FieldsShape::Unnamed(n))),
        ),
{
    assert(positions(n as nat)[k as int] == k);
    lemma_concat_map_has_piece(positions(n as nat), ser_unnamed_field(), k as int);
    lemma_concat_map_has_piece(positions(n as nat), de_unnamed_field(), k as int);
    let ser = concat_map(positions(n as nat), ser_unnamed_field());
    let de = concat_map(positions(n as nat), de_unnamed_field());
    lemma_infix_within(
        ser_unnamed_field()(k),
        ser,
        "fn serialize(&self, mut ctx: PureSerializerCtx) -> SerializedValue { "@
            + "ctx.serialize_map()"@,
        ".finish_as_map(true)"@ + " } "@,
    );
    assert(serialize_impl_text(TypeShape::Struct(FieldsShape::Unnamed(n))) =~= (
    "fn serialize(&self, mut ctx: PureSerializerCtx) -> SerializedValue { "@ + "ctx.serialize_map()"@)
        + ser + (".finish_as_map(true)"@ + " } "@));
    lemma_infix_within(
        de_unnamed_field()(k),
        de,
        "fn deserialize(mut ctx: PureSerializerCtx, value: &SerializedValue) -> Option<Self> { "@
            + "ctx.deserialize_map(value, |mut ctx| { Some(Self("@,
        "))})"@ + " } "@,
    );
    assert(deserialize_impl_text(TypeShape::Struct(FieldsShape::Unnamed(n))) =~= (
    "fn deserialize(mut ctx: PureSerializerCtx, value: &SerializedValue) -> Option<Self> { "@
        + "ctx.deserialize_map(value, |mut ctx| { Some(Self("@) + de + ("))})"@ + " } "@));
}

proof fn lemma_join_map_has_piece<A>(s: Seq<A>, f: spec_fn(A) -> Seq<char>, k: int)
    requires
        0 <= k < s.len(),
    ensures
        is_infix(f(s[k]), join_map(s, f)),
    decreases s.len(),
{
    if s.len() == 1 {
        assert(join_map(s, f).skip(0).take(f(s[k]).len() as int) =~= f(s[k]));
    } else {
        let d = join_map(s.drop_last(), f);
        if k == s.len() - 1 {
            reveal_strlit(", ");
            let o = d.len() + 2int;
            assert(join_map(s, f) == d + ", "@ + f(s.last()));
            assert(join_map(s, f).skip(o).take(f(s[k]).len() as int) =~= f(s[k]));
        } else {
            lemma_join_map_has_piece(s.drop_last(), f, k);
            assert(s.drop_last()[k] == s[k]);
            lemma_infix_within(f(s[k]), d, Seq::empty(), ", "@ + f(s.last()));
            assert(Seq::<char>::empty() + d + (", "@ + f(s.last())) =~= join_map(s, f));
        }
    }
}

proof fn lemma_de_variants_has(vs: Seq<(String, FieldsShape)>, k: int)
    requires
        0 <= k < vs.len(),
    ensures
        is_infix(".variant(\""@ + vs[k].0@ + "\", |mut ctx, value| {"@, de_variants(vs)),
    decreases vs.len(),
{
    let a = ".variant(\""@ + vs[k].0@ + "\", |mut ctx, value| {"@;
    let d = de_variants(vs.drop_last());
    let rest = de_variant_body(vs.last().0@, vs.last().1) + "})"@;
    if k == vs.len() - 1 {
        let o = d.len() as int;
        assert(de_variants(vs) =~= d + a + rest);
        assert(de_variants(vs).skip(o).take(a.len() as int) =~= a);
    } else {
        lemma_de_variants_has(vs.drop_last(), k);
        assert(vs.drop_last()[k] == vs[k]);
        let tail = ".variant(\""@ + vs.last().0@ + "\", |mut ctx, value| {"@ + rest;
        lemma_infix_within(a, d, Seq::empty(), tail);
        assert(Seq::<char>::empty() + d + tail =~= de_variants(vs));
    }
}

/// Each variant of an enum is named in the variant list that the serializer writes,
/// and the deserializer registers a decoder under that name.
pub proof fn law_enum_variants_named(vs: Vec<(String, FieldsShape)>, k: int)
    requires
        0 <= k < vs@.len(),
    ensures
        is_infix(
            "\""@ + vs@[k].0@ + "\""@,
            serialize_impl_text(TypeShape::Enum(vs)),
        ),
        is_infix(
            ".variant(\""@ + vs@[k].0@ + "\", |mut ctx, value| {"@,
            deserialize_impl_text(TypeShape::Enum(vs)),
        ),
{
    assert(variant_names(vs@)[k] == vs@[k].0@);
    lemma_join_map_has_piece(variant_names(vs@), quoted(), k);
    let names = join_map(variant_names(vs@), quoted());
    let post = "].into_iter().map(FfiString::from).collect();"@ + "match self {"@ + ser_arms(vs@)
        + "}"@ + " } "@;
    lemma_infix_within(
        quoted()(vs@[k].0@),
        names,
        "fn serialize(&self, mut ctx: PureSerializerCtx) -> SerializedValue { "@
            + "let variants = ["@,
        post,
    );
    assert(serialize_impl_text(TypeShape::Enum(vs)) =~= (
    "fn serialize(&self, mut ctx: PureSerializerCtx) -> SerializedValue { "@ + "let variants = ["@)
        + names + post);
    lemma_de_variants_has(vs@, k);
    lemma_infix_within(
        ".variant(\""@ + vs@[k].0@ + "\", |mut ctx, value| {"@,
        de_variants(vs@),
        "fn deserialize(mut ctx: PureSerializerCtx, value: &SerializedValue) -> Option<Self> { "@
            + "ctx.deserialize_enum()"@,
        ".finish(value)"@ + " } "@,
    );
    assert(deserialize_impl_text(TypeShape::Enum(vs)) =~= (
    "fn deserialize(mut ctx: PureSerializerCtx, value: &SerializedValue) -> Option<Self> { "@
        + "ctx.deserialize_enum()"@) + de_variants(vs@) + (".finish(value)"@ + " } "@));
}

/// What the impl header takes from an item: its generics as written, the names of its
/// generic parameters, its name, and its `where` predicates where it has a `where`
/// clause.
pub struct DeriveHead {
    pub impl_generics: String,
    pub params: Vec<String>,
    pub ty_name: String,
    pub predicates: Option<String>,
}

/// The header pieces `syn` reads from the item `tokens`, if they parse as a struct,
/// enum or union.
pub uninterp spec fn parsed_derive_head(tokens: Seq<char>) -> Option<DeriveHead>;

/// The shape `syn` reads from the item `tokens`, if they parse as a struct or enum.
pub uninterp spec fn parsed_derive_shape(tokens: Seq<char>) -> Option<TypeShape>;

/// `syn::parse_str::<DeriveInput>` on `tokens`, read for the impl header: the generics
/// printed back as tokens, each generic parameter's name (a lifetime with its tick),
/// the item's name, and the `where` predicates printed back as tokens. `None` where the
/// text is no struct, enum or union. The result is named by `parsed_derive_head` and
/// depends on the text alone.
#[verifier::external_body]
fn parse_derive_head(tokens: &str) -> (r: Option<DeriveHead>)
    ensures
        r == parsed_derive_head(tokens@),
{
    let input = syn::parse_str::<DeriveInput>(tokens).ok()?;
    let g = &input.generics;
    Some(DeriveHead {
        impl_generics: g.to_token_stream().to_string(),
        params: g.params.iter().map(|p| match p {
            GenericParam::Lifetime(l) => l.lifetime.to_string(),
            GenericParam::Type(t) => t.ident.to_string(),
            GenericParam::Const(c) => c.ident.to_string(),
        }).collect(),
        ty_name: input.ident.to_string(),
        predicates: g.where_clause.as_ref().map(|w| w.predicates.to_token_stream().to_string()),
    })
}

/// `syn::parse_str::<DeriveInput>` on `tokens`, read for the shape: a struct's fields,
/// or an enum's variants with theirs, each named field by its identifier printed back
/// as tokens and positional fields by their count. `None` where the text is no struct
/// or enum. The result is named by `parsed_derive_shape` and depends on the text alone.
#[verifier::external_body]
fn parse_derive_shape(tokens: &str) -> (r: Option<TypeShape>)
    ensures
        r == parsed_derive_shape(tokens@),
{
    let fields = |f: &Fields| match f {
        Fields::Named(n) => FieldsShape::Named(n.named.iter().map(|x| x.ident.to_token_stream().to_string()).collect()),
        Fields::Unnamed(u) => FieldsShape::Unnamed(u.unnamed.len()),
        Fields::Unit => FieldsShape::Unit,
    };
    match syn::parse_str::<DeriveInput>(tokens).ok()?.data {
        Data::Struct(s) => Some(TypeShape::Struct(fields(&s.fields))),
        Data::Enum(e) => Some(TypeShape::Enum(e.variants.iter().map(|v| (v.ident.to_string(), fields(&v.fields))).collect())),
        Data::Union(_) => None,
    }
}

/// The views of an optional string.
pub open spec fn opt_text(s: Option<String>) -> Option<Seq<char>> {
    match s {
        Some(t) => Some(t@),
        None => None,
    }
}

/// The source text of the `Serializable` impl derived for the item written as `tokens`:
/// `None` where they are no struct or enum.
pub fn derive_from_tokens(tokens: &str) -> (r: Option<String>)
    ensures
        match (parsed_derive_head(tokens@), parsed_derive_shape(tokens@)) {
            (Some(h), Some(shape)) => r is Some && r->0@ == derive_text(
                h.impl_generics@,
                texts(h.params@),
                h.ty_name@,
                opt_text(h.predicates),
                shape,
            ),
            _ => r is None,
        },
{
    let head = parse_derive_head(tokens);
    let shape = parse_derive_shape(tokens);
    match (head, shape) {
        (Some(h), Some(shape)) => {
            let t = derive(&h.impl_generics, &h.params, &h.ty_name, &h.predicates, &shape);
            proof {
                assert(opt_text(h.predicates) == match h.predicates {
                    Some(p) => Some(p@),
                    None => None::<Seq<char>>,
                });
            }
            Some(t)
        },
        _ => None,
    }
}

} // verus!

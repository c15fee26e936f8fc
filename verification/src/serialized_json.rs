use vstd::prelude::*;
use crate::decoding::clamped;
use crate::json_parse::JsonValue;

verus! {

/// The key under which an enum value's variant is written in JSON.
pub open spec fn variant_key() -> Seq<char> {
    "$enum_variant"@
}

/// The reserved key, as a string.
fn variant_key_string() -> (r: String)
    ensures
        r@ == variant_key(),
{
    let mut k = String::new();
    k.append("$enum_variant");
    k
}

/// An integer as the JSON projection writes it: clamped into `i64::MIN..=u64::MAX`.
pub fn int_to_json(v: i128) -> (r: i128)
    ensures
        r == clamped(v as int, i64::MIN as int, u64::MAX as int),
{
    if v < -9223372036854775808i128 {
        -9223372036854775808i128
    } else if v > 18446744073709551615i128 {
        18446744073709551615i128
    } else {
        v
    }
}

/// A JSON integer as the projection reads it back: an integer where it lies in
/// `i64::MIN..=u64::MAX`, else nothing (it is read as a float).
pub fn int_from_json(n: i128) -> (r: Option<i128>)
    ensures
        r == (if i64::MIN <= n <= u64::MAX {
            Some(n)
        } else {
            None::<i128>
        }),
{
    if -9223372036854775808i128 <= n && n <= 18446744073709551615i128 {
        Some(n)
    } else {
        None
    }
}

/// The fields of `fields` whose name is not the reserved key, in order.
pub open spec fn without_variant_key(fields: Seq<(String, JsonValue)>) -> Seq<(String, JsonValue)>
    decreases fields.len(),
{
    if fields.len() == 0 {
        Seq::empty()
    } else if fields.last().0@ == variant_key() {
        without_variant_key(fields.drop_last())
    } else {
        without_variant_key(fields.drop_last()).push(fields.last())
    }
}

/// The fields of a map as its JSON projection holds them: the variant under the
/// reserved key first where the map is an enum value's, then every field in order,
/// less one whose name is the reserved key.
pub fn map_fields_to_json(fields: Vec<(String, JsonValue)>, variant: Option<String>) -> (r: Vec<
    (String, JsonValue),
>)
    ensures
        match variant {
            Some(v) => r@.len() >= 1 && r@[0].0@ == variant_key() && r@[0].1 == JsonValue::String(v)
                && r@.skip(1) == without_variant_key(fields@),
            None => r@ == without_variant_key(fields@),
        },
{
    let ghost src = fields@;
    let mut out: Vec<(String, JsonValue)> = Vec::new();
    let has_variant = variant.is_some();
    match variant {
        Some(v) => {
            out.push((variant_key_string(), JsonValue::String(v)));
        },
        None => {},
    }
    let ghost head = out@;
    assert(has_variant ==> head.len() == 1);
    assert(!has_variant ==> head.len() == 0);
    let key = variant_key_string();
    let mut rest = fields;
    let mut back: Vec<(String, JsonValue)> = Vec::new();
    // reverse, so the fields come out in order with `pop`
    while rest.len() > 0
        invariant
            rest@.len() + back@.len() == src.len(),
            forall|i: int| 0 <= i < rest@.len() ==> #[trigger] rest@[i] == src[i],
            forall|i: int| 0 <= i < back@.len() ==> #[trigger] back@[i] == src[src.len() - 1 - i],
        decreases rest@.len(),
    {
        let f = rest.pop().unwrap();
        back.push(f);
    }
    assert(src.take(0) =~= Seq::<(String, JsonValue)>::empty());
    while back.len() > 0
        invariant
            key@ == variant_key(),
            back@.len() <= src.len(),
            forall|i: int|
                0 <= i < back@.len() ==> #[trigger] back@[i] == src[src.len() - 1 - i],
            out@ == head + without_variant_key(src.take(src.len() - back@.len())),
        decreases back@.len(),
    {
        let ghost n = src.len() - back@.len();
        let f = back.pop().unwrap();
        assert(f == src[n]);
        assert(src.take(n + 1).drop_last() =~= src.take(n));
        assert(src.take(n + 1).last() == src[n]);
        if !(f.0 == key) {
            out.push(f);
        }
        assert(out@ =~= head + without_variant_key(src.take(n + 1)));
    }
    assert(src.take(src.len() as int) =~= src);
    proof {
        if has_variant {
            assert(out@.skip(1) =~= without_variant_key(src));
        } else {
            assert(out@ =~= without_variant_key(src));
        }
    }
    out
}

/// The variant that the fields of a JSON object name: the text of the last field under
/// the reserved key whose value is a string, if any.
pub open spec fn named_variant(fields: Seq<(String, JsonValue)>) -> Option<String>
    decreases fields.len(),
{
    if fields.len() == 0 {
        None
    } else if fields.last().0@ == variant_key() && fields.last().1 is String {
        Some(fields.last().1->String_0)
    } else {
        named_variant(fields.drop_last())
    }
}

/// A JSON object read back as a map: its fields in order less those under the reserved
/// key, and the variant that a string under that key names. A value under the key
/// that is no string names none.
pub fn map_fields_from_json(fields: Vec<(String, JsonValue)>) -> (r: (
    Vec<(String, JsonValue)>,
    Option<String>,
))
    ensures
        r.0@ == without_variant_key(fields@),
        r.1 == named_variant(fields@),
{
    let ghost src = fields@;
    let key = variant_key_string();
    let mut rest = fields;
    let mut back: Vec<(String, JsonValue)> = Vec::new();
    while rest.len() > 0
        invariant
            rest@.len() + back@.len() == src.len(),
            forall|i: int| 0 <= i < rest@.len() ==> #[trigger] rest@[i] == src[i],
            forall|i: int| 0 <= i < back@.len() ==> #[trigger] back@[i] == src[src.len() - 1 - i],
        decreases rest@.len(),
    {
        let f = rest.pop().unwrap();
        back.push(f);
    }
    let mut out: Vec<(String, JsonValue)> = Vec::new();
    let mut variant: Option<String> = None;
    assert(src.take(0) =~= Seq::<(String, JsonValue)>::empty());
    while back.len() > 0
        invariant
            key@ == variant_key(),
            back@.len() <= src.len(),
            forall|i: int|
                0 <= i < back@.len() ==> #[trigger] back@[i] == src[src.len() - 1 - i],
            out@ == without_variant_key(src.take(src.len() - back@.len())),
            variant == named_variant(src.take(src.len() - back@.len())),
        decreases back@.len(),
    {
        let ghost n = src.len() - back@.len();
        let f = back.pop().unwrap();
        assert(f == src[n]);
        assert(src.take(n + 1).drop_last() =~= src.take(n));
        assert(src.take(n + 1).last() == src[n]);
        let (name, value) = f;
        if name == key {
            match value {
                JsonValue::String(t) => {
                    variant = Some(t);
                },
                _ => {},
            }
        } else {
            out.push((name, value));
        }
        assert(out@ =~= without_variant_key(src.take(n + 1)));
    }
    assert(src.take(src.len() as int) =~= src);
    (out, variant)
}

proof fn lemma_without_has_no_key(fields: Seq<(String, JsonValue)>)
    ensures
        forall|i: int|
            0 <= i < without_variant_key(fields).len() ==> (#[trigger] without_variant_key(
                fields,
            )[i]).0@ != variant_key(),
        without_variant_key(without_variant_key(fields)) == without_variant_key(fields),
    decreases fields.len(),
{
    if fields.len() > 0 {
        lemma_without_has_no_key(fields.drop_last());
        let w = without_variant_key(fields.drop_last());
        if fields.last().0@ != variant_key() {
            assert(w.push(fields.last()).drop_last() =~= w);
        }
    }
}

proof fn lemma_keyless_suffix(p: Seq<(String, JsonValue)>, t: Seq<(String, JsonValue)>)
    requires
        forall|i: int| 0 <= i < t.len() ==> (#[trigger] t[i]).0@ != variant_key(),
    ensures
        without_variant_key(p + t) == without_variant_key(p) + t,
        named_variant(p + t) == named_variant(p),
    decreases t.len(),
{
    if t.len() == 0 {
        assert(p + t =~= p);
        assert(without_variant_key(p) + t =~= without_variant_key(p));
    } else {
        lemma_keyless_suffix(p, t.drop_last());
        assert((p + t).drop_last() =~= p + t.drop_last());
        assert((p + t).last() == t.last());
        assert(t.last() == t[t.len() - 1]);
        assert(without_variant_key(p) + t =~= (without_variant_key(p) + t.drop_last()).push(
            t.last(),
        ));
    }
}

/// What the JSON projection of an enum value's map reads back as: the same fields, less
/// any under the reserved key, and the same variant.
pub proof fn law_variant_read_back(fields: Seq<(String, JsonValue)>, key: String, v: String)
    requires
        key@ == variant_key(),
    ensures
        without_variant_key(seq![(key, JsonValue::String(v))] + without_variant_key(fields))
            == without_variant_key(fields),
        named_variant(seq![(key, JsonValue::String(v))] + without_variant_key(fields)) == Some(v),
{
    let head = seq![(key, JsonValue::String(v))];
    lemma_without_has_no_key(fields);
    lemma_keyless_suffix(head, without_variant_key(fields));
    assert(head.drop_last() =~= Seq::<(String, JsonValue)>::empty());
    assert(head.last() == (key, JsonValue::String(v)));
    assert(head.last().0@ == variant_key());
    assert(without_variant_key(head.drop_last()) == Seq::<(String, JsonValue)>::empty());
    assert(without_variant_key(head) =~= Seq::<(String, JsonValue)>::empty());
    assert(head.len() == 1 && head.last().1 is String);
    assert(Seq::<(String, JsonValue)>::empty() + without_variant_key(fields) =~= without_variant_key(
        fields,
    ));
}

} // verus!

use vstd::prelude::*;
use crate::json_indent::{line_start_text, try_write_new_line_and_indents, JsonIndentState};
use crate::json_parse::{
    data_seq, field_data_seq, lemma_array_data, lemma_object_data, JsonData, JsonNumberText, JsonValue,
};
use crate::text::{decimal, u128_to_string};

verus! {

/// The pieces of `s`, one after another.
pub open spec fn concat(s: Seq<Seq<char>>) -> Seq<char>
    decreases s.len(),
{
    if s.len() == 0 {
        Seq::empty()
    } else {
        concat(s.drop_last()) + s.last()
    }
}

proof fn lemma_concat_take(s: Seq<Seq<char>>, k: int)
    requires
        0 <= k < s.len(),
    ensures
        concat(s.take(k + 1)) == concat(s.take(k)) + s[k],
{
    assert(s.take(k + 1).drop_last() =~= s.take(k));
    assert(s.take(k + 1).last() == s[k]);
}

proof fn lemma_fits_items(a: Seq<JsonData>, indent: Option<JsonIndentState>, k: int)
    requires
        indent_fits(JsonData::Array(a), indent),
        0 <= k < a.len(),
    ensures
        indent_fits(a[k], deeper(indent)),
{
    match indent {
        None => {
            assert(deeper(indent) is None);
            assert(indent_fits(a[k], None));
        },
        Some(i) => {
            let d = JsonData::Array(a);
            assert(d->Array_0 == a);
            assert(indent_fits(d, indent));
            assert(forall|j: int| 0 <= j < a.len() ==> indent_fits(#[trigger] a[j], deeper(indent)));
        },
    }
}

proof fn lemma_fits_fields(fs: Seq<(Seq<char>, JsonData)>, indent: Option<JsonIndentState>, k: int)
    requires
        indent_fits(JsonData::Object(fs), indent),
        0 <= k < fs.len(),
    ensures
        indent_fits(fs[k].1, deeper(indent)),
{
    match indent {
        None => {
            assert(deeper(indent) is None);
            assert(indent_fits(fs[k].1, None));
        },
        Some(i) => {
            assert(fs.len() > 0);
            assert(i.count < usize::MAX);
            assert(indent_fits(fs[k].1, deeper(indent)));
        },
    }
}

/// The indentation one level further in, where there is indentation.
pub open spec fn deeper(indent: Option<JsonIndentState>) -> Option<JsonIndentState> {
    match indent {
        Some(i) => Some(JsonIndentState { size: i.size, count: (i.count + 1) as usize }),
        None => None,
    }
}

/// An integer as `i128`'s `Debug` writes it: a minus sign where it is negative, then
/// its decimal digits.
pub open spec fn int_text(n: int) -> Seq<char> {
    if n < 0 {
        "-"@ + decimal((-n) as nat)
    } else {
        decimal(n as nat)
    }
}

/// What comes before element `k`: a comma after the first, then the line start of
/// the level.
pub open spec fn item_start(k: int, indent: Option<JsonIndentState>) -> Seq<char> {
    (if k > 0 {
        ","@
    } else {
        Seq::empty()
    }) + line_start_text(indent)
}

/// The text of `d`, each element of an array or object on a line of its own at
/// `indent` (where there is one) and nested levels further in.
pub open spec fn json_text(d: JsonData, indent: Option<JsonIndentState>) -> Seq<char>
    decreases d,
{
    match d {
        JsonData::Null => "null"@,
        JsonData::Bool(b) => if b {
            "true"@
        } else {
            "false"@
        },
        JsonData::Int(n) => int_text(n),
        JsonData::Decimal(t) => t,
        JsonData::Str(s) => "\""@ + s + "\""@,
        JsonData::Array(a) => if a.len() == 0 {
            "[]"@
        } else {
            "["@ + concat(array_pieces(a, deeper(indent))) + line_start_text(indent) + "]"@
        },
        JsonData::Object(fs) => if fs.len() == 0 {
            "{}"@
        } else {
            "{"@ + concat(object_pieces(fs, deeper(indent))) + line_start_text(indent) + "}"@
        },
    }
}

/// The text of each element of an array, with what comes before it, at `indent`.
pub open spec fn array_pieces(a: Seq<JsonData>, indent: Option<JsonIndentState>) -> Seq<
    Seq<char>,
>
    decreases a,
{
    Seq::new(
        a.len(),
        |k: int|
            item_start(k, indent) + if 0 <= k < a.len() {
                json_text(a[k], indent)
            } else {
                Seq::empty()
            },
    )
}

/// The text of each field of an object, with what comes before it, at `indent`: the
/// name in quotes, a colon, a space where the text is indented, and the value.
pub open spec fn object_pieces(fs: Seq<(Seq<char>, JsonData)>, indent: Option<JsonIndentState>) -> Seq<
    Seq<char>,
>
    decreases fs,
{
    Seq::new(
        fs.len(),
        |k: int|
            item_start(k, indent) + if 0 <= k < fs.len() {
                "\""@ + fs[k].0 + "\":"@ + (if indent is Some {
                    " "@
                } else {
                    Seq::empty()
                }) + json_text(fs[k].1, indent)
            } else {
                Seq::empty()
            },
    )
}

/// The indentation of every level that writing `d` at `indent` reaches can be counted
/// in a `usize`.
pub open spec fn indent_fits(d: JsonData, indent: Option<JsonIndentState>) -> bool
    decreases d,
{
    match indent {
        None => true,
        Some(i) => {
            &&& i.count * i.size <= usize::MAX
            &&& match d {
                JsonData::Array(a) => a.len() > 0 ==> i.count < usize::MAX && forall|k: int|
                    0 <= k < a.len() ==> indent_fits(#[trigger] a[k], deeper(indent)),
                JsonData::Object(fs) => fs.len() > 0 ==> i.count < usize::MAX && forall|k: int|
                    0 <= k < fs.len() ==> indent_fits(#[trigger] fs[k].1, deeper(indent)),
                _ => true,
            }
        },
    }
}

/// Writes `v` at the indentation `indent`: on one line where it is `None`, else each
/// element of an array or object on a line of its own, nested levels one step further
/// in.
pub fn write_preindented(v: &JsonValue, w: &mut String, indent: Option<JsonIndentState>)
    requires
        indent_fits(v.data(), indent),
    ensures
        final(w)@ == old(w)@ + json_text(v.data(), indent),
    decreases v,
{
    let ghost head = w@;
    match v {
        JsonValue::Null => {
            w.append("null");
        },
        JsonValue::Bool(b) => {
            if *b {
                w.append("true");
            } else {
                w.append("false");
            }
        },
        JsonValue::Number(JsonNumberText::Int(n)) => {
            if *n < 0 {
                w.append("-");
                let m: i128 = -(*n + 1);
                let t = u128_to_string(m as u128 + 1);
                w.append(t.as_str());
            } else {
                let t = u128_to_string(*n as u128);
                w.append(t.as_str());
            }
        },
        JsonValue::Number(JsonNumberText::Decimal(t)) => {
            w.append(t.as_str());
        },
        JsonValue::String(s) => {
            w.append("\"");
            w.append(s.as_str());
            w.append("\"");
        },
        JsonValue::Array(items) => {
            proof {
                lemma_array_data(*items);
            }
            if items.len() == 0 {
                w.append("[]");
            } else {
                let new_indent = match indent {
                    Some(i) => Some(JsonIndentState { count: i.count + 1, size: i.size }),
                    None => None,
                };
                w.append("[");
                proof {
                    assert(new_indent == deeper(indent));
                    let a = data_seq(items@);
                    assert(indent_fits(JsonData::Array(a), indent));
                    assert forall|k: int| 0 <= k < items@.len() implies indent_fits(
                        (#[trigger] items@[k]).data(),
                        new_indent,
                    ) by {
                        assert(a[k] == items@[k].data());
                        lemma_fits_items(a, indent, k);
                    }
                    assert(indent_fits(items@[0].data(), new_indent));
                }
                write_items(items, w, new_indent);
                try_write_new_line_and_indents(w, indent);
                w.append("]");
            }
        },
        JsonValue::Object(fields) => {
            proof {
                lemma_object_data(*fields);
            }
            if fields.len() == 0 {
                w.append("{}");
            } else {
                let new_indent = match indent {
                    Some(i) => Some(JsonIndentState { count: i.count + 1, size: i.size }),
                    None => None,
                };
                w.append("{");
                proof {
                    assert(new_indent == deeper(indent));
                    let fs = field_data_seq(fields@);
                    assert(indent_fits(JsonData::Object(fs), indent));
                    assert forall|k: int| 0 <= k < fields@.len() implies indent_fits(
                        (#[trigger] fields@[k]).1.data(),
                        new_indent,
                    ) by {
                        assert(fs[k].1 == fields@[k].1.data());
                        lemma_fits_fields(fs, indent, k);
                    }
                    assert(indent_fits(fields@[0].1.data(), new_indent));
                }
                write_fields(fields, w, new_indent);
                try_write_new_line_and_indents(w, indent);
                w.append("}");
            }
        },
    }
    assert(w@ =~= head + json_text(v.data(), indent));
}

/// Writes the elements of an array, each after a comma (but the first) and the line
/// start of `indent`.
fn write_items(items: &Vec<JsonValue>, w: &mut String, indent: Option<JsonIndentState>)
    requires
        forall|k: int| 0 <= k < items@.len() ==> indent_fits((#[trigger] items@[k]).data(), indent),
        indent is Some ==> indent->0.count * indent->0.size <= usize::MAX,
    ensures
        final(w)@ == old(w)@ + concat(array_pieces(data_seq(items@), indent)),
    decreases items,
{
    let ghost pieces = array_pieces(data_seq(items@), indent);
    let ghost start = w@;
    let mut k: usize = 0;
    assert(pieces.take(0) =~= Seq::<Seq<char>>::empty());
    while k < items.len()
        invariant
            k <= items@.len(),
            pieces == array_pieces(data_seq(items@), indent),
            forall|j: int| 0 <= j < items@.len() ==> indent_fits((#[trigger] items@[j]).data(), indent),
            indent is Some ==> indent->0.count * indent->0.size <= usize::MAX,
            w@ == start + concat(pieces.take(k as int)),
        decreases items@.len() - k,
    {
        let ghost before = w@;
        if k > 0 {
            w.append(",");
        }
        try_write_new_line_and_indents(w, indent);
        write_preindented(&items[k], w, indent);
        proof {
            lemma_concat_take(pieces, k as int);
            assert(data_seq(items@)[k as int] == items@[k as int].data());
            assert(w@ =~= before + pieces[k as int]);
        }
        k += 1;
    }
    assert(pieces.take(items@.len() as int) =~= pieces);
}

/// Writes the fields of an object, each after a comma (but the first) and the line
/// start of `indent`.
fn write_fields(fields: &Vec<(String, JsonValue)>, w: &mut String, indent: Option<JsonIndentState>)
    requires
        forall|k: int|
            0 <= k < fields@.len() ==> indent_fits((#[trigger] fields@[k]).1.data(), indent),
        indent is Some ==> indent->0.count * indent->0.size <= usize::MAX,
    ensures
        final(w)@ == old(w)@ + concat(object_pieces(field_data_seq(fields@), indent)),
    decreases fields,
{
    let ghost pieces = object_pieces(field_data_seq(fields@), indent);
    let ghost start = w@;
    let mut k: usize = 0;
    assert(pieces.take(0) =~= Seq::<Seq<char>>::empty());
    while k < fields.len()
        invariant
            k <= fields@.len(),
            pieces == object_pieces(field_data_seq(fields@), indent),
            forall|j: int|
                0 <= j < fields@.len() ==> indent_fits((#[trigger] fields@[j]).1.data(), indent),
            indent is Some ==> indent->0.count * indent->0.size <= usize::MAX,
            w@ == start + concat(pieces.take(k as int)),
        decreases fields@.len() - k,
    {
        let ghost before = w@;
        if k > 0 {
            w.append(",");
        }
        try_write_new_line_and_indents(w, indent);
        w.append("\"");
        w.append(fields[k].0.as_str());
        w.append("\":");
        if indent.is_some() {
            w.append(" ");
        }
        write_preindented(&fields[k].1, w, indent);
        proof {
            lemma_concat_take(pieces, k as int);
            assert(field_data_seq(fields@)[k as int] == (fields@[k as int].0@, fields@[k as int].1.data()));
            assert(w@ =~= before + pieces[k as int]);
        }
        k += 1;
    }
    assert(pieces.take(fields@.len() as int) =~= pieces);
}

/// Writes `v` on one line where `indent_size` is `None`, else indented by that many
/// spaces per level.
pub fn write(v: &JsonValue, w: &mut String, indent_size: Option<usize>)
    requires
        indent_fits(
            v.data(),
            match indent_size {
                Some(s) => Some(JsonIndentState { size: s, count: 0 }),
                None => None,
            },
        ),
    ensures
        final(w)@ == old(w)@ + json_text(
            v.data(),
            match indent_size {
                Some(s) => Some(JsonIndentState { size: s, count: 0 }),
                None => None,
            },
        ),
{
    let indent = match indent_size {
        Some(s) => Some(JsonIndentState::root(s)),
        None => None,
    };
    write_preindented(v, w, indent);
}

impl JsonValue {
    /// Writes the value on one line where `indent_size` is `None`, else indented by
    /// that many spaces per level.
    pub fn write(&self, w: &mut String, indent_size: Option<usize>)
        requires
            indent_fits(
                self.data(),
                match indent_size {
                    Some(s) => Some(JsonIndentState { size: s, count: 0 }),
                    None => None,
                },
            ),
        ensures
            final(w)@ == old(w)@ + json_text(
                self.data(),
                match indent_size {
                    Some(s) => Some(JsonIndentState { size: s, count: 0 }),
                    None => None,
                },
            ),
    {
        write(self, w, indent_size)
    }
}

} // verus!

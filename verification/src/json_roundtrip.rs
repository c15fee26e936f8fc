use vstd::prelude::*;
use crate::json_indent::{line_start_text, spaces, JsonIndentState};
use crate::json_parse::{
    array_elem, array_sep, digits_value, find_quote, has_name, is_digit, is_white_space,
    number_at, number_end, object_after, object_between, object_colon, value_at, JsonData,
};
use crate::json_write::{array_pieces, concat, deeper, item_start, json_text, object_pieces};
use crate::text::{decimal, digit_char};

verus! {

/// `t` stands in `s` from position `i` on.
pub open spec fn text_at(s: Seq<char>, i: int, t: Seq<char>) -> bool {
    0 <= i && i + t.len() <= s.len() && s.subrange(i, i + t.len()) == t
}

/// Data that the parser reads back from the text the writer gives it: null, `true`,
/// integers from 0 to `i128::MAX`, strings without a double quote, and arrays and
/// objects of such data, the objects' names free of double quotes and distinct.
pub open spec fn reads_back(d: JsonData) -> bool
    decreases d,
{
    match d {
        JsonData::Null => true,
        JsonData::Bool(b) => b,
        JsonData::Int(n) => 0 <= n <= i128::MAX,
        JsonData::Decimal(_) => false,
        JsonData::Str(x) => !x.contains('"'),
        JsonData::Array(a) => forall|k: int| 0 <= k < a.len() ==> reads_back(#[trigger] a[k]),
        JsonData::Object(fs) => {
            &&& forall|k: int|
                0 <= k < fs.len() ==> !(#[trigger] fs[k]).0.contains('"') && reads_back(fs[k].1)
            &&& forall|k: int, l: int| 0 <= k < l < fs.len() ==> fs[k].0 != fs[l].0
        },
    }
}

proof fn lemma_text_split(s: Seq<char>, i: int, a: Seq<char>, b: Seq<char>)
    requires
        text_at(s, i, a + b),
    ensures
        text_at(s, i, a),
        text_at(s, i + a.len(), b),
{
    let whole = s.subrange(i, i + (a + b).len());
    assert(whole == a + b);
    assert(s.subrange(i, i + a.len()) =~= whole.subrange(0, a.len() as int));
    assert(whole.subrange(0, a.len() as int) =~= a);
    assert(s.subrange(i + a.len(), i + a.len() + b.len()) =~= whole.subrange(
        a.len() as int,
        whole.len() as int,
    ));
    assert(whole.subrange(a.len() as int, whole.len() as int) =~= b);
}

proof fn lemma_text_char(s: Seq<char>, i: int, t: Seq<char>, k: int)
    requires
        text_at(s, i, t),
        0 <= k < t.len(),
    ensures
        s[i + k] == t[k],
{
    assert(s.subrange(i, i + t.len())[k] == t[k]);
}

proof fn lemma_line_start_white(indent: Option<JsonIndentState>)
    ensures
        forall|k: int|
            0 <= k < line_start_text(indent).len() ==> is_white_space(
                #[trigger] line_start_text(indent)[k],
            ),
        line_start_text(indent).len() > 0 ==> line_start_text(indent)[0] == '\n',
{
    reveal_strlit("\n");
    match indent {
        Some(i) => {
            let sp = spaces((i.count * i.size) as nat);
            assert forall|k: int| 0 <= k < line_start_text(indent).len() implies is_white_space(
                #[trigger] line_start_text(indent)[k],
            ) by {
                if k > 0 {
                    assert(line_start_text(indent)[k] == sp[k - 1]);
                }
            }
        },
        None => {},
    }
}

proof fn lemma_value_skips_white(s: Seq<char>, j: int, w: int)
    requires
        0 <= j,
        0 <= w,
        j + w < s.len(),
        forall|m: int| j <= m < j + w ==> is_white_space(#[trigger] s[m]),
    ensures
        value_at(s, j) == value_at(s, j + w),
    decreases w,
{
    if w > 0 {
        lemma_value_skips_white(s, j + 1, w - 1);
        assert(is_white_space(s[j]));
    }
}

proof fn lemma_sep_skips_white(s: Seq<char>, j: int, w: int, acc: Seq<JsonData>)
    requires
        0 <= j,
        0 <= w,
        j + w < s.len(),
        forall|m: int| j <= m < j + w ==> is_white_space(#[trigger] s[m]),
    ensures
        array_sep(s, j, acc) == array_sep(s, j + w, acc),
    decreases w,
{
    if w > 0 {
        lemma_sep_skips_white(s, j + 1, w - 1, acc);
        assert(is_white_space(s[j]));
    }
}

proof fn lemma_between_skips_white(
    s: Seq<char>,
    j: int,
    w: int,
    acc: Seq<(Seq<char>, JsonData)>,
)
    requires
        0 <= j,
        0 <= w,
        j + w < s.len(),
        forall|m: int| j <= m < j + w ==> is_white_space(#[trigger] s[m]),
    ensures
        object_between(s, j, acc) == object_between(s, j + w, acc),
    decreases w,
{
    if w > 0 {
        lemma_between_skips_white(s, j + 1, w - 1, acc);
        assert(is_white_space(s[j]));
    }
}

proof fn lemma_after_skips_white(s: Seq<char>, j: int, w: int, acc: Seq<(Seq<char>, JsonData)>)
    requires
        0 <= j,
        0 <= w,
        j + w < s.len(),
        forall|m: int| j <= m < j + w ==> is_white_space(#[trigger] s[m]),
    ensures
        object_after(s, j, acc) == object_after(s, j + w, acc),
    decreases w,
{
    if w > 0 {
        lemma_after_skips_white(s, j + 1, w - 1, acc);
        assert(is_white_space(s[j]));
    }
}

proof fn lemma_digit_char(d: nat)
    requires
        d < 10,
    ensures
        is_digit(digit_char(d)),
        (digit_char(d) as u32) - 48 == d,
{
}

proof fn lemma_decimal(n: nat)
    ensures
        decimal(n).len() >= 1,
        forall|k: int| 0 <= k < decimal(n).len() ==> is_digit(#[trigger] decimal(n)[k]),
        digits_value(decimal(n)) == n,
    decreases n,
{
    if n < 10 {
        lemma_digit_char(n);
        assert(decimal(n).drop_last() =~= Seq::<char>::empty());
        assert(decimal(n).last() == digit_char(n));
        assert(digits_value(decimal(n)) == 10 * digits_value(decimal(n).drop_last()) + ((
        decimal(n).last() as u32) - 48));
    } else {
        lemma_decimal(n / 10);
        lemma_digit_char(n % 10);
        assert(decimal(n).drop_last() =~= decimal(n / 10));
        assert(decimal(n).last() == digit_char(n % 10));
        assert(digits_value(decimal(n)) == 10 * digits_value(decimal(n).drop_last()) + ((
        decimal(n).last() as u32) - 48));
    }
}

proof fn lemma_number_end(s: Seq<char>, j: int, end: int)
    requires
        0 <= j <= end <= s.len(),
        forall|m: int| j <= m < end ==> is_digit(#[trigger] s[m]),
        end < s.len() ==> !is_digit(s[end]) && s[end] != '.',
    ensures
        number_end(s, j, false) == end,
    decreases end - j,
{
    if j < end {
        assert(is_digit(s[j]));
        lemma_number_end(s, j + 1, end);
    }
}

proof fn lemma_find_quote(s: Seq<char>, j: int, q: int)
    requires
        0 <= j <= q < s.len(),
        forall|m: int| j <= m < q ==> #[trigger] s[m] != '"',
        s[q] == '"',
    ensures
        find_quote(s, j) == Some(q),
    decreases q - j,
{
    if j < q {
        assert(s[j] != '"');
        lemma_find_quote(s, j + 1, q);
    }
}

proof fn lemma_concat_add(x: Seq<Seq<char>>, y: Seq<Seq<char>>)
    ensures
        concat(x + y) == concat(x) + concat(y),
    decreases y.len(),
{
    if y.len() == 0 {
        assert(x + y =~= x);
        assert(concat(x) + concat(y) =~= concat(x));
    } else {
        lemma_concat_add(x, y.drop_last());
        assert((x + y).drop_last() =~= x + y.drop_last());
        assert((x + y).last() == y.last());
        assert(concat(x + y) =~= concat(x) + concat(y));
    }
}

proof fn lemma_concat_front(p: Seq<Seq<char>>, k: int)
    requires
        0 <= k < p.len(),
    ensures
        concat(p.skip(k)) == p[k] + concat(p.skip(k + 1)),
{
    assert(p.skip(k) =~= seq![p[k]] + p.skip(k + 1));
    lemma_concat_add(seq![p[k]], p.skip(k + 1));
    let one = seq![p[k]];
    assert(one.drop_last() =~= Seq::<Seq<char>>::empty());
    assert(concat(one.drop_last()) == Seq::<char>::empty());
    assert(one.last() == p[k]);
    assert(concat(one) == concat(one.drop_last()) + one.last());
    assert(concat(one) =~= p[k]);
}

proof fn lemma_concat_empty(p: Seq<Seq<char>>)
    requires
        p.len() == 0,
    ensures
        concat(p) == Seq::<char>::empty(),
{
}

/// The text of data that reads back starts with a character that opens a value.
proof fn lemma_first_char(d: JsonData, indent: Option<JsonIndentState>)
    requires
        reads_back(d),
    ensures
        json_text(d, indent).len() > 0,
        !is_white_space(json_text(d, indent)[0]),
        json_text(d, indent)[0] != ']',
        json_text(d, indent)[0] != '}',
        json_text(d, indent)[0] != ',',
{
    reveal_strlit("null");
    reveal_strlit("true");
    reveal_strlit("\"");
    reveal_strlit("[");
    reveal_strlit("[]");
    reveal_strlit("{");
    reveal_strlit("{}");
    match d {
        JsonData::Int(n) => {
            lemma_decimal(n as nat);
            assert(is_digit(decimal(n as nat)[0]));
        },
        _ => {},
    }
}

proof fn reveal_texts()
    ensures
        "null"@ == seq!['n', 'u', 'l', 'l'],
        "true"@ == seq!['t', 'r', 'u', 'e'],
        "\""@ == seq!['"'],
        "\":"@ == seq!['"', ':'],
        " "@ == seq![' '],
        ","@ == seq![','],
        "["@ == seq!['['],
        "]"@ == seq![']'],
        "{"@ == seq!['{'],
        "}"@ == seq!['}'],
        "[]"@ == seq!['[', ']'],
        "{}"@ == seq!['{', '}'],
{
    reveal_strlit("null");
    reveal_strlit("true");
    reveal_strlit("\"");
    reveal_strlit("\":");
    reveal_strlit(" ");
    reveal_strlit(",");
    reveal_strlit("[");
    reveal_strlit("]");
    reveal_strlit("{");
    reveal_strlit("}");
    reveal_strlit("[]");
    reveal_strlit("{}");
    assert("null"@ =~= seq!['n', 'u', 'l', 'l']);
    assert("true"@ =~= seq!['t', 'r', 'u', 'e']);
    assert("\""@ =~= seq!['"']);
    assert("\":"@ =~= seq!['"', ':']);
    assert(" "@ =~= seq![' ']);
    assert(","@ =~= seq![',']);
    assert("["@ =~= seq!['[']);
    assert("]"@ =~= seq![']']);
    assert("{"@ =~= seq!['{']);
    assert("}"@ =~= seq!['}']);
    assert("[]"@ =~= seq!['[', ']']);
    assert("{}"@ =~= seq!['{', '}']);
}

proof fn lemma_word_back(s: Seq<char>, i: int, d: JsonData, indent: Option<JsonIndentState>)
    requires
        d == JsonData::Null || d == JsonData::Bool(true),
        text_at(s, i, json_text(d, indent)),
    ensures
        value_at(s, i) == Some((d, i + json_text(d, indent).len())),
{
    reveal_texts();
    let t = json_text(d, indent);
    assert(t.len() == 4);
    lemma_text_char(s, i, t, 0);
    lemma_text_char(s, i, t, 1);
    lemma_text_char(s, i, t, 2);
    if d == JsonData::Null {
        assert(s[i] == 'n' && s[i + 1] == 'u' && s[i + 2] == 'l');
    } else {
        assert(s[i] == 't' && s[i + 1] == 'r' && s[i + 2] == 'u');
    }
    assert(!is_white_space(s[i]));
}

/// The parser reads back, from where the writer's text of `d` stands in `s`, the data
/// `d` and the position after the text.
#[verifier::spinoff_prover]
#[verifier::rlimit(60)]
proof fn lemma_value_back(s: Seq<char>, i: int, d: JsonData, indent: Option<JsonIndentState>)
    requires
        reads_back(d),
        text_at(s, i, json_text(d, indent)),
        i + json_text(d, indent).len() < s.len() ==> !is_digit(s[i + json_text(d, indent).len()])
            && s[i + json_text(d, indent).len()] != '.',
    ensures
        value_at(s, i) == Some((d, i + json_text(d, indent).len())),
    decreases d, 1int, 0int,
{
    reveal_texts();
    let t = json_text(d, indent);
    lemma_first_char(d, indent);
    lemma_text_char(s, i, t, 0);
    match d {
        JsonData::Null => {
            lemma_word_back(s, i, d, indent);
            assert(value_at(s, i) == Some((d, i + json_text(d, indent).len())));
        },
        JsonData::Bool(b) => {
            lemma_word_back(s, i, d, indent);
            assert(value_at(s, i) == Some((d, i + json_text(d, indent).len())));
        },
        JsonData::Int(n) => {
            lemma_decimal(n as nat);
            assert(t == decimal(n as nat));
            assert forall|m: int| i + 1 <= m < i + t.len() implies is_digit(#[trigger] s[m]) by {
                lemma_text_char(s, i, t, m - i);
            }
            lemma_number_end(s, i + 1, i + t.len());
            assert(s.subrange(i, i + t.len()) == t);
            assert(!t.contains('.')) by {
                if t.contains('.') {
                    let m = choose|m: int| 0 <= m < t.len() && t[m] == '.';
                    assert(is_digit(t[m]));
                }
            }
            assert(is_digit(s[i]));
            assert(value_at(s, i) == number_at(s, i));
            assert(value_at(s, i) == Some((d, i + json_text(d, indent).len())));
        },
        JsonData::Str(x) => {
            assert(t == "\""@ + x + "\""@);
            let q = i + 1 + x.len();
            assert forall|m: int| i + 1 <= m < q implies #[trigger] s[m] != '"' by {
                lemma_text_char(s, i, t, m - i);
                assert(t[m - i] == x[m - i - 1]);
                assert(x.contains(x[m - i - 1]));
            }
            lemma_text_char(s, i, t, q - i);
            lemma_find_quote(s, i + 1, q);
            assert(s.subrange(i + 1, q) =~= x) by {
                assert forall|m: int| 0 <= m < x.len() implies s.subrange(i + 1, q)[m] == x[m] by {
                    lemma_text_char(s, i, t, m + 1);
                }
            }
            assert(value_at(s, i) == Some((d, i + json_text(d, indent).len())));
        },
        JsonData::Array(a) => {
            if a.len() == 0 {
                lemma_text_char(s, i, t, 1);
                assert(a =~= Seq::<JsonData>::empty());
                assert(t =~= seq!['[', ']']);
                assert(s[i] == '[' && s[i + 1] == ']');
                assert(value_at(s, i) == array_elem(s, i + 1, Seq::empty()));
                assert(value_at(s, i) == Some((d, i + json_text(d, indent).len())));
            } else {
                let di = deeper(indent);
                let pieces = array_pieces(a, di);
                let ls = line_start_text(indent);
                assert(pieces.skip(0) =~= pieces);
                lemma_concat_front(pieces, 0);
                assert(pieces[0] == item_start(0, di) + json_text(a[0], di));
                assert(item_start(0, di) =~= line_start_text(di));
                let w = line_start_text(di) + json_text(a[0], di) + concat(pieces.skip(1)) + ls
                    + "]"@;
                assert(t =~= "["@ + w);
                lemma_text_split(s, i, "["@, w);
                lemma_array_from(s, d, a, indent, 0, i + 1);
                assert(a.take(0) =~= Seq::<JsonData>::empty());
                assert(t[0] == '[');
                assert(value_at(s, i) == array_elem(s, i + 1, Seq::empty()));
                assert(value_at(s, i) == Some((d, i + json_text(d, indent).len())));
            }
        },
        JsonData::Object(fs) => {
            if fs.len() == 0 {
                lemma_text_char(s, i, t, 1);
                assert(fs =~= Seq::<(Seq<char>, JsonData)>::empty());
                assert(t =~= seq!['{', '}']);
                assert(s[i] == '{' && s[i + 1] == '}');
                assert(value_at(s, i) == object_between(s, i + 1, Seq::empty()));
                assert(value_at(s, i) == Some((d, i + json_text(d, indent).len())));
            } else {
                let di = deeper(indent);
                let pieces = object_pieces(fs, di);
                let ls = line_start_text(indent);
                assert(pieces.skip(0) =~= pieces);
                lemma_concat_front(pieces, 0);
                let w = line_start_text(di) + field_text(fs[0], di) + concat(pieces.skip(1)) + ls
                    + "}"@;
                assert(pieces[0] =~= line_start_text(di) + field_text(fs[0], di));
                assert(t =~= "{"@ + w);
                lemma_text_split(s, i, "{"@, w);
                lemma_fields_from(s, d, fs, indent, 0, i + 1);
                assert(fs.take(0) =~= Seq::<(Seq<char>, JsonData)>::empty());
                assert(t[0] == '{');
                assert(value_at(s, i) == object_between(s, i + 1, Seq::empty()));
                assert(value_at(s, i) == Some((d, i + json_text(d, indent).len())));
            }
        },
        JsonData::Decimal(_) => {
            assert(!reads_back(d));
        },
    }
}

/// A field as the writer gives it at `indent`, after its line start.
pub open spec fn field_text(f: (Seq<char>, JsonData), indent: Option<JsonIndentState>) -> Seq<char> {
    "\""@ + f.0 + "\":"@ + (if indent is Some {
        " "@
    } else {
        Seq::empty()
    }) + json_text(f.1, indent)
}

#[verifier::spinoff_prover]
proof fn lemma_array_from(
    s: Seq<char>,
    d: JsonData,
    a: Seq<JsonData>,
    indent: Option<JsonIndentState>,
    k: int,
    p: int,
)
    requires
        d == JsonData::Array(a),
        reads_back(d),
        0 <= k < a.len(),
        text_at(
            s,
            p,
            line_start_text(deeper(indent)) + json_text(a[k], deeper(indent)) + concat(
                array_pieces(a, deeper(indent)).skip(k + 1),
            ) + line_start_text(indent) + "]"@,
        ),
    ensures
        array_elem(s, p, a.take(k)) == Some(
            (
                d,
                p + (line_start_text(deeper(indent)) + json_text(a[k], deeper(indent)) + concat(
                    array_pieces(a, deeper(indent)).skip(k + 1),
                ) + line_start_text(indent) + "]"@).len(),
            ),
        ),
    decreases d, 0int, a.len() - k,
{
    reveal_texts();
    let di = deeper(indent);
    let lsd = line_start_text(di);
    let t = json_text(a[k], di);
    let pieces = array_pieces(a, di);
    let rest = concat(pieces.skip(k + 1));
    let ls = line_start_text(indent);
    let tail = ls + "]"@;
    let w = lsd + t + rest + ls + "]"@;
    assert(w =~= lsd + t + (rest + tail));
    lemma_text_split(s, p, lsd + t, rest + tail);
    lemma_text_split(s, p, lsd, t);
    lemma_text_split(s, p + lsd.len() + t.len(), rest, tail);
    lemma_text_split(s, p + lsd.len() + t.len() + rest.len(), ls, "]"@);
    assert(d->Array_0 == a);
    assert(forall|j: int| 0 <= j < a.len() ==> reads_back(#[trigger] a[j]));
    assert(reads_back(a[k]));
    lemma_first_char(a[k], di);
    lemma_line_start_white(di);
    lemma_line_start_white(indent);
    let e = p + lsd.len() + t.len();
    // the element's first character is no closing bracket
    if lsd.len() > 0 {
        lemma_text_char(s, p, lsd, 0);
    } else {
        lemma_text_char(s, p, t, 0);
        assert(s[p] == t[0]);
    }
    assert forall|m: int| p <= m < p + lsd.len() implies is_white_space(#[trigger] s[m]) by {
        lemma_text_char(s, p, lsd, m - p);
    }
    lemma_text_char(s, p + lsd.len(), t, 0);
    lemma_value_skips_white(s, p, lsd.len() as int);
    // the character after the element
    if k + 1 < a.len() {
        lemma_concat_front(pieces, k + 1);
        assert(pieces[k + 1] == item_start(k + 1, di) + json_text(a[k + 1], di));
        assert(rest[0] == ',');
        lemma_text_char(s, e, rest, 0);
    } else {
        assert(pieces.skip(k + 1).len() == 0);
        lemma_concat_empty(pieces.skip(k + 1));
        assert(rest.len() == 0);
        if ls.len() > 0 {
            lemma_text_char(s, e, ls, 0);
        } else {
            lemma_text_char(s, e + ls.len(), "]"@, 0);
        }
    }
    assert(decreases_to!(d => d->Array_0));
    assert(decreases_to!(d->Array_0 => d->Array_0[k]));
    lemma_value_back(s, p + lsd.len(), d->Array_0[k], di);
    assert(a.take(k).push(a[k]) =~= a.take(k + 1));
    if k + 1 < a.len() {
        let next = pieces[k + 1];
        assert(next =~= ","@ + (lsd + json_text(a[k + 1], di)));
        let w2 = lsd + json_text(a[k + 1], di) + concat(pieces.skip(k + 2)) + ls + "]"@;
        assert(rest + tail =~= ","@ + w2);
        lemma_text_split(s, e, ","@, w2);
        lemma_text_char(s, e, ","@, 0);
        lemma_array_from(s, d, a, indent, k + 1, e + 1);
        assert(w.len() == lsd.len() + t.len() + 1 + w2.len());
    } else {
        assert forall|m: int| e <= m < e + ls.len() implies is_white_space(#[trigger] s[m]) by {
            lemma_text_char(s, e, ls, m - e);
        }
        lemma_text_char(s, e + ls.len(), "]"@, 0);
        lemma_sep_skips_white(s, e, ls.len() as int, a.take(k + 1));
        assert(a.take(k + 1) =~= a);
    }
}

#[verifier::spinoff_prover]
#[verifier::rlimit(60)]
proof fn lemma_fields_from(
    s: Seq<char>,
    d: JsonData,
    fs: Seq<(Seq<char>, JsonData)>,
    indent: Option<JsonIndentState>,
    k: int,
    p: int,
)
    requires
        d == JsonData::Object(fs),
        reads_back(d),
        0 <= k < fs.len(),
        text_at(
            s,
            p,
            line_start_text(deeper(indent)) + field_text(fs[k], deeper(indent)) + concat(
                object_pieces(fs, deeper(indent)).skip(k + 1),
            ) + line_start_text(indent) + "}"@,
        ),
    ensures
        object_between(s, p, fs.take(k)) == Some(
            (
                d,
                p + (line_start_text(deeper(indent)) + field_text(fs[k], deeper(indent)) + concat(
                    object_pieces(fs, deeper(indent)).skip(k + 1),
                ) + line_start_text(indent) + "}"@).len(),
            ),
        ),
    decreases d, 0int, fs.len() - k,
{
    reveal_texts();
    let di = deeper(indent);
    let lsd = line_start_text(di);
    let name = fs[k].0;
    let v = fs[k].1;
    let sp = if di is Some {
        " "@
    } else {
        Seq::<char>::empty()
    };
    let t = json_text(v, di);
    let ft = field_text(fs[k], di);
    let pieces = object_pieces(fs, di);
    let rest = concat(pieces.skip(k + 1));
    let ls = line_start_text(indent);
    let tail = ls + "}"@;
    let w = lsd + ft + rest + ls + "}"@;
    assert(ft =~= "\""@ + name + "\":"@ + sp + t);
    assert(w =~= lsd + ("\""@ + name + "\":"@ + sp + t) + (rest + tail));
    let p1 = p + lsd.len();
    let q = p1 + 1 + name.len();
    let vstart = q + 2 + sp.len();
    let e = vstart + t.len();
    lemma_text_split(s, p, lsd + ("\""@ + name + "\":"@ + sp + t), rest + tail);
    lemma_text_split(s, p, lsd, "\""@ + name + "\":"@ + sp + t);
    lemma_text_split(s, p1, "\""@ + name + "\":"@ + sp, t);
    lemma_text_split(s, p1, "\""@ + name + "\":"@, sp);
    lemma_text_split(s, p1, "\""@ + name, "\":"@);
    lemma_text_split(s, p1, "\""@, name);
    lemma_text_split(s, e, rest, tail);
    lemma_text_split(s, e + rest.len(), ls, "}"@);
    assert(d->Object_0 == fs);
    assert(forall|j: int|
        0 <= j < fs.len() ==> !(#[trigger] fs[j]).0.contains('"') && reads_back(fs[j].1));
    assert(reads_back(v) && !name.contains('"'));
    lemma_first_char(v, di);
    lemma_line_start_white(di);
    lemma_line_start_white(indent);
    // the line start, then the name in quotes
    assert forall|m: int| p <= m < p1 implies is_white_space(#[trigger] s[m]) by {
        lemma_text_char(s, p, lsd, m - p);
    }
    lemma_text_char(s, p1, "\""@, 0);
    lemma_between_skips_white(s, p, lsd.len() as int, fs.take(k));
    assert forall|m: int| p1 + 1 <= m < q implies #[trigger] s[m] != '"' by {
        lemma_text_char(s, p1 + 1, name, m - p1 - 1);
        assert(name.contains(name[m - p1 - 1]));
    }
    lemma_text_char(s, q, "\":"@, 0);
    lemma_text_char(s, q, "\":"@, 1);
    lemma_find_quote(s, p1 + 1, q);
    assert(s.subrange(p1 + 1, q) =~= name) by {
        assert forall|m: int| 0 <= m < name.len() implies s.subrange(p1 + 1, q)[m] == name[m] by {
            lemma_text_char(s, p1 + 1, name, m);
        }
    }
    // the value after the colon and the optional space
    if sp.len() > 0 {
        lemma_text_char(s, q + 2, sp, 0);
    }
    assert forall|m: int| q + 2 <= m < vstart implies is_white_space(#[trigger] s[m]) by {
        lemma_text_char(s, q + 2, sp, m - q - 2);
    }
    lemma_text_char(s, vstart, t, 0);
    lemma_value_skips_white(s, q + 2, sp.len() as int);
    if k + 1 < fs.len() {
        lemma_concat_front(pieces, k + 1);
        assert(pieces[k + 1] =~= ","@ + (lsd + field_text(fs[k + 1], di)));
        assert(rest[0] == ',');
        lemma_text_char(s, e, rest, 0);
    } else {
        assert(pieces.skip(k + 1).len() == 0);
        lemma_concat_empty(pieces.skip(k + 1));
        if ls.len() > 0 {
            lemma_text_char(s, e, ls, 0);
        } else {
            lemma_text_char(s, e + ls.len(), "}"@, 0);
        }
    }
    assert(decreases_to!(d => d->Object_0));
    assert(decreases_to!(d->Object_0 => d->Object_0[k]));
    assert(decreases_to!(d->Object_0[k] => d->Object_0[k].1));
    lemma_value_back(s, vstart, d->Object_0[k].1, di);
    assert(value_at(s, q + 2) == Some((v, e)));
    assert(object_between(s, p, fs.take(k)) == object_between(s, p1, fs.take(k)));
    assert(object_between(s, p1, fs.take(k)) == object_colon(s, q + 1, fs.take(k), name));
    assert(!has_name(fs.take(k), name)) by {
        if has_name(fs.take(k), name) {
            let j = choose|j: int| 0 <= j < fs.take(k).len() && fs.take(k)[j].0 == name;
            assert(fs[j].0 != fs[k].0);
        }
    }
    assert(fs.take(k).push((name, v)) =~= fs.take(k + 1));
    assert(object_colon(s, q + 1, fs.take(k), name) == object_after(s, e, fs.take(k + 1)));
    if k + 1 < fs.len() {
        let w2 = lsd + field_text(fs[k + 1], di) + concat(pieces.skip(k + 2)) + ls + "}"@;
        assert(rest + tail =~= ","@ + w2);
        lemma_text_split(s, e, ","@, w2);
        lemma_text_char(s, e, ","@, 0);
        lemma_fields_from(s, d, fs, indent, k + 1, e + 1);
        assert(w.len() == e - p + 1 + w2.len());
    } else {
        assert forall|m: int| e <= m < e + ls.len() implies is_white_space(#[trigger] s[m]) by {
            lemma_text_char(s, e, ls, m - e);
        }
        lemma_text_char(s, e + ls.len(), "}"@, 0);
        lemma_after_skips_white(s, e, ls.len() as int, fs.take(k + 1));
        assert(fs.take(k + 1) =~= fs);
    }
}

/// Parsing the text that the writer gives for data that reads back gives that data,
/// and the whole text is read.
pub proof fn law_parse_after_write(d: JsonData, indent: Option<JsonIndentState>)
    requires
        reads_back(d),
    ensures
        value_at(json_text(d, indent), 0) == Some((d, json_text(d, indent).len() as int)),
{
    let t = json_text(d, indent);
    assert(t.subrange(0, t.len() as int) =~= t);
    lemma_value_back(t, 0, d, indent);
}

} // verus!

use vstd::prelude::*;
use crate::text::string_push;

verus! {

/// A JSON number as written: an integer, or decimal text with a dot.
#[derive(Clone, Debug, PartialEq)]
pub enum JsonNumberText {
    Int(i128),
    Decimal(String),
}

/// A JSON value.
pub enum JsonValue {
    Null,
    Bool(bool),
    Number(JsonNumberText),
    String(String),
    Array(Vec<JsonValue>),
    Object(Vec<(String, JsonValue)>),
}

/// A JSON value as mathematical data.
#[verifier::ext_equal]
pub enum JsonData {
    Null,
    Bool(bool),
    Int(int),
    Decimal(Seq<char>),
    Str(Seq<char>),
    Array(Seq<JsonData>),
    Object(Seq<(Seq<char>, JsonData)>),
}

pub(crate) proof fn lemma_array_data(v: Vec<JsonValue>)
    ensures
        JsonValue::Array(v).data() == JsonData::Array(data_seq(v@)),
{
    match JsonValue::Array(v).data() {
        JsonData::Array(x) => {
            assert(x =~= data_seq(v@));
        },
        _ => {},
    }
}

pub(crate) proof fn lemma_object_data(v: Vec<(String, JsonValue)>)
    ensures
        JsonValue::Object(v).data() == JsonData::Object(field_data_seq(v@)),
{
    match JsonValue::Object(v).data() {
        JsonData::Object(x) => {
            assert(x =~= field_data_seq(v@));
        },
        _ => {},
    }
}

impl JsonValue {
    pub open spec fn data(&self) -> JsonData
        decreases self,
    {
        match self {
            JsonValue::Null => JsonData::Null,
            JsonValue::Bool(b) => JsonData::Bool(*b),
            JsonValue::Number(JsonNumberText::Int(n)) => JsonData::Int(*n as int),
            JsonValue::Number(JsonNumberText::Decimal(t)) => JsonData::Decimal(t@),
            JsonValue::String(t) => JsonData::Str(t@),
            JsonValue::Array(v) => JsonData::Array(
                Seq::new(v@.len(), |i: int| if 0 <= i < v@.len() { v@[i].data() } else { JsonData::Null }),
            ),
            JsonValue::Object(v) => JsonData::Object(
                Seq::new(v@.len(), |i: int| if 0 <= i < v@.len() { (v@[i].0@, v@[i].1.data()) } else { (Seq::empty(), JsonData::Null) }),
            ),
        }
    }
}

/// The data of each value of `v`.
pub open spec fn data_seq(v: Seq<JsonValue>) -> Seq<JsonData> {
    Seq::new(v.len(), |i: int| v[i].data())
}

/// The data of each field of `v`.
pub open spec fn field_data_seq(v: Seq<(String, JsonValue)>) -> Seq<(Seq<char>, JsonData)> {
    Seq::new(v.len(), |i: int| (v[i].0@, v[i].1.data()))
}

/// `c` has the Unicode White_Space property.
pub open spec fn is_white_space(c: char) -> bool {
    let n = c as u32;
    (9 <= n && n <= 13) || n == 32 || n == 0x85 || n == 0xa0 || n == 0x1680 || (0x2000 <= n
        && n <= 0x200a) || n == 0x2028 || n == 0x2029 || n == 0x202f || n == 0x205f || n == 0x3000
}

/// `c` is an ASCII digit.
pub open spec fn is_digit(c: char) -> bool {
    48 <= (c as u32) && (c as u32) <= 57
}

/// The value of the decimal digits `t`.
pub open spec fn digits_value(t: Seq<char>) -> int
    decreases t.len(),
{
    if t.len() == 0 {
        0
    } else {
        10 * digits_value(t.drop_last()) + ((t.last() as u32) - 48)
    }
}

/// Where a number that began before `j` ends: digits, and one dot where `dot` says none
/// was seen yet, are taken in.
pub open spec fn number_end(s: Seq<char>, j: int, dot: bool) -> int
    decreases s.len() - j,
{
    if j < 0 || j >= s.len() {
        j
    } else if is_digit(s[j]) {
        number_end(s, j + 1, dot)
    } else if s[j] == '.' && !dot {
        number_end(s, j + 1, true)
    } else {
        j
    }
}

/// The number starting at `i` and where it ends: a decimal where its text holds a dot
/// (other than the lone dot, which is no number), else an integer that fits in `i128`.
pub open spec fn number_at(s: Seq<char>, i: int) -> Option<(JsonData, int)> {
    let e = number_end(s, i + 1, s[i] == '.');
    let t = s.subrange(i, e);
    if t.contains('.') {
        if t == seq!['.'] {
            None
        } else {
            Some((JsonData::Decimal(t), e))
        }
    } else if digits_value(t) <= i128::MAX {
        Some((JsonData::Int(digits_value(t)), e))
    } else {
        None
    }
}

/// The first position from `j` on that holds a double quote.
pub open spec fn find_quote(s: Seq<char>, j: int) -> Option<int>
    decreases s.len() - j,
{
    if j < 0 || j >= s.len() {
        None
    } else if s[j] == '"' {
        Some(j)
    } else {
        find_quote(s, j + 1)
    }
}

/// Some field of `fields` is named `name`.
pub open spec fn has_name(fields: Seq<(Seq<char>, JsonData)>, name: Seq<char>) -> bool {
    exists|k: int| 0 <= k < fields.len() && fields[k].0 == name
}

/// The value that starts at `i` (after white space) and the position after it. The
/// words are recognised by their first three letters and one more character of any
/// kind; strings have no escapes; numbers have no sign or exponent.
pub open spec fn value_at(s: Seq<char>, i: int) -> Option<(JsonData, int)>
    decreases s.len() - i, 0int,
{
    if i < 0 || i >= s.len() {
        None
    } else {
        let c = s[i];
        if is_white_space(c) {
            value_at(s, i + 1)
        } else if c == 'n' {
            if i + 3 < s.len() && s[i + 1] == 'u' && s[i + 2] == 'l' {
                Some((JsonData::Null, i + 4))
            } else {
                None
            }
        } else if c == 't' {
            if i + 3 < s.len() && s[i + 1] == 'r' && s[i + 2] == 'u' {
                Some((JsonData::Bool(true), i + 4))
            } else {
                None
            }
        } else if c == 'f' {
            if i + 3 < s.len() && s[i + 1] == 'a' && s[i + 2] == 'l' {
                Some((JsonData::Bool(false), i + 4))
            } else {
                None
            }
        } else if is_digit(c) || c == '.' {
            number_at(s, i)
        } else if c == '"' {
            match find_quote(s, i + 1) {
                Some(q) => Some((JsonData::Str(s.subrange(i + 1, q)), q + 1)),
                None => None,
            }
        } else if c == '{' {
            object_between(s, i + 1, Seq::empty())
        } else if c == '[' {
            array_elem(s, i + 1, Seq::empty())
        } else {
            None
        }
    }
}

/// Inside an array where an element or the closing bracket comes next.
pub open spec fn array_elem(s: Seq<char>, j: int, acc: Seq<JsonData>) -> Option<(JsonData, int)>
    decreases s.len() - j, 1int,
{
    if j < 0 || j >= s.len() {
        None
    } else if s[j] == ']' {
        Some((JsonData::Array(acc), j + 1))
    } else {
        match value_at(s, j) {
            Some((v, k)) => if j < k <= s.len() {
                array_sep(s, k, acc.push(v))
            } else {
                None
            },
            None => None,
        }
    }
}

/// Inside an array after an element.
pub open spec fn array_sep(s: Seq<char>, k: int, acc: Seq<JsonData>) -> Option<(JsonData, int)>
    decreases s.len() - k, 1int,
{
    if k < 0 || k >= s.len() {
        None
    } else if is_white_space(s[k]) {
        array_sep(s, k + 1, acc)
    } else if s[k] == ',' {
        array_elem(s, k + 1, acc)
    } else if s[k] == ']' {
        Some((JsonData::Array(acc), k + 1))
    } else {
        None
    }
}

/// Inside an object where a field or the closing brace comes next. A closing brace
/// here gives the empty object, whatever fields came before.
pub open spec fn object_between(s: Seq<char>, j: int, acc: Seq<(Seq<char>, JsonData)>) -> Option<
    (JsonData, int),
>
    decreases s.len() - j, 1int,
{
    if j < 0 || j >= s.len() {
        None
    } else if is_white_space(s[j]) {
        object_between(s, j + 1, acc)
    } else if s[j] == '}' {
        Some((JsonData::Object(Seq::empty()), j + 1))
    } else if s[j] == '"' {
        match find_quote(s, j + 1) {
            Some(q) => if j < q < s.len() {
                object_colon(s, q + 1, acc, s.subrange(j + 1, q))
            } else {
                None
            },
            None => None,
        }
    } else {
        None
    }
}

/// Inside an object after the field name `name`, where the colon comes next; a name
/// given twice fails.
pub open spec fn object_colon(
    s: Seq<char>,
    j: int,
    acc: Seq<(Seq<char>, JsonData)>,
    name: Seq<char>,
) -> Option<(JsonData, int)>
    decreases s.len() - j, 1int,
{
    if j < 0 || j >= s.len() {
        None
    } else if is_white_space(s[j]) {
        object_colon(s, j + 1, acc, name)
    } else if s[j] == ':' {
        match value_at(s, j + 1) {
            Some((v, k)) => if j + 1 < k <= s.len() && !has_name(acc, name) {
                object_after(s, k, acc.push((name, v)))
            } else {
                None
            },
            None => None,
        }
    } else {
        None
    }
}

/// Inside an object after a field's value.
pub open spec fn object_after(s: Seq<char>, k: int, acc: Seq<(Seq<char>, JsonData)>) -> Option<
    (JsonData, int),
>
    decreases s.len() - k, 1int,
{
    if k < 0 || k >= s.len() {
        None
    } else if is_white_space(s[k]) {
        object_after(s, k + 1, acc)
    } else if s[k] == ',' {
        object_between(s, k + 1, acc)
    } else if s[k] == '}' {
        Some((JsonData::Object(acc), k + 1))
    } else {
        None
    }
}

/// Whether `c` has the Unicode White_Space property, as `char::is_whitespace` tells.
pub fn white_space(c: char) -> (r: bool)
    ensures
        r == is_white_space(c),
{
    let n = c as u32;
    (9 <= n && n <= 13) || n == 32 || n == 0x85 || n == 0xa0 || n == 0x1680 || (0x2000 <= n
        && n <= 0x200a) || n == 0x2028 || n == 0x2029 || n == 0x202f || n == 0x205f || n == 0x3000
}

fn digit(c: char) -> (r: bool)
    ensures
        r == is_digit(c),
{
    let n = c as u32;
    48 <= n && n <= 57
}

/// The characters from `a` to `b` as a string.
fn text_of(chars: &Vec<char>, a: usize, b: usize) -> (r: String)
    requires
        a <= b <= chars@.len(),
    ensures
        r@ == chars@.subrange(a as int, b as int),
{
    let mut t = String::new();
    let mut p = a;
    while p < b
        invariant
            a <= p <= b <= chars@.len(),
            t@ == chars@.subrange(a as int, p as int),
        decreases b - p,
    {
        string_push(&mut t, chars[p]);
        p += 1;
        assert(t@ =~= chars@.subrange(a as int, p as int));
    }
    t
}

/// The first position from `j` on that holds a double quote.
fn quote_from(chars: &Vec<char>, j: usize) -> (r: Option<usize>)
    requires
        j <= chars@.len(),
    ensures
        match r {
            Some(q) => find_quote(chars@, j as int) == Some(q as int) && j <= q < chars@.len(),
            None => find_quote(chars@, j as int) is None,
        },
{
    let mut p = j;
    while p < chars.len()
        invariant
            j <= p <= chars@.len(),
            find_quote(chars@, j as int) == find_quote(chars@, p as int),
        decreases chars@.len() - p,
    {
        if chars[p] == '"' {
            return Some(p);
        }
        p += 1;
    }
    None
}

proof fn lemma_digits_monotone(t: Seq<char>, m: int)
    requires
        0 <= m <= t.len(),
        forall|k: int| 0 <= k < t.len() ==> #[trigger] is_digit(t[k]),
    ensures
        0 <= digits_value(t.subrange(0, m)) <= digits_value(t),
    decreases t.len(),
{
    if t.len() > 0 {
        let u = t.drop_last();
        assert forall|k: int| 0 <= k < u.len() implies #[trigger] is_digit(u[k]) by {
            assert(u[k] == t[k]);
        }
        assert(is_digit(t[t.len() - 1]));
        if m == t.len() {
            assert(t.subrange(0, m) =~= t);
            lemma_digits_monotone(u, u.len() as int);
            assert(u.subrange(0, u.len() as int) =~= u);
        } else {
            lemma_digits_monotone(u, m);
            assert(u.subrange(0, m) =~= t.subrange(0, m));
            lemma_digits_monotone(u, u.len() as int);
            assert(u.subrange(0, u.len() as int) =~= u);
        }
    } else {
        assert(t.subrange(0, m) =~= t);
    }
}

/// The number starting at `i`.
fn parse_number(chars: &Vec<char>, i: usize) -> (r: Option<(JsonValue, usize)>)
    requires
        i < chars@.len(),
        is_digit(chars@[i as int]) || chars@[i as int] == '.',
    ensures
        match r {
            Some((v, e)) => number_at(chars@, i as int) == Some((v.data(), e as int)) && i < e
                <= chars@.len(),
            None => number_at(chars@, i as int) is None,
        },
{
    let ghost s = chars@;
    let n = chars.len();
    let mut dot = chars[i] == '.';
    let mut p = i + 1;
    proof {
        let sub = s.subrange(i as int, p as int);
        assert(sub =~= seq![s[i as int]]);
        if s[i as int] == '.' {
            assert(sub[0] == '.');
        } else if sub.contains('.') {
            let k = choose|k: int| 0 <= k < sub.len() && sub[k] == '.';
            assert(k == 0);
        }
    }
    while p < chars.len() && (digit(chars[p]) || (chars[p] == '.' && !dot))
        invariant
            i < p <= s.len(),
            s == chars@,
            is_digit(s[i as int]) || s[i as int] == '.',
            number_end(s, i + 1, s[i as int] == '.') == number_end(s, p as int, dot),
            dot == s.subrange(i as int, p as int).contains('.'),
            forall|k: int| i <= k < p ==> #[trigger] is_digit(s[k]) || s[k] == '.',
        decreases s.len() - p,
    {
        let ghost before = s.subrange(i as int, p as int);
        if chars[p] == '.' {
            dot = true;
        }
        p += 1;
        proof {
            let after = s.subrange(i as int, p as int);
            assert(after =~= before.push(s[p - 1]));
            if s[p - 1] == '.' {
                assert(after[after.len() - 1] == '.');
            } else {
                if after.contains('.') {
                    let k = choose|k: int| 0 <= k < after.len() && after[k] == '.';
                    assert(before[k] == '.');
                }
            }
        }
    }
    let e = p;
    let ghost t = s.subrange(i as int, e as int);
    assert(number_end(s, e as int, dot) == e);
    if dot {
        if e == i + 1 && chars[i] == '.' {
            assert(t =~= seq!['.']);
            return None;
        }
        proof {
            if t == seq!['.'] {
                assert(t.len() == 1 && t[0] == s[i as int]);
            }
        }
        let text = text_of(chars, i, e);
        return Some((JsonValue::Number(JsonNumberText::Decimal(text)), e));
    }
    proof {
        assert forall|k: int| 0 <= k < t.len() implies #[trigger] is_digit(t[k]) by {
            assert(t[k] == s[i + k]);
            if !is_digit(t[k]) {
                assert(t.contains('.'));
            }
        }
    }
    let lim: i128 = 17014118346046923173168730371588410572;
    let mut val: i128 = 0;
    let mut q = i;
    while q < e
        invariant
            i <= q <= e,
            e <= s.len(),
            s == chars@,
            t == s.subrange(i as int, e as int),
            forall|k: int| 0 <= k < t.len() ==> #[trigger] is_digit(t[k]),
            val == digits_value(t.subrange(0, q - i)),
            lim == 17014118346046923173168730371588410572i128,
            !t.contains('.'),
            e == number_end(s, i + 1, s[i as int] == '.'),
        decreases e - q,
    {
        proof {
            assert(t[q - i] == s[q as int]);
            assert(is_digit(t[q - i]));
            assert(t.subrange(0, q - i + 1).drop_last() =~= t.subrange(0, q - i));
            assert(t.subrange(0, q - i + 1).last() == s[q as int]);
        }
        proof {
            lemma_digits_monotone(t, q - i);
        }
        let cq = chars[q];
        assert(cq == s[q as int]);
        assert(48 <= (cq as u32) <= 57);
        let d = (cq as u32 - 48) as i128;
        assert(0 <= d <= 9);
        assert(digits_value(t.subrange(0, q - i + 1)) == 10 * digits_value(t.subrange(0, q - i)) + d);
        assert(digits_value(t.subrange(0, q - i + 1)) == 10 * val + d);
        if val > lim || (val == lim && d > 7) {
            proof {
                lemma_digits_monotone(t, q - i + 1);
            }
            return None;
        }
        val = val * 10 + d;
        q += 1;
    }
    assert(t.subrange(0, e - i) =~= t);
    assert(!t.contains('.'));
    Some((JsonValue::Number(JsonNumberText::Int(val)), e))
}

/// The value that starts at `i`, after white space, and the position after it.
fn parse_value(chars: &Vec<char>, i: usize) -> (r: Option<(JsonValue, usize)>)
    requires
        i <= chars@.len(),
    ensures
        match r {
            Some((v, e)) => value_at(chars@, i as int) == Some((v.data(), e as int)) && i < e
                <= chars@.len(),
            None => value_at(chars@, i as int) is None,
        },
    decreases chars@.len() - i, 0int,
{
    let mut p = i;
    while p < chars.len() && white_space(chars[p])
        invariant
            i <= p <= chars@.len(),
            value_at(chars@, i as int) == value_at(chars@, p as int),
        decreases chars@.len() - p,
    {
        p += 1;
    }
    if p >= chars.len() {
        return None;
    }
    let c = chars[p];
    let n = chars.len();
    if c == 'n' {
        if n - p > 3 && chars[p + 1] == 'u' && chars[p + 2] == 'l' {
            return Some((JsonValue::Null, p + 4));
        }
        return None;
    }
    if c == 't' {
        if n - p > 3 && chars[p + 1] == 'r' && chars[p + 2] == 'u' {
            return Some((JsonValue::Bool(true), p + 4));
        }
        return None;
    }
    if c == 'f' {
        if n - p > 3 && chars[p + 1] == 'a' && chars[p + 2] == 'l' {
            return Some((JsonValue::Bool(false), p + 4));
        }
        return None;
    }
    if digit(c) || c == '.' {
        return parse_number(chars, p);
    }
    if c == '"' {
        return match quote_from(chars, p + 1) {
            Some(q) => {
                let text = text_of(chars, p + 1, q);
                Some((JsonValue::String(text), q + 1))
            },
            None => None,
        };
    }
    if c == '{' {
        return parse_object(chars, p + 1);
    }
    if c == '[' {
        return parse_array(chars, p + 1);
    }
    None
}

/// The rest of an array whose opening bracket ends before `j`.
fn parse_array(chars: &Vec<char>, j: usize) -> (r: Option<(JsonValue, usize)>)
    requires
        j <= chars@.len(),
    ensures
        match r {
            Some((v, e)) => array_elem(chars@, j as int, Seq::empty()) == Some((v.data(), e as int))
                && j < e <= chars@.len(),
            None => array_elem(chars@, j as int, Seq::empty()) is None,
        },
    decreases chars@.len() - j, 1int,
{
    let ghost s = chars@;
    let mut acc: Vec<JsonValue> = Vec::new();
    let mut p = j;
    let mut expect_elem = true;
    assert(data_seq(acc@) =~= Seq::<JsonData>::empty());
    loop
        invariant
            s == chars@,
            j <= p <= s.len(),
            array_elem(s, j as int, Seq::empty()) == if expect_elem {
                array_elem(s, p as int, data_seq(acc@))
            } else {
                array_sep(s, p as int, data_seq(acc@))
            },
        decreases s.len() - p,
    {
        if p >= chars.len() {
            return None;
        }
        let c = chars[p];
        if expect_elem {
            if c == ']' {
                proof {
                    lemma_array_data(acc);
                }
                let v = JsonValue::Array(acc);
                return Some((v, p + 1));
            }
            match parse_value(chars, p) {
                Some((v, k)) => {
                    let ghost before = acc@;
                    acc.push(v);
                    assert(data_seq(acc@) =~= data_seq(before).push(v.data()));
                    p = k;
                    expect_elem = false;
                },
                None => {
                    return None;
                },
            }
        } else {
            if white_space(c) {
                p += 1;
            } else if c == ',' {
                p += 1;
                expect_elem = true;
            } else if c == ']' {
                proof {
                    lemma_array_data(acc);
                }
                let v = JsonValue::Array(acc);
                return Some((v, p + 1));
            } else {
                return None;
            }
        }
    }
}

/// Whether some field of `fields` is named `name`.
fn has_field(fields: &Vec<(String, JsonValue)>, name: &String) -> (r: bool)
    ensures
        r == has_name(field_data_seq(fields@), name@),
{
    let mut k: usize = 0;
    while k < fields.len()
        invariant
            k <= fields@.len(),
            forall|m: int| 0 <= m < k ==> fields@[m].0@ != name@,
        decreases fields@.len() - k,
    {
        if fields[k].0 == *name {
            assert(field_data_seq(fields@)[k as int].0 == name@);
            return true;
        }
        k += 1;
    }
    assert(!has_name(field_data_seq(fields@), name@)) by {
        if has_name(field_data_seq(fields@), name@) {
            let m = choose|m: int| 0 <= m < fields@.len() && field_data_seq(fields@)[m].0 == name@;
            assert(fields@[m].0@ == name@);
        }
    }
    false
}

/// The rest of an object whose opening brace ends before `j`.
fn parse_object(chars: &Vec<char>, j: usize) -> (r: Option<(JsonValue, usize)>)
    requires
        j <= chars@.len(),
    ensures
        match r {
            Some((v, e)) => object_between(chars@, j as int, Seq::empty()) == Some(
                (v.data(), e as int),
            ) && j < e <= chars@.len(),
            None => object_between(chars@, j as int, Seq::empty()) is None,
        },
    decreases chars@.len() - j, 1int,
{
    let ghost s = chars@;
    let mut acc: Vec<(String, JsonValue)> = Vec::new();
    let mut name = String::new();
    let mut p = j;
    let mut mode: u8 = 0;
    assert(field_data_seq(acc@) =~= Seq::<(Seq<char>, JsonData)>::empty());
    loop
        invariant
            s == chars@,
            j <= p <= s.len(),
            mode <= 2,
            object_between(s, j as int, Seq::empty()) == if mode == 0 {
                object_between(s, p as int, field_data_seq(acc@))
            } else if mode == 1 {
                object_colon(s, p as int, field_data_seq(acc@), name@)
            } else {
                object_after(s, p as int, field_data_seq(acc@))
            },
        decreases s.len() - p,
    {
        if p >= chars.len() {
            return None;
        }
        let c = chars[p];
        if white_space(c) {
            p += 1;
        } else if mode == 0 {
            if c == '}' {
                let empty: Vec<(String, JsonValue)> = Vec::new();
                proof {
                    lemma_object_data(empty);
                    assert(field_data_seq(empty@) =~= Seq::<(Seq<char>, JsonData)>::empty());
                }
                let v = JsonValue::Object(empty);
                return Some((v, p + 1));
            } else if c == '"' {
                match quote_from(chars, p + 1) {
                    Some(q) => {
                        name = text_of(chars, p + 1, q);
                        p = q + 1;
                        mode = 1;
                    },
                    None => {
                        return None;
                    },
                }
            } else {
                return None;
            }
        } else if mode == 1 {
            if c == ':' {
                match parse_value(chars, p + 1) {
                    Some((v, k)) => {
                        if has_field(&acc, &name) {
                            return None;
                        }
                        let ghost before = acc@;
                        let ghost nm = name@;
                        let field_name = name;
                        name = String::new();
                        acc.push((field_name, v));
                        assert(field_data_seq(acc@) =~= field_data_seq(before).push((nm, v.data())));
                        p = k;
                        mode = 2;
                    },
                    None => {
                        return None;
                    },
                }
            } else {
                return None;
            }
        } else {
            if c == ',' {
                p += 1;
                mode = 0;
            } else if c == '}' {
                proof {
                    lemma_object_data(acc);
                }
                let v = JsonValue::Object(acc);
                return Some((v, p + 1));
            } else {
                return None;
            }
        }
    }
}

/// The JSON value that starts at `start` (after white space) in `chars`, and the
/// position after it.
pub fn parse_json(chars: &Vec<char>, start: usize) -> (r: Option<(JsonValue, usize)>)
    requires
        start <= chars@.len(),
    ensures
        match r {
            Some((v, e)) => value_at(chars@, start as int) == Some((v.data(), e as int)) && start
                < e <= chars@.len(),
            None => value_at(chars@, start as int) is None,
        },
{
    parse_value(chars, start)
}

impl JsonValue {
    /// The JSON value at the start of `chars`.
    pub fn parse(chars: &Vec<char>) -> (r: Option<JsonValue>)
        ensures
            match r {
                Some(v) => value_at(chars@, 0) matches Some((d, _)) && d == v.data(),
                None => value_at(chars@, 0) is None,
            },
    {
        match parse_value(chars, 0) {
            Some((v, _)) => Some(v),
            None => None,
        }
    }
}

/// `n` is the code of a character with the Unicode White_Space property, the
/// characters that `char::is_whitespace` accepts: tab, line feed, vertical tab, form
/// feed, carriage return, space, next line, no-break space, ogham space mark, the
/// spaces from en quad to hair space, line and paragraph separators, narrow no-break
/// space, medium mathematical space and ideographic space.
pub open spec fn unicode_white_space_code(n: u32) -> bool {
    n == 0x09 || n == 0x0a || n == 0x0b || n == 0x0c || n == 0x0d || n == 0x20 || n == 0x85
        || n == 0xa0 || n == 0x1680 || n == 0x2000 || n == 0x2001 || n == 0x2002 || n == 0x2003
        || n == 0x2004 || n == 0x2005 || n == 0x2006 || n == 0x2007 || n == 0x2008 || n == 0x2009
        || n == 0x200a || n == 0x2028 || n == 0x2029 || n == 0x202f || n == 0x205f || n == 0x3000
}

/// White space between tokens is skipped wherever the parser allows it, and only white
/// space is: a white space character before a value, after an array element, before a
/// field, before a field's colon or after a field's value changes nothing that is read.
pub proof fn law_white_space_skipped(
    s: Seq<char>,
    i: int,
    elems: Seq<JsonData>,
    fields: Seq<(Seq<char>, JsonData)>,
    name: Seq<char>,
)
    requires
        0 <= i < s.len(),
        unicode_white_space_code(s[i] as u32),
    ensures
        value_at(s, i) == value_at(s, i + 1),
        array_sep(s, i, elems) == array_sep(s, i + 1, elems),
        object_between(s, i, fields) == object_between(s, i + 1, fields),
        object_colon(s, i, fields, name) == object_colon(s, i + 1, fields, name),
        object_after(s, i, fields) == object_after(s, i + 1, fields),
{
    assert(is_white_space(s[i]));
}

/// The characters that the parser takes for white space are exactly those with the
/// Unicode White_Space property.
pub proof fn law_white_space_is_unicode(c: char)
    ensures
        is_white_space(c) <==> unicode_white_space_code(c as u32),
{
}

} // verus!

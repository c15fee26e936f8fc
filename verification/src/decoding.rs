use vstd::prelude::*;
use crate::json_parse::{digits_value, is_digit};

verus! {

/// What a serialized value holds where an integer is read from it. A float is given
/// by the integer that it casts to.
pub enum IntSource {
    Null,
    Composite,
    Bool(bool),
    Int(i128),
    Float(i128),
    Text(String),
}

/// Why the integer read is not simply the one stored.
#[derive(Clone, Copy, Debug, PartialEq, Eq, Structural)]
pub enum IntComplaint {
    FromNull,
    FromComposite,
    FromBool,
    Clamped,
    FromFloat,
    FromText,
}

/// `v` brought into `min..=max`.
pub open spec fn clamped(v: int, min: int, max: int) -> int {
    if v < min {
        min
    } else if v > max {
        max
    } else {
        v
    }
}

/// The integer written in `s`: an optional `+` or `-` and then one or more ASCII
/// digits, nothing else.
pub open spec fn integer_text_value(s: Seq<char>) -> Option<int> {
    let signed = s.len() > 0 && (s[0] == '-' || s[0] == '+');
    let digits = if signed {
        s.drop_first()
    } else {
        s
    };
    if digits.len() > 0 && forall|i: int| 0 <= i < digits.len() ==> is_digit(#[trigger] digits[i]) {
        Some(
            if signed && s[0] == '-' {
                -digits_value(digits)
            } else {
                digits_value(digits)
            },
        )
    } else {
        None
    }
}

/// What `str::parse::<i128>` gives for `s`: the integer written in it where that fits
/// an `i128`, else nothing.
pub open spec fn parsed_i128(s: Seq<char>) -> Option<i128> {
    match integer_text_value(s) {
        Some(v) => if i128::MIN <= v <= i128::MAX {
            Some(v as i128)
        } else {
            None
        },
        None => None,
    }
}

/// `str::parse::<i128>`: an optional sign and decimal digits, nothing else, whose value
/// fits an `i128`; any other text (empty, other characters, out of range) is an error,
/// read here as `None`.
#[verifier::external_body]
fn parse_i128(s: &str) -> (r: Option<i128>)
    ensures
        r == parsed_i128(s@),
{
    s.parse::<i128>().ok()
}

/// `v` brought into `min..=max`, as `i128::clamp` does.
fn clamp_i128(v: i128, min: i128, max: i128) -> (r: i128)
    requires
        min <= max,
    ensures
        r == clamped(v as int, min as int, max as int),
{
    if v < min {
        min
    } else if v > max {
        max
    } else {
        v
    }
}

/// Reads an integer in `min..=max` from `value`, with the complaint that goes with a
/// value that is no integer or lies outside the range: null and composite values
/// read as 0, booleans as 1 and 0, integers, floats and text (as 0 where it is no
/// integer) are clamped.
pub fn deserialize_int(value: &IntSource, min: i128, max: i128) -> (r: (i128, Option<IntComplaint>))
    requires
        min <= max,
    ensures
        match value {
            IntSource::Null => r == (0i128, Some(IntComplaint::FromNull)),
            IntSource::Composite => r == (0i128, Some(IntComplaint::FromComposite)),
            IntSource::Bool(b) => r == (if *b {
                1i128
            } else {
                0i128
            }, Some(IntComplaint::FromBool)),
            IntSource::Int(v) => r.0 == clamped(*v as int, min as int, max as int) && r.1 == (if r.0
                == *v {
                None
            } else {
                Some(IntComplaint::Clamped)
            }),
            IntSource::Float(v) => r.0 == clamped(*v as int, min as int, max as int) && r.1 == Some(
                IntComplaint::FromFloat,
            ),
            IntSource::Text(s) => r.0 == clamped(
                match parsed_i128(s@) {
                    Some(v) => v as int,
                    None => 0,
                },
                min as int,
                max as int,
            ) && r.1 == Some(IntComplaint::FromText),
        },
{
    match value {
        IntSource::Null => (0, Some(IntComplaint::FromNull)),
        IntSource::Composite => (0, Some(IntComplaint::FromComposite)),
        IntSource::Bool(b) => (if *b {
            1
        } else {
            0
        }, Some(IntComplaint::FromBool)),
        IntSource::Int(v) => {
            let c = clamp_i128(*v, min, max);
            if *v != c {
                (c, Some(IntComplaint::Clamped))
            } else {
                (c, None)
            }
        },
        IntSource::Float(v) => (clamp_i128(*v, min, max), Some(IntComplaint::FromFloat)),
        IntSource::Text(s) => {
            let n = match parse_i128(s.as_str()) {
                Some(v) => v,
                None => 0,
            };
            (clamp_i128(n, min, max), Some(IntComplaint::FromText))
        },
    }
}

/// `m` is the first position of `names` that holds `tag`.
pub open spec fn is_first_match(names: Seq<String>, tag: Seq<char>, m: int) -> bool {
    &&& 0 <= m < names.len()
    &&& names[m]@ == tag
    &&& forall|j: int| 0 <= j < m ==> names[j]@ != tag
}

/// Decodes an enum value with the variant decoders `attempt(0)`, `attempt(1)`, ...,
/// whose names are `names`: first the decoder of the variant named by `tag`, where
/// the value names one; where that finds nothing, the complaint is raised (the
/// `bool` of the result) and every decoder is tried in order, the first value found
/// winning.
pub fn finish_enum<T, F: Fn(usize) -> Option<T>>(
    names: &Vec<String>,
    tag: Option<&String>,
    attempt: &F,
) -> (r: (Option<T>, bool))
    requires
        forall|i: usize| i < names@.len() ==> call_requires(*attempt, (i,)),
    ensures
        !r.1 ==> tag is Some && r.0 is Some && exists|m: usize|
            is_first_match(names@, tag->0@, m as int) && #[trigger] call_ensures(*attempt, (m,), r.0),
        r.1 && tag is Some ==> forall|m: usize|
            is_first_match(names@, tag->0@, m as int) ==> #[trigger] call_ensures(
                *attempt,
                (m,),
                None::<T>,
            ),
        r.1 && r.0 is Some ==> exists|i: usize|
            i < names@.len() && #[trigger] call_ensures(*attempt, (i,), r.0) && forall|j: usize|
                j < i ==> #[trigger] call_ensures(*attempt, (j,), None::<T>),
        r.1 && r.0 is None ==> forall|j: usize|
            j < names@.len() ==> #[trigger] call_ensures(*attempt, (j,), None::<T>),
{
    if let Some(t) = tag {
        let mut i: usize = 0;
        while i < names.len()
            invariant
                i <= names@.len(),
                tag == Some(t),
                forall|j: int| 0 <= j < i ==> names@[j]@ != t@,
                forall|i: usize| i < names@.len() ==> call_requires(*attempt, (i,)),
            ensures
                forall|m: usize|
                    is_first_match(names@, t@, m as int) ==> #[trigger] call_ensures(
                        *attempt,
                        (m,),
                        None::<T>,
                    ),
            decreases names@.len() - i,
        {
            if names[i] == *t {
                proof {
                    assert(is_first_match(names@, t@, i as int));
                    assert forall|m: usize| is_first_match(names@, t@, m as int) implies m == i by {
                        if m < i {
                            assert(names@[m as int]@ != t@);
                        } else if m > i {
                            assert(names@[i as int]@ != t@);
                        }
                    }
                }
                let found = attempt(i);
                assert(call_ensures(*attempt, (i,), found));
                if found.is_some() {
                    proof {
                        assert(tag->0@ == t@);
                        assert(is_first_match(names@, tag->0@, i as int));
                        assert(exists|m: usize|
                            is_first_match(names@, tag->0@, m as int) && #[trigger] call_ensures(
                                *attempt,
                                (m,),
                                found,
                            ));
                    }
                    return (found, false);
                }
                break;
            }
            i += 1;
        }
    }
    let mut k: usize = 0;
    while k < names.len()
        invariant
            k <= names@.len(),
            forall|i: usize| i < names@.len() ==> call_requires(*attempt, (i,)),
            forall|j: usize| j < k ==> #[trigger] call_ensures(*attempt, (j,), None::<T>),
            tag is Some ==> forall|m: usize|
                is_first_match(names@, tag->0@, m as int) ==> #[trigger] call_ensures(
                    *attempt,
                    (m,),
                    None::<T>,
                ),
        decreases names@.len() - k,
    {
        let found = attempt(k);
        if found.is_some() {
            return (found, true);
        }
        k += 1;
    }
    (None, true)
}

} // verus!

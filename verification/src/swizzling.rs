use vstd::prelude::*;
use crate::text::{decimal, usize_to_string};

verus! {

/// The name of the component at `position`: `x`, `y`, `z`, `w`.
pub open spec fn parameter_name(position: int) -> Seq<char> {
    if position == 0 {
        "x"@
    } else if position == 1 {
        "y"@
    } else if position == 2 {
        "z"@
    } else {
        "w"@
    }
}

/// The name of the component at `position`, which must be below 4.
pub fn parameter(position: usize) -> (r: &'static str)
    requires
        position < 4,
    ensures
        r@ == parameter_name(position as int),
{
    if position == 0 {
        "x"
    } else if position == 1 {
        "y"
    } else if position == 2 {
        "z"
    } else {
        "w"
    }
}

/// The name of a fill slot.
pub const ZERO_PARAMETER_NAME: &'static str = "n";

/// What `str::to_lowercase` returns for the characters `s`.
pub uninterp spec fn lowercase(s: Seq<char>) -> Seq<char>;

/// Every character of `s` is ASCII.
pub open spec fn all_ascii(s: Seq<char>) -> bool {
    forall|i: int| 0 <= i < s.len() ==> (#[trigger] s[i] as u32) < 128
}

/// `s` with each ASCII capital letter made small and every other character kept.
pub open spec fn ascii_lowercase(s: Seq<char>) -> Seq<char> {
    s.map_values(|c: char| if 65 <= (c as u32) && (c as u32) <= 90 { ((c as u32) + 32) as char } else { c })
}

/// `str::to_lowercase`: the Unicode lowercase of `s`, which `lowercase` names. On
/// ASCII text Unicode lowercasing makes each capital letter small and keeps the rest;
/// beyond ASCII nothing more is stated.
#[verifier::external_body]
fn to_lowercase(s: &str) -> (r: String)
    ensures
        r@ == lowercase(s@),
        all_ascii(s@) ==> r@ == ascii_lowercase(s@),
{
    s.to_lowercase()
}

proof fn lemma_deep_view_push<T: DeepView>(a: Vec<T>, b: Vec<T>)
    requires
        b@ == a@.push(b@.last()),
    ensures
        b.deep_view() =~~= a.deep_view().push(b@.last().deep_view()),
{
    assert forall|k: int| 0 <= k < a@.len() implies b.deep_view()[k] == a.deep_view()[k] by {
        assert(b@[k] == a@[k]);
    }
}

/// Every sequence of length `n` (at least 1) over `0..p`, in lexicographic order.
pub open spec fn swizzle_indices(n: nat, p: nat) -> Seq<Seq<usize>>
    decreases n,
{
    if n <= 1 {
        Seq::new(p, |i: int| seq![i as usize])
    } else {
        extend_all(swizzle_indices((n - 1) as nat, p), p)
    }
}

/// Each sequence of `s` followed by each of `0..p`, in that order.
pub open spec fn extend_all(s: Seq<Seq<usize>>, p: nat) -> Seq<Seq<usize>> {
    Seq::new(s.len() * p, |k: int| s[k / (p as int)].push((k % (p as int)) as usize))
}

/// Index `p` becomes the fill slot `None`; the others select a component.
pub open spec fn with_zero(s: Seq<usize>, p: nat) -> Seq<Option<usize>> {
    s.map_values(|i: usize| if i == p { None } else { Some(i) })
}

/// The slot sequences of every accessor with `n` output components over `p` source
/// components.
pub open spec fn swizzle_slots(n: nat, p: nat) -> Seq<Seq<Option<usize>>> {
    swizzle_indices(n, p + 1).map_values(|s: Seq<usize>| with_zero(s, p))
}

/// Whether every slot is a fill slot.
pub open spec fn all_fill(slots: Seq<Option<usize>>) -> bool {
    forall|i: int| 0 <= i < slots.len() ==> slots[i] is None
}

/// The letters of the slots, concatenated: the accessor's name.
pub open spec fn name_text(lower: Seq<Seq<char>>, slots: Seq<Option<usize>>) -> Seq<char>
    decreases slots.len(),
{
    if slots.len() == 0 {
        Seq::empty()
    } else {
        name_text(lower, slots.drop_last()) + match slots.last() {
            Some(j) => lower[j as int],
            None => ZERO_PARAMETER_NAME@,
        }
    }
}

/// The constructor argument for the slot at `position`.
pub open spec fn argument_text(lower: Seq<Seq<char>>, position: int, slot: Option<usize>) -> Seq<
    char,
> {
    match slot {
        Some(j) => "self."@ + lower[j as int],
        None => parameter_name(position),
    }
}

/// The constructor arguments, separated by `, `.
pub open spec fn arguments_text(lower: Seq<Seq<char>>, slots: Seq<Option<usize>>) -> Seq<char>
    decreases slots.len(),
{
    if slots.len() == 0 {
        Seq::empty()
    } else if slots.len() == 1 {
        argument_text(lower, 0, slots[0])
    } else {
        arguments_text(lower, slots.drop_last()) + ", "@ + argument_text(
            lower,
            slots.len() - 1,
            slots.last(),
        )
    }
}

/// The extra parameters: one `, <name>: T` per fill slot, named after its position.
pub open spec fn additional_parameters_text(slots: Seq<Option<usize>>) -> Seq<char>
    decreases slots.len(),
{
    if slots.len() == 0 {
        Seq::empty()
    } else {
        additional_parameters_text(slots.drop_last()) + if slots.last() is None {
            ", "@ + parameter_name(slots.len() - 1) + ": T"@
        } else {
            Seq::empty()
        }
    }
}

/// The source of one accessor.
pub open spec fn method_text(lower: Seq<Seq<char>>, slots: Seq<Option<usize>>, n: nat) -> Seq<
    char,
> {
    "pub fn "@ + name_text(lower, slots) + "(&self"@ + additional_parameters_text(slots)
        + ") -> Vec"@ + decimal(n) + "<T> { Vec"@ + decimal(n) + "::new("@ + arguments_text(
        lower,
        slots,
    ) + ") }"@
}

/// The sources of the accessors for the given slot sequences, skipping those with only
/// fill slots.
pub open spec fn methods_text(lower: Seq<Seq<char>>, all: Seq<Seq<Option<usize>>>, n: nat) -> Seq<
    Seq<char>,
>
    decreases all.len(),
{
    if all.len() == 0 {
        Seq::empty()
    } else if all_fill(all.last()) {
        methods_text(lower, all.drop_last(), n)
    } else {
        methods_text(lower, all.drop_last(), n).push(method_text(lower, all.last(), n))
    }
}

/// The lowercased component names.
pub open spec fn lowered(parameters: Seq<&str>) -> Seq<Seq<char>> {
    parameters.map_values(|p: &str| lowercase(p@))
}

/// The component names with their ASCII capitals made small.
pub open spec fn ascii_lowered(parameters: Seq<&str>) -> Seq<Seq<char>> {
    parameters.map_values(|p: &str| ascii_lowercase(p@))
}

/// The lines of an impl block, each indented and ended.
pub open spec fn impl_body_text(methods: Seq<Seq<char>>) -> Seq<char>
    decreases methods.len(),
{
    if methods.len() == 0 {
        Seq::empty()
    } else {
        impl_body_text(methods.drop_last()) + "    "@ + methods.last() + "\n"@
    }
}

/// The first `n` component names.
pub open spec fn parameter_names(n: nat) -> Seq<Seq<char>> {
    Seq::new(n, |i: int| parameter_name(i))
}

/// The impl block with every accessor of `Vec<input>` that returns a `Vec<output>`.
pub open spec fn impl_text(input: nat, output: nat) -> Seq<char> {
    "impl<T: Copy> Vec"@ + decimal(input) + "<T> {\n"@ + impl_body_text(
        methods_text(
            parameter_names(input),
            swizzle_slots(output, input),
            output,
        ),
    ) + "}\n"@
}

/// The vector sizes accessors are generated for.
pub open spec fn vector_size(k: int) -> nat {
    (k + 2) as nat
}

/// Every sequence of length `output_parameters_count` over `0..parameters_count`, in
/// lexicographic order (sequences of length 1 where the count is 0).
pub fn generate_swizzlings_indices(output_parameters_count: usize, parameters_count: usize) -> (r:
    Vec<Vec<usize>>)
    ensures
        r.deep_view() == swizzle_indices(
            output_parameters_count as nat,
            parameters_count as nat,
        ),
{
    let mut swizzlings: Vec<Vec<usize>> = Vec::new();
    let mut i: usize = 0;
    while i < parameters_count
        invariant
            i <= parameters_count,
            swizzlings.deep_view() == Seq::new(
                i as nat,
                |k: int| seq![k as usize],
            ),
        decreases parameters_count - i,
    {
        let mut v: Vec<usize> = Vec::new();
        v.push(i);
        let ghost before = swizzlings;
        swizzlings.push(v);
        i += 1;
        proof {
            lemma_deep_view_push(before, swizzlings);
            assert(v@ =~= seq![(i - 1) as usize]);
        }
        assert(swizzlings.deep_view() =~~= Seq::new(
            i as nat,
            |k: int| seq![k as usize],
        ));
    }
    let mut step: usize = 1;
    while step < output_parameters_count
        invariant
            1 <= step,
            step <= output_parameters_count || step == 1,
            swizzlings.deep_view() == swizzle_indices(
                step as nat,
                parameters_count as nat,
            ),
        decreases output_parameters_count - step,
    {
        let last_swizzlings = swizzlings;
        swizzlings = extend_each(&last_swizzlings, parameters_count);
        step += 1;
    }
    proof {
        if output_parameters_count <= 1 {
            assert(swizzle_indices(output_parameters_count as nat, parameters_count as nat)
                == swizzle_indices(1, parameters_count as nat));
        }
        assert(swizzlings.deep_view() =~~= swizzle_indices(
            output_parameters_count as nat,
            parameters_count as nat,
        ));
    }
    swizzlings
}

/// Each sequence of `last` followed by each of `0..p`, in that order.
fn extend_each(last: &Vec<Vec<usize>>, p: usize) -> (r: Vec<Vec<usize>>)
    ensures
        r.deep_view() == extend_all(
            last.deep_view(),
            p as nat,
        ),
{
    let ghost src = last.deep_view();
    let mut out: Vec<Vec<usize>> = Vec::new();
    let mut a: usize = 0;
    while a < last.len()
        invariant
            a <= last@.len(),
            src == last.deep_view(),
            out.deep_view() == extend_all(src.take(a as int), p as nat),
        decreases last@.len() - a,
    {
        let mut j: usize = 0;
        while j < p
            invariant
                a < last@.len(),
                j <= p,
                src == last.deep_view(),
                out.deep_view() == extend_all(src.take(a as int), p as nat)
                    + Seq::new(j as nat, |k: int| src[a as int].push(k as usize)),
            decreases p - j,
        {
            let v = copy_push(&last[a], j);
            let ghost before = out;
            out.push(v);
            j += 1;
            proof {
                lemma_deep_view_push(before, out);
            }
            assert(out.deep_view() =~~= extend_all(
                src.take(a as int),
                p as nat,
            ) + Seq::new(j as nat, |k: int| src[a as int].push(k as usize)));
        }
        proof {
            lemma_extend_all_take(src, a as int, p as nat);
        }
        a += 1;
    }
    assert(src.take(last@.len() as int) =~= src);
    out
}

proof fn lemma_extend_all_take(s: Seq<Seq<usize>>, a: int, p: nat)
    requires
        0 <= a < s.len(),
    ensures
        extend_all(s.take(a + 1), p) =~= extend_all(s.take(a), p) + Seq::new(
            p,
            |k: int| s[a].push(k as usize),
        ),
{
    let l = extend_all(s.take(a + 1), p);
    let r = extend_all(s.take(a), p) + Seq::new(p, |k: int| s[a].push(k as usize));
    assert(l.len() == r.len()) by (nonlinear_arith)
        requires
            l.len() == (a + 1) * p,
            r.len() == a * p + p,
    ;
    assert forall|k: int| 0 <= k < l.len() implies l[k] == r[k] by {
        let pp = p as int;
        if k < a * pp {
            assert(k / pp < a && k % pp == k % pp) by (nonlinear_arith)
                requires
                    0 <= k < a * pp,
                    pp > 0,
            ;
        } else {
            assert(k / pp == a && k % pp == k - a * pp) by (nonlinear_arith)
                requires
                    a * pp <= k < (a + 1) * pp,
                    pp > 0,
            ;
        }
    }
}

/// A copy of `v` followed by `j`.
fn copy_push(v: &Vec<usize>, j: usize) -> (r: Vec<usize>)
    ensures
        r@ == v@.push(j),
{
    let mut r: Vec<usize> = Vec::new();
    let mut i: usize = 0;
    while i < v.len()
        invariant
            i <= v@.len(),
            r@ == v@.take(i as int),
        decreases v@.len() - i,
    {
        r.push(v[i]);
        i += 1;
        assert(r@ =~= v@.take(i as int));
    }
    assert(v@.take(v@.len() as int) =~= v@);
    r.push(j);
    r
}

/// The slot sequences of every accessor with `output_parameters_count` output
/// components over `parameters_count` source components: index `parameters_count`
/// is the fill slot.
pub fn generate_swizzlings_with_zeros(output_parameters_count: usize, parameters_count: usize) -> (r:
    Vec<Vec<Option<usize>>>)
    requires
        parameters_count < usize::MAX,
    ensures
        r.deep_view() == swizzle_slots(
            output_parameters_count as nat,
            parameters_count as nat,
        ),
{
    let indices = generate_swizzlings_indices(output_parameters_count, parameters_count + 1);
    let ghost all = indices.deep_view();
    let mut result: Vec<Vec<Option<usize>>> = Vec::new();
    let mut a: usize = 0;
    while a < indices.len()
        invariant
            a <= indices@.len(),
            all == indices.deep_view(),
            result.deep_view() == all.take(a as int).map_values(
                |s: Seq<usize>| with_zero(s, parameters_count as nat),
            ),
        decreases indices@.len() - a,
    {
        let src = &indices[a];
        let mut v: Vec<Option<usize>> = Vec::new();
        let mut k: usize = 0;
        while k < src.len()
            invariant
                k <= src@.len(),
                v@ == with_zero(src@.take(k as int), parameters_count as nat),
            decreases src@.len() - k,
        {
            let i = src[k];
            if i == parameters_count {
                v.push(None);
            } else {
                v.push(Some(i));
            }
            k += 1;
            assert(v@ =~= with_zero(src@.take(k as int), parameters_count as nat));
        }
        assert(src@.take(src@.len() as int) =~= src@);
        let ghost before = result;
        result.push(v);
        a += 1;
        proof {
            lemma_deep_view_push(before, result);
        }
        assert(result.deep_view() =~~= all.take(a as int).map_values(
            |s: Seq<usize>| with_zero(s, parameters_count as nat),
        ));
    }
    assert(all.take(indices@.len() as int) =~= all);
    assert(result.deep_view() =~~= swizzle_slots(
        output_parameters_count as nat,
        parameters_count as nat,
    ));
    result
}

/// The extra parameters of an accessor: one `, <name>: T` per fill slot, named after
/// its position.
pub fn to_additional_parameters(indices: Vec<Option<usize>>) -> (r: String)
    requires
        indices@.len() <= 4,
    ensures
        r@ == additional_parameters_text(indices@),
{
    let mut result = String::new();
    let mut position: usize = 0;
    while position < indices.len()
        invariant
            position <= indices@.len(),
            indices@.len() <= 4,
            result@ == additional_parameters_text(indices@.take(position as int)),
        decreases indices@.len() - position,
    {
        assert(indices@.take(position + 1).drop_last() =~= indices@.take(position as int));
        if indices[position].is_none() {
            result.append(", ");
            result.append(parameter(position));
            result.append(": T");
        }
        position += 1;
    }
    assert(indices@.take(indices@.len() as int) =~= indices@);
    result
}

/// The accessor name of `slots`.
fn swizzle_name(lower: &Vec<String>, slots: &Vec<Option<usize>>) -> (r: String)
    requires
        forall|i: int| 0 <= i < slots@.len() && slots@[i] is Some ==> slots@[i]->0 < lower@.len(),
    ensures
        r@ == name_text(lower.deep_view(), slots@),
{
    let ghost low = lower.deep_view();
    let mut name = String::new();
    let mut k: usize = 0;
    while k < slots.len()
        invariant
            k <= slots@.len(),
            low == lower.deep_view(),
            forall|i: int| 0 <= i < slots@.len() && slots@[i] is Some ==> slots@[i]->0 < lower@.len(),
            name@ == name_text(low, slots@.take(k as int)),
        decreases slots@.len() - k,
    {
        assert(slots@.take(k + 1).drop_last() =~= slots@.take(k as int));
        match slots[k] {
            Some(j) => name.append(lower[j].as_str()),
            None => name.append(ZERO_PARAMETER_NAME),
        }
        k += 1;
    }
    assert(slots@.take(slots@.len() as int) =~= slots@);
    name
}

/// The constructor arguments of `slots`, separated by `, `.
fn swizzle_arguments(lower: &Vec<String>, slots: &Vec<Option<usize>>) -> (r: String)
    requires
        slots@.len() <= 4,
        forall|i: int| 0 <= i < slots@.len() && slots@[i] is Some ==> slots@[i]->0 < lower@.len(),
    ensures
        r@ == arguments_text(lower.deep_view(), slots@),
{
    let ghost low = lower.deep_view();
    let mut args = String::new();
    let mut k: usize = 0;
    while k < slots.len()
        invariant
            k <= slots@.len(),
            slots@.len() <= 4,
            low == lower.deep_view(),
            forall|i: int| 0 <= i < slots@.len() && slots@[i] is Some ==> slots@[i]->0 < lower@.len(),
            args@ == arguments_text(low, slots@.take(k as int)),
        decreases slots@.len() - k,
    {
        assert(slots@.take(k + 1).drop_last() =~= slots@.take(k as int));
        if k > 0 {
            args.append(", ");
        }
        match slots[k] {
            Some(j) => {
                args.append("self.");
                args.append(lower[j].as_str());
            },
            None => args.append(parameter(k)),
        }
        k += 1;
    }
    assert(slots@.take(slots@.len() as int) =~= slots@);
    args
}

/// Over a single index every sequence is all zeros.
proof fn lemma_single_index_zeros(n: nat)
    ensures
        forall|k: int, i: int|
            0 <= k < swizzle_indices(n, 1).len() && 0 <= i < swizzle_indices(n, 1)[k].len()
                ==> #[trigger] swizzle_indices(n, 1)[k][i] == 0,
    decreases n,
{
    if n > 1 {
        lemma_single_index_zeros((n - 1) as nat);
        let prev = swizzle_indices((n - 1) as nat, 1);
        assert forall|k: int, i: int|
            0 <= k < swizzle_indices(n, 1).len() && 0 <= i < swizzle_indices(n, 1)[k].len()
                implies #[trigger] swizzle_indices(n, 1)[k][i] == 0 by {
            assert(k / 1 == k && k % 1 == 0);
            assert(swizzle_indices(n, 1)[k] == prev[k].push(0usize));
            if i < prev[k].len() {
                assert(prev[k][i] == 0);
            }
        }
    }
}

/// With no components there is no accessor: every slot is a fill slot.
proof fn lemma_no_components_no_methods(lower: Seq<Seq<char>>, n: nat)
    ensures
        methods_text(lower, swizzle_slots(n, 0), n) == Seq::<Seq<char>>::empty(),
{
    lemma_single_index_zeros(n);
    let all = swizzle_slots(n, 0);
    assert forall|k: int| 0 <= k < all.len() implies all_fill(#[trigger] all[k]) by {
        let s = swizzle_indices(n, 1)[k];
        assert(all[k] == with_zero(s, 0));
        assert forall|i: int| 0 <= i < all[k].len() implies all[k][i] is None by {
            assert(s[i] == 0);
        }
    }
    lemma_all_fill_no_methods(lower, all, n);
}

proof fn lemma_all_fill_no_methods(lower: Seq<Seq<char>>, all: Seq<Seq<Option<usize>>>, n: nat)
    requires
        forall|k: int| 0 <= k < all.len() ==> all_fill(#[trigger] all[k]),
    ensures
        methods_text(lower, all, n) == Seq::<Seq<char>>::empty(),
    decreases all.len(),
{
    if all.len() > 0 {
        assert(all_fill(all[all.len() - 1]));
        let d = all.drop_last();
        assert forall|k: int| 0 <= k < d.len() implies all_fill(#[trigger] d[k]) by {
            assert(d[k] == all[k]);
        }
        lemma_all_fill_no_methods(lower, d, n);
    }
}

/// The sources of every accessor with `output_parameters_count` output components
/// over the given components, skipping the one with only fill slots.
pub fn generate_vector_swizzling(output_parameters_count: usize, parameters: &[&str]) -> (r: Vec<
    String,
>)
    requires
        output_parameters_count <= 4 || parameters@.len() == 0,
        parameters@.len() < usize::MAX,
    ensures
        r.deep_view() == methods_text(
            lowered(parameters@),
            swizzle_slots(output_parameters_count as nat, parameters@.len()),
            output_parameters_count as nat,
        ),
        (forall|k: int| 0 <= k < parameters@.len() ==> all_ascii(#[trigger] parameters@[k]@))
            ==> r.deep_view() == methods_text(
            ascii_lowered(parameters@),
            swizzle_slots(output_parameters_count as nat, parameters@.len()),
            output_parameters_count as nat,
        ),
{
    if parameters.len() == 0 {
        let r: Vec<String> = Vec::new();
        proof {
            lemma_no_components_no_methods(lowered(parameters@), output_parameters_count as nat);
            lemma_no_components_no_methods(ascii_lowered(parameters@), output_parameters_count as nat);
            assert(r.deep_view() =~= Seq::<Seq<char>>::empty());
        }
        return r;
    }
    let mut lower: Vec<String> = Vec::new();
    let mut i: usize = 0;
    while i < parameters.len()
        invariant
            i <= parameters@.len(),
            lower.deep_view() == lowered(parameters@.take(i as int)),
            forall|k: int|
                0 <= k < i && all_ascii(parameters@[k]@) ==> lowercase(#[trigger] parameters@[k]@)
                    == ascii_lowercase(parameters@[k]@),
        decreases parameters@.len() - i,
    {
        let ghost before = lower;
        lower.push(to_lowercase(parameters[i]));
        i += 1;
        proof {
            lemma_deep_view_push(before, lower);
        }
        assert(lower.deep_view() =~~= lowered(parameters@.take(i as int)));
    }
    assert(parameters@.take(parameters@.len() as int) =~= parameters@);
    proof {
        if forall|k: int| 0 <= k < parameters@.len() ==> all_ascii(#[trigger] parameters@[k]@) {
            assert(lowered(parameters@) =~= ascii_lowered(parameters@));
        }
    }
    vector_swizzling_methods(output_parameters_count, &lower)
}

/// The sources of every accessor with `output_parameters_count` output components
/// over components whose lowercase names are `lower`, skipping the one with only fill
/// slots.
pub fn vector_swizzling_methods(output_parameters_count: usize, lower: &Vec<String>) -> (r: Vec<
    String,
>)
    requires
        output_parameters_count <= 4,
        lower@.len() < usize::MAX,
    ensures
        r.deep_view() == methods_text(
            lower.deep_view(),
            swizzle_slots(output_parameters_count as nat, lower@.len()),
            output_parameters_count as nat,
        ),
{
    let swizzling_indices = generate_swizzlings_with_zeros(output_parameters_count, lower.len());
    let ghost low = lower.deep_view();
    let ghost all = swizzle_slots(output_parameters_count as nat, lower@.len());
    proof {
        lemma_swizzle_slots_shape(output_parameters_count as nat, lower@.len());
    }
    let output_text = usize_to_string(output_parameters_count);
    let mut results: Vec<String> = Vec::new();
    let mut a: usize = 0;
    while a < swizzling_indices.len()
        invariant
            a <= swizzling_indices@.len(),
            output_parameters_count <= 4,
            low == lower.deep_view(),
            low.len() == lower@.len(),
            all == swizzling_indices.deep_view(),
            output_text@ == decimal(output_parameters_count as nat),
            forall|k: int|
                0 <= k < all.len() ==> (#[trigger] all[k]).len() == if output_parameters_count
                    <= 1 {
                    1
                } else {
                    output_parameters_count as int
                },
            forall|k: int, i: int|
                0 <= k < all.len() && 0 <= i < all[k].len() && (#[trigger] all[k][i]) is Some
                    ==> all[k][i]->0 < lower@.len(),
            results.deep_view() == methods_text(
                low,
                all.take(a as int),
                output_parameters_count as nat,
            ),
        decreases swizzling_indices@.len() - a,
    {
        let indices = &swizzling_indices[a];
        assert(all.take(a + 1).drop_last() =~= all.take(a as int));
        assert(indices@ == all[a as int]);
        let mut is_all_fill = true;
        let mut k: usize = 0;
        while k < indices.len()
            invariant
                k <= indices@.len(),
                is_all_fill == forall|i: int| 0 <= i < k ==> indices@[i] is None,
            decreases indices@.len() - k,
        {
            if indices[k].is_some() {
                is_all_fill = false;
            }
            k += 1;
        }
        if !is_all_fill {
            let name = swizzle_name(lower, indices);
            let constructor_arguments = swizzle_arguments(lower, indices);
            let additional_parameters = to_additional_parameters(copy_slots(indices));
            let mut m = String::new();
            m.append("pub fn ");
            m.append(name.as_str());
            m.append("(&self");
            m.append(additional_parameters.as_str());
            m.append(") -> Vec");
            m.append(output_text.as_str());
            m.append("<T> { Vec");
            m.append(output_text.as_str());
            m.append("::new(");
            m.append(constructor_arguments.as_str());
            m.append(") }");
            assert(m@ =~= method_text(low, indices@, output_parameters_count as nat));
            let ghost before = results;
            results.push(m);
            proof {
                lemma_deep_view_push(before, results);
            }
        }
        a += 1;
        assert(results.deep_view() =~= methods_text(
            low,
            all.take(a as int),
            output_parameters_count as nat,
        ));
    }
    assert(all.take(swizzling_indices@.len() as int) =~= all);
    results
}

/// A copy of `v`.
fn copy_slots(v: &Vec<Option<usize>>) -> (r: Vec<Option<usize>>)
    ensures
        r@ == v@,
{
    let mut r: Vec<Option<usize>> = Vec::new();
    let mut i: usize = 0;
    while i < v.len()
        invariant
            i <= v@.len(),
            r@ == v@.take(i as int),
        decreases v@.len() - i,
    {
        r.push(v[i]);
        i += 1;
        assert(r@ =~= v@.take(i as int));
    }
    assert(v@.take(v@.len() as int) =~= v@);
    r
}

proof fn lemma_swizzle_indices_shape(n: nat, p: nat)
    ensures
        forall|k: int|
            0 <= k < swizzle_indices(n, p).len() ==> (#[trigger] swizzle_indices(n, p)[k]).len()
                == if n <= 1 {
                1
            } else {
                n as int
            },
        forall|k: int, i: int|
            0 <= k < swizzle_indices(n, p).len() && 0 <= i < swizzle_indices(n, p)[k].len() ==> (
            #[trigger] swizzle_indices(n, p)[k][i]) < p,
    decreases n,
{
    if n > 1 {
        lemma_swizzle_indices_shape((n - 1) as nat, p);
        let s = swizzle_indices((n - 1) as nat, p);
        let t = swizzle_indices(n, p);
        let pp = p as int;
        assert forall|k: int| 0 <= k < t.len() implies (#[trigger] t[k]).len() == n as int && (
        forall|i: int| 0 <= i < t[k].len() ==> t[k][i] < p) by {
            assert(0 <= k / pp < s.len() && 0 <= k % pp < pp) by (nonlinear_arith)
                requires
                    0 <= k < s.len() * pp,
            ;
            assert(t[k] == s[k / pp].push((k % pp) as usize));
            assert forall|i: int| 0 <= i < t[k].len() implies t[k][i] < p by {
                if i < t[k].len() - 1 {
                    assert(t[k][i] == s[k / pp][i]);
                }
            }
        }
    }
}

proof fn lemma_swizzle_slots_shape(n: nat, p: nat)
    ensures
        forall|k: int|
            0 <= k < swizzle_slots(n, p).len() ==> (#[trigger] swizzle_slots(n, p)[k]).len()
                == if n <= 1 {
                1
            } else {
                n as int
            },
        forall|k: int, i: int|
            0 <= k < swizzle_slots(n, p).len() && 0 <= i < swizzle_slots(n, p)[k].len() && (
            #[trigger] swizzle_slots(n, p)[k][i]) is Some ==> swizzle_slots(n, p)[k][i]->0 < p,
{
    lemma_swizzle_indices_shape(n, p + 1);
}

/// The parameter names `x`, `y`, ... of the first `n` components.
fn parameters_prefix(n: usize) -> (r: Vec<&'static str>)
    requires
        n <= 4,
    ensures
        r@.len() == n,
        r.deep_view() == parameter_names(n as nat),
{
    let mut r: Vec<&'static str> = Vec::new();
    let mut i: usize = 0;
    while i < n
        invariant
            i <= n,
            n <= 4,
            r@.len() == i,
            r.deep_view() == parameter_names(i as nat),
        decreases n - i,
    {
        let ghost before = r;
        r.push(parameter(i));
        i += 1;
        proof {
            lemma_deep_view_push(before, r);
        }
        assert(r.deep_view() =~~= parameter_names(i as nat));
    }
    r
}

/// The impl block of `Vec<input_count>` with every accessor that returns a
/// `Vec<output_count>`.
pub fn generate_vector_swizzling_impl(input_count: usize, output_count: usize) -> (r: String)
    requires
        input_count <= 4,
        output_count <= 4,
    ensures
        r@ == impl_text(input_count as nat, output_count as nat),
{
    let params = parameters_prefix(input_count);
    let mut result = String::new();
    result.append("impl<T: Copy> Vec");
    result.append(usize_to_string(input_count).as_str());
    result.append("<T> {\n");
    let methods = generate_vector_swizzling(output_count, params.as_slice());
    let ghost ms = methods.deep_view();
    let ghost head = result@;
    let mut k: usize = 0;
    while k < methods.len()
        invariant
            k <= methods@.len(),
            ms == methods.deep_view(),
            result@ == head + impl_body_text(ms.take(k as int)),
        decreases methods@.len() - k,
    {
        assert(ms.take(k + 1).drop_last() =~= ms.take(k as int));
        result.append("    ");
        result.append(methods[k].as_str());
        result.append("\n");
        k += 1;
    }
    assert(ms.take(methods@.len() as int) =~= ms);
    result.append("}\n");
    proof {
        reveal_strlit("x");
        reveal_strlit("y");
        reveal_strlit("z");
        reveal_strlit("w");
        assert forall|k: int| 0 <= k < params@.len() implies all_ascii(#[trigger] params@[k]@) by {
            assert(params.deep_view()[k] == parameter_names(input_count as nat)[k]);
            assert(params.deep_view()[k] == params@[k]@);
            assert(params@[k]@ == parameter_name(k));
        }
        assert forall|k: int| 0 <= k < params@.len() implies ascii_lowered(params@)[k]
            =~= parameter_names(input_count as nat)[k] by {
            assert(params.deep_view()[k] == parameter_names(input_count as nat)[k]);
            assert(params.deep_view()[k] == params@[k]@);
            assert(params@[k]@ == parameter_name(k));
        }
        assert(ascii_lowered(params@) =~= parameter_names(input_count as nat));
    }
    assert(result@ =~= impl_text(input_count as nat, output_count as nat));
    result
}

/// Every impl block: for each input size 2, 3, 4 in turn, one per output size 2, 3, 4.
pub fn generate_swizzlings() -> (r: Vec<String>)
    ensures
        r@.len() == 9,
        forall|k: int|
            0 <= k < 9 ==> #[trigger] r@[k]@ == impl_text(vector_size(k / 3), vector_size(k % 3)),
{
    let mut results: Vec<String> = Vec::new();
    let mut input: usize = 2;
    while input <= 4
        invariant
            2 <= input <= 5,
            results@.len() == (input - 2) * 3,
            forall|k: int|
                0 <= k < results@.len() ==> #[trigger] results@[k]@ == impl_text(
                    vector_size(k / 3),
                    vector_size(k % 3),
                ),
        decreases 5 - input,
    {
        let mut output: usize = 2;
        while output <= 4
            invariant
                2 <= input <= 4,
                2 <= output <= 5,
                results@.len() == (input - 2) * 3 + (output - 2),
                forall|k: int|
                    0 <= k < results@.len() ==> #[trigger] results@[k]@ == impl_text(
                        vector_size(k / 3),
                        vector_size(k % 3),
                    ),
            decreases 5 - output,
        {
            let ghost k = results@.len() as int;
            results.push(generate_vector_swizzling_impl(input, output));
            assert(k / 3 == input - 2 && k % 3 == output - 2);
            output += 1;
        }
        input += 1;
    }
    results
}

/// The letter a slot puts into an accessor's name.
pub open spec fn slot_letter(lower: Seq<Seq<char>>, slot: Option<usize>) -> char {
    match slot {
        Some(j) => lower[j as int][0],
        None => ZERO_PARAMETER_NAME@[0],
    }
}

/// The slots select components below `n` only.
pub open spec fn slots_below(slots: Seq<Option<usize>>, n: nat) -> bool {
    forall|k: int| 0 <= k < slots.len() && (#[trigger] slots[k]) is Some ==> slots[k]->0 < n
}

/// The four component names, and the fill slot's name, are single letters, all
/// different: no two positions share a component name, and no component is named like
/// the fill slot.
pub proof fn law_parameter_names_distinct(i: int, j: int)
    requires
        0 <= i < 4,
        0 <= j < 4,
    ensures
        parameter_name(i).len() == 1,
        ZERO_PARAMETER_NAME@.len() == 1,
        parameter_name(i)[0] != ZERO_PARAMETER_NAME@[0],
        i != j ==> parameter_name(i)[0] != parameter_name(j)[0],
{
    reveal_strlit("x");
    reveal_strlit("y");
    reveal_strlit("z");
    reveal_strlit("w");
    reveal_strlit("n");
    assert(ZERO_PARAMETER_NAME@ == "n"@);
}

proof fn lemma_name_letters(n: nat, slots: Seq<Option<usize>>)
    requires
        n <= 4,
        slots_below(slots, n),
    ensures
        name_text(parameter_names(n), slots).len() == slots.len(),
        forall|k: int|
            0 <= k < slots.len() ==> #[trigger] name_text(parameter_names(n), slots)[k]
                == slot_letter(parameter_names(n), slots[k]),
    decreases slots.len(),
{
    if slots.len() > 0 {
        let d = slots.drop_last();
        assert forall|k: int| 0 <= k < d.len() && (#[trigger] d[k]) is Some implies d[k]->0 < n by {
            assert(d[k] == slots[k]);
        }
        lemma_name_letters(n, d);
        let last = slots.last();
        assert(slots[slots.len() - 1] == last);
        law_parameter_names_distinct(0, 0);
        let piece = match last {
            Some(j) => parameter_names(n)[j as int],
            None => ZERO_PARAMETER_NAME@,
        };
        match last {
            Some(j) => {
                law_parameter_names_distinct(j as int, j as int);
            },
            None => {},
        }
        assert(piece.len() == 1);
        assert forall|k: int| 0 <= k < slots.len() implies #[trigger] name_text(
            parameter_names(n),
            slots,
        )[k] == slot_letter(parameter_names(n), slots[k]) by {
            if k < d.len() {
                assert(d[k] == slots[k]);
            }
        }
    }
}

/// Accessors are told apart by their names: two different slot sequences over the
/// components of a vector of at most four components give different accessor names.
pub proof fn law_accessor_names_distinct(n: nat, a: Seq<Option<usize>>, b: Seq<Option<usize>>)
    requires
        n <= 4,
        slots_below(a, n),
        slots_below(b, n),
        a != b,
    ensures
        name_text(parameter_names(n), a) != name_text(parameter_names(n), b),
{
    lemma_name_letters(n, a);
    lemma_name_letters(n, b);
    if a.len() == b.len() {
        assert(!(a =~= b));
        let k = choose|k: int| 0 <= k < a.len() && a[k] != b[k];
        assert(name_text(parameter_names(n), a)[k] == slot_letter(parameter_names(n), a[k]));
        assert(name_text(parameter_names(n), b)[k] == slot_letter(parameter_names(n), b[k]));
        match (a[k], b[k]) {
            (Some(x), Some(y)) => {
                assert(a[k] is Some && b[k] is Some);
                law_parameter_names_distinct(x as int, y as int);
            },
            (Some(x), None) => {
                assert(a[k] is Some);
                law_parameter_names_distinct(x as int, x as int);
            },
            (None, Some(y)) => {
                assert(b[k] is Some);
                law_parameter_names_distinct(y as int, y as int);
            },
            (None, None) => {},
        }
    }
}

/// Within one generated impl block, accessors built from different slot sequences have
/// different names.
pub proof fn law_impl_accessor_names_distinct(input: nat, output: nat, k1: int, k2: int)
    requires
        input <= 4,
        0 <= k1 < swizzle_slots(output, input).len(),
        0 <= k2 < swizzle_slots(output, input).len(),
        swizzle_slots(output, input)[k1] != swizzle_slots(output, input)[k2],
    ensures
        name_text(parameter_names(input), swizzle_slots(output, input)[k1]) != name_text(
            parameter_names(input),
            swizzle_slots(output, input)[k2],
        ),
{
    lemma_swizzle_slots_shape(output, input);
    let a = swizzle_slots(output, input)[k1];
    let b = swizzle_slots(output, input)[k2];
    assert forall|k: int| 0 <= k < a.len() && (#[trigger] a[k]) is Some implies a[k]->0 < input by {
        assert(swizzle_slots(output, input)[k1][k] == a[k]);
    }
    assert forall|k: int| 0 <= k < b.len() && (#[trigger] b[k]) is Some implies b[k]->0 < input by {
        assert(swizzle_slots(output, input)[k2][k] == b[k]);
    }
    law_accessor_names_distinct(input, a, b);
}

} // verus!

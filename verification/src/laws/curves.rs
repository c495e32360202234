//! Functions of each number, and the softmax along an axis.

#[allow(unused_imports)]
use crate::bits::{LOG2_E, NEG_ONE, FloatMath};
#[allow(unused_imports)]
use crate::graph::{load, Binary, Reduction, Tensor, Unary};
#[allow(unused_imports)]
use crate::ops::activation::{
    activation_step, cubic_sigmoid, erf_formula, erf_numbers, gelu_formula, gelu_numbers, plus,
    reduced_in_place, sigmoid_formula, sigmoid_numbers, softmax_exponentials, softmax_numbers,
    softmax_step, spread, tanh_numbers, tanh_step, times, ERF_A, ERF_B, GELU_A, GELU_B,
};
#[allow(unused_imports)]
use crate::proto::NodeDef;
#[allow(unused_imports)]
use crate::reading::{position_at, within};
#[allow(unused_imports)]
use crate::shape::{all_known, can_broadcast, known_dims, sizes_of, Dim};
#[allow(unused_imports)]
use crate::state::{number_data, Outcome, State};
#[allow(unused_imports)]
use crate::values::{
    aligned_index, along, at, greatest, has_index, is_sound, lemma_binary, lemma_broadcast,
    lemma_expanded, lemma_numbers, lemma_reduce, lemma_row_major_place, lemma_squeezed, lemma_unary,
    number, sizes, total, Numbers,
};
use vstd::prelude::*;

verus! {

/// Whether the numbers that are given are those of some data.
pub open spec fn gives_data(m: Numbers, data: Seq<(Seq<char>, Seq<u32>)>) -> bool {
    forall|i: int, p: int|
        #![trigger data[i].1[p]]
        0 <= i < data.len() && 0 <= p < data[i].1.len() ==> (m.given)(data[i].0, p) == number(
            data[i].1[p],
        )
}

/// Whether the numbers that are given are those of the data that an import adds.
pub open spec fn gives_added(m: Numbers, before: State, after: State) -> bool {
    gives_data(m, after.weights.skip(before.weights.len() as int))
}

/// Whether powers of 2 are positive, and multiply where exponents add up.
pub open spec fn has_powers(m: Numbers) -> bool {
    &&& forall|a: real| #[trigger] (m.exp2)(a) > 0real
    &&& forall|a: real, b: real| #[trigger] (m.exp2)(a + b) == (m.exp2)(a) * (m.exp2)(b)
}

/// The power of e, as a power of 2.
pub open spec fn exp(m: Numbers, x: real) -> real {
    (m.exp2)(x * number(LOG2_E))
}

/// The logistic function.
pub open spec fn logistic(m: Numbers, x: real) -> real {
    1real / (1real + exp(m, 0real - x))
}

/// Whether a node has one input, which is a tensor of known sizes, and an output.
pub open spec fn takes_one(node: NodeDef, before: State) -> bool {
    &&& node.input@.len() == 1
    &&& node.output@.len() > 0
    &&& before.env.contains_key(node.inp(0))
    &&& is_sound(before.env[node.inp(0)].shape)
    &&& all_known(before.env[node.inp(0)].dims())
}

/// A number that is repeated into the sizes of a tensor.
pub proof fn lemma_spread(m: Numbers, x: Tensor, out: Seq<char>, end: Seq<char>, index: Seq<int>)
    requires
        x.dims().len() <= usize::MAX,
        has_index(x, index),
    ensures
        spread(x, out, end).dims() == x.dims(),
        at(m, spread(x, out, end), index) == (m.given)(out + end, 0),
{
    let one = seq![Dim::Known(1usize)];
    let t = load(out + end, one);
    let zero = seq![0int];
    lemma_row_major_place(one, zero);
    assert(sizes_of(one) =~= seq![1usize]);
    assert(sizes_of(one).drop_last() =~= Seq::empty());
    assert(zero.drop_last() =~= Seq::empty());
    reveal_with_fuel(position_at, 2);
    assert(position_at(sizes_of(one), zero) == 0);
    if x.dims().len() == 0 {
        lemma_squeezed(m, t, 0, index);
        assert(index.insert(0, 0) =~= zero);
        assert(t.squeezed(0).dims() =~= x.dims());
    } else {
        let target = sizes(x);
        assert(can_broadcast(t.dims(), target));
        lemma_broadcast(m, t, target, index);
        assert(aligned_index(t.dims(), index) =~= zero);
        assert(t.broadcast(target).dims() =~= x.dims()) by {
            assert forall|i: int| 0 <= i < x.dims().len() implies known_dims(target)[i]
                == x.dims()[i] by {
                assert(x.dims()[i] is Known);
            }
        }
    }
}

/// The numbers that a formula needs are given.
proof fn lemma_given(
    m: Numbers,
    before: State,
    after: State,
    out: Seq<char>,
    numbers: Seq<(Seq<char>, u32)>,
    i: int,
)
    requires
        after.weights == before.weights + number_data(out, numbers),
        gives_added(m, before, after),
        0 <= i < numbers.len(),
    ensures
        (m.given)(out + numbers[i].0, 0) == number(numbers[i].1),
{
    let added = after.weights.skip(before.weights.len() as int);
    assert(added =~= number_data(out, numbers));
    assert(added[i].1[0] == numbers[i].1);
}

/// The product and the sum of two tensors at an index, and a function of one.
proof fn lemma_times(m: Numbers, x: Tensor, y: Tensor, index: Seq<int>)
    requires
        x.dims().len() <= usize::MAX,
        x.dims() == y.dims(),
        has_index(x, index),
    ensures
        times(x, y).dims() == x.dims(),
        plus(x, y).dims() == x.dims(),
        at(m, times(x, y), index) == at(m, x, index) * at(m, y, index),
        at(m, plus(x, y), index) == at(m, x, index) + at(m, y, index),
{
    lemma_binary(m, x, Binary::Mul, y, index);
    lemma_binary(m, x, Binary::Add, y, index);
}

/// Numbers that are all multiplied by another add up to its multiple.
pub proof fn lemma_total_of_products(v: Seq<real>, w: Seq<real>, c: real)
    requires
        v.len() == w.len(),
        forall|k: int| 0 <= k < v.len() ==> #[trigger] w[k] == v[k] * c,
    ensures
        total(w) == total(v) * c,
    decreases v.len(),
{
    if v.len() == 0 {
        assert(0real * c == 0real) by (nonlinear_arith);
    } else {
        lemma_total_of_products(v.drop_last(), w.drop_last(), c);
        let a = total(v.drop_last());
        let b = v.last();
        assert(w[v.len() - 1] == v[v.len() - 1] * c);
        assert(a * c + b * c == (a + b) * c) by (nonlinear_arith);
    }
}

/// Positive numbers add up to a positive one.
proof fn lemma_positive_total(v: Seq<real>)
    requires
        forall|k: int| 0 <= k < v.len() ==> #[trigger] v[k] > 0real,
    ensures
        total(v) >= 0real,
        v.len() > 0 ==> total(v) > 0real,
    decreases v.len(),
{
    if v.len() > 0 {
        lemma_positive_total(v.drop_last());
        assert(v[v.len() - 1] > 0real);
    }
}

/// The combination of the numbers along an axis, repeated along it.
proof fn lemma_reduced_in_place(m: Numbers, x: Tensor, op: Reduction, axis: usize, index: Seq<int>)
    requires
        x.dims().len() < usize::MAX,
        axis < x.dims().len(),
        has_index(x, index),
    ensures
        reduced_in_place(x, op, axis).dims() == x.dims(),
        at(m, reduced_in_place(x, op, axis), index) == match op {
            Reduction::Sum => total(along(m, x, index.remove(axis as int), axis as int)),
            Reduction::Max => greatest(along(m, x, index.remove(axis as int), axis as int)),
        },
{
    let a = axis as int;
    let rest = index.remove(a);
    let less = sizes(x).remove(a);
    assert(within(less, rest)) by {
        assert forall|i: int| 0 <= i < less.len() implies 0 <= #[trigger] rest[i] < less[i] by {
            if i < a {
                assert(0 <= index[i] < sizes(x)[i]);
            } else {
                assert(0 <= index[i + 1] < sizes(x)[i + 1]);
            }
        }
    }
    lemma_reduce(m, x, op, axis, rest);
    let t = x.reduce(op, axis);
    lemma_row_major_place(t.dims(), rest);
    lemma_expanded(m, t, a, x.dims()[a], rest, index[a]);
    assert(rest.insert(a, index[a]) =~= index);
    assert(reduced_in_place(x, op, axis).dims() =~= x.dims());
}

/// The exponentials of the numbers of a tensor along an axis.
pub open spec fn exponentials(m: Numbers, x: Tensor, index: Seq<int>, axis: int) -> Seq<real> {
    Seq::new(sizes(x)[axis] as nat, |k: int| exp(m, at(m, x, index.update(axis, k))))
}

/// The numbers of a tensor along the axis of an index.
pub open spec fn line(m: Numbers, x: Tensor, index: Seq<int>, axis: int) -> Seq<real> {
    Seq::new(sizes(x)[axis] as nat, |k: int| at(m, x, index.update(axis, k)))
}

proof fn lemma_softmax_power(
    m: Numbers,
    x: Tensor,
    out: Seq<char>,
    axis: usize,
    index: Seq<int>,
)
    requires
        x.dims().len() < usize::MAX,
        axis < x.dims().len(),
        has_index(x, index),
        (m.given)(out + "_neg_one"@, 0) == number(NEG_ONE),
        (m.given)(out + "_log2e"@, 0) == number(LOG2_E),
    ensures
        softmax_exponentials(x, out, axis).dims() == x.dims(),
        ({
            let g = greatest(along(m, x, index.remove(axis as int), axis as int));
            at(m, softmax_exponentials(x, out, axis), index) == exp(m, at(m, x, index) - g)
        }),
{
    lemma_numbers();
    let max = reduced_in_place(x, Reduction::Max, axis);
    let g = greatest(along(m, x, index.remove(axis as int), axis as int));
    lemma_reduced_in_place(m, x, Reduction::Max, axis, index);
    let neg_one = spread(x, out, "_neg_one"@);
    let log2e = spread(x, out, "_log2e"@);
    lemma_spread(m, x, out, "_neg_one"@, index);
    lemma_spread(m, x, out, "_log2e"@, index);
    lemma_times(m, max, neg_one, index);
    lemma_times(m, x, times(max, neg_one), index);
    let difference = plus(x, times(max, neg_one));
    lemma_times(m, difference, log2e, index);
    lemma_unary(m, times(difference, log2e), Unary::Exp2, index);
    let v = at(m, x, index);
    assert(v + g * (0real - 1real) == v - g) by (nonlinear_arith);
}

proof fn lemma_softmax_exponential(
    m: Numbers,
    x: Tensor,
    out: Seq<char>,
    axis: usize,
    index: Seq<int>,
)
    requires
        x.dims().len() < usize::MAX,
        axis < x.dims().len(),
        has_index(x, index),
        has_powers(m),
        (m.given)(out + "_neg_one"@, 0) == number(NEG_ONE),
        (m.given)(out + "_log2e"@, 0) == number(LOG2_E),
    ensures
        softmax_exponentials(x, out, axis).dims() == x.dims(),
        ({
            let g = greatest(along(m, x, index.remove(axis as int), axis as int));
            at(m, softmax_exponentials(x, out, axis), index) == exp(m, at(m, x, index)) * exp(
                m,
                0real - g,
            )
        }),
{
    lemma_softmax_power(m, x, out, axis, index);
    let g = greatest(along(m, x, index.remove(axis as int), axis as int));
    let v = at(m, x, index);
    let l = number(LOG2_E);
    assert((v - g) * l == v * l + (0real - g) * l) by (nonlinear_arith);
}

/// The powers that a Softmax node takes of the numbers along an axis: those of their
/// distances from the greatest of them, which are at most 0.
pub open spec fn powers_below(m: Numbers, x: Tensor, index: Seq<int>, axis: int) -> Seq<real> {
    let g = greatest(line(m, x, index, axis));
    Seq::new(sizes(x)[axis] as nat, |k: int| exp(m, at(m, x, index.update(axis, k)) - g))
}

/// A Softmax node takes the greatest number along the axis off before it takes powers,
/// whatever these are: its output has at each index the power of the distance, times
/// the reciprocal of the sum of these powers along the axis.
pub proof fn law_softmax_takes_distances(
    m: Numbers,
    node: NodeDef,
    before: State,
    after: State,
    result: Outcome,
    axis: int,
    index: Seq<int>,
)
    requires
        softmax_step(node, before, after, result),
        takes_one(node, before),
        before.env[node.inp(0)].dims().len() < usize::MAX,
        0 <= axis < before.env[node.inp(0)].dims().len(),
        ({
            let given = node.int_attr("axis"@, (-1) as i64);
            given == axis || given == axis - before.env[node.inp(0)].dims().len()
        }),
        has_index(before.env[node.inp(0)], index),
        gives_added(m, before, after),
    ensures
        result is Done,
        ({
            let powers = powers_below(m, before.env[node.inp(0)], index, axis);
            at(m, after.env[node.out(0)], index) == powers[index[axis]] * (1real / total(powers))
        }),
{
    let x = before.env[node.inp(0)];
    let out = node.out(0);
    let a = axis as usize;
    let numbers = softmax_numbers();
    lemma_given(m, before, after, out, numbers, 0);
    lemma_given(m, before, after, out, numbers, 1);
    let e = softmax_exponentials(x, out, a);
    lemma_softmax_power(m, x, out, a, index);
    let sums = reduced_in_place(e, Reduction::Sum, a);
    lemma_reduced_in_place(m, e, Reduction::Sum, a, index);
    lemma_unary(m, sums, Unary::Recip, index);
    lemma_times(m, e, sums.unary(Unary::Recip), index);
    assert(0 <= index[axis] < sizes(x)[axis]);
    assert(index.update(axis, index[axis]) =~= index);
    let rest = index.remove(axis);
    assert(along(m, x, rest, axis) =~= line(m, x, index, axis)) by {
        assert forall|k: int| 0 <= k < sizes(x)[axis] implies along(m, x, rest, axis)[k] == line(
            m,
            x,
            index,
            axis,
        )[k] by {
            assert(rest.insert(axis, k) =~= index.update(axis, k));
        }
    }
    assert(along(m, e, rest, axis) =~= powers_below(m, x, index, axis)) by {
        assert forall|k: int| 0 <= k < sizes(x)[axis] implies along(m, e, rest, axis)[k]
            == powers_below(m, x, index, axis)[k] by {
            let other = index.update(axis, k);
            assert(rest.insert(axis, k) =~= other);
            assert(other.remove(axis) =~= rest);
            assert(has_index(x, other)) by {
                assert forall|i: int| 0 <= i < sizes(x).len() implies 0 <= #[trigger] other[i]
                    < sizes(x)[i] by {
                    if i != axis {
                        assert(0 <= index[i] < sizes(x)[i]);
                    }
                }
            }
            lemma_softmax_power(m, x, out, a, other);
        }
    }
}

/// A Softmax node with an axis of the input, counted from either end, is done, and its
/// output has at each index the exponential of the number there, divided by the sum of
/// the exponentials along the axis. The numbers of the output along the axis add up
/// to 1.
pub proof fn law_softmax_node(
    m: Numbers,
    node: NodeDef,
    before: State,
    after: State,
    result: Outcome,
    axis: int,
    index: Seq<int>,
)
    requires
        softmax_step(node, before, after, result),
        takes_one(node, before),
        before.env[node.inp(0)].dims().len() < usize::MAX,
        0 <= axis < before.env[node.inp(0)].dims().len(),
        ({
            let given = node.int_attr("axis"@, (-1) as i64);
            given == axis || given == axis - before.env[node.inp(0)].dims().len()
        }),
        has_index(before.env[node.inp(0)], index),
        gives_added(m, before, after),
        has_powers(m),
    ensures
        result is Done,
        ({
            let x = before.env[node.inp(0)];
            let t = after.env[node.out(0)];
            &&& t.dims() == x.dims()
            &&& at(m, t, index) == exp(m, at(m, x, index)) / total(exponentials(m, x, index, axis))
            &&& total(line(m, t, index, axis)) == 1real
        }),
{
    let x = before.env[node.inp(0)];
    let out = node.out(0);
    let t = after.env[out];
    assert forall|k: int| 0 <= k < sizes(x)[axis] implies at(m, t, index.update(axis, k)) == exp(
        m,
        at(m, x, index.update(axis, k)),
    ) / total(exponentials(m, x, index, axis)) by {
        lemma_softmax_at(m, node, before, after, axis as usize, index, index.update(axis, k));
    }
    assert(index =~= index.update(axis, index[axis]));
    lemma_softmax_at(m, node, before, after, axis as usize, index, index);
    let e = exponentials(m, x, index, axis);
    let sum = total(e);
    assert(0 <= index[axis] < sizes(x)[axis]);
    lemma_positive_total(e);
    let found = line(m, t, index, axis);
    let inverse = 1real / sum;
    assert forall|k: int| 0 <= k < e.len() implies #[trigger] found[k] == e[k] * inverse by {
        let v = e[k];
        assert(at(m, t, index.update(axis, k)) == v / sum);
        assert(v / sum == v * (1real / sum)) by (nonlinear_arith)
            requires
                sum > 0real,
        ;
    }
    assert(sizes(t) == sizes(x));
    lemma_total_of_products(e, found, inverse);
    assert(sum * (1real / sum) == 1real) by (nonlinear_arith)
        requires
            sum > 0real,
    ;
}

proof fn lemma_softmax_at(
    m: Numbers,
    node: NodeDef,
    before: State,
    after: State,
    axis: usize,
    base: Seq<int>,
    index: Seq<int>,
)
    requires
        softmax_step(node, before, after, Outcome::Done),
        takes_one(node, before),
        before.env[node.inp(0)].dims().len() < usize::MAX,
        axis < before.env[node.inp(0)].dims().len(),
        ({
            let given = node.int_attr("axis"@, (-1) as i64);
            given == axis || given == axis - before.env[node.inp(0)].dims().len()
        }),
        has_index(before.env[node.inp(0)], base),
        index == base.update(axis as int, index[axis as int]),
        0 <= index[axis as int] < sizes(before.env[node.inp(0)])[axis as int],
        gives_added(m, before, after),
        has_powers(m),
    ensures
        ({
            let x = before.env[node.inp(0)];
            let t = after.env[node.out(0)];
            &&& t.dims() == x.dims()
            &&& at(m, t, index) == exp(m, at(m, x, index)) / total(
                exponentials(m, x, base, axis as int),
            )
        }),
{
    let x = before.env[node.inp(0)];
    let out = node.out(0);
    let a = axis as int;
    let numbers = softmax_numbers();
    lemma_given(m, before, after, out, numbers, 0);
    lemma_given(m, before, after, out, numbers, 1);
    assert(has_index(x, index)) by {
        assert forall|i: int| 0 <= i < sizes(x).len() implies 0 <= #[trigger] index[i]
            < sizes(x)[i] by {
            if i != a {
                assert(0 <= base[i] < sizes(x)[i]);
                assert(index[i] == base[i]);
            }
        }
    }
    let e = softmax_exponentials(x, out, axis);
    lemma_softmax_exponential(m, x, out, axis, index);
    let sums = reduced_in_place(e, Reduction::Sum, axis);
    lemma_reduced_in_place(m, e, Reduction::Sum, axis, index);
    lemma_unary(m, sums, Unary::Recip, index);
    lemma_times(m, e, sums.unary(Unary::Recip), index);
    // All exponentials have one factor in common.
    let g = greatest(along(m, x, index.remove(a), a));
    let c = exp(m, 0real - g);
    let plain = exponentials(m, x, base, a);
    let found = along(m, e, index.remove(a), a);
    assert forall|k: int| 0 <= k < plain.len() implies #[trigger] found[k] == plain[k] * c by {
        let other = base.update(a, k);
        assert(index.remove(a).insert(a, k) =~= other);
        assert(other.remove(a) =~= index.remove(a));
        assert(has_index(x, other)) by {
            assert forall|i: int| 0 <= i < sizes(x).len() implies 0 <= #[trigger] other[i]
                < sizes(x)[i] by {
                if i != a {
                    assert(0 <= base[i] < sizes(x)[i]);
                }
            }
        }
        lemma_softmax_exponential(m, x, out, axis, other);
    }
    lemma_total_of_products(plain, found, c);
    let v = exp(m, at(m, x, index));
    let sum = total(plain);
    lemma_positive_total(plain);
    assert(c > 0real);
    assert((v * c) * (1real / (sum * c)) == v / sum) by (nonlinear_arith)
        requires
            c > 0real,
            sum > 0real,
    ;
}

/// A Tanh node whose input is known is done. The elements of its output are known and
/// its data, and are the hyperbolic tangents of those of the input.
pub proof fn law_known_tanh_node<M: FloatMath>(
    math: M,
    node: NodeDef,
    before: State,
    after: State,
    result: Outcome,
    p: int,
)
    requires
        tanh_step(math, node, before, after, result),
        takes_one(node, before),
        before.known.contains_key(node.inp(0)),
        0 <= p < before.known[node.inp(0)].len(),
    ensures
        result is Done,
        after.env[node.out(0)].dims() == before.env[node.inp(0)].dims(),
        ({
            let v = before.known[node.inp(0)];
            let r = after.known[node.out(0)];
            &&& after.known.contains_key(node.out(0))
            &&& after.weights == before.weights.push((node.out(0), r))
            &&& r.len() == v.len()
            &&& call_ensures(M::tanh, (&math, v[p]), r[p])
        }),
{
    let r = after.known[node.out(0)];
    assert(r[p] >= 0);
}

/// A Tanh node whose input is not known is done, and its output has at each index
/// `(1 - exp(-2x)) / (1 + exp(-2x))`.
pub proof fn law_tanh_node<M: FloatMath>(
    m: Numbers,
    math: M,
    node: NodeDef,
    before: State,
    after: State,
    result: Outcome,
    index: Seq<int>,
)
    requires
        tanh_step(math, node, before, after, result),
        takes_one(node, before),
        !before.known.contains_key(node.inp(0)),
        has_index(before.env[node.inp(0)], index),
        gives_added(m, before, after),
        has_powers(m),
    ensures
        result is Done,
        after.env[node.out(0)].dims() == before.env[node.inp(0)].dims(),
        ({
            let e = exp(m, 0real - 2real * at(m, before.env[node.inp(0)], index));
            at(m, after.env[node.out(0)], index) == (1real - e) / (1real + e)
        }),
{
    let x = before.env[node.inp(0)];
    let out = node.out(0);
    let numbers = tanh_numbers();
    lemma_numbers();
    lemma_given(m, before, after, out, numbers, 0);
    lemma_given(m, before, after, out, numbers, 1);
    lemma_given(m, before, after, out, numbers, 2);
    lemma_given(m, before, after, out, numbers, 3);
    let neg2 = spread(x, out, "_tanh_neg2"@);
    let log2e = spread(x, out, "_tanh_log2e"@);
    let one = spread(x, out, "_tanh_one"@);
    let neg_one = spread(x, out, "_tanh_neg_one"@);
    lemma_spread(m, x, out, "_tanh_neg2"@, index);
    lemma_spread(m, x, out, "_tanh_log2e"@, index);
    lemma_spread(m, x, out, "_tanh_one"@, index);
    lemma_spread(m, x, out, "_tanh_neg_one"@, index);
    lemma_times(m, neg2, x, index);
    lemma_times(m, times(neg2, x), log2e, index);
    let inside = times(times(neg2, x), log2e);
    let e = inside.unary(Unary::Exp2);
    lemma_unary(m, inside, Unary::Exp2, index);
    lemma_times(m, neg_one, e, index);
    lemma_times(m, one, times(neg_one, e), index);
    lemma_times(m, one, e, index);
    lemma_unary(m, plus(one, e), Unary::Recip, index);
    let upper = plus(one, times(neg_one, e));
    lemma_times(m, upper, plus(one, e).unary(Unary::Recip), index);
    let v = at(m, x, index);
    assert((0real - 2real) * v == 0real - 2real * v) by (nonlinear_arith);
    let f = at(m, e, index);
    assert(f == exp(m, 0real - 2real * v));
    assert(f > 0real);
    assert((1real + (0real - 1real) * f) * (1real / (1real + f)) == (1real - f) / (1real + f))
        by (nonlinear_arith)
        requires
            f > 0real,
    ;
}

/// A Sigmoid node is done, and its output has at each index the logistic function of
/// the number there.
pub proof fn law_sigmoid_node(
    m: Numbers,
    node: NodeDef,
    prefix: Seq<char>,
    before: State,
    after: State,
    result: Outcome,
    index: Seq<int>,
)
    requires
        activation_step(
            node,
            prefix,
            sigmoid_numbers(),
            sigmoid_formula(before.env[node.inp(0)], node.out(0)),
            before,
            after,
            result,
        ),
        takes_one(node, before),
        has_index(before.env[node.inp(0)], index),
        gives_added(m, before, after),
        has_powers(m),
    ensures
        result is Done,
        after.env[node.out(0)].dims() == before.env[node.inp(0)].dims(),
        at(m, after.env[node.out(0)], index) == logistic(m, at(m, before.env[node.inp(0)], index)),
{
    let x = before.env[node.inp(0)];
    let out = node.out(0);
    let numbers = sigmoid_numbers();
    lemma_numbers();
    lemma_given(m, before, after, out, numbers, 0);
    lemma_given(m, before, after, out, numbers, 1);
    lemma_given(m, before, after, out, numbers, 2);
    let one = spread(x, out, "_sigmoid_one"@);
    let neg_one = spread(x, out, "_sigmoid_neg_one"@);
    let log2e = spread(x, out, "_sigmoid_log2e"@);
    lemma_spread(m, x, out, "_sigmoid_one"@, index);
    lemma_spread(m, x, out, "_sigmoid_neg_one"@, index);
    lemma_spread(m, x, out, "_sigmoid_log2e"@, index);
    lemma_times(m, x, neg_one, index);
    lemma_times(m, times(x, neg_one), log2e, index);
    let inside = times(times(x, neg_one), log2e);
    let e = inside.unary(Unary::Exp2);
    lemma_unary(m, inside, Unary::Exp2, index);
    lemma_times(m, one, e, index);
    lemma_unary(m, plus(one, e), Unary::Recip, index);
    let v = at(m, x, index);
    assert(v * (0real - 1real) == 0real - v) by (nonlinear_arith);
}

/// The logistic function of `a * x * (1 + b * x * x)`.
proof fn lemma_cubic_sigmoid(
    m: Numbers,
    x: Tensor,
    a: Tensor,
    b: Tensor,
    one: Tensor,
    neg_one: Tensor,
    log2e: Tensor,
    one2: Tensor,
    index: Seq<int>,
)
    requires
        x.dims().len() <= usize::MAX,
        has_index(x, index),
        a.dims() == x.dims(),
        b.dims() == x.dims(),
        one.dims() == x.dims(),
        neg_one.dims() == x.dims(),
        log2e.dims() == x.dims(),
        one2.dims() == x.dims(),
        at(m, one, index) == 1real,
        at(m, one2, index) == 1real,
        at(m, neg_one, index) == 0real - 1real,
        at(m, log2e, index) == number(LOG2_E),
    ensures
        cubic_sigmoid(x, a, b, one, neg_one, log2e, one2).dims() == x.dims(),
        ({
            let v = at(m, x, index);
            at(m, cubic_sigmoid(x, a, b, one, neg_one, log2e, one2), index) == logistic(
                m,
                at(m, a, index) * v * (1real + at(m, b, index) * v * v),
            )
        }),
{
    lemma_times(m, x, x, index);
    lemma_times(m, b, times(x, x), index);
    lemma_times(m, one, times(b, times(x, x)), index);
    let inner = plus(one, times(b, times(x, x)));
    lemma_times(m, x, inner, index);
    lemma_times(m, a, times(x, inner), index);
    let cubic = times(a, times(x, inner));
    lemma_times(m, neg_one, cubic, index);
    lemma_times(m, times(neg_one, cubic), log2e, index);
    let inside = times(times(neg_one, cubic), log2e);
    let e = inside.unary(Unary::Exp2);
    lemma_unary(m, inside, Unary::Exp2, index);
    lemma_times(m, one2, e, index);
    lemma_unary(m, plus(one2, e), Unary::Recip, index);
    let v = at(m, x, index);
    let p = at(m, a, index);
    let q = at(m, b, index);
    let c = at(m, cubic, index);
    assert(c == p * (v * (1real + q * (v * v))));
    assert(p * (v * (1real + q * (v * v))) == p * v * (1real + q * v * v)) by (nonlinear_arith);
    assert((0real - 1real) * c == 0real - c) by (nonlinear_arith);
}

/// An Erf node is done, and its output has at each index
/// `2 * logistic(a * x * (1 + b * x * x)) - 1`.
pub proof fn law_erf_node(
    m: Numbers,
    node: NodeDef,
    prefix: Seq<char>,
    before: State,
    after: State,
    result: Outcome,
    index: Seq<int>,
)
    requires
        activation_step(
            node,
            prefix,
            erf_numbers(),
            erf_formula(before.env[node.inp(0)], node.out(0)),
            before,
            after,
            result,
        ),
        takes_one(node, before),
        has_index(before.env[node.inp(0)], index),
        gives_added(m, before, after),
    ensures
        result is Done,
        after.env[node.out(0)].dims() == before.env[node.inp(0)].dims(),
        ({
            let v = at(m, before.env[node.inp(0)], index);
            at(m, after.env[node.out(0)], index) == 2real * logistic(
                m,
                number(ERF_A) * v * (1real + number(ERF_B) * v * v),
            ) - 1real
        }),
{
    let x = before.env[node.inp(0)];
    let out = node.out(0);
    let numbers = erf_numbers();
    lemma_numbers();
    lemma_given(m, before, after, out, numbers, 0);
    lemma_given(m, before, after, out, numbers, 1);
    lemma_given(m, before, after, out, numbers, 2);
    lemma_given(m, before, after, out, numbers, 3);
    lemma_given(m, before, after, out, numbers, 4);
    lemma_given(m, before, after, out, numbers, 5);
    lemma_given(m, before, after, out, numbers, 6);
    lemma_given(m, before, after, out, numbers, 7);
    lemma_spread(m, x, out, "_erf_coeff_a"@, index);
    lemma_spread(m, x, out, "_erf_coeff_b"@, index);
    lemma_spread(m, x, out, "_erf_one"@, index);
    lemma_spread(m, x, out, "_erf_neg_one"@, index);
    lemma_spread(m, x, out, "_erf_two"@, index);
    lemma_spread(m, x, out, "_erf_log2e"@, index);
    lemma_spread(m, x, out, "_erf_one2"@, index);
    lemma_spread(m, x, out, "_erf_neg_one2"@, index);
    let a = spread(x, out, "_erf_coeff_a"@);
    let b = spread(x, out, "_erf_coeff_b"@);
    let one = spread(x, out, "_erf_one"@);
    let neg_one = spread(x, out, "_erf_neg_one"@);
    let log2e = spread(x, out, "_erf_log2e"@);
    let one2 = spread(x, out, "_erf_one2"@);
    lemma_cubic_sigmoid(m, x, a, b, one, neg_one, log2e, one2, index);
    let s = cubic_sigmoid(x, a, b, one, neg_one, log2e, one2);
    let two = spread(x, out, "_erf_two"@);
    lemma_times(m, two, s, index);
    lemma_times(m, times(two, s), spread(x, out, "_erf_neg_one2"@), index);
}

/// A Gelu node is done, and its output has at each index
/// `x * logistic(a * x * (1 + b * x * x))`.
pub proof fn law_gelu_node(
    m: Numbers,
    node: NodeDef,
    prefix: Seq<char>,
    before: State,
    after: State,
    result: Outcome,
    index: Seq<int>,
)
    requires
        activation_step(
            node,
            prefix,
            gelu_numbers(),
            gelu_formula(before.env[node.inp(0)], node.out(0)),
            before,
            after,
            result,
        ),
        takes_one(node, before),
        has_index(before.env[node.inp(0)], index),
        gives_added(m, before, after),
    ensures
        result is Done,
        after.env[node.out(0)].dims() == before.env[node.inp(0)].dims(),
        ({
            let v = at(m, before.env[node.inp(0)], index);
            at(m, after.env[node.out(0)], index) == v * logistic(
                m,
                number(GELU_A) * v * (1real + number(GELU_B) * v * v),
            )
        }),
{
    let x = before.env[node.inp(0)];
    let out = node.out(0);
    let numbers = gelu_numbers();
    lemma_numbers();
    lemma_given(m, before, after, out, numbers, 0);
    lemma_given(m, before, after, out, numbers, 1);
    lemma_given(m, before, after, out, numbers, 2);
    lemma_given(m, before, after, out, numbers, 3);
    lemma_given(m, before, after, out, numbers, 4);
    lemma_given(m, before, after, out, numbers, 5);
    lemma_spread(m, x, out, "_gelu_coeff_a"@, index);
    lemma_spread(m, x, out, "_gelu_coeff_b"@, index);
    lemma_spread(m, x, out, "_gelu_one"@, index);
    lemma_spread(m, x, out, "_gelu_neg_one"@, index);
    lemma_spread(m, x, out, "_gelu_log2e"@, index);
    lemma_spread(m, x, out, "_gelu_one2"@, index);
    let a = spread(x, out, "_gelu_coeff_a"@);
    let b = spread(x, out, "_gelu_coeff_b"@);
    let one = spread(x, out, "_gelu_one"@);
    let neg_one = spread(x, out, "_gelu_neg_one"@);
    let log2e = spread(x, out, "_gelu_log2e"@);
    let one2 = spread(x, out, "_gelu_one2"@);
    lemma_cubic_sigmoid(m, x, a, b, one, neg_one, log2e, one2, index);
    lemma_times(m, x, cubic_sigmoid(x, a, b, one, neg_one, log2e, one2), index);
}

/// A Gelu node gives, for a number and its negative, numbers that differ by the number
/// itself, if the exponentials of a number and its negative are reciprocals.
pub proof fn law_gelu_of_negatives(m: Numbers, v: real)
    requires
        has_powers(m),
    ensures
        ({
            let z = |x: real| number(GELU_A) * x * (1real + number(GELU_B) * x * x);
            v * logistic(m, z(v)) - (0real - v) * logistic(m, z(0real - v)) == v
        }),
{
    let a = number(GELU_A);
    let b = number(GELU_B);
    let z = a * v * (1real + b * v * v);
    let w = 0real - v;
    assert(a * w * (1real + b * w * w) == 0real - z) by (nonlinear_arith)
        requires
            z == a * v * (1real + b * v * v),
            w == 0real - v,
    ;
    let l = number(LOG2_E);
    let p = exp(m, 0real - z);
    let q = exp(m, 0real - (0real - z));
    assert((0real - z) * l + (0real - (0real - z)) * l == 0real) by (nonlinear_arith);
    assert(p * q == (m.exp2)(0real)) by {
        assert((m.exp2)((0real - z) * l + (0real - (0real - z)) * l) == (m.exp2)((0real - z) * l)
            * (m.exp2)((0real - (0real - z)) * l));
    }
    let one = (m.exp2)(0real);
    assert((m.exp2)(0real + 0real) == one * one);
    assert(one == 1real) by (nonlinear_arith)
        requires
            one == one * one,
            one > 0real,
    ;
    assert(p > 0real && q > 0real);
    assert(v * (1real / (1real + p)) + v * (1real / (1real + q)) == v) by (nonlinear_arith)
        requires
            p > 0real,
            q > 0real,
            p * q == 1real,
    ;
    assert((0real - v) * (1real / (1real + q)) == 0real - v * (1real / (1real + q)))
        by (nonlinear_arith);
}

} // verus!

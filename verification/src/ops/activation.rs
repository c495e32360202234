//! Activation functions. The numbers that their formulas need are named
//! tensors of one element, so that no node holds a constant.

use crate::bits::{LOG2_E, NEG_ONE, NEG_TWO, ONE, TWO, FloatMath};
use crate::fold::tanh_values;
#[allow(unused_imports)]
use crate::fold::tangents;
use crate::graph::{broadcast_to, group_graph, Binary, ComputeGraph, GraphTensor, Reduction, Unary};
#[allow(unused_imports)]
use crate::graph::{grows, load, Handle, Tensor};
use crate::names::NameMap;
use crate::ops::axes::count_axis;
#[allow(unused_imports)]
use crate::ops::axes::counted;
#[allow(unused_imports)]
use crate::ops::elementwise::single_outcome;
use crate::proto::{copy_bits, get_int_attr, NodeDef};
use crate::shape::{dims_of, known_sizes};
#[allow(unused_imports)]
use crate::shape::{all_known, known_dims, sizes_of, Dim};
use crate::state::{bind, fetch, group_state, name_numbers, recall, remember, settle, supply, Fault};
#[allow(unused_imports)]
use crate::state::{
    changed, data, ending, env, number, number_data, number_list, number_names, outcome, state,
    valid, values, with_numbers, Outcome, State,
};
use vstd::prelude::*;

verus! {

broadcast use {group_graph, group_state};

/// The bits of 2.2567585, the first coefficient in the formula of Erf.
pub const ERF_A: u32 = 0x4010_6ebb;

/// The bits of 0.0885, the second coefficient in the formula of Erf.
pub const ERF_B: u32 = 0x3db5_3f7d;

/// The bits of 1.5957692, the first coefficient in the formula of Gelu.
pub const GELU_A: u32 = 0x3fcc_422a;

/// The bits of 0.044715, the second coefficient in the formula of Gelu.
pub const GELU_B: u32 = 0x3d37_2713;

/// How the import of a node ends whose input is computed with numbers that are
/// repeated into its sizes.
pub open spec fn activation_outcome(node: NodeDef, prefix: Seq<char>, before: State) -> Outcome {
    let single = single_outcome(node, prefix, before);
    let dims = before.env[node.inp(0)].dims();
    if single is Done && !all_known(dims) {
        Outcome::Rejects
    } else {
        single
    }
}

/// What the import of an activation function does on success: it gives its
/// numbers names that start with that of the output, and the output stands
/// for `formula`.
pub open spec fn activated(
    node: NodeDef,
    numbers: Seq<(Seq<char>, u32)>,
    formula: Tensor,
    before: State,
    after: State,
) -> bool {
    let out = node.out(0);
    &&& after.env == with_numbers(before.env, out, numbers).insert(out, formula)
    &&& changed(before.tensors, after.tensors, number_names(out, numbers).insert(out))
    &&& after.weights == before.weights + number_data(out, numbers)
    &&& after.known == before.known
}

/// The number whose name ends in `end`, repeated into the sizes of `x`; without
/// its axis, if `x` has none.
pub open spec fn spread(x: Tensor, out: Seq<char>, end: Seq<char>) -> Tensor {
    if x.dims().len() == 0 {
        number(out + end).squeezed(0)
    } else {
        number(out + end).broadcast(sizes_of(x.dims()))
    }
}

/// A tensor of one element repeated into the given sizes.
pub(crate) fn spread_to(t: &GraphTensor, sizes: &Vec<usize>) -> (r: GraphTensor)
    requires
        t@.shape.wf(),
        t@.shape.dims == seq![Dim::Known(1usize)],
    ensures
        r@ == (Handle {
            shape: if sizes@.len() == 0 {
                t@.shape.without(0)
            } else {
                t@.shape.broadcast(sizes@)
            },
            ..t@
        }),
        r@.shape.wf(),
        r@.shape.dims == known_dims(sizes@),
{
    if sizes.len() == 0 {
        let r = t.squeeze(0);
        assert(r@.shape.dims =~= known_dims(sizes@));
        r
    } else {
        broadcast_to(t, sizes)
    }
}

/// The product of two tensors.
pub open spec fn times(x: Tensor, y: Tensor) -> Tensor {
    x.binary(Binary::Mul, y)
}

/// The sum of two tensors.
pub open spec fn plus(x: Tensor, y: Tensor) -> Tensor {
    x.binary(Binary::Add, y)
}

/// Adds the product of two tensors.
pub(crate) fn multiply(cx: &mut ComputeGraph, x: &GraphTensor, y: &GraphTensor) -> (r: GraphTensor)
    requires
        old(cx).holds(x@),
        old(cx).holds(y@),
        x@.shape.dims == y@.shape.dims,
    ensures
        grows(*old(cx), *final(cx)),
        final(cx).holds(r@),
        final(cx).meaning(r@) == times(old(cx).meaning(x@), old(cx).meaning(y@)),
        r@.shape.dims == x@.shape.dims,
{
    let r = cx.binary(Binary::Mul, x, y);
    assert(cx.meaning(r@).shape == r@.shape);
    r
}

/// Adds the sum of two tensors.
pub(crate) fn sum(cx: &mut ComputeGraph, x: &GraphTensor, y: &GraphTensor) -> (r: GraphTensor)
    requires
        old(cx).holds(x@),
        old(cx).holds(y@),
        x@.shape.dims == y@.shape.dims,
    ensures
        grows(*old(cx), *final(cx)),
        final(cx).holds(r@),
        final(cx).meaning(r@) == plus(old(cx).meaning(x@), old(cx).meaning(y@)),
        r@.shape.dims == x@.shape.dims,
{
    let r = cx.binary(Binary::Add, x, y);
    assert(cx.meaning(r@).shape == r@.shape);
    r
}

/// Adds an operation on each element.
pub(crate) fn apply(cx: &mut ComputeGraph, op: Unary, x: &GraphTensor) -> (r: GraphTensor)
    requires
        old(cx).holds(x@),
    ensures
        grows(*old(cx), *final(cx)),
        final(cx).holds(r@),
        final(cx).meaning(r@) == old(cx).meaning(x@).unary(op),
        r@.shape.dims == x@.shape.dims,
{
    let r = cx.unary(op, x);
    assert(cx.meaning(r@).shape == r@.shape);
    r
}

/// The input of a node, and its sizes.
fn sized_input(node: &NodeDef, prefix: &str, tensors: &NameMap<GraphTensor>, cx: &ComputeGraph) -> (found:
    Result<(GraphTensor, Vec<usize>), Fault>)
    requires
        valid(*tensors, *cx),
    ensures
        ({
            let before = state(*tensors, *cx, Seq::empty(), Map::empty());
            match found {
                Ok((input, sizes)) => {
                    &&& activation_outcome(*node, prefix@, before) is Done
                    &&& input@ == tensors@[node.inp(0)]@
                    &&& sizes@ == sizes_of(input@.shape.dims)
                    &&& known_dims(sizes@) == input@.shape.dims
                },
                Err(fault) => outcome(Err(fault)) == activation_outcome(*node, prefix@, before),
            }
        }),
{
    if node.input.len() != 1 {
        return Err(Fault::Rejected);
    }
    let input = match fetch(tensors, &node.input[0], prefix) {
        Ok(input) => input,
        Err(fault) => {
            return Err(fault);
        },
    };
    if node.output.len() == 0 {
        return Err(Fault::Rejected);
    }
    match known_sizes(input.dims()) {
        Some(sizes) => Ok((input, sizes)),
        None => Err(Fault::Rejected),
    }
}

/// The numbers that the formula of Tanh needs.
pub open spec fn tanh_numbers() -> Seq<(Seq<char>, u32)> {
    seq![
        ("_tanh_neg2"@, NEG_TWO),
        ("_tanh_log2e"@, LOG2_E),
        ("_tanh_one"@, ONE),
        ("_tanh_neg_one"@, NEG_ONE),
    ]
}

/// The formula of Tanh: `(1 - exp(-2x)) / (1 + exp(-2x))`, where `exp(z)` is
/// the power of 2 with the exponent `z * log2(e)`.
pub open spec fn tanh_formula(x: Tensor, out: Seq<char>) -> Tensor {
    let one = spread(x, out, "_tanh_one"@);
    let e = times(
        times(spread(x, out, "_tanh_neg2"@), x),
        spread(x, out, "_tanh_log2e"@),
    ).unary(Unary::Exp2);
    times(
        plus(one, times(spread(x, out, "_tanh_neg_one"@), e)),
        plus(one, e).unary(Unary::Recip),
    )
}

/// Whether tensors are the numbers that a formula needs.
spec fn are_numbers(
    cx: ComputeGraph,
    named: Seq<GraphTensor>,
    out: Seq<char>,
    numbers: Seq<(Seq<char>, u32)>,
) -> bool {
    &&& named.len() == numbers.len()
    &&& forall|i: int|
        0 <= i < numbers.len() ==> {
            &&& cx.holds((#[trigger] named[i])@)
            &&& cx.meaning(named[i]@) == number(out + numbers[i].0)
        }
}

/// Adds the formula of Tanh on the numbers that it needs.
fn add_tanh(
    cx: &mut ComputeGraph,
    x: &GraphTensor,
    named: &Vec<GraphTensor>,
    sizes: &Vec<usize>,
    Ghost(out): Ghost<Seq<char>>,
) -> (r: GraphTensor)
    requires
        old(cx).holds(x@),
        are_numbers(*old(cx), named@, out, tanh_numbers()),
        known_dims(sizes@) == x@.shape.dims,
        sizes@ == sizes_of(x@.shape.dims),
    ensures
        grows(*old(cx), *final(cx)),
        final(cx).holds(r@),
        final(cx).meaning(r@) == tanh_formula(old(cx).meaning(x@), out),
{
    let neg2 = spread_to(&named[0], sizes);
    let log2e = spread_to(&named[1], sizes);
    let one = spread_to(&named[2], sizes);
    let neg_one = spread_to(&named[3], sizes);
    let neg2x = multiply(cx, &neg2, x);
    let exponent = multiply(cx, &neg2x, &log2e);
    let e = apply(cx, Unary::Exp2, &exponent);
    let one_plus = sum(cx, &one, &e);
    let neg_e = multiply(cx, &neg_one, &e);
    let one_minus = sum(cx, &one, &neg_e);
    let recip = apply(cx, Unary::Recip, &one_plus);
    multiply(cx, &one_minus, &recip)
}

/// What the import of a Tanh node does. If the elements of the input are
/// known, the output is a named tensor of their hyperbolic tangents.
pub open spec fn tanh_step<M: FloatMath>(
    math: M,
    node: NodeDef,
    before: State,
    after: State,
    result: Outcome,
) -> bool {
    let out = node.out(0);
    let x = before.env[node.inp(0)];
    &&& result == activation_outcome(node, "Tanh: missing input tensor '"@, before)
    &&& result is Fails ==> after == before
    &&& result is Done ==> if before.known.contains_key(node.inp(0)) {
        &&& after.env == before.env.insert(out, load(out, x.dims()))
        &&& changed(before.tensors, after.tensors, set![out])
        &&& after.known == before.known.insert(out, after.known[out])
        &&& tangents(math, before.known[node.inp(0)], after.known[out])
        &&& after.weights == before.weights.push((out, after.known[out]))
    } else {
        activated(node, tanh_numbers(), tanh_formula(x, out), before, after)
    }
}

/// Imports a Tanh node: the hyperbolic tangent of each element.
pub fn parse_tanh_node<M: FloatMath>(
    node: &NodeDef,
    tensors: &mut NameMap<GraphTensor>,
    cx: &mut ComputeGraph,
    weight_data: &mut Vec<(String, Vec<u32>)>,
    known_values: &mut NameMap<Vec<u32>>,
    math: &M,
) -> (result: Result<(), String>)
    requires
        valid(*old(tensors), *old(cx)),
        !(activation_outcome(
                *node,
                "Tanh: missing input tensor '"@,
                state(*old(tensors), *old(cx), data(*old(weight_data)), values(*old(known_values))),
            ) is Rejects),
    ensures
        valid(*final(tensors), *final(cx)),
        grows(*old(cx), *final(cx)),
        tanh_step(
            *math,
            *node,
            state(*old(tensors), *old(cx), data(*old(weight_data)), values(*old(known_values))),
            state(
                *final(tensors),
                *final(cx),
                data(*final(weight_data)),
                values(*final(known_values)),
            ),
            ending(result),
        ),
{
    settle(try_tanh_node(node, tensors, cx, weight_data, known_values, math))
}

/// The import of the same nodes, and of those that the operation does not admit.
pub(crate) fn try_tanh_node<M: FloatMath>(
    node: &NodeDef,
    tensors: &mut NameMap<GraphTensor>,
    cx: &mut ComputeGraph,
    weight_data: &mut Vec<(String, Vec<u32>)>,
    known_values: &mut NameMap<Vec<u32>>,
    math: &M,
) -> (result: Result<(), Fault>)
    requires
        valid(*old(tensors), *old(cx)),
    ensures
        valid(*final(tensors), *final(cx)),
        grows(*old(cx), *final(cx)),
        tanh_step(
            *math,
            *node,
            state(*old(tensors), *old(cx), data(*old(weight_data)), values(*old(known_values))),
            state(
                *final(tensors),
                *final(cx),
                data(*final(weight_data)),
                values(*final(known_values)),
            ),
            outcome(result),
        ),
{
    let (x, sizes) = match sized_input(node, "Tanh: missing input tensor '", tensors, cx) {
        Ok(found) => found,
        Err(fault) => {
            return Err(fault);
        },
    };
    let out = node.output[0].as_str();
    if let Some(vals) = recall(known_values, &node.input[0]) {
        let folded = tanh_values(math, &vals);
        remember(known_values, out, copy_bits(&folded));
        let tensor = cx.named_tensor(out, dims_of(&sizes));
        bind(tensors, cx, out, tensor);
        supply(weight_data, out, folded);
        return Ok(());
    }
    let numbers = vec![
        ("_tanh_neg2", NEG_TWO),
        ("_tanh_log2e", LOG2_E),
        ("_tanh_one", ONE),
        ("_tanh_neg_one", NEG_ONE),
    ];
    assert(number_list(numbers@) =~= tanh_numbers());
    let named = name_numbers(tensors, cx, weight_data, out, &numbers);
    assert(are_numbers(*cx, named@, node.out(0), tanh_numbers()));
    let result = add_tanh(cx, &x, &named, &sizes, Ghost(node.out(0)));
    bind(tensors, cx, out, result);
    Ok(())
}

/// The numbers that the formula of Softmax needs.
pub open spec fn softmax_numbers() -> Seq<(Seq<char>, u32)> {
    seq![("_neg_one"@, NEG_ONE), ("_log2e"@, LOG2_E)]
}

/// The combination of the elements of `x` along an axis, repeated into the
/// size that the axis had.
pub open spec fn reduced_in_place(x: Tensor, op: Reduction, axis: usize) -> Tensor {
    x.reduce(op, axis).expanded(axis as int, x.dims()[axis as int])
}

/// The exponentials in the formula of Softmax: `exp(x - max)`, where `max` is
/// the greatest element along the axis.
pub open spec fn softmax_exponentials(x: Tensor, out: Seq<char>, axis: usize) -> Tensor {
    let max = reduced_in_place(x, Reduction::Max, axis);
    let difference = plus(x, times(max, spread(x, out, "_neg_one"@)));
    times(difference, spread(x, out, "_log2e"@)).unary(Unary::Exp2)
}

/// The formula of Softmax: the exponentials divided by their sums along the
/// axis.
pub open spec fn softmax_formula(x: Tensor, out: Seq<char>, axis: usize) -> Tensor {
    let e = softmax_exponentials(x, out, axis);
    times(e, reduced_in_place(e, Reduction::Sum, axis).unary(Unary::Recip))
}

/// How the import of a Softmax node ends.
pub open spec fn softmax_outcome(node: NodeDef, before: State) -> Outcome {
    let shaped = activation_outcome(node, "Softmax: missing input tensor '"@, before);
    let rank = before.env[node.inp(0)].dims().len();
    if shaped is Done && !(0 <= counted(node.int_attr("axis"@, (-1) as i64), rank) < rank) {
        Outcome::Rejects
    } else {
        shaped
    }
}

/// What the import of a Softmax node does.
pub open spec fn softmax_step(
    node: NodeDef,
    before: State,
    after: State,
    result: Outcome,
) -> bool {
    let x = before.env[node.inp(0)];
    let axis = counted(node.int_attr("axis"@, (-1) as i64), x.dims().len()) as usize;
    &&& result == softmax_outcome(node, before)
    &&& result is Fails ==> after == before
    &&& result is Done ==> activated(
        node,
        softmax_numbers(),
        softmax_formula(x, node.out(0), axis),
        before,
        after,
    )
}

/// Adds the combination of the elements along an axis, repeated into the size
/// that the axis had.
fn reduce_in_place(cx: &mut ComputeGraph, op: Reduction, x: &GraphTensor, axis: usize) -> (r: GraphTensor)
    requires
        old(cx).holds(x@),
        axis < x@.shape.dims.len(),
    ensures
        grows(*old(cx), *final(cx)),
        final(cx).holds(r@),
        final(cx).meaning(r@) == reduced_in_place(old(cx).meaning(x@), op, axis),
        r@.shape.dims == x@.shape.dims,
{
    let reduced = cx.reduce(op, x, axis);
    assert(cx.meaning(reduced@).shape == reduced@.shape);
    let r = reduced.expand_dim(axis, x.dims()[axis]);
    assert(r@.shape.dims =~= x@.shape.dims);
    r
}

/// Adds the exponentials in the formula of Softmax.
fn add_exponentials(
    cx: &mut ComputeGraph,
    x: &GraphTensor,
    named: &Vec<GraphTensor>,
    sizes: &Vec<usize>,
    axis: usize,
    Ghost(out): Ghost<Seq<char>>,
) -> (r: GraphTensor)
    requires
        old(cx).holds(x@),
        are_numbers(*old(cx), named@, out, softmax_numbers()),
        known_dims(sizes@) == x@.shape.dims,
        sizes@ == sizes_of(x@.shape.dims),
        axis < x@.shape.dims.len(),
    ensures
        grows(*old(cx), *final(cx)),
        final(cx).holds(r@),
        final(cx).meaning(r@) == softmax_exponentials(old(cx).meaning(x@), out, axis),
        r@.shape.dims == x@.shape.dims,
{
    let max = reduce_in_place(cx, Reduction::Max, x, axis);
    let neg_one = spread_to(&named[0], sizes);
    let log2e = spread_to(&named[1], sizes);
    let neg_max = multiply(cx, &max, &neg_one);
    let difference = sum(cx, x, &neg_max);
    let exponent = multiply(cx, &difference, &log2e);
    apply(cx, Unary::Exp2, &exponent)
}

/// Divides each element by the sum along an axis.
fn divide_by_sum(cx: &mut ComputeGraph, e: &GraphTensor, axis: usize) -> (r: GraphTensor)
    requires
        old(cx).holds(e@),
        axis < e@.shape.dims.len(),
    ensures
        grows(*old(cx), *final(cx)),
        final(cx).holds(r@),
        final(cx).meaning(r@) == times(
            old(cx).meaning(e@),
            reduced_in_place(old(cx).meaning(e@), Reduction::Sum, axis).unary(Unary::Recip),
        ),
{
    let total = reduce_in_place(cx, Reduction::Sum, e, axis);
    let recip = apply(cx, Unary::Recip, &total);
    multiply(cx, e, &recip)
}

/// Imports a Softmax node: the exponential of each element, divided by the sum
/// of the exponentials along the axis (the last one, if none is given). The
/// greatest element along the axis is taken off first, so that no exponential
/// overflows.
pub fn parse_softmax_node(
    node: &NodeDef,
    tensors: &mut NameMap<GraphTensor>,
    cx: &mut ComputeGraph,
    weight_data: &mut Vec<(String, Vec<u32>)>,
) -> (result: Result<(), String>)
    requires
        valid(*old(tensors), *old(cx)),
        !(softmax_outcome(
                *node,
                state(*old(tensors), *old(cx), data(*old(weight_data)), Map::empty()),
            ) is Rejects),
    ensures
        valid(*final(tensors), *final(cx)),
        grows(*old(cx), *final(cx)),
        softmax_step(
            *node,
            state(*old(tensors), *old(cx), data(*old(weight_data)), Map::empty()),
            state(*final(tensors), *final(cx), data(*final(weight_data)), Map::empty()),
            ending(result),
        ),
{
    settle(try_softmax_node(node, tensors, cx, weight_data))
}

/// The import of the same nodes, and of those that the operation does not admit.
pub(crate) fn try_softmax_node(
    node: &NodeDef,
    tensors: &mut NameMap<GraphTensor>,
    cx: &mut ComputeGraph,
    weight_data: &mut Vec<(String, Vec<u32>)>,
) -> (result: Result<(), Fault>)
    requires
        valid(*old(tensors), *old(cx)),
    ensures
        valid(*final(tensors), *final(cx)),
        grows(*old(cx), *final(cx)),
        softmax_step(
            *node,
            state(*old(tensors), *old(cx), data(*old(weight_data)), Map::empty()),
            state(*final(tensors), *final(cx), data(*final(weight_data)), Map::empty()),
            outcome(result),
        ),
{
    let (x, sizes) = match sized_input(node, "Softmax: missing input tensor '", tensors, cx) {
        Ok(found) => found,
        Err(fault) => {
            return Err(fault);
        },
    };
    let rank: usize = sizes.len();
    let axis: usize = match count_axis(get_int_attr(node, "axis", -1), rank, rank) {
        Some(axis) => axis,
        None => {
            return Err(Fault::Rejected);
        },
    };
    let out = node.output[0].as_str();
    let numbers = vec![("_neg_one", NEG_ONE), ("_log2e", LOG2_E)];
    assert(number_list(numbers@) =~= softmax_numbers());
    let named = name_numbers(tensors, cx, weight_data, out, &numbers);
    assert(are_numbers(*cx, named@, node.out(0), softmax_numbers()));
    let e = add_exponentials(cx, &x, &named, &sizes, axis, Ghost(node.out(0)));
    let result = divide_by_sum(cx, &e, axis);
    bind(tensors, cx, out, result);
    Ok(())
}

/// What the import of an activation function with one input does.
pub open spec fn activation_step(
    node: NodeDef,
    prefix: Seq<char>,
    numbers: Seq<(Seq<char>, u32)>,
    formula: Tensor,
    before: State,
    after: State,
    result: Outcome,
) -> bool {
    &&& result == activation_outcome(node, prefix, before)
    &&& result is Fails ==> after == before
    &&& result is Done ==> activated(node, numbers, formula, before, after)
}

/// The numbers that the formula of Sigmoid needs.
pub open spec fn sigmoid_numbers() -> Seq<(Seq<char>, u32)> {
    seq![("_sigmoid_one"@, ONE), ("_sigmoid_neg_one"@, NEG_ONE), ("_sigmoid_log2e"@, LOG2_E)]
}

/// The formula of Sigmoid: `1 / (1 + exp(-x))`.
pub open spec fn sigmoid_formula(x: Tensor, out: Seq<char>) -> Tensor {
    let e = times(
        times(x, spread(x, out, "_sigmoid_neg_one"@)),
        spread(x, out, "_sigmoid_log2e"@),
    ).unary(Unary::Exp2);
    plus(spread(x, out, "_sigmoid_one"@), e).unary(Unary::Recip)
}

/// Imports a Sigmoid node: the logistic function of each element.
pub fn parse_sigmoid_node(
    node: &NodeDef,
    tensors: &mut NameMap<GraphTensor>,
    cx: &mut ComputeGraph,
    weight_data: &mut Vec<(String, Vec<u32>)>,
) -> (result: Result<(), String>)
    requires
        valid(*old(tensors), *old(cx)),
        !(activation_outcome(
                *node,
                "Sigmoid: missing input tensor '"@,
                state(*old(tensors), *old(cx), data(*old(weight_data)), Map::empty()),
            ) is Rejects),
    ensures
        valid(*final(tensors), *final(cx)),
        grows(*old(cx), *final(cx)),
        activation_step(
            *node,
            "Sigmoid: missing input tensor '"@,
            sigmoid_numbers(),
            sigmoid_formula(env(*old(tensors), *old(cx))[node.inp(0)], node.out(0)),
            state(*old(tensors), *old(cx), data(*old(weight_data)), Map::empty()),
            state(*final(tensors), *final(cx), data(*final(weight_data)), Map::empty()),
            ending(result),
        ),
{
    settle(try_sigmoid_node(node, tensors, cx, weight_data))
}

/// The import of the same nodes, and of those that the operation does not admit.
pub(crate) fn try_sigmoid_node(
    node: &NodeDef,
    tensors: &mut NameMap<GraphTensor>,
    cx: &mut ComputeGraph,
    weight_data: &mut Vec<(String, Vec<u32>)>,
) -> (result: Result<(), Fault>)
    requires
        valid(*old(tensors), *old(cx)),
    ensures
        valid(*final(tensors), *final(cx)),
        grows(*old(cx), *final(cx)),
        activation_step(
            *node,
            "Sigmoid: missing input tensor '"@,
            sigmoid_numbers(),
            sigmoid_formula(env(*old(tensors), *old(cx))[node.inp(0)], node.out(0)),
            state(*old(tensors), *old(cx), data(*old(weight_data)), Map::empty()),
            state(*final(tensors), *final(cx), data(*final(weight_data)), Map::empty()),
            outcome(result),
        ),
{
    let (x, sizes) = match sized_input(node, "Sigmoid: missing input tensor '", tensors, cx) {
        Ok(found) => found,
        Err(fault) => {
            return Err(fault);
        },
    };
    let out = node.output[0].as_str();
    let numbers = vec![
        ("_sigmoid_one", ONE),
        ("_sigmoid_neg_one", NEG_ONE),
        ("_sigmoid_log2e", LOG2_E),
    ];
    assert(number_list(numbers@) =~= sigmoid_numbers());
    let named = name_numbers(tensors, cx, weight_data, out, &numbers);
    let one = spread_to(&named[0], &sizes);
    let neg_one = spread_to(&named[1], &sizes);
    let log2e = spread_to(&named[2], &sizes);
    let neg_x = multiply(cx, &x, &neg_one);
    let exponent = multiply(cx, &neg_x, &log2e);
    let e = apply(cx, Unary::Exp2, &exponent);
    let one_plus = sum(cx, &one, &e);
    let result = apply(cx, Unary::Recip, &one_plus);
    bind(tensors, cx, out, result);
    Ok(())
}

/// The logistic function of `a * x * (1 + b * x * x)`, with 1 given twice.
pub open spec fn cubic_sigmoid(
    x: Tensor,
    a: Tensor,
    b: Tensor,
    one: Tensor,
    neg_one: Tensor,
    log2e: Tensor,
    one2: Tensor,
) -> Tensor {
    let cubic = times(a, times(x, plus(one, times(b, times(x, x)))));
    plus(one2, times(times(neg_one, cubic), log2e).unary(Unary::Exp2)).unary(Unary::Recip)
}

/// Adds the logistic function of `a * x * (1 + b * x * x)`.
fn add_cubic_sigmoid(
    cx: &mut ComputeGraph,
    x: &GraphTensor,
    a: &GraphTensor,
    b: &GraphTensor,
    one: &GraphTensor,
    neg_one: &GraphTensor,
    log2e: &GraphTensor,
    one2: &GraphTensor,
) -> (r: GraphTensor)
    requires
        old(cx).holds(x@),
        old(cx).holds(a@),
        old(cx).holds(b@),
        old(cx).holds(one@),
        old(cx).holds(neg_one@),
        old(cx).holds(log2e@),
        old(cx).holds(one2@),
        x@.shape.dims == a@.shape.dims,
        x@.shape.dims == b@.shape.dims,
        x@.shape.dims == one@.shape.dims,
        x@.shape.dims == neg_one@.shape.dims,
        x@.shape.dims == log2e@.shape.dims,
        x@.shape.dims == one2@.shape.dims,
    ensures
        grows(*old(cx), *final(cx)),
        final(cx).holds(r@),
        final(cx).meaning(r@) == cubic_sigmoid(
            old(cx).meaning(x@),
            old(cx).meaning(a@),
            old(cx).meaning(b@),
            old(cx).meaning(one@),
            old(cx).meaning(neg_one@),
            old(cx).meaning(log2e@),
            old(cx).meaning(one2@),
        ),
        r@.shape.dims == x@.shape.dims,
{
    let squared = multiply(cx, x, x);
    let term = multiply(cx, b, &squared);
    let inner = sum(cx, one, &term);
    let product = multiply(cx, x, &inner);
    let cubic = multiply(cx, a, &product);
    let negated = multiply(cx, neg_one, &cubic);
    let exponent = multiply(cx, &negated, log2e);
    let e = apply(cx, Unary::Exp2, &exponent);
    let one_plus = sum(cx, one2, &e);
    apply(cx, Unary::Recip, &one_plus)
}

/// The numbers that the formula of Erf needs.
pub open spec fn erf_numbers() -> Seq<(Seq<char>, u32)> {
    seq![
        ("_erf_coeff_a"@, ERF_A),
        ("_erf_coeff_b"@, ERF_B),
        ("_erf_one"@, ONE),
        ("_erf_neg_one"@, NEG_ONE),
        ("_erf_two"@, TWO),
        ("_erf_log2e"@, LOG2_E),
        ("_erf_one2"@, ONE),
        ("_erf_neg_one2"@, NEG_ONE),
    ]
}

/// The formula of Erf: `2 * sigmoid(2.2567585 * x * (1 + 0.0885 * x * x)) - 1`.
pub open spec fn erf_formula(x: Tensor, out: Seq<char>) -> Tensor {
    let sigmoid = cubic_sigmoid(
        x,
        spread(x, out, "_erf_coeff_a"@),
        spread(x, out, "_erf_coeff_b"@),
        spread(x, out, "_erf_one"@),
        spread(x, out, "_erf_neg_one"@),
        spread(x, out, "_erf_log2e"@),
        spread(x, out, "_erf_one2"@),
    );
    plus(times(spread(x, out, "_erf_two"@), sigmoid), spread(x, out, "_erf_neg_one2"@))
}

/// Imports an Erf node: the error function of each element, approximated by
/// means of the logistic function.
pub fn parse_erf_node(
    node: &NodeDef,
    tensors: &mut NameMap<GraphTensor>,
    cx: &mut ComputeGraph,
    weight_data: &mut Vec<(String, Vec<u32>)>,
) -> (result: Result<(), String>)
    requires
        valid(*old(tensors), *old(cx)),
        !(activation_outcome(
                *node,
                "Erf: missing input tensor '"@,
                state(*old(tensors), *old(cx), data(*old(weight_data)), Map::empty()),
            ) is Rejects),
    ensures
        valid(*final(tensors), *final(cx)),
        grows(*old(cx), *final(cx)),
        activation_step(
            *node,
            "Erf: missing input tensor '"@,
            erf_numbers(),
            erf_formula(env(*old(tensors), *old(cx))[node.inp(0)], node.out(0)),
            state(*old(tensors), *old(cx), data(*old(weight_data)), Map::empty()),
            state(*final(tensors), *final(cx), data(*final(weight_data)), Map::empty()),
            ending(result),
        ),
{
    settle(try_erf_node(node, tensors, cx, weight_data))
}

/// The import of the same nodes, and of those that the operation does not admit.
pub(crate) fn try_erf_node(
    node: &NodeDef,
    tensors: &mut NameMap<GraphTensor>,
    cx: &mut ComputeGraph,
    weight_data: &mut Vec<(String, Vec<u32>)>,
) -> (result: Result<(), Fault>)
    requires
        valid(*old(tensors), *old(cx)),
    ensures
        valid(*final(tensors), *final(cx)),
        grows(*old(cx), *final(cx)),
        activation_step(
            *node,
            "Erf: missing input tensor '"@,
            erf_numbers(),
            erf_formula(env(*old(tensors), *old(cx))[node.inp(0)], node.out(0)),
            state(*old(tensors), *old(cx), data(*old(weight_data)), Map::empty()),
            state(*final(tensors), *final(cx), data(*final(weight_data)), Map::empty()),
            outcome(result),
        ),
{
    let (x, sizes) = match sized_input(node, "Erf: missing input tensor '", tensors, cx) {
        Ok(found) => found,
        Err(fault) => {
            return Err(fault);
        },
    };
    let out = node.output[0].as_str();
    let numbers = vec![
        ("_erf_coeff_a", ERF_A),
        ("_erf_coeff_b", ERF_B),
        ("_erf_one", ONE),
        ("_erf_neg_one", NEG_ONE),
        ("_erf_two", TWO),
        ("_erf_log2e", LOG2_E),
        ("_erf_one2", ONE),
        ("_erf_neg_one2", NEG_ONE),
    ];
    assert(number_list(numbers@) =~= erf_numbers());
    let named = name_numbers(tensors, cx, weight_data, out, &numbers);
    let coeff_a = spread_to(&named[0], &sizes);
    let coeff_b = spread_to(&named[1], &sizes);
    let one = spread_to(&named[2], &sizes);
    let neg_one = spread_to(&named[3], &sizes);
    let two = spread_to(&named[4], &sizes);
    let log2e = spread_to(&named[5], &sizes);
    let one2 = spread_to(&named[6], &sizes);
    let neg_one2 = spread_to(&named[7], &sizes);
    let sigmoid = add_cubic_sigmoid(
        cx,
        &x,
        &coeff_a,
        &coeff_b,
        &one,
        &neg_one,
        &log2e,
        &one2,
    );
    let doubled = multiply(cx, &two, &sigmoid);
    let result = sum(cx, &doubled, &neg_one2);
    bind(tensors, cx, out, result);
    Ok(())
}

/// The numbers that the formula of Gelu needs.
pub open spec fn gelu_numbers() -> Seq<(Seq<char>, u32)> {
    seq![
        ("_gelu_coeff_a"@, GELU_A),
        ("_gelu_coeff_b"@, GELU_B),
        ("_gelu_one"@, ONE),
        ("_gelu_neg_one"@, NEG_ONE),
        ("_gelu_log2e"@, LOG2_E),
        ("_gelu_one2"@, ONE),
    ]
}

/// The formula of Gelu: `x * sigmoid(1.5957692 * x * (1 + 0.044715 * x * x))`.
pub open spec fn gelu_formula(x: Tensor, out: Seq<char>) -> Tensor {
    let sigmoid = cubic_sigmoid(
        x,
        spread(x, out, "_gelu_coeff_a"@),
        spread(x, out, "_gelu_coeff_b"@),
        spread(x, out, "_gelu_one"@),
        spread(x, out, "_gelu_neg_one"@),
        spread(x, out, "_gelu_log2e"@),
        spread(x, out, "_gelu_one2"@),
    );
    times(x, sigmoid)
}

/// Imports a Gelu node: the Gaussian error linear unit of each element,
/// approximated by means of the logistic function.
pub fn parse_gelu_node(
    node: &NodeDef,
    tensors: &mut NameMap<GraphTensor>,
    cx: &mut ComputeGraph,
    weight_data: &mut Vec<(String, Vec<u32>)>,
) -> (result: Result<(), String>)
    requires
        valid(*old(tensors), *old(cx)),
        !(activation_outcome(
                *node,
                "Gelu: missing input tensor '"@,
                state(*old(tensors), *old(cx), data(*old(weight_data)), Map::empty()),
            ) is Rejects),
    ensures
        valid(*final(tensors), *final(cx)),
        grows(*old(cx), *final(cx)),
        activation_step(
            *node,
            "Gelu: missing input tensor '"@,
            gelu_numbers(),
            gelu_formula(env(*old(tensors), *old(cx))[node.inp(0)], node.out(0)),
            state(*old(tensors), *old(cx), data(*old(weight_data)), Map::empty()),
            state(*final(tensors), *final(cx), data(*final(weight_data)), Map::empty()),
            ending(result),
        ),
{
    settle(try_gelu_node(node, tensors, cx, weight_data))
}

/// The import of the same nodes, and of those that the operation does not admit.
pub(crate) fn try_gelu_node(
    node: &NodeDef,
    tensors: &mut NameMap<GraphTensor>,
    cx: &mut ComputeGraph,
    weight_data: &mut Vec<(String, Vec<u32>)>,
) -> (result: Result<(), Fault>)
    requires
        valid(*old(tensors), *old(cx)),
    ensures
        valid(*final(tensors), *final(cx)),
        grows(*old(cx), *final(cx)),
        activation_step(
            *node,
            "Gelu: missing input tensor '"@,
            gelu_numbers(),
            gelu_formula(env(*old(tensors), *old(cx))[node.inp(0)], node.out(0)),
            state(*old(tensors), *old(cx), data(*old(weight_data)), Map::empty()),
            state(*final(tensors), *final(cx), data(*final(weight_data)), Map::empty()),
            outcome(result),
        ),
{
    let (x, sizes) = match sized_input(node, "Gelu: missing input tensor '", tensors, cx) {
        Ok(found) => found,
        Err(fault) => {
            return Err(fault);
        },
    };
    let out = node.output[0].as_str();
    let numbers = vec![
        ("_gelu_coeff_a", GELU_A),
        ("_gelu_coeff_b", GELU_B),
        ("_gelu_one", ONE),
        ("_gelu_neg_one", NEG_ONE),
        ("_gelu_log2e", LOG2_E),
        ("_gelu_one2", ONE),
    ];
    assert(number_list(numbers@) =~= gelu_numbers());
    let named = name_numbers(tensors, cx, weight_data, out, &numbers);
    let coeff_a = spread_to(&named[0], &sizes);
    let coeff_b = spread_to(&named[1], &sizes);
    let one = spread_to(&named[2], &sizes);
    let neg_one = spread_to(&named[3], &sizes);
    let log2e = spread_to(&named[4], &sizes);
    let one2 = spread_to(&named[5], &sizes);
    let sigmoid = add_cubic_sigmoid(
        cx,
        &x,
        &coeff_a,
        &coeff_b,
        &one,
        &neg_one,
        &log2e,
        &one2,
    );
    let result = multiply(cx, &x, &sigmoid);
    bind(tensors, cx, out, result);
    Ok(())
}

/// An axis of a Softmax node, and the same axis counted from behind the last one,
/// give the same import.
pub proof fn law_softmax_axes_agree(
    a: NodeDef,
    b: NodeDef,
    before: State,
    after: State,
    result: Outcome,
)
    requires
        a.input == b.input,
        a.output == b.output,
        0 <= a.int_attr("axis"@, (-1) as i64) < before.env[a.inp(0)].dims().len(),
        b.int_attr("axis"@, (-1) as i64) == a.int_attr("axis"@, (-1) as i64)
            - before.env[a.inp(0)].dims().len(),
    ensures
        softmax_step(a, before, after, result) == softmax_step(b, before, after, result),
{
}

} // verus!

//! Operations on the elements of one tensor, or on the elements at the same
//! index of two.

use crate::bits::FloatMath;
use crate::fold::{
    broadcast_binop, map_values, reciprocal_values, spread_elements, Mapping, Pairing,
};
#[allow(unused_imports)]
use crate::fold::{can_pair, maps_to, pairwise, reciprocals, spread_values};
use crate::graph::{broadcast_to, group_graph, Binary, ComputeGraph, GraphTensor, Unary};
#[allow(unused_imports)]
use crate::graph::{grows, load, Tensor};
use crate::names::{join, NameMap};
use crate::proto::{copy_bits, NodeDef};
use crate::shape::{checked_product, compute_broadcast_shape, copy_dims, dims_of, known_sizes, Dim};
#[allow(unused_imports)]
use crate::shape::{
    all_known, bounded_product, broadcast_sizes, can_broadcast, known_dims, law_joint_sizes_fit,
    product, sizes_of,
};
use crate::state::{bind, fetch, group_state, recall, remember, settle, supply, Fault};
#[allow(unused_imports)]
use crate::state::{
    changed, data, ending, env, missing, outcome, state, valid, values, Outcome, State,
};
use vstd::prelude::*;

verus! {

broadcast use {group_graph, group_state};

/// How the import of a node with one input ends.
pub open spec fn single_outcome(node: NodeDef, prefix: Seq<char>, before: State) -> Outcome {
    if node.input@.len() != 1 {
        Outcome::Rejects
    } else if !before.env.contains_key(node.inp(0)) {
        Outcome::Fails(missing(prefix, node.inp(0)))
    } else if node.output@.len() == 0 {
        Outcome::Rejects
    } else {
        Outcome::Done
    }
}

/// What an operation on each element of a tensor stands for.
pub open spec fn mapped_tensor(op: Mapping, x: Tensor) -> Tensor {
    match op {
        Mapping::Sqrt => x.unary(Unary::Sqrt),
        Mapping::Sin => x.unary(Unary::Sin),
        Mapping::Cos => x.unary(Unary::Cos),
        Mapping::Neg => x.negative(),
        Mapping::Abs => x.unary(Unary::Abs),
    }
}

/// Adds an operation on each element of a tensor.
fn map_tensor(cx: &mut ComputeGraph, op: Mapping, x: &GraphTensor) -> (r: GraphTensor)
    requires
        old(cx).holds(x@),
    ensures
        grows(*old(cx), *final(cx)),
        final(cx).holds(r@),
        final(cx).meaning(r@) == mapped_tensor(op, old(cx).meaning(x@)),
{
    match op {
        Mapping::Sqrt => cx.unary(Unary::Sqrt, x),
        Mapping::Sin => cx.unary(Unary::Sin, x),
        Mapping::Cos => cx.unary(Unary::Cos, x),
        Mapping::Neg => cx.negate(x),
        Mapping::Abs => cx.unary(Unary::Abs, x),
    }
}

/// What the import of an operation on each element of a tensor does: the
/// output stands for the operation on the input, and if the elements of the
/// input are known, so are those of the output.
pub open spec fn unary_step<M: FloatMath>(
    math: M,
    node: NodeDef,
    prefix: Seq<char>,
    op: Mapping,
    before: State,
    after: State,
    result: Outcome,
) -> bool {
    &&& result == single_outcome(node, prefix, before)
    &&& result is Fails ==> after == before
    &&& result is Done ==> {
        let out = node.out(0);
        &&& after.env == before.env.insert(out, mapped_tensor(op, before.env[node.inp(0)]))
        &&& changed(before.tensors, after.tensors, set![out])
        &&& after.weights == before.weights
        &&& if before.known.contains_key(node.inp(0)) {
            &&& after.known == before.known.insert(out, after.known[out])
            &&& maps_to(math, op, before.known[node.inp(0)], after.known[out])
        } else {
            after.known == before.known
        }
    }
}

fn unary_node<M: FloatMath>(
    node: &NodeDef,
    prefix: &str,
    op: Mapping,
    tensors: &mut NameMap<GraphTensor>,
    cx: &mut ComputeGraph,
    known_values: &mut NameMap<Vec<u32>>,
    math: &M,
) -> (result: Result<(), Fault>)
    requires
        valid(*old(tensors), *old(cx)),
    ensures
        valid(*final(tensors), *final(cx)),
        grows(*old(cx), *final(cx)),
        unary_step(
            *math,
            *node,
            prefix@,
            op,
            state(*old(tensors), *old(cx), Seq::empty(), values(*old(known_values))),
            state(*final(tensors), *final(cx), Seq::empty(), values(*final(known_values))),
            outcome(result),
        ),
{
    if node.input.len() != 1 {
        return Err(Fault::Rejected);
    }
    let input = match fetch(tensors, &node.input[0], prefix) {
        Ok(input) => input,
        Err(fault) => {
            return Err(fault);
        },
    };
    if node.output.len() == 0 {
        return Err(Fault::Rejected);
    }
    let result = map_tensor(cx, op, &input);
    bind(tensors, cx, node.output[0].as_str(), result);
    if let Some(vals) = recall(known_values, &node.input[0]) {
        let folded = map_values(math, op, &vals);
        remember(known_values, node.output[0].as_str(), folded);
    }
    Ok(())
}

/// Imports a Sqrt node: the square root of each element.
pub fn parse_sqrt_node<M: FloatMath>(
    node: &NodeDef,
    tensors: &mut NameMap<GraphTensor>,
    cx: &mut ComputeGraph,
    known_values: &mut NameMap<Vec<u32>>,
    math: &M,
) -> (result: Result<(), String>)
    requires
        valid(*old(tensors), *old(cx)),
        !(single_outcome(
                *node,
                "Sqrt: missing input tensor '"@,
                state(*old(tensors), *old(cx), Seq::empty(), values(*old(known_values))),
            ) is Rejects),
    ensures
        valid(*final(tensors), *final(cx)),
        grows(*old(cx), *final(cx)),
        unary_step(
            *math,
            *node,
            "Sqrt: missing input tensor '"@,
            Mapping::Sqrt,
            state(*old(tensors), *old(cx), Seq::empty(), values(*old(known_values))),
            state(*final(tensors), *final(cx), Seq::empty(), values(*final(known_values))),
            ending(result),
        ),
{
    settle(try_sqrt_node(node, tensors, cx, known_values, math))
}

/// The import of the same nodes, and of those that the operation does not admit.
pub(crate) fn try_sqrt_node<M: FloatMath>(
    node: &NodeDef,
    tensors: &mut NameMap<GraphTensor>,
    cx: &mut ComputeGraph,
    known_values: &mut NameMap<Vec<u32>>,
    math: &M,
) -> (result: Result<(), Fault>)
    requires
        valid(*old(tensors), *old(cx)),
    ensures
        valid(*final(tensors), *final(cx)),
        grows(*old(cx), *final(cx)),
        unary_step(
            *math,
            *node,
            "Sqrt: missing input tensor '"@,
            Mapping::Sqrt,
            state(*old(tensors), *old(cx), Seq::empty(), values(*old(known_values))),
            state(*final(tensors), *final(cx), Seq::empty(), values(*final(known_values))),
            outcome(result),
        ),
{
    unary_node(
        node,
        "Sqrt: missing input tensor '",
        Mapping::Sqrt,
        tensors,
        cx,
        known_values,
        math,
    )
}

/// Imports a Cos node: the cosine of each element.
pub fn parse_cos_node<M: FloatMath>(
    node: &NodeDef,
    tensors: &mut NameMap<GraphTensor>,
    cx: &mut ComputeGraph,
    known_values: &mut NameMap<Vec<u32>>,
    math: &M,
) -> (result: Result<(), String>)
    requires
        valid(*old(tensors), *old(cx)),
        !(single_outcome(
                *node,
                "Cos: missing input tensor '"@,
                state(*old(tensors), *old(cx), Seq::empty(), values(*old(known_values))),
            ) is Rejects),
    ensures
        valid(*final(tensors), *final(cx)),
        grows(*old(cx), *final(cx)),
        unary_step(
            *math,
            *node,
            "Cos: missing input tensor '"@,
            Mapping::Cos,
            state(*old(tensors), *old(cx), Seq::empty(), values(*old(known_values))),
            state(*final(tensors), *final(cx), Seq::empty(), values(*final(known_values))),
            ending(result),
        ),
{
    settle(try_cos_node(node, tensors, cx, known_values, math))
}

/// The import of the same nodes, and of those that the operation does not admit.
pub(crate) fn try_cos_node<M: FloatMath>(
    node: &NodeDef,
    tensors: &mut NameMap<GraphTensor>,
    cx: &mut ComputeGraph,
    known_values: &mut NameMap<Vec<u32>>,
    math: &M,
) -> (result: Result<(), Fault>)
    requires
        valid(*old(tensors), *old(cx)),
    ensures
        valid(*final(tensors), *final(cx)),
        grows(*old(cx), *final(cx)),
        unary_step(
            *math,
            *node,
            "Cos: missing input tensor '"@,
            Mapping::Cos,
            state(*old(tensors), *old(cx), Seq::empty(), values(*old(known_values))),
            state(*final(tensors), *final(cx), Seq::empty(), values(*final(known_values))),
            outcome(result),
        ),
{
    unary_node(
        node,
        "Cos: missing input tensor '",
        Mapping::Cos,
        tensors,
        cx,
        known_values,
        math,
    )
}

/// Imports a Sin node: the sine of each element.
pub fn parse_sin_node<M: FloatMath>(
    node: &NodeDef,
    tensors: &mut NameMap<GraphTensor>,
    cx: &mut ComputeGraph,
    known_values: &mut NameMap<Vec<u32>>,
    math: &M,
) -> (result: Result<(), String>)
    requires
        valid(*old(tensors), *old(cx)),
        !(single_outcome(
                *node,
                "Sin: missing input tensor '"@,
                state(*old(tensors), *old(cx), Seq::empty(), values(*old(known_values))),
            ) is Rejects),
    ensures
        valid(*final(tensors), *final(cx)),
        grows(*old(cx), *final(cx)),
        unary_step(
            *math,
            *node,
            "Sin: missing input tensor '"@,
            Mapping::Sin,
            state(*old(tensors), *old(cx), Seq::empty(), values(*old(known_values))),
            state(*final(tensors), *final(cx), Seq::empty(), values(*final(known_values))),
            ending(result),
        ),
{
    settle(try_sin_node(node, tensors, cx, known_values, math))
}

/// The import of the same nodes, and of those that the operation does not admit.
pub(crate) fn try_sin_node<M: FloatMath>(
    node: &NodeDef,
    tensors: &mut NameMap<GraphTensor>,
    cx: &mut ComputeGraph,
    known_values: &mut NameMap<Vec<u32>>,
    math: &M,
) -> (result: Result<(), Fault>)
    requires
        valid(*old(tensors), *old(cx)),
    ensures
        valid(*final(tensors), *final(cx)),
        grows(*old(cx), *final(cx)),
        unary_step(
            *math,
            *node,
            "Sin: missing input tensor '"@,
            Mapping::Sin,
            state(*old(tensors), *old(cx), Seq::empty(), values(*old(known_values))),
            state(*final(tensors), *final(cx), Seq::empty(), values(*final(known_values))),
            outcome(result),
        ),
{
    unary_node(
        node,
        "Sin: missing input tensor '",
        Mapping::Sin,
        tensors,
        cx,
        known_values,
        math,
    )
}

/// Imports a Neg node: the negation of each element.
pub fn parse_neg_node<M: FloatMath>(
    node: &NodeDef,
    tensors: &mut NameMap<GraphTensor>,
    cx: &mut ComputeGraph,
    known_values: &mut NameMap<Vec<u32>>,
    math: &M,
) -> (result: Result<(), String>)
    requires
        valid(*old(tensors), *old(cx)),
        !(single_outcome(
                *node,
                "Neg: missing input tensor '"@,
                state(*old(tensors), *old(cx), Seq::empty(), values(*old(known_values))),
            ) is Rejects),
    ensures
        valid(*final(tensors), *final(cx)),
        grows(*old(cx), *final(cx)),
        unary_step(
            *math,
            *node,
            "Neg: missing input tensor '"@,
            Mapping::Neg,
            state(*old(tensors), *old(cx), Seq::empty(), values(*old(known_values))),
            state(*final(tensors), *final(cx), Seq::empty(), values(*final(known_values))),
            ending(result),
        ),
{
    settle(try_neg_node(node, tensors, cx, known_values, math))
}

/// The import of the same nodes, and of those that the operation does not admit.
pub(crate) fn try_neg_node<M: FloatMath>(
    node: &NodeDef,
    tensors: &mut NameMap<GraphTensor>,
    cx: &mut ComputeGraph,
    known_values: &mut NameMap<Vec<u32>>,
    math: &M,
) -> (result: Result<(), Fault>)
    requires
        valid(*old(tensors), *old(cx)),
    ensures
        valid(*final(tensors), *final(cx)),
        grows(*old(cx), *final(cx)),
        unary_step(
            *math,
            *node,
            "Neg: missing input tensor '"@,
            Mapping::Neg,
            state(*old(tensors), *old(cx), Seq::empty(), values(*old(known_values))),
            state(*final(tensors), *final(cx), Seq::empty(), values(*final(known_values))),
            outcome(result),
        ),
{
    unary_node(
        node,
        "Neg: missing input tensor '",
        Mapping::Neg,
        tensors,
        cx,
        known_values,
        math,
    )
}

/// Imports a Abs node: the absolute value of each element.
pub fn parse_abs_node<M: FloatMath>(
    node: &NodeDef,
    tensors: &mut NameMap<GraphTensor>,
    cx: &mut ComputeGraph,
    known_values: &mut NameMap<Vec<u32>>,
    math: &M,
) -> (result: Result<(), String>)
    requires
        valid(*old(tensors), *old(cx)),
        !(single_outcome(
                *node,
                "Abs: missing input tensor '"@,
                state(*old(tensors), *old(cx), Seq::empty(), values(*old(known_values))),
            ) is Rejects),
    ensures
        valid(*final(tensors), *final(cx)),
        grows(*old(cx), *final(cx)),
        unary_step(
            *math,
            *node,
            "Abs: missing input tensor '"@,
            Mapping::Abs,
            state(*old(tensors), *old(cx), Seq::empty(), values(*old(known_values))),
            state(*final(tensors), *final(cx), Seq::empty(), values(*final(known_values))),
            ending(result),
        ),
{
    settle(try_abs_node(node, tensors, cx, known_values, math))
}

/// The import of the same nodes, and of those that the operation does not admit.
pub(crate) fn try_abs_node<M: FloatMath>(
    node: &NodeDef,
    tensors: &mut NameMap<GraphTensor>,
    cx: &mut ComputeGraph,
    known_values: &mut NameMap<Vec<u32>>,
    math: &M,
) -> (result: Result<(), Fault>)
    requires
        valid(*old(tensors), *old(cx)),
    ensures
        valid(*final(tensors), *final(cx)),
        grows(*old(cx), *final(cx)),
        unary_step(
            *math,
            *node,
            "Abs: missing input tensor '"@,
            Mapping::Abs,
            state(*old(tensors), *old(cx), Seq::empty(), values(*old(known_values))),
            state(*final(tensors), *final(cx), Seq::empty(), values(*final(known_values))),
            outcome(result),
        ),
{
    unary_node(
        node,
        "Abs: missing input tensor '",
        Mapping::Abs,
        tensors,
        cx,
        known_values,
        math,
    )
}

/// How the import of a node with two inputs that are repeated into joint sizes
/// ends, as far as the tensors decide it.
pub open spec fn operands_outcome(
    node: NodeDef,
    first: Seq<char>,
    second: Seq<char>,
    before: State,
) -> Outcome {
    if node.input@.len() != 2 {
        Outcome::Rejects
    } else if !before.env.contains_key(node.inp(0)) {
        Outcome::Fails(missing(first, node.inp(0)))
    } else if !before.env.contains_key(node.inp(1)) {
        Outcome::Fails(missing(second, node.inp(1)))
    } else if node.output@.len() == 0 {
        Outcome::Rejects
    } else if broadcast_sizes(before.env[node.inp(0)].dims(), before.env[node.inp(1)].dims()) is None {
        Outcome::Rejects
    } else {
        Outcome::Done
    }
}

/// Whether the elements of both inputs are known.
pub open spec fn both_known(node: NodeDef, before: State) -> bool {
    before.known.contains_key(node.inp(0)) && before.known.contains_key(node.inp(1))
}

/// Whether each input has as many known elements as its sizes say.
pub open spec fn both_whole(node: NodeDef, before: State) -> bool {
    let a = before.env[node.inp(0)].dims();
    let b = before.env[node.inp(1)].dims();
    &&& bounded_product(sizes_of(a)) == Some(before.known[node.inp(0)].len() as usize)
    &&& bounded_product(sizes_of(b)) == Some(before.known[node.inp(1)].len() as usize)
}

/// Whether the known elements of both inputs can be paired: those of inputs that
/// have as many as their sizes say once they are repeated into the joint sizes,
/// those of others one by one.
pub open spec fn can_fold(node: NodeDef, before: State) -> bool {
    if both_whole(node, before) {
        bounded_product(joint(node, before)) is Some
    } else {
        can_pair(before.known[node.inp(0)], before.known[node.inp(1)])
    }
}

/// Whether the elements of `out` are results of an operation on the known
/// elements of both inputs.
pub open spec fn folds_to<M: FloatMath>(
    math: M,
    node: NodeDef,
    op: Pairing,
    before: State,
    out: Seq<u32>,
) -> bool {
    let a = before.known[node.inp(0)];
    let b = before.known[node.inp(1)];
    let sizes = joint(node, before);
    if both_whole(node, before) {
        pairwise(
            math,
            op,
            spread_values(a, sizes_of(before.env[node.inp(0)].dims()), sizes),
            spread_values(b, sizes_of(before.env[node.inp(1)].dims()), sizes),
            out,
        )
    } else {
        pairwise(math, op, a, b, out)
    }
}

/// How the import of a node with two inputs that are repeated into joint sizes
/// ends.
pub open spec fn pair_outcome(
    node: NodeDef,
    first: Seq<char>,
    second: Seq<char>,
    before: State,
) -> Outcome {
    let operands = operands_outcome(node, first, second, before);
    if operands is Done && both_known(node, before) && !can_fold(node, before) {
        Outcome::Rejects
    } else {
        operands
    }
}

/// The sizes that both inputs are repeated into.
pub open spec fn joint(node: NodeDef, before: State) -> Seq<usize> {
    broadcast_sizes(before.env[node.inp(0)].dims(), before.env[node.inp(1)].dims())->0
}

/// What an operation on the elements of two tensors stands for.
pub open spec fn combined(op: Pairing, a: Tensor, b: Tensor, sizes: Seq<usize>) -> Tensor {
    let x = a.broadcast(sizes);
    let y = b.broadcast(sizes);
    match op {
        Pairing::Add => x.binary(Binary::Add, y),
        Pairing::Mul => x.binary(Binary::Mul, y),
        Pairing::Div => x.quotient(y),
        Pairing::Rem => x.binary(Binary::Rem, y),
        Pairing::Pow => x.binary(Binary::Pow, y),
        Pairing::Equal => x.binary(Binary::Eq, y),
        Pairing::AtMost => x.binary(Binary::Lt, y).binary(Binary::Add, x.binary(Binary::Eq, y)),
    }
}

/// What the import of an operation on the elements of two tensors does: the
/// output stands for the operation, and if the elements of both inputs are
/// known, so are those of the output.
pub open spec fn pair_step<M: FloatMath>(
    math: M,
    node: NodeDef,
    first: Seq<char>,
    second: Seq<char>,
    op: Pairing,
    before: State,
    after: State,
    result: Outcome,
) -> bool {
    &&& result == pair_outcome(node, first, second, before)
    &&& result is Fails ==> after == before
    &&& result is Done ==> {
        let out = node.out(0);
        let a = before.env[node.inp(0)];
        let b = before.env[node.inp(1)];
        &&& after.env == before.env.insert(out, combined(op, a, b, joint(node, before)))
        &&& changed(before.tensors, after.tensors, set![out])
        &&& after.weights == before.weights
        &&& if both_known(node, before) {
            &&& after.known == before.known.insert(out, after.known[out])
            &&& folds_to(math, node, op, before, after.known[out])
        } else {
            after.known == before.known
        }
    }
}

/// The output is a named tensor whose elements are results of an operation on
/// the known elements of both inputs.
pub open spec fn folded_step<M: FloatMath>(
    math: M,
    node: NodeDef,
    op: Pairing,
    before: State,
    after: State,
) -> bool {
    let out = node.out(0);
    &&& after.env == before.env.insert(out, load(out, known_dims(joint(node, before))))
    &&& changed(before.tensors, after.tensors, set![out])
    &&& after.known == before.known.insert(out, after.known[out])
    &&& after.weights == before.weights.push((out, after.known[out]))
    &&& folds_to(math, node, op, before, after.known[out])
}

/// What the import of an operation on the elements of two tensors does that
/// leaves nothing to compute if the elements of both are known: the output is
/// then a named tensor with known elements.
pub open spec fn fold_step<M: FloatMath>(
    math: M,
    node: NodeDef,
    prefix: Seq<char>,
    op: Pairing,
    before: State,
    after: State,
    result: Outcome,
) -> bool {
    &&& result == pair_outcome(node, prefix, prefix, before)
    &&& result is Fails ==> after == before
    &&& result is Done ==> if both_known(node, before) {
        folded_step(math, node, op, before, after)
    } else {
        let out = node.out(0);
        let a = before.env[node.inp(0)];
        let b = before.env[node.inp(1)];
        &&& after.env == before.env.insert(out, combined(op, a, b, joint(node, before)))
        &&& changed(before.tensors, after.tensors, set![out])
        &&& after.weights == before.weights
        &&& after.known == before.known
    }
}

/// The two inputs of a node and the sizes that they are repeated into.
fn operands(
    node: &NodeDef,
    first: &str,
    second: &str,
    tensors: &NameMap<GraphTensor>,
    cx: &ComputeGraph,
) -> (found: Result<(GraphTensor, GraphTensor, Vec<usize>), Fault>)
    requires
        valid(*tensors, *cx),
    ensures
        ({
            let before = state(*tensors, *cx, Seq::empty(), Map::empty());
            match found {
                Ok((a, b, sizes)) => {
                    &&& operands_outcome(*node, first@, second@, before) is Done
                    &&& a@ == tensors@[node.inp(0)]@
                    &&& b@ == tensors@[node.inp(1)]@
                    &&& sizes@ == joint(*node, before)
                    &&& all_known(a@.shape.dims)
                    &&& all_known(b@.shape.dims)
                    &&& can_broadcast(a@.shape.dims, sizes@)
                    &&& can_broadcast(b@.shape.dims, sizes@)
                },
                Err(fault) => outcome(Err(fault)) == operands_outcome(
                    *node,
                    first@,
                    second@,
                    before,
                ),
            }
        }),
{
    if node.input.len() != 2 {
        return Err(Fault::Rejected);
    }
    let a = match fetch(tensors, &node.input[0], first) {
        Ok(a) => a,
        Err(fault) => {
            return Err(fault);
        },
    };
    let b = match fetch(tensors, &node.input[1], second) {
        Ok(b) => b,
        Err(fault) => {
            return Err(fault);
        },
    };
    if node.output.len() == 0 {
        return Err(Fault::Rejected);
    }
    match compute_broadcast_shape(a.dims(), b.dims()) {
        Some(sizes) => {
            proof {
                law_joint_sizes_fit(a@.shape.dims, b@.shape.dims);
            }
            Ok((a, b, sizes))
        },
        None => Err(Fault::Rejected),
    }
}

/// The sizes that the dimensions say, if there are as many elements as they say.
fn whole_sizes(dims: &Vec<Dim>, v: &Vec<u32>) -> (sizes: Option<Vec<usize>>)
    requires
        all_known(dims@),
    ensures
        match sizes {
            Some(s) => {
                &&& s@ == sizes_of(dims@)
                &&& known_dims(s@) == dims@
                &&& bounded_product(s@) == Some(v@.len() as usize)
                &&& product(s@) == v@.len()
            },
            None => bounded_product(sizes_of(dims@)) != Some(v@.len() as usize),
        },
{
    match known_sizes(dims) {
        Some(sizes) => match checked_product(&sizes) {
            Some(n) => {
                if n == v.len() {
                    Some(sizes)
                } else {
                    None
                }
            },
            None => None,
        },
        None => None,
    }
}

/// The results of an operation on the known elements of both inputs, if they can
/// be paired.
fn fold_values<M: FloatMath>(
    math: &M,
    op: Pairing,
    a: &GraphTensor,
    b: &GraphTensor,
    sizes: &Vec<usize>,
    va: &Vec<u32>,
    vb: &Vec<u32>,
    Ghost(node): Ghost<NodeDef>,
    Ghost(before): Ghost<State>,
) -> (folded: Option<Vec<u32>>)
    requires
        all_known(a@.shape.dims),
        all_known(b@.shape.dims),
        can_broadcast(a@.shape.dims, sizes@),
        can_broadcast(b@.shape.dims, sizes@),
        before.env[node.inp(0)].dims() == a@.shape.dims,
        before.env[node.inp(1)].dims() == b@.shape.dims,
        before.known[node.inp(0)] == va@,
        before.known[node.inp(1)] == vb@,
        joint(node, before) == sizes@,
    ensures
        match folded {
            Some(v) => can_fold(node, before) && folds_to(*math, node, op, before, v@),
            None => !can_fold(node, before),
        },
{
    match (whole_sizes(a.dims(), va), whole_sizes(b.dims(), vb)) {
        (Some(from_a), Some(from_b)) => {
            match checked_product(sizes) {
                Some(count) => {
                    let x = spread_elements(va, &from_a, sizes, count);
                    let y = spread_elements(vb, &from_b, sizes, count);
                    Some(broadcast_binop(math, op, &x, &y))
                },
                None => None,
            }
        },
        _ => {
            if (va.len() == 0) == (vb.len() == 0) {
                Some(broadcast_binop(math, op, va, vb))
            } else {
                None
            }
        },
    }
}

/// Adds an operation on the elements of two tensors.
fn combine(cx: &mut ComputeGraph, op: Pairing, a: &GraphTensor, b: &GraphTensor, sizes: &Vec<usize>) -> (r:
    GraphTensor)
    requires
        old(cx).holds(a@),
        old(cx).holds(b@),
        can_broadcast(a@.shape.dims, sizes@),
        can_broadcast(b@.shape.dims, sizes@),
    ensures
        grows(*old(cx), *final(cx)),
        final(cx).holds(r@),
        final(cx).meaning(r@) == combined(op, old(cx).meaning(a@), old(cx).meaning(b@), sizes@),
{
    let x = broadcast_to(a, sizes);
    let y = broadcast_to(b, sizes);
    match op {
        Pairing::Add => cx.binary(Binary::Add, &x, &y),
        Pairing::Mul => cx.binary(Binary::Mul, &x, &y),
        Pairing::Div => cx.divide(&x, &y),
        Pairing::Rem => cx.binary(Binary::Rem, &x, &y),
        Pairing::Pow => cx.binary(Binary::Pow, &x, &y),
        Pairing::Equal => cx.binary(Binary::Eq, &x, &y),
        Pairing::AtMost => {
            let less = cx.binary(Binary::Lt, &x, &y);
            let same = cx.binary(Binary::Eq, &x, &y);
            assert(cx.meaning(same@).shape == same@.shape);
            cx.binary(Binary::Add, &less, &same)
        },
    }
}

fn pair_node<M: FloatMath>(
    node: &NodeDef,
    first: &str,
    second: &str,
    op: Pairing,
    tensors: &mut NameMap<GraphTensor>,
    cx: &mut ComputeGraph,
    known_values: &mut NameMap<Vec<u32>>,
    math: &M,
) -> (result: Result<(), Fault>)
    requires
        valid(*old(tensors), *old(cx)),
    ensures
        valid(*final(tensors), *final(cx)),
        grows(*old(cx), *final(cx)),
        pair_step(
            *math,
            *node,
            first@,
            second@,
            op,
            state(*old(tensors), *old(cx), Seq::empty(), values(*old(known_values))),
            state(*final(tensors), *final(cx), Seq::empty(), values(*final(known_values))),
            outcome(result),
        ),
{
    let ghost before = state(*tensors, *cx, Seq::empty(), values(*known_values));
    let (a, b, sizes) = match operands(node, first, second, tensors, cx) {
        Ok(found) => found,
        Err(fault) => {
            return Err(fault);
        },
    };
    let out = node.output[0].as_str();
    let result = combine(cx, op, &a, &b, &sizes);
    bind(tensors, cx, out, result);
    if let Some(va) = recall(known_values, &node.input[0]) {
        if let Some(vb) = recall(known_values, &node.input[1]) {
            let folded = match fold_values(
                math,
                op,
                &a,
                &b,
                &sizes,
                &va,
                &vb,
                Ghost(*node),
                Ghost(before),
            ) {
                Some(folded) => folded,
                None => {
                    return Err(Fault::Rejected);
                },
            };
            remember(known_values, out, folded);
        }
    }
    Ok(())
}

fn fold_node<M: FloatMath>(
    node: &NodeDef,
    prefix: &str,
    op: Pairing,
    tensors: &mut NameMap<GraphTensor>,
    cx: &mut ComputeGraph,
    weight_data: &mut Vec<(String, Vec<u32>)>,
    known_values: &mut NameMap<Vec<u32>>,
    math: &M,
) -> (result: Result<(), Fault>)
    requires
        valid(*old(tensors), *old(cx)),
    ensures
        valid(*final(tensors), *final(cx)),
        grows(*old(cx), *final(cx)),
        fold_step(
            *math,
            *node,
            prefix@,
            op,
            state(*old(tensors), *old(cx), data(*old(weight_data)), values(*old(known_values))),
            state(
                *final(tensors),
                *final(cx),
                data(*final(weight_data)),
                values(*final(known_values)),
            ),
            outcome(result),
        ),
{
    let ghost before = state(*tensors, *cx, data(*weight_data), values(*known_values));
    let (a, b, sizes) = match operands(node, prefix, prefix, tensors, cx) {
        Ok(found) => found,
        Err(fault) => {
            return Err(fault);
        },
    };
    let out = node.output[0].as_str();
    if let Some(va) = recall(known_values, &node.input[0]) {
        if let Some(vb) = recall(known_values, &node.input[1]) {
            let folded = match fold_values(
                math,
                op,
                &a,
                &b,
                &sizes,
                &va,
                &vb,
                Ghost(*node),
                Ghost(before),
            ) {
                Some(folded) => folded,
                None => {
                    return Err(Fault::Rejected);
                },
            };
            let tensor = cx.named_tensor(out, dims_of(&sizes));
            bind(tensors, cx, out, tensor);
            remember(known_values, out, copy_bits(&folded));
            supply(weight_data, out, folded);
            return Ok(());
        }
    }
    let result = combine(cx, op, &a, &b, &sizes);
    bind(tensors, cx, out, result);
    Ok(())
}

/// Imports an Add node: the sum of two tensors, repeated by the rules of numpy.
pub fn parse_add_node<M: FloatMath>(
    node: &NodeDef,
    tensors: &mut NameMap<GraphTensor>,
    cx: &mut ComputeGraph,
    weight_data: &mut Vec<(String, Vec<u32>)>,
    known_values: &mut NameMap<Vec<u32>>,
    math: &M,
) -> (result: Result<(), String>)
    requires
        valid(*old(tensors), *old(cx)),
        !(pair_outcome(
                *node,
                "Add: missing input tensor '"@,
                "Add: missing input tensor '"@,
                state(*old(tensors), *old(cx), data(*old(weight_data)), values(*old(known_values))),
            ) is Rejects),
    ensures
        valid(*final(tensors), *final(cx)),
        grows(*old(cx), *final(cx)),
        fold_step(
            *math,
            *node,
            "Add: missing input tensor '"@,
            Pairing::Add,
            state(*old(tensors), *old(cx), data(*old(weight_data)), values(*old(known_values))),
            state(
                *final(tensors),
                *final(cx),
                data(*final(weight_data)),
                values(*final(known_values)),
            ),
            ending(result),
        ),
{
    settle(try_add_node(node, tensors, cx, weight_data, known_values, math))
}

/// The import of the same nodes, and of those that the operation does not admit.
pub(crate) fn try_add_node<M: FloatMath>(
    node: &NodeDef,
    tensors: &mut NameMap<GraphTensor>,
    cx: &mut ComputeGraph,
    weight_data: &mut Vec<(String, Vec<u32>)>,
    known_values: &mut NameMap<Vec<u32>>,
    math: &M,
) -> (result: Result<(), Fault>)
    requires
        valid(*old(tensors), *old(cx)),
    ensures
        valid(*final(tensors), *final(cx)),
        grows(*old(cx), *final(cx)),
        fold_step(
            *math,
            *node,
            "Add: missing input tensor '"@,
            Pairing::Add,
            state(*old(tensors), *old(cx), data(*old(weight_data)), values(*old(known_values))),
            state(
                *final(tensors),
                *final(cx),
                data(*final(weight_data)),
                values(*final(known_values)),
            ),
            outcome(result),
        ),
{
    fold_node(
        node,
        "Add: missing input tensor '",
        Pairing::Add,
        tensors,
        cx,
        weight_data,
        known_values,
        math,
    )
}

/// Imports a Mul node: the product of two tensors, repeated by the rules of numpy.
///
/// Where the product of known elements is not a number (0 times infinity, as in
/// masks), 0 stands in its place.
pub fn parse_mul_node<M: FloatMath>(
    node: &NodeDef,
    tensors: &mut NameMap<GraphTensor>,
    cx: &mut ComputeGraph,
    weight_data: &mut Vec<(String, Vec<u32>)>,
    known_values: &mut NameMap<Vec<u32>>,
    math: &M,
) -> (result: Result<(), String>)
    requires
        valid(*old(tensors), *old(cx)),
        !(pair_outcome(
                *node,
                "Mul: missing input tensor '"@,
                "Mul: missing input tensor '"@,
                state(*old(tensors), *old(cx), data(*old(weight_data)), values(*old(known_values))),
            ) is Rejects),
    ensures
        valid(*final(tensors), *final(cx)),
        grows(*old(cx), *final(cx)),
        fold_step(
            *math,
            *node,
            "Mul: missing input tensor '"@,
            Pairing::Mul,
            state(*old(tensors), *old(cx), data(*old(weight_data)), values(*old(known_values))),
            state(
                *final(tensors),
                *final(cx),
                data(*final(weight_data)),
                values(*final(known_values)),
            ),
            ending(result),
        ),
{
    settle(try_mul_node(node, tensors, cx, weight_data, known_values, math))
}

/// The import of the same nodes, and of those that the operation does not admit.
pub(crate) fn try_mul_node<M: FloatMath>(
    node: &NodeDef,
    tensors: &mut NameMap<GraphTensor>,
    cx: &mut ComputeGraph,
    weight_data: &mut Vec<(String, Vec<u32>)>,
    known_values: &mut NameMap<Vec<u32>>,
    math: &M,
) -> (result: Result<(), Fault>)
    requires
        valid(*old(tensors), *old(cx)),
    ensures
        valid(*final(tensors), *final(cx)),
        grows(*old(cx), *final(cx)),
        fold_step(
            *math,
            *node,
            "Mul: missing input tensor '"@,
            Pairing::Mul,
            state(*old(tensors), *old(cx), data(*old(weight_data)), values(*old(known_values))),
            state(
                *final(tensors),
                *final(cx),
                data(*final(weight_data)),
                values(*final(known_values)),
            ),
            outcome(result),
        ),
{
    fold_node(
        node,
        "Mul: missing input tensor '",
        Pairing::Mul,
        tensors,
        cx,
        weight_data,
        known_values,
        math,
    )
}

/// Imports a Pow node: the first tensor to the power of the second.
pub fn parse_pow_node<M: FloatMath>(
    node: &NodeDef,
    tensors: &mut NameMap<GraphTensor>,
    cx: &mut ComputeGraph,
    known_values: &mut NameMap<Vec<u32>>,
    math: &M,
) -> (result: Result<(), String>)
    requires
        valid(*old(tensors), *old(cx)),
        !(pair_outcome(
                *node,
                "Pow: missing base tensor '"@,
                "Pow: missing exponent tensor '"@,
                state(*old(tensors), *old(cx), Seq::empty(), values(*old(known_values))),
            ) is Rejects),
    ensures
        valid(*final(tensors), *final(cx)),
        grows(*old(cx), *final(cx)),
        pair_step(
            *math,
            *node,
            "Pow: missing base tensor '"@,
            "Pow: missing exponent tensor '"@,
            Pairing::Pow,
            state(*old(tensors), *old(cx), Seq::empty(), values(*old(known_values))),
            state(*final(tensors), *final(cx), Seq::empty(), values(*final(known_values))),
            ending(result),
        ),
{
    settle(try_pow_node(node, tensors, cx, known_values, math))
}

/// The import of the same nodes, and of those that the operation does not admit.
pub(crate) fn try_pow_node<M: FloatMath>(
    node: &NodeDef,
    tensors: &mut NameMap<GraphTensor>,
    cx: &mut ComputeGraph,
    known_values: &mut NameMap<Vec<u32>>,
    math: &M,
) -> (result: Result<(), Fault>)
    requires
        valid(*old(tensors), *old(cx)),
    ensures
        valid(*final(tensors), *final(cx)),
        grows(*old(cx), *final(cx)),
        pair_step(
            *math,
            *node,
            "Pow: missing base tensor '"@,
            "Pow: missing exponent tensor '"@,
            Pairing::Pow,
            state(*old(tensors), *old(cx), Seq::empty(), values(*old(known_values))),
            state(*final(tensors), *final(cx), Seq::empty(), values(*final(known_values))),
            outcome(result),
        ),
{
    pair_node(
        node,
        "Pow: missing base tensor '",
        "Pow: missing exponent tensor '",
        Pairing::Pow,
        tensors,
        cx,
        known_values,
        math,
    )
}

/// Imports an Equal node: 1 where the elements are equal, 0 elsewhere.
pub fn parse_equal_node<M: FloatMath>(
    node: &NodeDef,
    tensors: &mut NameMap<GraphTensor>,
    cx: &mut ComputeGraph,
    known_values: &mut NameMap<Vec<u32>>,
    math: &M,
) -> (result: Result<(), String>)
    requires
        valid(*old(tensors), *old(cx)),
        !(pair_outcome(
                *node,
                "Equal: missing input tensor '"@,
                "Equal: missing input tensor '"@,
                state(*old(tensors), *old(cx), Seq::empty(), values(*old(known_values))),
            ) is Rejects),
    ensures
        valid(*final(tensors), *final(cx)),
        grows(*old(cx), *final(cx)),
        pair_step(
            *math,
            *node,
            "Equal: missing input tensor '"@,
            "Equal: missing input tensor '"@,
            Pairing::Equal,
            state(*old(tensors), *old(cx), Seq::empty(), values(*old(known_values))),
            state(*final(tensors), *final(cx), Seq::empty(), values(*final(known_values))),
            ending(result),
        ),
{
    settle(try_equal_node(node, tensors, cx, known_values, math))
}

/// The import of the same nodes, and of those that the operation does not admit.
pub(crate) fn try_equal_node<M: FloatMath>(
    node: &NodeDef,
    tensors: &mut NameMap<GraphTensor>,
    cx: &mut ComputeGraph,
    known_values: &mut NameMap<Vec<u32>>,
    math: &M,
) -> (result: Result<(), Fault>)
    requires
        valid(*old(tensors), *old(cx)),
    ensures
        valid(*final(tensors), *final(cx)),
        grows(*old(cx), *final(cx)),
        pair_step(
            *math,
            *node,
            "Equal: missing input tensor '"@,
            "Equal: missing input tensor '"@,
            Pairing::Equal,
            state(*old(tensors), *old(cx), Seq::empty(), values(*old(known_values))),
            state(*final(tensors), *final(cx), Seq::empty(), values(*final(known_values))),
            outcome(result),
        ),
{
    pair_node(
        node,
        "Equal: missing input tensor '",
        "Equal: missing input tensor '",
        Pairing::Equal,
        tensors,
        cx,
        known_values,
        math,
    )
}

/// Imports a LessOrEqual node: 1 where the first element is at most the second,
/// 0 elsewhere: whether it is less, plus whether it is equal.
pub fn parse_less_or_equal_node<M: FloatMath>(
    node: &NodeDef,
    tensors: &mut NameMap<GraphTensor>,
    cx: &mut ComputeGraph,
    known_values: &mut NameMap<Vec<u32>>,
    math: &M,
) -> (result: Result<(), String>)
    requires
        valid(*old(tensors), *old(cx)),
        !(pair_outcome(
                *node,
                "LessOrEqual: missing input tensor '"@,
                "LessOrEqual: missing input tensor '"@,
                state(*old(tensors), *old(cx), Seq::empty(), values(*old(known_values))),
            ) is Rejects),
    ensures
        valid(*final(tensors), *final(cx)),
        grows(*old(cx), *final(cx)),
        pair_step(
            *math,
            *node,
            "LessOrEqual: missing input tensor '"@,
            "LessOrEqual: missing input tensor '"@,
            Pairing::AtMost,
            state(*old(tensors), *old(cx), Seq::empty(), values(*old(known_values))),
            state(*final(tensors), *final(cx), Seq::empty(), values(*final(known_values))),
            ending(result),
        ),
{
    settle(try_less_or_equal_node(node, tensors, cx, known_values, math))
}

/// The import of the same nodes, and of those that the operation does not admit.
pub(crate) fn try_less_or_equal_node<M: FloatMath>(
    node: &NodeDef,
    tensors: &mut NameMap<GraphTensor>,
    cx: &mut ComputeGraph,
    known_values: &mut NameMap<Vec<u32>>,
    math: &M,
) -> (result: Result<(), Fault>)
    requires
        valid(*old(tensors), *old(cx)),
    ensures
        valid(*final(tensors), *final(cx)),
        grows(*old(cx), *final(cx)),
        pair_step(
            *math,
            *node,
            "LessOrEqual: missing input tensor '"@,
            "LessOrEqual: missing input tensor '"@,
            Pairing::AtMost,
            state(*old(tensors), *old(cx), Seq::empty(), values(*old(known_values))),
            state(*final(tensors), *final(cx), Seq::empty(), values(*final(known_values))),
            outcome(result),
        ),
{
    pair_node(
        node,
        "LessOrEqual: missing input tensor '",
        "LessOrEqual: missing input tensor '",
        Pairing::AtMost,
        tensors,
        cx,
        known_values,
        math,
    )
}

/// Imports a Mod node: the remainder of the first tensor by the second.
pub fn parse_mod_node<M: FloatMath>(
    node: &NodeDef,
    tensors: &mut NameMap<GraphTensor>,
    cx: &mut ComputeGraph,
    known_values: &mut NameMap<Vec<u32>>,
    math: &M,
) -> (result: Result<(), String>)
    requires
        valid(*old(tensors), *old(cx)),
        !(pair_outcome(
                *node,
                "Mod: missing input tensor '"@,
                "Mod: missing input tensor '"@,
                state(*old(tensors), *old(cx), Seq::empty(), values(*old(known_values))),
            ) is Rejects),
    ensures
        valid(*final(tensors), *final(cx)),
        grows(*old(cx), *final(cx)),
        pair_step(
            *math,
            *node,
            "Mod: missing input tensor '"@,
            "Mod: missing input tensor '"@,
            Pairing::Rem,
            state(*old(tensors), *old(cx), Seq::empty(), values(*old(known_values))),
            state(*final(tensors), *final(cx), Seq::empty(), values(*final(known_values))),
            ending(result),
        ),
{
    settle(try_mod_node(node, tensors, cx, known_values, math))
}

/// The import of the same nodes, and of those that the operation does not admit.
pub(crate) fn try_mod_node<M: FloatMath>(
    node: &NodeDef,
    tensors: &mut NameMap<GraphTensor>,
    cx: &mut ComputeGraph,
    known_values: &mut NameMap<Vec<u32>>,
    math: &M,
) -> (result: Result<(), Fault>)
    requires
        valid(*old(tensors), *old(cx)),
    ensures
        valid(*final(tensors), *final(cx)),
        grows(*old(cx), *final(cx)),
        pair_step(
            *math,
            *node,
            "Mod: missing input tensor '"@,
            "Mod: missing input tensor '"@,
            Pairing::Rem,
            state(*old(tensors), *old(cx), Seq::empty(), values(*old(known_values))),
            state(*final(tensors), *final(cx), Seq::empty(), values(*final(known_values))),
            outcome(result),
        ),
{
    pair_node(
        node,
        "Mod: missing input tensor '",
        "Mod: missing input tensor '",
        Pairing::Rem,
        tensors,
        cx,
        known_values,
        math,
    )
}

/// The name of the reciprocal of a named tensor.
pub open spec fn recip_name(name: Seq<char>) -> Seq<char> {
    name + "_recip"@
}

/// Whether only the elements of the divisor are known.
pub open spec fn divisor_known(node: NodeDef, before: State) -> bool {
    before.known.contains_key(node.inp(1)) && !both_known(node, before)
}

/// How the import of a Div node ends.
pub open spec fn div_outcome(node: NodeDef, before: State) -> Outcome {
    let prefix = "Div: missing input tensor '"@;
    let pair = pair_outcome(node, prefix, prefix, before);
    let recip = recip_name(node.inp(1));
    if pair is Done && divisor_known(node, before) && before.env.contains_key(recip)
        && !can_broadcast(before.env[recip].dims(), joint(node, before)) {
        Outcome::Rejects
    } else {
        pair
    }
}

/// What the import of a Div node does. If the elements of both inputs are
/// known, so are the quotients. If only those of the divisor are, the first
/// input is multiplied by a named tensor of their reciprocals, which is made
/// once. Else the first input is divided by the second.
pub open spec fn div_step<M: FloatMath>(
    math: M,
    node: NodeDef,
    before: State,
    after: State,
    result: Outcome,
) -> bool {
    let out = node.out(0);
    let recip = recip_name(node.inp(1));
    let a = before.env[node.inp(0)];
    let b = before.env[node.inp(1)];
    let sizes = joint(node, before);
    &&& result == div_outcome(node, before)
    &&& result is Fails ==> after == before
    &&& result is Done ==> if both_known(node, before) {
        folded_step(math, node, Pairing::Div, before, after)
    } else if !divisor_known(node, before) {
        &&& after.env == before.env.insert(out, combined(Pairing::Div, a, b, sizes))
        &&& changed(before.tensors, after.tensors, set![out])
        &&& after.weights == before.weights
        &&& after.known == before.known
    } else if before.env.contains_key(recip) {
        &&& after.env == before.env.insert(
            out,
            combined(Pairing::Mul, a, before.env[recip], sizes),
        )
        &&& changed(before.tensors, after.tensors, set![out])
        &&& after.weights == before.weights
        &&& after.known == before.known
    } else {
        &&& after.env == before.env.insert(recip, load(recip, b.dims())).insert(
            out,
            combined(Pairing::Mul, a, load(recip, b.dims()), sizes),
        )
        &&& changed(before.tensors, after.tensors, set![recip, out])
        &&& after.weights == before.weights.push((recip, after.weights.last().1))
        &&& reciprocals(math, before.known[node.inp(1)], after.weights.last().1)
        &&& after.known == before.known
    }
}

/// Imports a Div node: the quotient of two tensors, repeated by the rules of
/// numpy.
pub fn parse_div_node<M: FloatMath>(
    node: &NodeDef,
    tensors: &mut NameMap<GraphTensor>,
    cx: &mut ComputeGraph,
    weight_data: &mut Vec<(String, Vec<u32>)>,
    known_values: &mut NameMap<Vec<u32>>,
    math: &M,
) -> (result: Result<(), String>)
    requires
        valid(*old(tensors), *old(cx)),
        !(div_outcome(
                *node,
                state(*old(tensors), *old(cx), data(*old(weight_data)), values(*old(known_values))),
            ) is Rejects),
    ensures
        valid(*final(tensors), *final(cx)),
        grows(*old(cx), *final(cx)),
        div_step(
            *math,
            *node,
            state(*old(tensors), *old(cx), data(*old(weight_data)), values(*old(known_values))),
            state(
                *final(tensors),
                *final(cx),
                data(*final(weight_data)),
                values(*final(known_values)),
            ),
            ending(result),
        ),
{
    settle(try_div_node(node, tensors, cx, weight_data, known_values, math))
}

/// The import of the same nodes, and of those that the operation does not admit.
pub(crate) fn try_div_node<M: FloatMath>(
    node: &NodeDef,
    tensors: &mut NameMap<GraphTensor>,
    cx: &mut ComputeGraph,
    weight_data: &mut Vec<(String, Vec<u32>)>,
    known_values: &mut NameMap<Vec<u32>>,
    math: &M,
) -> (result: Result<(), Fault>)
    requires
        valid(*old(tensors), *old(cx)),
    ensures
        valid(*final(tensors), *final(cx)),
        grows(*old(cx), *final(cx)),
        div_step(
            *math,
            *node,
            state(*old(tensors), *old(cx), data(*old(weight_data)), values(*old(known_values))),
            state(
                *final(tensors),
                *final(cx),
                data(*final(weight_data)),
                values(*final(known_values)),
            ),
            outcome(result),
        ),
{
    let prefix = "Div: missing input tensor '";
    let ghost before = state(*tensors, *cx, data(*weight_data), values(*known_values));
    let (a, b, sizes) = match operands(node, prefix, prefix, tensors, cx) {
        Ok(found) => found,
        Err(fault) => {
            return Err(fault);
        },
    };
    let out = node.output[0].as_str();
    if let Some(vb) = recall(known_values, &node.input[1]) {
        if let Some(va) = recall(known_values, &node.input[0]) {
            let folded = match fold_values(
                math,
                Pairing::Div,
                &a,
                &b,
                &sizes,
                &va,
                &vb,
                Ghost(*node),
                Ghost(before),
            ) {
                Some(folded) => folded,
                None => {
                    return Err(Fault::Rejected);
                },
            };
            let tensor = cx.named_tensor(out, dims_of(&sizes));
            bind(tensors, cx, out, tensor);
            remember(known_values, out, copy_bits(&folded));
            supply(weight_data, out, folded);
            return Ok(());
        }
        let recip_name = join(node.input[1].as_str(), "_recip", "");
        proof {
            reveal_strlit("");
            assert(recip_name@ =~= node.inp(1) + "_recip"@);
        }
        let recip = match tensors.get(recip_name.as_str()) {
            Some(existing) => {
                if !existing.shape.broadcasts_to(&sizes) {
                    return Err(Fault::Rejected);
                }
                existing.copy()
            },
            None => {
                let tensor = cx.named_tensor(recip_name.as_str(), copy_dims(b.dims()));
                bind(tensors, cx, recip_name.as_str(), tensor.copy());
                supply(weight_data, recip_name.as_str(), reciprocal_values(math, &vb));
                tensor
            },
        };
        let result = combine(cx, Pairing::Mul, &a, &recip, &sizes);
        bind(tensors, cx, out, result);
        return Ok(());
    }
    let result = combine(cx, Pairing::Div, &a, &b, &sizes);
    bind(tensors, cx, out, result);
    Ok(())
}

/// A second Div node by the same known divisor reuses the reciprocals of the first:
/// it adds no data, and multiplies by the tensor that the first has named.
pub proof fn law_second_division_reuses_reciprocals<M: FloatMath>(
    math: M,
    first: NodeDef,
    second: NodeDef,
    before: State,
    middle: State,
    after: State,
)
    requires
        div_step(math, first, before, middle, Outcome::Done),
        div_step(math, second, middle, after, Outcome::Done),
        first.inp(1) == second.inp(1),
        divisor_known(first, before),
        divisor_known(second, middle),
    ensures
        after.weights == middle.weights,
        after.env == middle.env.insert(
            second.out(0),
            combined(
                Pairing::Mul,
                middle.env[second.inp(0)],
                middle.env[recip_name(first.inp(1))],
                joint(second, middle),
            ),
        ),
{
}

} // verus!

//! Operations that change how the elements of a tensor are read, but not the
//! elements.

use crate::bits::{from_bool, from_i64, from_usize, is_nonzero, to_i64, ONE};
#[allow(unused_imports)]
use crate::bits::{as_i64, as_usize, indicator, law_whole_numbers_survive, nonzero, of_int};
use crate::graph::{broadcast_to, group_graph, Binary, ComputeGraph, DType, GraphTensor, Unary};
#[allow(unused_imports)]
use crate::graph::{grows, scalar, Handle, Tensor};
use crate::names::{join, NameMap};
use crate::ops::axes::{copy_numbers, count_axes, sort_axes, to_whole_numbers};
#[allow(unused_imports)]
use crate::ops::axes::{all_in_rank, counted_all, in_order, law_in_order, whole_numbers};
use crate::ops::constant::define;
#[allow(unused_imports)]
use crate::ops::constant::{defined, sizes_from};
#[allow(unused_imports)]
use crate::ops::elementwise::single_outcome;
#[allow(unused_imports)]
use crate::ops::normalize::{axes_from, given_axes};
use crate::proto::{find_attr, get_int_attr, NodeDef};
use crate::shape::{checked_product, dims_of, known_sizes, Dim};
#[allow(unused_imports)]
use crate::shape::{
    all_known, bounded_product, is_permutation, known_dims, law_without_undoes_expanded, product,
    sizes_of, Shape,
};
use crate::state::{bind, fetch, group_state, recall, remember, settle, Fault};
#[allow(unused_imports)]
use crate::state::{
    changed, data, ending, env, missing, outcome, state, valid, values, Outcome, State,
};
use vstd::prelude::*;

verus! {

broadcast use {group_graph, group_state};

/// The known values after those of `from`, if there are any, have been given to
/// `to` too.
pub open spec fn passed(known: Map<Seq<char>, Seq<u32>>, from: Seq<char>, to: Seq<char>) -> Map<
    Seq<char>,
    Seq<u32>,
> {
    if known.contains_key(from) {
        known.insert(to, known[from])
    } else {
        known
    }
}

/// Gives the known values of `from`, if there are any, to `to` too.
fn pass(known_values: &mut NameMap<Vec<u32>>, from: &String, to: &str)
    ensures
        values(*final(known_values)) == passed(values(*old(known_values)), from@, to@),
{
    if let Some(v) = recall(known_values, from) {
        remember(known_values, to, v);
    }
}

/// The output stands for `result` and has the same elements as the input.
pub open spec fn relaid(node: NodeDef, result: Tensor, before: State, after: State) -> bool {
    &&& after.env == before.env.insert(node.out(0), result)
    &&& changed(before.tensors, after.tensors, set![node.out(0)])
    &&& after.weights == before.weights
    &&& after.known == passed(before.known, node.inp(0), node.out(0))
}

/// How the import of an Identity node ends.
pub open spec fn identity_outcome(node: NodeDef, before: State) -> Outcome {
    if node.input@.len() != 1 {
        Outcome::Rejects
    } else if !before.env.contains_key(node.inp(0)) {
        Outcome::Fails(missing("Identity: missing input tensor '"@, node.inp(0)))
    } else if node.output@.len() != 1 {
        Outcome::Rejects
    } else {
        Outcome::Done
    }
}

/// What the import of an Identity node does: the output is the input.
pub open spec fn identity_step(
    node: NodeDef,
    before: State,
    after: State,
    result: Outcome,
) -> bool {
    &&& result == identity_outcome(node, before)
    &&& result is Fails ==> after == before
    &&& result is Done ==> {
        &&& relaid(node, before.env[node.inp(0)], before, after)
        &&& after.graph == before.graph
        &&& after.tensors == before.tensors.insert(node.out(0), before.tensors[node.inp(0)])
    }
}

/// Imports an Identity node: the output is another name of the input.
pub fn parse_identity(
    node: &NodeDef,
    tensors: &mut NameMap<GraphTensor>,
    cx: &mut ComputeGraph,
    known_values: &mut NameMap<Vec<u32>>,
) -> (result: Result<(), String>)
    requires
        valid(*old(tensors), *old(cx)),
        !(identity_outcome(
                *node,
                state(*old(tensors), *old(cx), Seq::empty(), values(*old(known_values))),
            ) is Rejects),
    ensures
        valid(*final(tensors), *final(cx)),
        grows(*old(cx), *final(cx)),
        identity_step(
            *node,
            state(*old(tensors), *old(cx), Seq::empty(), values(*old(known_values))),
            state(*final(tensors), *final(cx), Seq::empty(), values(*final(known_values))),
            ending(result),
        ),
{
    settle(try_identity(node, tensors, cx, known_values))
}

/// The import of the same nodes, and of those that the operation does not admit.
pub(crate) fn try_identity(
    node: &NodeDef,
    tensors: &mut NameMap<GraphTensor>,
    cx: &mut ComputeGraph,
    known_values: &mut NameMap<Vec<u32>>,
) -> (result: Result<(), Fault>)
    requires
        valid(*old(tensors), *old(cx)),
    ensures
        valid(*final(tensors), *final(cx)),
        grows(*old(cx), *final(cx)),
        identity_step(
            *node,
            state(*old(tensors), *old(cx), Seq::empty(), values(*old(known_values))),
            state(*final(tensors), *final(cx), Seq::empty(), values(*final(known_values))),
            outcome(result),
        ),
{
    if node.input.len() != 1 {
        return Err(Fault::Rejected);
    }
    let input = match fetch(tensors, &node.input[0], "Identity: missing input tensor '") {
        Ok(input) => input,
        Err(fault) => {
            return Err(fault);
        },
    };
    if node.output.len() != 1 {
        return Err(Fault::Rejected);
    }
    let out = node.output[0].as_str();
    bind(tensors, cx, out, input);
    pass(known_values, &node.input[0], out);
    Ok(())
}

/// How the import of a Dropout node ends.
pub open spec fn dropout_outcome(node: NodeDef, before: State) -> Outcome {
    if node.input@.len() == 0 {
        Outcome::Rejects
    } else if !before.env.contains_key(node.inp(0)) {
        Outcome::Fails(missing("Dropout: missing input tensor '"@, node.inp(0)))
    } else if node.output@.len() == 0 {
        Outcome::Rejects
    } else {
        Outcome::Done
    }
}

/// What the import of a Dropout node does: the output is the input.
pub open spec fn dropout_step(
    node: NodeDef,
    before: State,
    after: State,
    result: Outcome,
) -> bool {
    &&& result == dropout_outcome(node, before)
    &&& result is Fails ==> after == before
    &&& result is Done ==> {
        &&& relaid(node, before.env[node.inp(0)], before, after)
        &&& after.graph == before.graph
        &&& after.tensors == before.tensors.insert(node.out(0), before.tensors[node.inp(0)])
    }
}

/// Imports a Dropout node, which does nothing outside training: the output is
/// another name of the input.
pub fn parse_dropout_node(
    node: &NodeDef,
    tensors: &mut NameMap<GraphTensor>,
    cx: &mut ComputeGraph,
    known_values: &mut NameMap<Vec<u32>>,
) -> (result: Result<(), String>)
    requires
        valid(*old(tensors), *old(cx)),
        !(dropout_outcome(
                *node,
                state(*old(tensors), *old(cx), Seq::empty(), values(*old(known_values))),
            ) is Rejects),
    ensures
        valid(*final(tensors), *final(cx)),
        grows(*old(cx), *final(cx)),
        dropout_step(
            *node,
            state(*old(tensors), *old(cx), Seq::empty(), values(*old(known_values))),
            state(*final(tensors), *final(cx), Seq::empty(), values(*final(known_values))),
            ending(result),
        ),
{
    settle(try_dropout_node(node, tensors, cx, known_values))
}

/// The import of the same nodes, and of those that the operation does not admit.
pub(crate) fn try_dropout_node(
    node: &NodeDef,
    tensors: &mut NameMap<GraphTensor>,
    cx: &mut ComputeGraph,
    known_values: &mut NameMap<Vec<u32>>,
) -> (result: Result<(), Fault>)
    requires
        valid(*old(tensors), *old(cx)),
    ensures
        valid(*final(tensors), *final(cx)),
        grows(*old(cx), *final(cx)),
        dropout_step(
            *node,
            state(*old(tensors), *old(cx), Seq::empty(), values(*old(known_values))),
            state(*final(tensors), *final(cx), Seq::empty(), values(*final(known_values))),
            outcome(result),
        ),
{
    if node.input.len() == 0 {
        return Err(Fault::Rejected);
    }
    let input = match fetch(tensors, &node.input[0], "Dropout: missing input tensor '") {
        Ok(input) => input,
        Err(fault) => {
            return Err(fault);
        },
    };
    if node.output.len() == 0 {
        return Err(Fault::Rejected);
    }
    let out = node.output[0].as_str();
    bind(tensors, cx, out, input);
    pass(known_values, &node.input[0], out);
    Ok(())
}

/// The type that a code of the model stands for; truth values and double
/// precision are kept in single precision, and so is every other type.
pub open spec fn cast_type(code: i64) -> DType {
    if code == 10 {
        DType::F16
    } else if code == 16 {
        DType::Bf16
    } else if code == 6 || code == 7 {
        DType::Int
    } else {
        DType::F32
    }
}

/// A known value after a cast: 1 or 0 as a truth value, without its fraction
/// as a whole number, and the same otherwise.
pub open spec fn cast_value(code: i64, v: u32) -> u32 {
    if code == 9 {
        indicator(nonzero(v))
    } else if code == 6 || code == 7 {
        of_int(as_i64(v) as int)
    } else {
        v
    }
}

/// Known values after a cast.
pub open spec fn cast_values(code: i64, v: Seq<u32>) -> Seq<u32> {
    Seq::new(v.len(), |i: int| cast_value(code, v[i]))
}

/// What the import of a Cast node does.
pub open spec fn cast_step(node: NodeDef, before: State, after: State, result: Outcome) -> bool {
    let out = node.out(0);
    let code = node.int_attr("to"@, 1);
    &&& result == single_outcome(node, "Cast: missing input tensor '"@, before)
    &&& result is Fails ==> after == before
    &&& result is Done ==> {
        &&& after.env == before.env.insert(
            out,
            before.env[node.inp(0)].unary(Unary::Cast(cast_type(code))),
        )
        &&& changed(before.tensors, after.tensors, set![out])
        &&& after.weights == before.weights
        &&& after.known == if before.known.contains_key(node.inp(0)) {
            before.known.insert(out, cast_values(code, before.known[node.inp(0)]))
        } else {
            before.known
        }
    }
}

/// Known values after a cast.
fn cast_all(code: i64, v: &Vec<u32>) -> (out: Vec<u32>)
    ensures
        out@ == cast_values(code, v@),
{
    let mut out: Vec<u32> = Vec::new();
    let mut i: usize = 0;
    while i < v.len()
        invariant
            i <= v.len(),
            out@.len() == i,
            forall|k: int| 0 <= k < i ==> #[trigger] out@[k] == cast_value(code, v@[k]),
        decreases v.len() - i,
    {
        let cast: u32 = if code == 9 {
            from_bool(is_nonzero(v[i]))
        } else if code == 6 || code == 7 {
            from_i64(to_i64(v[i]))
        } else {
            v[i]
        };
        out.push(cast);
        i = i + 1;
    }
    assert(out@ =~= cast_values(code, v@));
    out
}

/// Imports a Cast node: the input with another element type.
pub fn parse_cast_node(
    node: &NodeDef,
    tensors: &mut NameMap<GraphTensor>,
    cx: &mut ComputeGraph,
    known_values: &mut NameMap<Vec<u32>>,
) -> (result: Result<(), String>)
    requires
        valid(*old(tensors), *old(cx)),
        !(single_outcome(
                *node,
                "Cast: missing input tensor '"@,
                state(*old(tensors), *old(cx), Seq::empty(), values(*old(known_values))),
            ) is Rejects),
    ensures
        valid(*final(tensors), *final(cx)),
        grows(*old(cx), *final(cx)),
        cast_step(
            *node,
            state(*old(tensors), *old(cx), Seq::empty(), values(*old(known_values))),
            state(*final(tensors), *final(cx), Seq::empty(), values(*final(known_values))),
            ending(result),
        ),
{
    settle(try_cast_node(node, tensors, cx, known_values))
}

/// The import of the same nodes, and of those that the operation does not admit.
pub(crate) fn try_cast_node(
    node: &NodeDef,
    tensors: &mut NameMap<GraphTensor>,
    cx: &mut ComputeGraph,
    known_values: &mut NameMap<Vec<u32>>,
) -> (result: Result<(), Fault>)
    requires
        valid(*old(tensors), *old(cx)),
    ensures
        valid(*final(tensors), *final(cx)),
        grows(*old(cx), *final(cx)),
        cast_step(
            *node,
            state(*old(tensors), *old(cx), Seq::empty(), values(*old(known_values))),
            state(*final(tensors), *final(cx), Seq::empty(), values(*final(known_values))),
            outcome(result),
        ),
{
    if node.input.len() != 1 {
        return Err(Fault::Rejected);
    }
    let input = match fetch(tensors, &node.input[0], "Cast: missing input tensor '") {
        Ok(input) => input,
        Err(fault) => {
            return Err(fault);
        },
    };
    if node.output.len() == 0 {
        return Err(Fault::Rejected);
    }
    let code: i64 = get_int_attr(node, "to", 1);
    let dtype = match code {
        10 => DType::F16,
        16 => DType::Bf16,
        6 => DType::Int,
        7 => DType::Int,
        _ => DType::F32,
    };
    let out = node.output[0].as_str();
    let result = cx.unary(Unary::Cast(dtype), &input);
    bind(tensors, cx, out, result);
    if let Some(v) = recall(known_values, &node.input[0]) {
        remember(known_values, out, cast_all(code, &v));
    }
    Ok(())
}

/// How the import of a Shape node ends.
pub open spec fn shape_outcome(node: NodeDef, before: State) -> Outcome {
    let single = single_outcome(node, "Shape: missing input tensor '"@, before);
    if single is Done && !all_known(before.env[node.inp(0)].dims()) {
        Outcome::Rejects
    } else {
        single
    }
}

/// The sizes of a tensor as numbers.
pub open spec fn sizes_as_values(sizes: Seq<usize>) -> Seq<u32> {
    Seq::new(sizes.len(), |i: int| of_int(sizes[i] as int))
}

/// What the import of a Shape node does: the output is a vector of the known
/// sizes of the input.
pub open spec fn shape_step(node: NodeDef, before: State, after: State, result: Outcome) -> bool {
    let sizes = sizes_of(before.env[node.inp(0)].dims());
    &&& result == shape_outcome(node, before)
    &&& result is Fails ==> after == before
    &&& result is Done ==> defined(
        node.out(0),
        seq![sizes.len() as usize],
        sizes_as_values(sizes),
        before,
        after,
    )
}

/// Imports a Shape node: the sizes of the input, as a vector.
pub fn parse_shape_node(
    node: &NodeDef,
    tensors: &mut NameMap<GraphTensor>,
    cx: &mut ComputeGraph,
    weight_data: &mut Vec<(String, Vec<u32>)>,
    known_values: &mut NameMap<Vec<u32>>,
) -> (result: Result<(), String>)
    requires
        valid(*old(tensors), *old(cx)),
        !(shape_outcome(
                *node,
                state(*old(tensors), *old(cx), data(*old(weight_data)), values(*old(known_values))),
            ) is Rejects),
    ensures
        valid(*final(tensors), *final(cx)),
        grows(*old(cx), *final(cx)),
        shape_step(
            *node,
            state(*old(tensors), *old(cx), data(*old(weight_data)), values(*old(known_values))),
            state(
                *final(tensors),
                *final(cx),
                data(*final(weight_data)),
                values(*final(known_values)),
            ),
            ending(result),
        ),
{
    settle(try_shape_node(node, tensors, cx, weight_data, known_values))
}

/// The import of the same nodes, and of those that the operation does not admit.
pub(crate) fn try_shape_node(
    node: &NodeDef,
    tensors: &mut NameMap<GraphTensor>,
    cx: &mut ComputeGraph,
    weight_data: &mut Vec<(String, Vec<u32>)>,
    known_values: &mut NameMap<Vec<u32>>,
) -> (result: Result<(), Fault>)
    requires
        valid(*old(tensors), *old(cx)),
    ensures
        valid(*final(tensors), *final(cx)),
        grows(*old(cx), *final(cx)),
        shape_step(
            *node,
            state(*old(tensors), *old(cx), data(*old(weight_data)), values(*old(known_values))),
            state(
                *final(tensors),
                *final(cx),
                data(*final(weight_data)),
                values(*final(known_values)),
            ),
            outcome(result),
        ),
{
    if node.input.len() != 1 {
        return Err(Fault::Rejected);
    }
    let input = match fetch(tensors, &node.input[0], "Shape: missing input tensor '") {
        Ok(input) => input,
        Err(fault) => {
            return Err(fault);
        },
    };
    if node.output.len() == 0 {
        return Err(Fault::Rejected);
    }
    let sizes = match known_sizes(input.dims()) {
        Some(sizes) => sizes,
        None => {
            return Err(Fault::Rejected);
        },
    };
    let mut elements: Vec<u32> = Vec::new();
    let mut i: usize = 0;
    while i < sizes.len()
        invariant
            i <= sizes.len(),
            elements@.len() == i,
            forall|k: int| 0 <= k < i ==> #[trigger] elements@[k] == of_int(sizes@[k] as int),
        decreases sizes.len() - i,
    {
        elements.push(from_usize(sizes[i]));
        i = i + 1;
    }
    assert(elements@ =~= sizes_as_values(sizes@));
    let shape: Vec<usize> = vec![sizes.len()];
    assert(shape@ =~= seq![sizes@.len() as usize]);
    define(
        node.output[0].as_str(),
        &shape,
        elements,
        tensors,
        cx,
        weight_data,
        known_values,
    );
    Ok(())
}

/// The order of axes that a Transpose node asks for, if it gives one for each
/// axis; otherwise the reversed order.
pub open spec fn transpose_order(node: NodeDef, rank: nat) -> Seq<usize> {
    match node.attr("perm"@) {
        Some(a) => Seq::new(a.ints@.len(), |i: int| a.ints@[i] as usize),
        None => Seq::new(rank, |i: int| (rank - 1 - i) as usize),
    }
}

/// Whether the order of axes that a Transpose node gives has each axis once.
pub open spec fn can_transpose(node: NodeDef, rank: nat) -> bool {
    match node.attr("perm"@) {
        Some(a) => {
            &&& a.ints@.len() == rank
            &&& forall|i: int| 0 <= i < rank ==> 0 <= #[trigger] a.ints@[i] < rank
            &&& a.ints@.no_duplicates()
        },
        None => true,
    }
}

/// How the import of a Transpose node ends.
pub open spec fn transpose_outcome(node: NodeDef, before: State) -> Outcome {
    let single = single_outcome(node, "Transpose: missing input tensor '"@, before);
    if single is Done && !can_transpose(node, before.env[node.inp(0)].dims().len()) {
        Outcome::Rejects
    } else {
        single
    }
}

/// What the import of a Transpose node does.
pub open spec fn transpose_step(
    node: NodeDef,
    before: State,
    after: State,
    result: Outcome,
) -> bool {
    let x = before.env[node.inp(0)];
    &&& result == transpose_outcome(node, before)
    &&& result is Fails ==> after == before
    &&& result is Done ==> {
        &&& after.env == before.env.insert(
            node.out(0),
            x.permuted(transpose_order(node, x.dims().len())),
        )
        &&& after.graph == before.graph
        &&& changed(before.tensors, after.tensors, set![node.out(0)])
        &&& after.weights == before.weights
        &&& after.known == before.known
    }
}

/// The order of axes that the given numbers stand for, if they have each of
/// `rank` axes once.
fn axis_order(given: &Vec<i64>, rank: usize) -> (order: Option<Vec<usize>>)
    ensures
        match order {
            Some(o) => {
                &&& given@.len() == rank
                &&& forall|i: int| 0 <= i < rank ==> 0 <= #[trigger] given@[i] < rank
                &&& given@.no_duplicates()
                &&& o@ == Seq::new(given@.len(), |i: int| given@[i] as usize)
                &&& is_permutation(o@, rank as nat)
            },
            None => !(given@.len() == rank && (forall|i: int|
                0 <= i < rank ==> 0 <= #[trigger] given@[i] < rank) && given@.no_duplicates()),
        },
{
    if given.len() != rank {
        return None;
    }
    let mut order: Vec<usize> = Vec::new();
    let mut i: usize = 0;
    while i < rank
        invariant
            given@.len() == rank,
            i <= rank,
            order@.len() == i,
            forall|k: int|
                0 <= k < i ==> 0 <= #[trigger] given@[k] < rank && order@[k] == given@[k],
            forall|k: int, l: int| 0 <= k < l < i ==> given@[k] != given@[l],
        decreases rank - i,
    {
        let axis: i64 = given[i];
        if axis < 0 || axis as u64 >= rank as u64 {
            assert(!(0 <= given@[i as int] < rank));
            return None;
        }
        let mut j: usize = 0;
        while j < i
            invariant
                j <= i,
                i < given@.len(),
                axis == given@[i as int],
                forall|k: int| 0 <= k < j ==> given@[k] != axis,
            decreases i - j,
        {
            if given[j] == axis {
                return None;
            }
            j = j + 1;
        }
        order.push(axis as usize);
        i = i + 1;
    }
    assert(order@ =~= Seq::new(given@.len(), |i: int| given@[i] as usize));
    Some(order)
}

/// Imports a Transpose node: the axes of the input in another order, which is
/// the reversed one if none is given.
pub fn parse_transpose_node(
    node: &NodeDef,
    tensors: &mut NameMap<GraphTensor>,
    cx: &mut ComputeGraph,
) -> (result: Result<(), String>)
    requires
        valid(*old(tensors), *old(cx)),
        !(transpose_outcome(
                *node,
                state(*old(tensors), *old(cx), Seq::empty(), Map::empty()),
            ) is Rejects),
    ensures
        valid(*final(tensors), *final(cx)),
        grows(*old(cx), *final(cx)),
        transpose_step(
            *node,
            state(*old(tensors), *old(cx), Seq::empty(), Map::empty()),
            state(*final(tensors), *final(cx), Seq::empty(), Map::empty()),
            ending(result),
        ),
{
    settle(try_transpose_node(node, tensors, cx))
}

/// The import of the same nodes, and of those that the operation does not admit.
pub(crate) fn try_transpose_node(
    node: &NodeDef,
    tensors: &mut NameMap<GraphTensor>,
    cx: &mut ComputeGraph,
) -> (result: Result<(), Fault>)
    requires
        valid(*old(tensors), *old(cx)),
    ensures
        valid(*final(tensors), *final(cx)),
        grows(*old(cx), *final(cx)),
        transpose_step(
            *node,
            state(*old(tensors), *old(cx), Seq::empty(), Map::empty()),
            state(*final(tensors), *final(cx), Seq::empty(), Map::empty()),
            outcome(result),
        ),
{
    if node.input.len() != 1 {
        return Err(Fault::Rejected);
    }
    let input = match fetch(tensors, &node.input[0], "Transpose: missing input tensor '") {
        Ok(input) => input,
        Err(fault) => {
            return Err(fault);
        },
    };
    if node.output.len() == 0 {
        return Err(Fault::Rejected);
    }
    let rank: usize = input.dims().len();
    let order = match find_attr(node, "perm") {
        Some(a) => match axis_order(&a.ints, rank) {
            Some(order) => order,
            None => {
                return Err(Fault::Rejected);
            },
        },
        None => {
            let mut order: Vec<usize> = Vec::new();
            let mut i: usize = rank;
            while i > 0
                invariant
                    i <= rank,
                    order@.len() == rank - i,
                    forall|k: int| 0 <= k < order@.len() ==> #[trigger] order@[k] == rank - 1 - k,
                decreases i,
            {
                i = i - 1;
                order.push(i);
            }
            assert(order@ =~= Seq::new(rank as nat, |i: int| (rank - 1 - i) as usize));
            order
        },
    };
    let result = input.permute(&order);
    bind(tensors, cx, node.output[0].as_str(), result);
    Ok(())
}

/// The shape with axes of size 1 put in before the first `n` of `axes`, one
/// after the other.
pub open spec fn unsqueezed(shape: Shape, axes: Seq<usize>, n: nat) -> Shape
    decreases n,
{
    if n == 0 {
        shape
    } else {
        unsqueezed(shape, axes, (n - 1) as nat).expanded(axes[n - 1] as int, Dim::Known(1))
    }
}

/// Whether axes can be put in before `axes`, one after the other.
pub open spec fn can_unsqueeze(shape: Shape, axes: Seq<usize>) -> bool {
    forall|i: int| 0 <= i < axes.len() ==> #[trigger] axes[i] <= shape.dims.len() + i
}

/// The shape without the first `n` of `axes`, of which the last is taken off
/// first.
pub open spec fn squeezed(shape: Shape, axes: Seq<usize>, n: nat) -> Shape
    decreases n,
{
    if n == 0 {
        shape
    } else {
        squeezed(shape.without(axes[n - 1] as int), axes, (n - 1) as nat)
    }
}

/// Whether the first `n` of `axes` can be taken off, the last one first: each
/// has the size 1.
pub open spec fn can_squeeze(shape: Shape, axes: Seq<usize>, n: nat) -> bool
    decreases n,
{
    n == 0 || {
        &&& axes[n - 1] < shape.dims.len()
        &&& shape.dims[axes[n - 1] as int] == Dim::Known(1)
        &&& can_squeeze(shape.without(axes[n - 1] as int), axes, (n - 1) as nat)
    }
}

proof fn lemma_unsqueezed(shape: Shape, axes: Seq<usize>, n: nat)
    requires
        shape.wf(),
        can_unsqueeze(shape, axes),
        n <= axes.len(),
    ensures
        unsqueezed(shape, axes, n).wf(),
        unsqueezed(shape, axes, n).dims.len() == shape.dims.len() + n,
    decreases n,
{
    if n > 0 {
        lemma_unsqueezed(shape, axes, (n - 1) as nat);
        assert(axes[n - 1] <= shape.dims.len() + (n - 1));
    }
}

proof fn lemma_squeeze_undoes_unsqueeze(shape: Shape, axes: Seq<usize>, n: nat)
    requires
        shape.wf(),
        can_unsqueeze(shape, axes),
        n <= axes.len(),
    ensures
        can_squeeze(unsqueezed(shape, axes, n), axes, n),
        squeezed(unsqueezed(shape, axes, n), axes, n) == shape,
    decreases n,
{
    if n > 0 {
        let before = unsqueezed(shape, axes, (n - 1) as nat);
        lemma_unsqueezed(shape, axes, (n - 1) as nat);
        lemma_squeeze_undoes_unsqueeze(shape, axes, (n - 1) as nat);
        assert(axes[n - 1] <= shape.dims.len() + (n - 1));
        law_without_undoes_expanded(before, axes[n - 1] as int, Dim::Known(1));
    }
}

/// The axes that an Unsqueeze node puts in can be taken off again by a Squeeze
/// node, and that gives the shape before.
pub proof fn law_squeeze_undoes_unsqueeze(shape: Shape, axes: Seq<usize>)
    requires
        shape.wf(),
        can_unsqueeze(shape, axes),
    ensures
        can_squeeze(unsqueezed(shape, axes, axes.len()), axes, axes.len()),
        squeezed(unsqueezed(shape, axes, axes.len()), axes, axes.len()) == shape,
{
    lemma_squeeze_undoes_unsqueeze(shape, axes, axes.len());
}

/// The axes that an Unsqueeze node puts in, in ascending order. Negative numbers
/// count from behind the last axis of the output.
pub open spec fn unsqueeze_axes(node: NodeDef, before: State) -> Seq<usize> {
    let given = whole_numbers(before.known[node.inp(1)]);
    in_order(counted_all(given, before.env[node.inp(0)].dims().len() + given.len()))
}

/// How the import of an Unsqueeze node ends.
pub open spec fn unsqueeze_outcome(node: NodeDef, before: State) -> Outcome {
    let x = before.env[node.inp(0)];
    let given = whole_numbers(before.known[node.inp(1)]);
    let rank = x.dims().len() + given.len();
    if node.input@.len() != 2 {
        Outcome::Rejects
    } else if !before.env.contains_key(node.inp(0)) {
        Outcome::Fails(missing("Unsqueeze: missing input tensor '"@, node.inp(0)))
    } else if !before.known.contains_key(node.inp(1)) {
        Outcome::Fails("Unsqueeze: axes '"@ + node.inp(1) + "' must be known"@)
    } else if rank > usize::MAX || !all_in_rank(given, rank) || !can_unsqueeze(
        x.shape,
        unsqueeze_axes(node, before),
    ) {
        Outcome::Rejects
    } else if node.output@.len() == 0 {
        Outcome::Rejects
    } else {
        Outcome::Done
    }
}

/// What the import of an Unsqueeze node does.
pub open spec fn unsqueeze_step(
    node: NodeDef,
    before: State,
    after: State,
    result: Outcome,
) -> bool {
    let x = before.env[node.inp(0)];
    let axes = unsqueeze_axes(node, before);
    &&& result == unsqueeze_outcome(node, before)
    &&& result is Fails ==> after == before
    &&& result is Done ==> after.graph == before.graph && relaid(
        node,
        Tensor { shape: unsqueezed(x.shape, axes, axes.len()), ..x },
        before,
        after,
    )
}

/// Puts axes of size 1 in before `axes`, one after the other, if that is
/// possible.
fn unsqueeze_all(x: &GraphTensor, axes: &Vec<usize>) -> (r: Option<GraphTensor>)
    requires
        x@.shape.wf(),
    ensures
        match r {
            Some(t) => {
                &&& can_unsqueeze(x@.shape, axes@)
                &&& t@ == (Handle { shape: unsqueezed(x@.shape, axes@, axes@.len()), ..x@ })
                &&& t@.shape.wf()
            },
            None => !can_unsqueeze(x@.shape, axes@),
        },
{
    let mut t = x.copy();
    let mut i: usize = 0;
    while i < axes.len()
        invariant
            i <= axes@.len(),
            t@.id == x@.id,
            t@.shape == unsqueezed(x@.shape, axes@, i as nat),
            t@.shape.wf(),
            t@.shape.dims.len() == x@.shape.dims.len() + i,
            forall|k: int| 0 <= k < i ==> #[trigger] axes@[k] <= x@.shape.dims.len() + k,
        decreases axes.len() - i,
    {
        if axes[i] > t.dims().len() {
            assert(!(axes@[i as int] <= x@.shape.dims.len() + i));
            return None;
        }
        t = t.unsqueeze(axes[i]);
        i = i + 1;
    }
    Some(t)
}

/// Takes off the axes, the last one first, if all have the size 1.
fn squeeze_all(x: &GraphTensor, axes: &Vec<usize>) -> (r: Option<GraphTensor>)
    requires
        x@.shape.wf(),
    ensures
        match r {
            Some(t) => {
                &&& can_squeeze(x@.shape, axes@, axes@.len())
                &&& t@ == (Handle { shape: squeezed(x@.shape, axes@, axes@.len()), ..x@ })
                &&& t@.shape.wf()
            },
            None => !can_squeeze(x@.shape, axes@, axes@.len()),
        },
{
    let mut t = x.copy();
    let mut i: usize = axes.len();
    while i > 0
        invariant
            i <= axes@.len(),
            t@.id == x@.id,
            t@.shape.wf(),
            squeezed(t@.shape, axes@, i as nat) == squeezed(x@.shape, axes@, axes@.len()),
            can_squeeze(t@.shape, axes@, i as nat) == can_squeeze(x@.shape, axes@, axes@.len()),
        decreases i,
    {
        let axis: usize = axes[i - 1];
        if axis >= t.dims().len() || t.dims()[axis] != Dim::Known(1) {
            return None;
        }
        t = t.squeeze(axis);
        i = i - 1;
    }
    Some(t)
}

/// Imports an Unsqueeze node: the input with axes of size 1 put in.
pub fn parse_unsqueeze_node(
    node: &NodeDef,
    tensors: &mut NameMap<GraphTensor>,
    cx: &mut ComputeGraph,
    known_values: &mut NameMap<Vec<u32>>,
) -> (result: Result<(), String>)
    requires
        valid(*old(tensors), *old(cx)),
        !(unsqueeze_outcome(
                *node,
                state(*old(tensors), *old(cx), Seq::empty(), values(*old(known_values))),
            ) is Rejects),
    ensures
        valid(*final(tensors), *final(cx)),
        grows(*old(cx), *final(cx)),
        unsqueeze_step(
            *node,
            state(*old(tensors), *old(cx), Seq::empty(), values(*old(known_values))),
            state(*final(tensors), *final(cx), Seq::empty(), values(*final(known_values))),
            ending(result),
        ),
{
    settle(try_unsqueeze_node(node, tensors, cx, known_values))
}

/// The import of the same nodes, and of those that the operation does not admit.
pub(crate) fn try_unsqueeze_node(
    node: &NodeDef,
    tensors: &mut NameMap<GraphTensor>,
    cx: &mut ComputeGraph,
    known_values: &mut NameMap<Vec<u32>>,
) -> (result: Result<(), Fault>)
    requires
        valid(*old(tensors), *old(cx)),
    ensures
        valid(*final(tensors), *final(cx)),
        grows(*old(cx), *final(cx)),
        unsqueeze_step(
            *node,
            state(*old(tensors), *old(cx), Seq::empty(), values(*old(known_values))),
            state(*final(tensors), *final(cx), Seq::empty(), values(*final(known_values))),
            outcome(result),
        ),
{
    if node.input.len() != 2 {
        return Err(Fault::Rejected);
    }
    let input = match fetch(tensors, &node.input[0], "Unsqueeze: missing input tensor '") {
        Ok(input) => input,
        Err(fault) => {
            return Err(fault);
        },
    };
    let given = match recall(known_values, &node.input[1]) {
        Some(v) => to_whole_numbers(&v),
        None => {
            return Err(
                Fault::Error(
                    join("Unsqueeze: axes '", node.input[1].as_str(), "' must be known"),
                ),
            );
        },
    };
    if given.len() > usize::MAX - input.dims().len() {
        return Err(Fault::Rejected);
    }
    let rank: usize = input.dims().len() + given.len();
    let axes = match count_axes(&given, rank) {
        Some(axes) => sort_axes(&axes),
        None => {
            return Err(Fault::Rejected);
        },
    };
    let result = match unsqueeze_all(&input, &axes) {
        Some(result) => result,
        None => {
            return Err(Fault::Rejected);
        },
    };
    if node.output.len() == 0 {
        return Err(Fault::Rejected);
    }
    let out = node.output[0].as_str();
    bind(tensors, cx, out, result);
    pass(known_values, &node.input[0], out);
    Ok(())
}

/// The axes of size 1 among the first `n` of `dims`.
pub open spec fn unit_axes(dims: Seq<Dim>, n: nat) -> Seq<usize>
    decreases n,
{
    if n == 0 {
        Seq::empty()
    } else if dims[n - 1] == Dim::Known(1) {
        unit_axes(dims, (n - 1) as nat).push((n - 1) as usize)
    } else {
        unit_axes(dims, (n - 1) as nat)
    }
}

/// The axes that a Squeeze node takes off, in ascending order.
pub open spec fn squeeze_axes(node: NodeDef, before: State) -> Seq<usize> {
    let dims = before.env[node.inp(0)].dims();
    in_order(
        match given_axes(node, before) {
            Some(axes) => counted_all(axes, dims.len()),
            None => unit_axes(dims, dims.len()),
        },
    )
}

/// How the import of a Squeeze node ends.
pub open spec fn squeeze_outcome(node: NodeDef, before: State) -> Outcome {
    let x = before.env[node.inp(0)];
    let axes = squeeze_axes(node, before);
    if node.input@.len() == 0 {
        Outcome::Rejects
    } else if !before.env.contains_key(node.inp(0)) {
        Outcome::Fails(missing("Squeeze: missing input tensor '"@, node.inp(0)))
    } else if axes_from(node, before) is Unknown {
        Outcome::Fails("Squeeze: axes '"@ + node.inp(1) + "' must be known"@)
    } else if given_axes(node, before) matches Some(given) && !all_in_rank(
        given,
        x.dims().len(),
    ) {
        Outcome::Rejects
    } else if !can_squeeze(x.shape, axes, axes.len()) || node.output@.len() == 0 {
        Outcome::Rejects
    } else {
        Outcome::Done
    }
}

/// What the import of a Squeeze node does.
pub open spec fn squeeze_step(
    node: NodeDef,
    before: State,
    after: State,
    result: Outcome,
) -> bool {
    let x = before.env[node.inp(0)];
    let axes = squeeze_axes(node, before);
    &&& result == squeeze_outcome(node, before)
    &&& result is Fails ==> after == before
    &&& result is Done ==> after.graph == before.graph && relaid(
        node,
        Tensor { shape: squeezed(x.shape, axes, axes.len()), ..x },
        before,
        after,
    )
}

/// The axes of size 1.
fn find_unit_axes(dims: &Vec<Dim>) -> (axes: Vec<usize>)
    ensures
        axes@ == unit_axes(dims@, dims@.len()),
{
    let mut axes: Vec<usize> = Vec::new();
    let mut i: usize = 0;
    while i < dims.len()
        invariant
            i <= dims@.len(),
            axes@ == unit_axes(dims@, i as nat),
        decreases dims.len() - i,
    {
        if dims[i] == Dim::Known(1) {
            axes.push(i);
        }
        i = i + 1;
    }
    axes
}

/// Imports a Squeeze node: the input without axes of size 1, which the known
/// values of the second input or an attribute give; without all of them, if
/// none are given.
pub fn parse_squeeze_node(
    node: &NodeDef,
    tensors: &mut NameMap<GraphTensor>,
    cx: &mut ComputeGraph,
    known_values: &mut NameMap<Vec<u32>>,
) -> (result: Result<(), String>)
    requires
        valid(*old(tensors), *old(cx)),
        !(squeeze_outcome(
                *node,
                state(*old(tensors), *old(cx), Seq::empty(), values(*old(known_values))),
            ) is Rejects),
    ensures
        valid(*final(tensors), *final(cx)),
        grows(*old(cx), *final(cx)),
        squeeze_step(
            *node,
            state(*old(tensors), *old(cx), Seq::empty(), values(*old(known_values))),
            state(*final(tensors), *final(cx), Seq::empty(), values(*final(known_values))),
            ending(result),
        ),
{
    settle(try_squeeze_node(node, tensors, cx, known_values))
}

/// The import of the same nodes, and of those that the operation does not admit.
pub(crate) fn try_squeeze_node(
    node: &NodeDef,
    tensors: &mut NameMap<GraphTensor>,
    cx: &mut ComputeGraph,
    known_values: &mut NameMap<Vec<u32>>,
) -> (result: Result<(), Fault>)
    requires
        valid(*old(tensors), *old(cx)),
    ensures
        valid(*final(tensors), *final(cx)),
        grows(*old(cx), *final(cx)),
        squeeze_step(
            *node,
            state(*old(tensors), *old(cx), Seq::empty(), values(*old(known_values))),
            state(*final(tensors), *final(cx), Seq::empty(), values(*final(known_values))),
            outcome(result),
        ),
{
    if node.input.len() == 0 {
        return Err(Fault::Rejected);
    }
    let input = match fetch(tensors, &node.input[0], "Squeeze: missing input tensor '") {
        Ok(input) => input,
        Err(fault) => {
            return Err(fault);
        },
    };
    let given = if node.gives_input(1) {
        match recall(known_values, &node.input[1]) {
            Some(v) => Some(to_whole_numbers(&v)),
            None => {
                return Err(
                    Fault::Error(
                        join("Squeeze: axes '", node.input[1].as_str(), "' must be known"),
                    ),
                );
            },
        }
    } else {
        match find_attr(node, "axes") {
            Some(a) => Some(copy_numbers(&a.ints)),
            None => None,
        }
    };
    let axes = match given {
        Some(numbers) => match count_axes(&numbers, input.dims().len()) {
            Some(axes) => axes,
            None => {
                return Err(Fault::Rejected);
            },
        },
        None => find_unit_axes(input.dims()),
    };
    let result = match squeeze_all(&input, &sort_axes(&axes)) {
        Some(result) => result,
        None => {
            return Err(Fault::Rejected);
        },
    };
    if node.output.len() == 0 {
        return Err(Fault::Rejected);
    }
    let out = node.output[0].as_str();
    bind(tensors, cx, out, result);
    pass(known_values, &node.input[0], out);
    Ok(())
}

/// The size that a Reshape node gives for axis `i`: 0 stands for the size that
/// the input has there.
pub open spec fn given_size(own: Seq<usize>, target: Seq<i64>, i: int) -> int {
    if target[i] == 0 {
        own[i] as int
    } else {
        target[i] as int
    }
}

/// The product of the positive ones among the first `n` sizes that a Reshape
/// node gives.
pub open spec fn given_product(own: Seq<usize>, target: Seq<i64>, n: nat) -> nat
    decreases n,
{
    if n == 0 {
        1
    } else if given_size(own, target, n - 1) > 0 {
        given_product(own, target, (n - 1) as nat) * given_size(own, target, n - 1) as nat
    } else {
        given_product(own, target, (n - 1) as nat)
    }
}

/// The sizes that a Reshape node gives its output: -1 stands for what is left
/// of `total` elements when the other sizes are taken out.
pub open spec fn reshape_sizes(own: Seq<usize>, target: Seq<i64>, total: nat) -> Seq<usize> {
    Seq::new(
        target.len(),
        |i: int|
            if target[i] == 0 {
                own[i]
            } else if target[i] == -1 {
                (total / given_product(own, target, target.len())) as usize
            } else {
                target[i] as usize
            },
    )
}

/// Whether the sizes that a Reshape node gives can be resolved: it copies none
/// that the input has not, and the product of the others is representable.
pub open spec fn can_reshape(own: Seq<usize>, target: Seq<i64>) -> bool {
    &&& forall|i: int| 0 <= i < target.len() && #[trigger] target[i] == 0 ==> i < own.len()
    &&& given_product(own, target, target.len()) <= i64::MAX
}

proof fn lemma_given_product(own: Seq<usize>, target: Seq<i64>, n: nat, m: nat)
    requires
        n <= m,
    ensures
        0 < given_product(own, target, n) <= given_product(own, target, m),
    decreases m,
{
    if n == m {
        if n > 0 {
            lemma_given_product(own, target, 0, (n - 1) as nat);
            let p = given_product(own, target, (n - 1) as nat);
            let s = given_size(own, target, n - 1);
            if s > 0 {
                assert(p * s as nat > 0) by (nonlinear_arith)
                    requires
                        p > 0,
                        s > 0,
                ;
            }
        }
    } else {
        lemma_given_product(own, target, n, (m - 1) as nat);
        let p = given_product(own, target, (m - 1) as nat);
        let s = given_size(own, target, m - 1);
        if s > 0 {
            assert(p * s as nat >= p) by (nonlinear_arith)
                requires
                    s > 0,
            ;
        }
    }
}

/// The product of the positive sizes that a Reshape node gives, if they can be
/// resolved.
fn find_product(own: &Vec<usize>, target: &Vec<i64>) -> (product: Option<usize>)
    ensures
        match product {
            Some(p) => {
                &&& can_reshape(own@, target@)
                &&& p == given_product(own@, target@, target@.len())
                &&& p > 0
            },
            None => !can_reshape(own@, target@) || given_product(own@, target@, target@.len())
                > usize::MAX,
        },
{
    let mut p: usize = 1;
    let mut i: usize = 0;
    while i < target.len()
        invariant
            i <= target@.len(),
            p == given_product(own@, target@, i as nat),
            0 < p <= i64::MAX,
            forall|k: int| 0 <= k < i && #[trigger] target@[k] == 0 ==> k < own@.len(),
        decreases target.len() - i,
    {
        proof {
            lemma_given_product(own@, target@, (i + 1) as nat, target@.len());
        }
        let given: i64 = target[i];
        if given == 0 && i >= own.len() {
            assert(!(target@[i as int] == 0 ==> i < own@.len()));
            return None;
        }
        let size: u64 = if given == 0 {
            own[i] as u64
        } else if given > 0 {
            given as u64
        } else {
            0
        };
        if size > 0 {
            match (p as u64).checked_mul(size) {
                Some(q) => {
                    if q > 0x7fff_ffff_ffff_ffff || q > usize::MAX as u64 {
                        return None;
                    }
                    p = q as usize;
                },
                None => {
                    return None;
                },
            }
        }
        i = i + 1;
    }
    proof {
        lemma_given_product(own@, target@, 0, target@.len());
    }
    Some(p)
}

/// The sizes that a Reshape node gives its output.
fn resolve_sizes(own: &Vec<usize>, target: &Vec<i64>, total: usize, product: usize) -> (sizes: Vec<
    usize,
>)
    requires
        can_reshape(own@, target@),
        product == given_product(own@, target@, target@.len()),
        product > 0,
    ensures
        sizes@ == reshape_sizes(own@, target@, total as nat),
{
    let mut sizes: Vec<usize> = Vec::new();
    let mut i: usize = 0;
    while i < target.len()
        invariant
            can_reshape(own@, target@),
            product == given_product(own@, target@, target@.len()),
            product > 0,
            i <= target@.len(),
            sizes@.len() == i,
            forall|k: int|
                0 <= k < i ==> #[trigger] sizes@[k] == reshape_sizes(own@, target@, total as nat)[k],
        decreases target.len() - i,
    {
        assert(target@[i as int] == 0 ==> i < own@.len());
        if target[i] == 0 {
            sizes.push(own[i]);
        } else if target[i] == -1 {
            sizes.push(total / product);
        } else {
            sizes.push(target[i] as usize);
        }
        i = i + 1;
    }
    assert(sizes@ =~= reshape_sizes(own@, target@, total as nat));
    sizes
}

/// The tensor with its elements stored in the order of its axes: if they are
/// not, the product with 1 stores them so.
pub open spec fn contiguous(x: Tensor) -> Tensor {
    if x.shape.contiguous() {
        x
    } else {
        x.binary(Binary::Mul, scalar(ONE).broadcast(sizes_of(x.dims())))
    }
}

/// How the import of a Reshape node ends.
pub open spec fn reshape_outcome(node: NodeDef, before: State) -> Outcome {
    let dims = before.env[node.inp(0)].dims();
    let target = whole_numbers(before.known[node.inp(1)]);
    if node.input@.len() != 2 {
        Outcome::Rejects
    } else if !before.env.contains_key(node.inp(0)) {
        Outcome::Fails(missing("Reshape: missing input tensor '"@, node.inp(0)))
    } else if !before.known.contains_key(node.inp(1)) {
        Outcome::Fails("Reshape: shape input '"@ + node.inp(1) + "' must be a known constant"@)
    } else if !all_known(dims) || bounded_product(sizes_of(dims)) is None {
        Outcome::Rejects
    } else if !can_reshape(sizes_of(dims), target) || given_product(
        sizes_of(dims),
        target,
        target.len(),
    ) > usize::MAX {
        Outcome::Rejects
    } else if node.output@.len() == 0 {
        Outcome::Rejects
    } else {
        Outcome::Done
    }
}

/// What the import of a Reshape node does.
pub open spec fn reshape_step(
    node: NodeDef,
    before: State,
    after: State,
    result: Outcome,
) -> bool {
    let x = before.env[node.inp(0)];
    let own = sizes_of(x.dims());
    let target = whole_numbers(before.known[node.inp(1)]);
    &&& result == reshape_outcome(node, before)
    &&& result is Fails ==> after == before
    &&& result is Done ==> relaid(
        node,
        contiguous(x).reshaped(known_dims(reshape_sizes(own, target, product(own)))),
        before,
        after,
    )
}

/// Imports a Reshape node: the elements of the input with the sizes that the
/// known values of the second input give. There -1 stands for a size that
/// follows from the others, and 0 for that of the input on the same axis.
pub fn parse_reshape_node(
    node: &NodeDef,
    tensors: &mut NameMap<GraphTensor>,
    cx: &mut ComputeGraph,
    known_values: &mut NameMap<Vec<u32>>,
) -> (result: Result<(), String>)
    requires
        valid(*old(tensors), *old(cx)),
        !(reshape_outcome(
                *node,
                state(*old(tensors), *old(cx), Seq::empty(), values(*old(known_values))),
            ) is Rejects),
    ensures
        valid(*final(tensors), *final(cx)),
        grows(*old(cx), *final(cx)),
        reshape_step(
            *node,
            state(*old(tensors), *old(cx), Seq::empty(), values(*old(known_values))),
            state(*final(tensors), *final(cx), Seq::empty(), values(*final(known_values))),
            ending(result),
        ),
{
    settle(try_reshape_node(node, tensors, cx, known_values))
}

/// The import of the same nodes, and of those that the operation does not admit.
pub(crate) fn try_reshape_node(
    node: &NodeDef,
    tensors: &mut NameMap<GraphTensor>,
    cx: &mut ComputeGraph,
    known_values: &mut NameMap<Vec<u32>>,
) -> (result: Result<(), Fault>)
    requires
        valid(*old(tensors), *old(cx)),
    ensures
        valid(*final(tensors), *final(cx)),
        grows(*old(cx), *final(cx)),
        reshape_step(
            *node,
            state(*old(tensors), *old(cx), Seq::empty(), values(*old(known_values))),
            state(*final(tensors), *final(cx), Seq::empty(), values(*final(known_values))),
            outcome(result),
        ),
{
    if node.input.len() != 2 {
        return Err(Fault::Rejected);
    }
    let input = match fetch(tensors, &node.input[0], "Reshape: missing input tensor '") {
        Ok(input) => input,
        Err(fault) => {
            return Err(fault);
        },
    };
    let target = match recall(known_values, &node.input[1]) {
        Some(v) => to_whole_numbers(&v),
        None => {
            return Err(
                Fault::Error(
                    join(
                        "Reshape: shape input '",
                        node.input[1].as_str(),
                        "' must be a known constant",
                    ),
                ),
            );
        },
    };
    let own = match known_sizes(input.dims()) {
        Some(own) => own,
        None => {
            return Err(Fault::Rejected);
        },
    };
    let total: usize = match checked_product(&own) {
        Some(total) => total,
        None => {
            return Err(Fault::Rejected);
        },
    };
    let product: usize = match find_product(&own, &target) {
        Some(product) => product,
        None => {
            return Err(Fault::Rejected);
        },
    };
    if node.output.len() == 0 {
        return Err(Fault::Rejected);
    }
    let sizes = resolve_sizes(&own, &target, total, product);
    let stored = if input.shape.is_contiguous() {
        input
    } else {
        let one = cx.constant(ONE);
        assert(cx.meaning(one@).shape == one@.shape);
        let ones = broadcast_to(&one, &own);
        cx.binary(Binary::Mul, &input, &ones)
    };
    let result = stored.reshape(dims_of(&sizes));
    let out = node.output[0].as_str();
    bind(tensors, cx, out, result);
    pass(known_values, &node.input[0], out);
    Ok(())
}

proof fn lemma_reshape_count(own: Seq<usize>, target: Seq<i64>, total: nat, at: int, n: nat)
    requires
        0 <= at < target.len(),
        target[at] == -1,
        n <= target.len(),
        total / given_product(own, target, target.len()) <= usize::MAX,
        forall|i: int|
            0 <= i < target.len() && i != at ==> {
                &&& 0 < #[trigger] given_size(own, target, i) <= usize::MAX
            },
    ensures
        product(reshape_sizes(own, target, total).subrange(0, n as int)) == if n <= at {
            given_product(own, target, n)
        } else {
            given_product(own, target, n) * (total / given_product(own, target, target.len()))
        },
    decreases n,
{
    let sizes = reshape_sizes(own, target, total);
    if n > 0 {
        lemma_reshape_count(own, target, total, at, (n - 1) as nat);
        assert(sizes.subrange(0, n as int).drop_last() =~= sizes.subrange(0, n - 1));
        let p = given_product(own, target, (n - 1) as nat);
        lemma_given_product(own, target, 0, target.len());
        vstd::arithmetic::div_mod::lemma_div_pos_is_pos(
            total as int,
            given_product(own, target, target.len()) as int,
        );
        let left = (total / given_product(own, target, target.len())) as nat;
        let q = product(sizes.subrange(0, n - 1));
        assert(sizes.subrange(0, n as int).last() == sizes[n - 1]);
        assert(product(sizes.subrange(0, n as int)) == q * sizes[n - 1] as nat);
        if n - 1 == at {
            assert(sizes[n - 1] == left);
        } else {
            let s = given_size(own, target, n - 1) as nat;
            assert(sizes[n - 1] == s);
            assert(p * left * s == p * s * left) by (nonlinear_arith);
        }
    } else {
        assert(sizes.subrange(0, 0) =~= Seq::empty());
    }
}

/// A Reshape node that leaves one size open keeps the number of elements, if
/// the product of the other sizes divides it.
pub proof fn law_reshape_keeps_count(own: Seq<usize>, target: Seq<i64>, at: int)
    requires
        product(own) <= usize::MAX,
        can_reshape(own, target),
        0 <= at < target.len(),
        target[at] == -1,
        forall|i: int|
            0 <= i < target.len() && i != at ==> 0 < #[trigger] given_size(own, target, i)
                <= usize::MAX,
        product(own) % given_product(own, target, target.len()) == 0,
    ensures
        product(reshape_sizes(own, target, product(own))) == product(own),
{
    let p = given_product(own, target, target.len()) as int;
    let total = product(own) as int;
    lemma_given_product(own, target, 0, target.len());
    vstd::arithmetic::div_mod::lemma_fundamental_div_mod(total, p);
    vstd::arithmetic::div_mod::lemma_div_is_ordered_by_denominator(total, 1, p);
    vstd::arithmetic::div_mod::lemma_div_basics(total);
    lemma_reshape_count(own, target, product(own), at, target.len());
    let sizes = reshape_sizes(own, target, product(own));
    assert(sizes.subrange(0, target.len() as int) =~= sizes);
}

/// Axes in the reversed order, reversed once more, are in the order before.
pub proof fn law_transpose_twice(x: Tensor, rank: nat)
    requires
        x.shape.wf(),
        x.dims().len() == rank,
        rank <= usize::MAX,
    ensures
        ({
            let order = Seq::new(rank, |i: int| (rank - 1 - i) as usize);
            x.permuted(order).permuted(order) == x
        }),
{
    let order = Seq::new(rank, |i: int| (rank - 1 - i) as usize);
    assert(x.permuted(order).permuted(order).shape =~= x.shape);
}

/// The sizes that a Shape node makes known are read back by the nodes that take
/// them as numbers, if they have 24 bits at most.
pub proof fn law_sizes_read_back(sizes: Seq<usize>)
    requires
        forall|i: int| 0 <= i < sizes.len() ==> #[trigger] sizes[i] <= 0x100_0000,
    ensures
        sizes_from(sizes_as_values(sizes)) == sizes,
        whole_numbers(sizes_as_values(sizes)) == Seq::new(sizes.len(), |i: int| sizes[i] as i64),
{
    assert forall|i: int| 0 <= i < sizes.len() implies as_i64(of_int(sizes[i] as int)) == sizes[i]
        && as_usize(of_int(sizes[i] as int)) == sizes[i] by {
        law_whole_numbers_survive(sizes[i] as int);
    }
    assert(sizes_from(sizes_as_values(sizes)) =~= sizes);
    assert(whole_numbers(sizes_as_values(sizes)) =~= Seq::new(
        sizes.len(),
        |i: int| sizes[i] as i64,
    ));
}

/// Whether a size is read back as it is when it is made known as a number.
pub open spec fn reads_back(size: usize) -> bool {
    as_i64(of_int(size as int)) == size
}

/// Sizes of 24 bits at most are read back as they are.
pub proof fn law_small_sizes_read_back(size: usize)
    requires
        size <= 0x100_0000,
    ensures
        reads_back(size),
{
    law_whole_numbers_survive(size as int);
}

/// A Reshape node that is given the sizes that the input has, as a Shape node
/// makes them known, leaves them as they are, if they are read back so.
pub proof fn law_reshape_to_own_sizes(own: Seq<usize>)
    requires
        forall|i: int| 0 <= i < own.len() ==> reads_back(#[trigger] own[i]),
    ensures
        reshape_sizes(own, whole_numbers(sizes_as_values(own)), product(own)) == own,
{
    let target = whole_numbers(sizes_as_values(own));
    assert forall|i: int| 0 <= i < own.len() implies reshape_sizes(own, target, product(own))[i]
        == own[i] by {
        assert(reads_back(own[i]));
        assert(target[i] == own[i]);
    }
    assert(reshape_sizes(own, target, product(own)) =~= own);
}

/// Axes in some order, put into the order that undoes it, are in the order
/// before.
pub proof fn law_transpose_by_inverse(x: Tensor, order: Seq<usize>, inverse: Seq<usize>)
    requires
        x.shape.wf(),
        is_permutation(order, x.dims().len()),
        inverse.len() == order.len(),
        forall|i: int|
            0 <= i < inverse.len() ==> #[trigger] inverse[i] < order.len() && order[inverse[i] as int]
                == i,
    ensures
        x.permuted(order).permuted(inverse) == x,
{
    assert(x.permuted(order).permuted(inverse).shape =~= x.shape);
}

/// Whether a Squeeze node gives the axes that an Unsqueeze node gives, in its second
/// input or as an attribute.
pub open spec fn same_axes(squeeze: NodeDef, unsqueeze: NodeDef, before: State) -> bool {
    ||| squeeze.has_input(1) && squeeze.inp(1) == unsqueeze.inp(1) && unsqueeze.inp(1)
        != unsqueeze.out(0)
    ||| !squeeze.has_input(1) && squeeze.attr("axes"@) is Some && squeeze.attr(
        "axes"@,
    )->0.ints@ == whole_numbers(before.known[unsqueeze.inp(1)])
}

/// A Squeeze node that takes off the axes that an Unsqueeze node has put in, given
/// in any order, in the second input or as an attribute, is done, and its output is
/// the input of the other.
pub proof fn law_squeeze_node_undoes_unsqueeze_node(
    unsqueeze: NodeDef,
    squeeze: NodeDef,
    before: State,
    middle: State,
    after: State,
    result: Outcome,
)
    requires
        before.env[unsqueeze.inp(0)].shape.wf(),
        unsqueeze_step(unsqueeze, before, middle, Outcome::Done),
        squeeze_step(squeeze, middle, after, result),
        same_axes(squeeze, unsqueeze, before),
        squeeze.input@.len() > 0,
        squeeze.output@.len() > 0,
        squeeze.inp(0) == unsqueeze.out(0),
    ensures
        result is Done,
        after.env[squeeze.out(0)] == before.env[unsqueeze.inp(0)],
        before.known.contains_key(unsqueeze.inp(0)) ==> after.known[squeeze.out(0)]
            == before.known[unsqueeze.inp(0)],
{
    let x = before.env[unsqueeze.inp(0)];
    let axes = unsqueeze_axes(unsqueeze, before);
    let given = whole_numbers(before.known[unsqueeze.inp(1)]);
    law_in_order(counted_all(given, x.dims().len() + given.len()));
    lemma_unsqueezed(x.shape, axes, axes.len());
    law_squeeze_undoes_unsqueeze(x.shape, axes);
    assert(given_axes(squeeze, middle) == Some(given));
    assert(squeeze_axes(squeeze, middle) == axes);
}

/// The dimensions other than 1, in their order.
pub open spec fn dims_but_ones(dims: Seq<Dim>) -> Seq<Dim>
    decreases dims.len(),
{
    if dims.len() == 0 {
        Seq::empty()
    } else if dims.last() == Dim::Known(1) {
        dims_but_ones(dims.drop_last())
    } else {
        dims_but_ones(dims.drop_last()).push(dims.last())
    }
}

/// Only the first axes matter for the shape without them.
proof fn lemma_squeezed_by_first(shape: Shape, a: Seq<usize>, b: Seq<usize>, n: nat)
    requires
        n <= a.len(),
        n <= b.len(),
        forall|i: int| 0 <= i < n ==> a[i] == b[i],
    ensures
        squeezed(shape, a, n) == squeezed(shape, b, n),
        can_squeeze(shape, a, n) == can_squeeze(shape, b, n),
    decreases n,
{
    if n > 0 {
        lemma_squeezed_by_first(shape.without(a[n - 1] as int), a, b, (n - 1) as nat);
    }
}

/// The axes of size 1 are in ascending order.
proof fn lemma_unit_axes(dims: Seq<Dim>, n: nat)
    requires
        n <= dims.len() <= usize::MAX,
    ensures
        in_order(unit_axes(dims, n)) == unit_axes(dims, n),
        forall|i: int| 0 <= i < unit_axes(dims, n).len() ==> #[trigger] unit_axes(dims, n)[i] < n,
    decreases n,
{
    if n > 0 {
        let before = unit_axes(dims, (n - 1) as nat);
        lemma_unit_axes(dims, (n - 1) as nat);
        if dims[n - 1] == Dim::Known(1) {
            let axes = before.push((n - 1) as usize);
            assert(axes.drop_last() =~= before);
            if before.len() > 0 {
                assert(before[before.len() - 1] < n - 1);
            }
        }
    }
}

/// What is left of the first `n` dimensions without those of size 1.
proof fn lemma_without_unit_axes(shape: Shape, dims: Seq<Dim>, n: nat)
    requires
        shape.wf(),
        n <= dims.len() <= usize::MAX,
        n <= shape.dims.len(),
        forall|i: int| 0 <= i < n ==> #[trigger] shape.dims[i] == dims[i],
    ensures
        can_squeeze(shape, unit_axes(dims, n), unit_axes(dims, n).len()),
        squeezed(shape, unit_axes(dims, n), unit_axes(dims, n).len()).dims == dims_but_ones(
            dims.subrange(0, n as int),
        ) + shape.dims.skip(n as int),
    decreases n,
{
    let axes = unit_axes(dims, n);
    let head = dims.subrange(0, n as int);
    if n == 0 {
        assert(shape.dims.skip(0) =~= shape.dims);
        assert(Seq::<Dim>::empty() + shape.dims =~= shape.dims);
    } else {
        let m = (n - 1) as nat;
        let fewer = unit_axes(dims, m);
        assert(head.drop_last() =~= dims.subrange(0, m as int));
        assert(shape.dims[n - 1] == dims[n - 1]);
        if dims[n - 1] == Dim::Known(1) {
            let rest = shape.without(n - 1);
            assert forall|i: int| 0 <= i < m implies #[trigger] rest.dims[i] == dims[i] by {
                assert(rest.dims[i] == shape.dims[i]);
            }
            lemma_without_unit_axes(rest, dims, m);
            lemma_squeezed_by_first(rest, axes, fewer, fewer.len());
            assert(rest.dims.skip(m as int) =~= shape.dims.skip(n as int));
        } else {
            lemma_without_unit_axes(shape, dims, m);
            assert(dims_but_ones(head.drop_last()) + shape.dims.skip(m as int) =~= dims_but_ones(
                head,
            ) + shape.dims.skip(n as int));
        }
    }
}

/// A Squeeze node without axes is done, and its output has the dimensions of the
/// input other than 1, in their order, and its known values.
pub proof fn law_squeeze_without_axes(
    node: NodeDef,
    before: State,
    after: State,
    result: Outcome,
)
    requires
        squeeze_step(node, before, after, result),
        node.input@.len() > 0,
        node.output@.len() > 0,
        before.env.contains_key(node.inp(0)),
        before.env[node.inp(0)].shape.wf(),
        before.env[node.inp(0)].dims().len() <= usize::MAX,
        axes_from(node, before) is Nowhere,
    ensures
        result is Done,
        after.env[node.out(0)].dims() == dims_but_ones(before.env[node.inp(0)].dims()),
        before.known.contains_key(node.inp(0)) ==> after.known[node.out(0)]
            == before.known[node.inp(0)],
{
    let x = before.env[node.inp(0)];
    let dims = x.dims();
    let n = dims.len();
    assert(dims.subrange(0, n as int) =~= dims);
    lemma_unit_axes(dims, n);
    lemma_without_unit_axes(x.shape, dims, n);
    assert(dims_but_ones(dims) + dims.skip(n as int) =~= dims_but_ones(dims));
}

/// A Reshape node that takes the sizes that a Shape node has made known gives its
/// output these sizes, whatever those of its input are, if none is 0 and all are
/// read back as they are.
pub proof fn law_reshape_by_shape_goes_back(
    shape: NodeDef,
    reshape: NodeDef,
    before: State,
    middle: State,
    after: State,
)
    requires
        shape_step(shape, before, middle, Outcome::Done),
        reshape_step(reshape, middle, after, Outcome::Done),
        reshape.inp(1) == shape.out(0),
        forall|i: int|
            0 <= i < before.env[shape.inp(0)].dims().len() ==> {
                &&& (#[trigger] before.env[shape.inp(0)].dims()[i])->Known_0 > 0
                &&& reads_back(before.env[shape.inp(0)].dims()[i]->Known_0)
            },
    ensures
        after.env[reshape.out(0)].dims() == before.env[shape.inp(0)].dims(),
        middle.known.contains_key(reshape.inp(0)) ==> after.known[reshape.out(0)]
            == middle.known[reshape.inp(0)],
{
    let dims = before.env[shape.inp(0)].dims();
    let sizes = sizes_of(dims);
    let own = sizes_of(middle.env[reshape.inp(0)].dims());
    let target = whole_numbers(sizes_as_values(sizes));
    let given = reshape_sizes(own, target, product(own));
    assert forall|i: int| 0 <= i < sizes.len() implies given[i] == sizes[i] by {
        assert(dims[i]->Known_0 > 0 && reads_back(dims[i]->Known_0));
        assert(target[i] == sizes[i]);
    }
    assert(given =~= sizes);
    assert(known_dims(sizes) =~= dims) by {
        assert forall|i: int| 0 <= i < dims.len() implies known_dims(sizes)[i] == dims[i] by {
            assert(dims[i] is Known);
        }
    }
}

} // verus!

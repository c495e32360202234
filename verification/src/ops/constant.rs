//! Tensors whose elements the model gives.

use crate::bits::{to_usize, ZERO};
#[allow(unused_imports)]
use crate::bits::as_usize;
use crate::fold::repeat;
use crate::graph::{group_graph, ComputeGraph, GraphTensor};
#[allow(unused_imports)]
use crate::graph::{grows, load};
use crate::names::{join, to_decimal, NameMap};
#[allow(unused_imports)]
use crate::names::decimal;
use crate::proto::{copy_bits, fill_value, find_attr, sizes, tensor_values, NodeDef, TensorDef};
#[allow(unused_imports)]
use crate::proto::{fill_of, tensor_sizes, values_of};
use crate::shape::{checked_product, dims_of};
#[allow(unused_imports)]
use crate::shape::{bounded_product, known_dims};
use crate::state::{bind, group_state, recall, remember, settle, supply, Fault};
#[allow(unused_imports)]
use crate::state::{changed, data, ending, outcome, state, valid, values, Outcome, State};
use vstd::prelude::*;

verus! {

broadcast use {group_graph, group_state};

/// The output is a named tensor with the given sizes and known elements.
pub open spec fn defined(
    out: Seq<char>,
    sizes: Seq<usize>,
    elements: Seq<u32>,
    before: State,
    after: State,
) -> bool {
    &&& after.env == before.env.insert(out, load(out, known_dims(sizes)))
    &&& changed(before.tensors, after.tensors, set![out])
    &&& after.known == before.known.insert(out, elements)
    &&& after.weights == before.weights.push((out, elements))
}

/// Makes a named tensor with the given sizes and known elements.
pub(crate) fn define(
    out: &str,
    sizes: &Vec<usize>,
    elements: Vec<u32>,
    tensors: &mut NameMap<GraphTensor>,
    cx: &mut ComputeGraph,
    weight_data: &mut Vec<(String, Vec<u32>)>,
    known_values: &mut NameMap<Vec<u32>>,
)
    requires
        valid(*old(tensors), *old(cx)),
    ensures
        valid(*final(tensors), *final(cx)),
        grows(*old(cx), *final(cx)),
        defined(
            out@,
            sizes@,
            elements@,
            state(*old(tensors), *old(cx), data(*old(weight_data)), values(*old(known_values))),
            state(
                *final(tensors),
                *final(cx),
                data(*final(weight_data)),
                values(*final(known_values)),
            ),
        ),
{
    let tensor = cx.named_tensor(out, dims_of(sizes));
    bind(tensors, cx, out, tensor);
    remember(known_values, out, copy_bits(&elements));
    supply(weight_data, out, elements);
}

/// The tensor that the attribute `value` of a node holds.
pub open spec fn value_of(node: NodeDef) -> Option<TensorDef> {
    match node.attr("value"@) {
        Some(a) => a.t,
        None => None,
    }
}

/// The sizes of a tensor that the model gives; a scalar is read as a vector of
/// one element.
pub open spec fn constant_sizes(t: TensorDef) -> Seq<usize> {
    if t.dims@.len() == 0 {
        seq![1usize]
    } else {
        tensor_sizes(t)
    }
}

/// How the import of a Constant node ends.
pub open spec fn constant_outcome(node: NodeDef) -> Outcome {
    if node.output@.len() != 1 {
        Outcome::Rejects
    } else if node.attr("value"@) is None {
        Outcome::Fails("Constant node missing 'value' attribute"@)
    } else if value_of(node) is None {
        Outcome::Fails("Constant 'value' attribute has no TensorProto"@)
    } else if values_of(value_of(node)->0) is None {
        Outcome::Fails(
            "Constant node: unsupported data_type "@ + decimal(
                value_of(node)->0.data_type as int,
            ),
        )
    } else {
        Outcome::Done
    }
}

/// What the import of a Constant node does.
pub open spec fn constant_step(
    node: NodeDef,
    before: State,
    after: State,
    result: Outcome,
) -> bool {
    &&& result == constant_outcome(node)
    &&& result is Fails ==> after == before
    &&& result is Done ==> defined(
        node.out(0),
        constant_sizes(value_of(node)->0),
        values_of(value_of(node)->0)->0,
        before,
        after,
    )
}

/// Imports a Constant node: a tensor whose elements an attribute gives.
pub fn parse_constant(
    node: &NodeDef,
    tensors: &mut NameMap<GraphTensor>,
    cx: &mut ComputeGraph,
    weight_data: &mut Vec<(String, Vec<u32>)>,
    known_values: &mut NameMap<Vec<u32>>,
) -> (result: Result<(), String>)
    requires
        valid(*old(tensors), *old(cx)),
        !(constant_outcome(*node) is Rejects),
    ensures
        valid(*final(tensors), *final(cx)),
        grows(*old(cx), *final(cx)),
        constant_step(
            *node,
            state(*old(tensors), *old(cx), data(*old(weight_data)), values(*old(known_values))),
            state(
                *final(tensors),
                *final(cx),
                data(*final(weight_data)),
                values(*final(known_values)),
            ),
            ending(result),
        ),
{
    settle(try_constant(node, tensors, cx, weight_data, known_values))
}

/// The import of the same nodes, and of those that the operation does not admit.
pub(crate) fn try_constant(
    node: &NodeDef,
    tensors: &mut NameMap<GraphTensor>,
    cx: &mut ComputeGraph,
    weight_data: &mut Vec<(String, Vec<u32>)>,
    known_values: &mut NameMap<Vec<u32>>,
) -> (result: Result<(), Fault>)
    requires
        valid(*old(tensors), *old(cx)),
    ensures
        valid(*final(tensors), *final(cx)),
        grows(*old(cx), *final(cx)),
        constant_step(
            *node,
            state(*old(tensors), *old(cx), data(*old(weight_data)), values(*old(known_values))),
            state(
                *final(tensors),
                *final(cx),
                data(*final(weight_data)),
                values(*final(known_values)),
            ),
            outcome(result),
        ),
{
    if node.output.len() != 1 {
        return Err(Fault::Rejected);
    }
    let attribute = match find_attr(node, "value") {
        Some(attribute) => attribute,
        None => {
            return Err(
                Fault::Error(String::from_str("Constant node missing 'value' attribute")),
            );
        },
    };
    let given = match &attribute.t {
        Some(given) => given,
        None => {
            return Err(
                Fault::Error(String::from_str("Constant 'value' attribute has no TensorProto")),
            );
        },
    };
    let shape = if given.dims.len() == 0 {
        let one: Vec<usize> = vec![1];
        assert(one@ =~= seq![1usize]);
        one
    } else {
        sizes(given)
    };
    let elements = match tensor_values(given) {
        Some(elements) => elements,
        None => {
            let code = to_decimal(given.data_type as i64);
            let message = join("Constant node: unsupported data_type ", code.as_str(), "");
            proof {
                reveal_strlit("");
                assert(message@ =~= "Constant node: unsupported data_type "@ + decimal(
                    given.data_type as int,
                ));
            }
            return Err(Fault::Error(message));
        },
    };
    define(
        node.output[0].as_str(),
        &shape,
        elements,
        tensors,
        cx,
        weight_data,
        known_values,
    );
    Ok(())
}

/// The first data that was given under a name, from position `from` on.
pub open spec fn first_data(
    weights: Seq<(Seq<char>, Seq<u32>)>,
    name: Seq<char>,
    from: int,
) -> Option<Seq<u32>>
    decreases weights.len() - from,
{
    if from < 0 || from >= weights.len() {
        None
    } else if weights[from].0 == name {
        Some(weights[from].1)
    } else {
        first_data(weights, name, from + 1)
    }
}

/// The first data that was given under a name.
pub fn find_data<'a>(weights: &'a Vec<(String, Vec<u32>)>, name: &String) -> (found: Option<
    &'a Vec<u32>,
>)
    ensures
        match found {
            Some(v) => first_data(data(*weights), name@, 0) == Some(v@),
            None => first_data(data(*weights), name@, 0) is None,
        },
{
    let mut i: usize = 0;
    while i < weights.len()
        invariant
            i <= weights.len(),
            first_data(data(*weights), name@, 0) == first_data(data(*weights), name@, i as int),
        decreases weights.len() - i,
    {
        if weights[i].0 == *name {
            return Some(&weights[i].1);
        }
        i = i + 1;
    }
    None
}

/// The sizes that some known values give.
pub open spec fn sizes_from(values: Seq<u32>) -> Seq<usize> {
    Seq::new(values.len(), |i: int| as_usize(values[i]))
}

/// The sizes that some known values give.
pub fn to_sizes(values: &Vec<u32>) -> (sizes: Vec<usize>)
    ensures
        sizes@ == sizes_from(values@),
{
    let mut sizes: Vec<usize> = Vec::new();
    let mut i: usize = 0;
    while i < values.len()
        invariant
            i <= values.len(),
            sizes@.len() == i,
            forall|k: int| 0 <= k < i ==> #[trigger] sizes@[k] == as_usize(values@[k]),
        decreases values.len() - i,
    {
        sizes.push(to_usize(values[i]));
        i = i + 1;
    }
    assert(sizes@ =~= sizes_from(values@));
    sizes
}

/// The number that a ConstantOfShape node fills its output with, 0 if it gives
/// none.
pub open spec fn node_fill(node: NodeDef) -> Option<u32> {
    match value_of(node) {
        Some(t) => fill_of(t),
        None => Some(ZERO),
    }
}

/// The numbers that give a ConstantOfShape node the sizes of its output: the
/// known values of its input, or else the first data that was given under its
/// name.
pub open spec fn shape_numbers(node: NodeDef, before: State) -> Option<Seq<u32>> {
    if before.known.contains_key(node.inp(0)) {
        Some(before.known[node.inp(0)])
    } else {
        first_data(before.weights, node.inp(0), 0)
    }
}

/// How the import of a ConstantOfShape node ends.
pub open spec fn constant_of_shape_outcome(node: NodeDef, before: State) -> Outcome {
    let shape = shape_numbers(node, before);
    if node.input@.len() != 1 || node.output@.len() != 1 {
        Outcome::Rejects
    } else if shape is None {
        Outcome::Fails(
            "ConstantOfShape: shape input '"@ + node.inp(0)
                + "' not found in weight_data (must come from a Constant node)"@,
        )
    } else if bounded_product(sizes_from(shape->0)) is None || node_fill(node) is None {
        Outcome::Rejects
    } else {
        Outcome::Done
    }
}

/// What the import of a ConstantOfShape node does.
pub open spec fn constant_of_shape_step(
    node: NodeDef,
    before: State,
    after: State,
    result: Outcome,
) -> bool {
    let shape = sizes_from(shape_numbers(node, before)->0);
    &&& result == constant_of_shape_outcome(node, before)
    &&& result is Fails ==> after == before
    &&& result is Done ==> defined(
        node.out(0),
        shape,
        Seq::new(bounded_product(shape)->0 as nat, |i: int| node_fill(node)->0),
        before,
        after,
    )
}

/// Imports a ConstantOfShape node: a tensor whose sizes are the known values, or
/// the data, of the input, and whose elements are all the same number.
pub fn parse_constant_of_shape(
    node: &NodeDef,
    tensors: &mut NameMap<GraphTensor>,
    cx: &mut ComputeGraph,
    weight_data: &mut Vec<(String, Vec<u32>)>,
    known_values: &mut NameMap<Vec<u32>>,
) -> (result: Result<(), String>)
    requires
        valid(*old(tensors), *old(cx)),
        !(constant_of_shape_outcome(
                *node,
                state(*old(tensors), *old(cx), data(*old(weight_data)), values(*old(known_values))),
            ) is Rejects),
    ensures
        valid(*final(tensors), *final(cx)),
        grows(*old(cx), *final(cx)),
        constant_of_shape_step(
            *node,
            state(*old(tensors), *old(cx), data(*old(weight_data)), values(*old(known_values))),
            state(
                *final(tensors),
                *final(cx),
                data(*final(weight_data)),
                values(*final(known_values)),
            ),
            ending(result),
        ),
{
    settle(try_constant_of_shape(node, tensors, cx, weight_data, known_values))
}

/// The import of the same nodes, and of those that the operation does not admit.
pub(crate) fn try_constant_of_shape(
    node: &NodeDef,
    tensors: &mut NameMap<GraphTensor>,
    cx: &mut ComputeGraph,
    weight_data: &mut Vec<(String, Vec<u32>)>,
    known_values: &mut NameMap<Vec<u32>>,
) -> (result: Result<(), Fault>)
    requires
        valid(*old(tensors), *old(cx)),
    ensures
        valid(*final(tensors), *final(cx)),
        grows(*old(cx), *final(cx)),
        constant_of_shape_step(
            *node,
            state(*old(tensors), *old(cx), data(*old(weight_data)), values(*old(known_values))),
            state(
                *final(tensors),
                *final(cx),
                data(*final(weight_data)),
                values(*final(known_values)),
            ),
            outcome(result),
        ),
{
    if node.input.len() != 1 || node.output.len() != 1 {
        return Err(Fault::Rejected);
    }
    let shape = match recall(known_values, &node.input[0]) {
        Some(v) => to_sizes(&v),
        None => match find_data(weight_data, &node.input[0]) {
            Some(v) => to_sizes(v),
            None => {
                return Err(
                    Fault::Error(
                        join(
                            "ConstantOfShape: shape input '",
                            node.input[0].as_str(),
                            "' not found in weight_data (must come from a Constant node)",
                        ),
                    ),
                );
            },
        },
    };
    let count: usize = match checked_product(&shape) {
        Some(count) => count,
        None => {
            return Err(Fault::Rejected);
        },
    };
    let given = match find_attr(node, "value") {
        Some(attribute) => match &attribute.t {
            Some(t) => fill_value(t),
            None => Some(ZERO),
        },
        None => Some(ZERO),
    };
    let fill: u32 = match given {
        Some(fill) => fill,
        None => {
            return Err(Fault::Rejected);
        },
    };
    define(
        node.output[0].as_str(),
        &shape,
        repeat(fill, count),
        tensors,
        cx,
        weight_data,
        known_values,
    );
    Ok(())
}

} // verus!

//! The choice between two tensors, and the repetition of one.

use crate::bits::{clamp_to_billion, is_infinite};
#[allow(unused_imports)]
use crate::bits::{clamped_to_billion, infinite};
use crate::fold::{cycle, select, selectable, spread_elements};
#[allow(unused_imports)]
use crate::fold::{
    can_select, cycled, law_repeated_tensor_reads_repeated_values, law_spread_into_own_sizes,
    selected, spread_values,
};
use crate::graph::{broadcast_to, group_graph, ComputeGraph, GraphTensor};
#[allow(unused_imports)]
use crate::graph::{grows, load, Tensor};
use crate::names::{join, NameMap};
use crate::ops::constant::{define, to_sizes};
#[allow(unused_imports)]
use crate::ops::constant::{defined, sizes_from};
use crate::ops::pieces::whole_input;
#[allow(unused_imports)]
use crate::ops::pieces::is_whole;
use crate::proto::NodeDef;
use crate::shape::{checked_product, compute_broadcast_shape, copy_dims, dims_of, known_sizes};
#[allow(unused_imports)]
use crate::shape::{
    all_known, bounded_product, broadcast_sizes, can_broadcast, known_dims, law_joint_sizes_fit,
    lemma_bounded_product, product, read_position, row_major, sizes_of, Dim,
};
use crate::state::{
    bind, fetch, group_state, missing_error, recall, remember, settle, supply, Fault,
};
#[allow(unused_imports)]
use crate::state::{
    changed, data, ending, env, handles, missing, outcome, state, valid, values, Outcome, State,
};
use vstd::prelude::*;

verus! {

broadcast use {group_graph, group_state};

/// The sizes that three tensors are all repeated into, if there are such sizes.
pub open spec fn where_sizes(node: NodeDef, before: State) -> Option<Seq<usize>> {
    let c = before.env[node.inp(0)].dims();
    let x = before.env[node.inp(1)].dims();
    let y = before.env[node.inp(2)].dims();
    match broadcast_sizes(c, x) {
        None => None,
        Some(both) => broadcast_sizes(known_dims(both), y),
    }
}

/// Whether the elements of all three inputs are known.
pub open spec fn where_known(node: NodeDef, before: State) -> bool {
    &&& before.known.contains_key(node.inp(0))
    &&& before.known.contains_key(node.inp(1))
    &&& before.known.contains_key(node.inp(2))
}

/// Whether each input of a Where node has as many known elements as its sizes
/// say.
pub open spec fn where_whole(node: NodeDef, before: State) -> bool {
    &&& is_whole(node, before, 0)
    &&& is_whole(node, before, 1)
    &&& is_whole(node, before, 2)
}

/// The known elements of input `i` repeated into the joint sizes.
pub open spec fn spread_input(node: NodeDef, before: State, i: int) -> Seq<u32> {
    spread_values(
        before.known[node.inp(i)],
        sizes_of(before.env[node.inp(i)].dims()),
        where_sizes(node, before)->0,
    )
}

/// Whether the known elements of the inputs of a Where node can be chosen from:
/// those of inputs that have as many as their sizes say once they are repeated
/// into the joint sizes, those of others one by one.
pub open spec fn can_choose(node: NodeDef, before: State) -> bool {
    if where_whole(node, before) {
        bounded_product(where_sizes(node, before)->0) is Some
    } else {
        can_select(before.known[node.inp(0)], before.known[node.inp(1)], before.known[node.inp(2)])
    }
}

/// The known elements of the output of a Where node.
pub open spec fn chosen_values(node: NodeDef, before: State) -> Seq<u32> {
    if where_whole(node, before) {
        selected(
            spread_input(node, before, 0),
            spread_input(node, before, 1),
            spread_input(node, before, 2),
        )
    } else {
        selected(before.known[node.inp(0)], before.known[node.inp(1)], before.known[node.inp(2)])
    }
}

/// How the import of a Where node ends.
pub open spec fn where_outcome(node: NodeDef, before: State) -> Outcome {
    if node.input@.len() != 3 {
        Outcome::Rejects
    } else if !before.env.contains_key(node.inp(0)) {
        Outcome::Fails(missing("Where: missing condition tensor '"@, node.inp(0)))
    } else if !before.env.contains_key(node.inp(1)) {
        Outcome::Fails(missing("Where: missing X tensor '"@, node.inp(1)))
    } else if !before.env.contains_key(node.inp(2)) {
        Outcome::Fails(missing("Where: missing Y tensor '"@, node.inp(2)))
    } else if node.output@.len() == 0 || where_sizes(node, before) is None {
        Outcome::Rejects
    } else if where_known(node, before) && !can_choose(node, before) {
        Outcome::Rejects
    } else {
        Outcome::Done
    }
}

/// Whether one of some values is infinite.
pub open spec fn has_infinite(v: Seq<u32>) -> bool {
    exists|i: int| 0 <= i < v.len() && infinite(#[trigger] v[i])
}

/// Whether input `i` has known elements of which one is infinite.
pub open spec fn must_clamp(node: NodeDef, i: int, before: State) -> bool {
    before.known.contains_key(node.inp(i)) && has_infinite(before.known[node.inp(i)])
}

/// The values with those beyond a billion brought back to it.
pub open spec fn clamped_values(v: Seq<u32>) -> Seq<u32> {
    Seq::new(v.len(), |i: int| clamped_to_billion(v[i]))
}

/// What stands for input `i` of a Where node: the input, or if it has an
/// infinite element, a named tensor of its elements brought back to a billion,
/// so that no product of 0 and infinity arises.
pub open spec fn operand(node: NodeDef, i: int, end: Seq<char>, before: State) -> Tensor {
    let input = before.env[node.inp(i)];
    if must_clamp(node, i, before) {
        load(node.out(0) + end, input.dims())
    } else {
        input
    }
}

/// The named tensors after what stands for input `i` of a Where node has got its
/// name.
pub open spec fn operand_env(
    named: Map<Seq<char>, Tensor>,
    node: NodeDef,
    i: int,
    end: Seq<char>,
    before: State,
) -> Map<Seq<char>, Tensor> {
    if must_clamp(node, i, before) {
        named.insert(node.out(0) + end, operand(node, i, end, before))
    } else {
        named
    }
}

/// The name of what stands for input `i` of a Where node, if it is a new one.
pub open spec fn operand_names(node: NodeDef, i: int, end: Seq<char>, before: State) -> Set<
    Seq<char>,
> {
    if must_clamp(node, i, before) {
        set![node.out(0) + end]
    } else {
        Set::empty()
    }
}

/// The data of what stands for input `i` of a Where node.
pub open spec fn operand_data(node: NodeDef, i: int, end: Seq<char>, before: State) -> Seq<
    (Seq<char>, Seq<u32>),
> {
    if must_clamp(node, i, before) {
        seq![(node.out(0) + end, clamped_values(before.known[node.inp(i)]))]
    } else {
        Seq::empty()
    }
}

/// What the import of a Where node does. If the elements of all inputs are
/// known, so are those of the output.
pub open spec fn where_step(node: NodeDef, before: State, after: State, result: Outcome) -> bool {
    let out = node.out(0);
    let sizes = where_sizes(node, before)->0;
    &&& result == where_outcome(node, before)
    &&& result is Fails ==> after == before
    &&& result is Done ==> if where_known(node, before) {
        defined(out, sizes, chosen_values(node, before), before, after)
    } else {
        let x = operand(node, 1, "_x_clamped"@, before).broadcast(sizes);
        let y = operand(node, 2, "_y_clamped"@, before).broadcast(sizes);
        &&& after.env == operand_env(
            operand_env(before.env, node, 1, "_x_clamped"@, before),
            node,
            2,
            "_y_clamped"@,
            before,
        ).insert(out, x.cond(before.env[node.inp(0)].broadcast(sizes), y))
        &&& changed(
            before.tensors,
            after.tensors,
            operand_names(node, 1, "_x_clamped"@, before).union(
                operand_names(node, 2, "_y_clamped"@, before),
            ).insert(out),
        )
        &&& after.weights == before.weights + operand_data(node, 1, "_x_clamped"@, before)
            + operand_data(node, 2, "_y_clamped"@, before)
        &&& after.known == before.known
    }
}

/// The sizes that three tensors are all repeated into.
fn compute_where_broadcast_shape(c: &GraphTensor, x: &GraphTensor, y: &GraphTensor) -> (shape: Option<
    Vec<usize>,
>)
    ensures
        match broadcast_sizes(c@.shape.dims, x@.shape.dims) {
            None => shape is None,
            Some(both) => match shape {
                Some(s) => {
                    &&& broadcast_sizes(known_dims(both), y@.shape.dims) == Some(s@)
                    &&& can_broadcast(c@.shape.dims, s@)
                    &&& can_broadcast(x@.shape.dims, s@)
                    &&& can_broadcast(y@.shape.dims, s@)
                },
                None => broadcast_sizes(known_dims(both), y@.shape.dims) is None,
            },
        },
{
    match compute_broadcast_shape(c.dims(), x.dims()) {
        None => None,
        Some(both) => {
            let shape = compute_broadcast_shape(&dims_of(&both), y.dims());
            proof {
                law_joint_sizes_fit(c@.shape.dims, x@.shape.dims);
                if shape is Some {
                    law_joint_sizes_fit(known_dims(both@), y@.shape.dims);
                    lemma_broadcast_further(c@.shape.dims, both@, shape->0@);
                    lemma_broadcast_further(x@.shape.dims, both@, shape->0@);
                }
            }
            shape
        },
    }
}

proof fn lemma_broadcast_further(dims: Seq<Dim>, a: Seq<usize>, b: Seq<usize>)
    requires
        can_broadcast(dims, a),
        can_broadcast(known_dims(a), b),
    ensures
        can_broadcast(dims, b),
{
    let k = known_dims(a);
    assert forall|j: int| 0 <= j < dims.len() implies {
        ||| #[trigger] dims[j] == Dim::Known(1)
        ||| dims[j] == Dim::Known(b[b.len() - dims.len() + j])
    } by {
        let at = a.len() - dims.len() + j;
        assert(k[at] == Dim::Known(a[at]));
    }
}

/// The values with those beyond a billion brought back to it, if one of them is
/// infinite.
fn clamp_values(v: &Vec<u32>) -> (clamped: Option<Vec<u32>>)
    ensures
        match clamped {
            Some(c) => has_infinite(v@) && c@ == clamped_values(v@),
            None => !has_infinite(v@),
        },
{
    let mut found = false;
    let mut clamped: Vec<u32> = Vec::new();
    let mut i: usize = 0;
    while i < v.len()
        invariant
            i <= v.len(),
            clamped@.len() == i,
            forall|k: int| 0 <= k < i ==> #[trigger] clamped@[k] == clamped_to_billion(v@[k]),
            found == exists|k: int| 0 <= k < i && infinite(#[trigger] v@[k]),
        decreases v.len() - i,
    {
        if is_infinite(v[i]) {
            found = true;
        }
        clamped.push(clamp_to_billion(v[i]));
        i = i + 1;
    }
    assert(clamped@ =~= clamped_values(v@));
    if found {
        Some(clamped)
    } else {
        None
    }
}

/// What stands for an input of a Where node, repeated into the given sizes.
fn clamp_and_broadcast(
    tensor: &GraphTensor,
    input: &String,
    sizes: &Vec<usize>,
    out: &str,
    end: &str,
    tensors: &mut NameMap<GraphTensor>,
    cx: &mut ComputeGraph,
    weight_data: &mut Vec<(String, Vec<u32>)>,
    known_values: &NameMap<Vec<u32>>,
) -> (r: GraphTensor)
    requires
        valid(*old(tensors), *old(cx)),
        old(cx).holds(tensor@),
        can_broadcast(tensor@.shape.dims, sizes@),
    ensures
        valid(*final(tensors), *final(cx)),
        grows(*old(cx), *final(cx)),
        final(cx).holds(r@),
        r@.shape.dims == known_dims(sizes@),
        ({
            let known = values(*known_values);
            if known.contains_key(input@) && has_infinite(known[input@]) {
                &&& final(cx).meaning(r@) == load(out@ + end@, tensor@.shape.dims).broadcast(sizes@)
                &&& env(*final(tensors), *final(cx)) == env(*old(tensors), *old(cx)).insert(
                    out@ + end@,
                    load(out@ + end@, tensor@.shape.dims),
                )
                &&& changed(handles(*old(tensors)), handles(*final(tensors)), set![out@ + end@])
                &&& data(*final(weight_data)) == data(*old(weight_data)).push(
                    (out@ + end@, clamped_values(known[input@])),
                )
            } else {
                &&& final(cx).meaning(r@) == old(cx).meaning(tensor@).broadcast(sizes@)
                &&& env(*final(tensors), *final(cx)) == env(*old(tensors), *old(cx))
                &&& handles(*final(tensors)) == handles(*old(tensors))
                &&& data(*final(weight_data)) == data(*old(weight_data))
            }
        }),
{
    if let Some(vals) = recall(known_values, input) {
        if let Some(clamped) = clamp_values(&vals) {
            let name = join(out, end, "");
            proof {
                reveal_strlit("");
                assert(name@ =~= out@ + end@);
            }
            let named = cx.named_tensor(name.as_str(), copy_dims(tensor.dims()));
            assert(cx.meaning(named@).shape == named@.shape);
            bind(tensors, cx, name.as_str(), named.copy());
            supply(weight_data, name.as_str(), clamped);
            return broadcast_to(&named, sizes);
        }
    }
    broadcast_to(tensor, sizes)
}

/// The known elements of the output of a Where node, if they can be chosen.
fn choose_values(
    node: &NodeDef,
    sizes: &Vec<usize>,
    tensors: &NameMap<GraphTensor>,
    known_values: &NameMap<Vec<u32>>,
    c: &Vec<u32>,
    x: &Vec<u32>,
    y: &Vec<u32>,
    Ghost(before): Ghost<State>,
    Ghost(cx): Ghost<ComputeGraph>,
) -> (chosen: Option<Vec<u32>>)
    requires
        node.input@.len() == 3,
        before.env == env(*tensors, cx),
        before.known == values(*known_values),
        where_known(*node, before),
        forall|i: int| 0 <= i < 3 ==> before.env.contains_key(#[trigger] node.inp(i)),
        where_sizes(*node, before) == Some(sizes@),
        forall|i: int|
            0 <= i < 3 ==> can_broadcast(before.env[#[trigger] node.inp(i)].dims(), sizes@),
        c@ == before.known[node.inp(0)],
        x@ == before.known[node.inp(1)],
        y@ == before.known[node.inp(2)],
    ensures
        match chosen {
            Some(v) => can_choose(*node, before) && v@ == chosen_values(*node, before),
            None => !can_choose(*node, before),
        },
{
    let first = whole_input(node, 0, tensors, known_values, Ghost(before), Ghost(cx));
    let second = whole_input(node, 1, tensors, known_values, Ghost(before), Ghost(cx));
    let third = whole_input(node, 2, tensors, known_values, Ghost(before), Ghost(cx));
    match (first, second, third) {
        (Some((c, cs)), Some((x, xs)), Some((y, ys))) => {
            match checked_product(sizes) {
                Some(count) => {
                    let c = spread_elements(&c, &cs, sizes, count);
                    let x = spread_elements(&x, &xs, sizes, count);
                    let y = spread_elements(&y, &ys, sizes, count);
                    Some(select(&c, &x, &y))
                },
                None => None,
            }
        },
        _ => {
            if selectable(c, x, y) {
                Some(select(c, x, y))
            } else {
                None
            }
        },
    }
}

/// Imports a Where node: the elements of the second input where those of the
/// first differ from 0, and those of the third elsewhere.
pub fn parse_where_node(
    node: &NodeDef,
    tensors: &mut NameMap<GraphTensor>,
    cx: &mut ComputeGraph,
    weight_data: &mut Vec<(String, Vec<u32>)>,
    known_values: &mut NameMap<Vec<u32>>,
) -> (result: Result<(), String>)
    requires
        valid(*old(tensors), *old(cx)),
        !(where_outcome(
                *node,
                state(*old(tensors), *old(cx), data(*old(weight_data)), values(*old(known_values))),
            ) is Rejects),
    ensures
        valid(*final(tensors), *final(cx)),
        grows(*old(cx), *final(cx)),
        where_step(
            *node,
            state(*old(tensors), *old(cx), data(*old(weight_data)), values(*old(known_values))),
            state(
                *final(tensors),
                *final(cx),
                data(*final(weight_data)),
                values(*final(known_values)),
            ),
            ending(result),
        ),
{
    settle(try_where_node(node, tensors, cx, weight_data, known_values))
}

/// The import of the same nodes, and of those that the operation does not admit.
pub(crate) fn try_where_node(
    node: &NodeDef,
    tensors: &mut NameMap<GraphTensor>,
    cx: &mut ComputeGraph,
    weight_data: &mut Vec<(String, Vec<u32>)>,
    known_values: &mut NameMap<Vec<u32>>,
) -> (result: Result<(), Fault>)
    requires
        valid(*old(tensors), *old(cx)),
    ensures
        valid(*final(tensors), *final(cx)),
        grows(*old(cx), *final(cx)),
        where_step(
            *node,
            state(*old(tensors), *old(cx), data(*old(weight_data)), values(*old(known_values))),
            state(
                *final(tensors),
                *final(cx),
                data(*final(weight_data)),
                values(*final(known_values)),
            ),
            outcome(result),
        ),
{
    let ghost before = state(*tensors, *cx, data(*weight_data), values(*known_values));
    if node.input.len() != 3 {
        return Err(Fault::Rejected);
    }
    let c = match fetch(tensors, &node.input[0], "Where: missing condition tensor '") {
        Ok(c) => c,
        Err(fault) => {
            return Err(fault);
        },
    };
    let x = match fetch(tensors, &node.input[1], "Where: missing X tensor '") {
        Ok(x) => x,
        Err(fault) => {
            return Err(fault);
        },
    };
    let y = match fetch(tensors, &node.input[2], "Where: missing Y tensor '") {
        Ok(y) => y,
        Err(fault) => {
            return Err(fault);
        },
    };
    if node.output.len() == 0 {
        return Err(Fault::Rejected);
    }
    let out = node.output[0].as_str();
    let sizes = match compute_where_broadcast_shape(&c, &x, &y) {
        Some(sizes) => sizes,
        None => {
            return Err(Fault::Rejected);
        },
    };
    if let Some(vc) = recall(known_values, &node.input[0]) {
        if let Some(vx) = recall(known_values, &node.input[1]) {
            if let Some(vy) = recall(known_values, &node.input[2]) {
                let chosen = match choose_values(
                    node,
                    &sizes,
                    tensors,
                    known_values,
                    &vc,
                    &vx,
                    &vy,
                    Ghost(before),
                    Ghost(*cx),
                ) {
                    Some(chosen) => chosen,
                    None => {
                        return Err(Fault::Rejected);
                    },
                };
                define(out, &sizes, chosen, tensors, cx, weight_data, known_values);
                return Ok(());
            }
        }
    }
    let ghost first = *cx;
    let ghost given = data(*weight_data);
    let xf = clamp_and_broadcast(
        &x,
        &node.input[1],
        &sizes,
        out,
        "_x_clamped",
        tensors,
        cx,
        weight_data,
        known_values,
    );
    let yf = clamp_and_broadcast(
        &y,
        &node.input[2],
        &sizes,
        out,
        "_y_clamped",
        tensors,
        cx,
        weight_data,
        known_values,
    );
    proof {
        let before = state(*old(tensors), *old(cx), given, values(*old(known_values)));
        assert(data(*weight_data) =~= given + operand_data(*node, 1, "_x_clamped"@, before)
            + operand_data(*node, 2, "_y_clamped"@, before));
    }
    let condition = broadcast_to(&c, &sizes);
    let result = cx.cond(&xf, &condition, &yf);
    bind(tensors, cx, out, result);
    Ok(())
}

/// The sizes that an Expand node repeats its input into: on each axis, matched
/// from the last one backwards, the greater one of the input's and the target's
/// size, where the input has size 1 on the axes that it lacks.
pub open spec fn expand_sizes(dims: Seq<Dim>, target: Seq<usize>) -> Seq<usize> {
    let lead = target.len() - dims.len();
    Seq::new(
        target.len(),
        |i: int|
            {
                let own: usize = if i < lead {
                    1
                } else {
                    dims[i - lead]->Known_0
                };
                if own >= target[i] {
                    own
                } else {
                    target[i]
                }
            },
    )
}

/// How the import of an Expand node ends.
pub open spec fn expand_outcome(node: NodeDef, before: State) -> Outcome {
    let dims = before.env[node.inp(0)].dims();
    let target = sizes_from(before.known[node.inp(1)]);
    let sizes = expand_sizes(dims, target);
    if node.input@.len() != 2 {
        Outcome::Rejects
    } else if !before.env.contains_key(node.inp(0)) {
        Outcome::Fails(missing("Expand: missing input tensor '"@, node.inp(0)))
    } else if !before.known.contains_key(node.inp(1)) {
        Outcome::Fails(missing("Expand: missing shape data for '"@, node.inp(1)))
    } else if dims.len() > target.len() || !all_known(dims) || !can_broadcast(dims, sizes) {
        Outcome::Rejects
    } else if node.output@.len() == 0 {
        Outcome::Rejects
    } else if before.known.contains_key(node.inp(0)) && bounded_product(sizes) is None {
        Outcome::Rejects
    } else {
        Outcome::Done
    }
}

/// The elements of the output of an Expand node: those of the input, repeated
/// into the new sizes. If there are not as many of them as the sizes of the
/// input say, they start over when they end.
pub open spec fn expanded_values(v: Seq<u32>, from: Seq<usize>, to: Seq<usize>) -> Seq<u32> {
    if bounded_product(from) == Some(v.len() as usize) {
        spread_values(v, from, to)
    } else {
        cycled(v, product(to))
    }
}

/// What the import of an Expand node does.
pub open spec fn expand_step(node: NodeDef, before: State, after: State, result: Outcome) -> bool {
    let x = before.env[node.inp(0)];
    let sizes = expand_sizes(x.dims(), sizes_from(before.known[node.inp(1)]));
    &&& result == expand_outcome(node, before)
    &&& result is Fails ==> after == before
    &&& result is Done ==> {
        &&& after.env == before.env.insert(node.out(0), x.broadcast(sizes))
        &&& after.graph == before.graph
        &&& changed(before.tensors, after.tensors, set![node.out(0)])
        &&& after.weights == before.weights
        &&& after.known == if before.known.contains_key(node.inp(0)) {
            before.known.insert(
                node.out(0),
                expanded_values(before.known[node.inp(0)], sizes_of(x.dims()), sizes),
            )
        } else {
            before.known
        }
    }
}

/// The sizes that an Expand node repeats its input into.
fn greater_sizes(own: &Vec<usize>, target: &Vec<usize>) -> (sizes: Vec<usize>)
    requires
        own@.len() <= target@.len(),
    ensures
        sizes@ == expand_sizes(known_dims(own@), target@),
{
    let lead: usize = target.len() - own.len();
    let mut sizes: Vec<usize> = Vec::new();
    let mut i: usize = 0;
    while i < target.len()
        invariant
            own@.len() <= target@.len(),
            lead == target@.len() - own@.len(),
            i <= target@.len(),
            sizes@.len() == i,
            forall|k: int|
                0 <= k < i ==> #[trigger] sizes@[k] == expand_sizes(known_dims(own@), target@)[k],
        decreases target.len() - i,
    {
        let size: usize = if i < lead {
            1
        } else {
            own[i - lead]
        };
        if size >= target[i] {
            sizes.push(size);
        } else {
            sizes.push(target[i]);
        }
        i = i + 1;
    }
    assert(sizes@ =~= expand_sizes(known_dims(own@), target@));
    sizes
}

/// Imports an Expand node: the input repeated along the axes on which it has
/// the size 1, as the known values of the second input ask for.
pub fn parse_expand_node(
    node: &NodeDef,
    tensors: &mut NameMap<GraphTensor>,
    cx: &mut ComputeGraph,
    known_values: &mut NameMap<Vec<u32>>,
) -> (result: Result<(), String>)
    requires
        valid(*old(tensors), *old(cx)),
        !(expand_outcome(
                *node,
                state(*old(tensors), *old(cx), Seq::empty(), values(*old(known_values))),
            ) is Rejects),
    ensures
        valid(*final(tensors), *final(cx)),
        grows(*old(cx), *final(cx)),
        expand_step(
            *node,
            state(*old(tensors), *old(cx), Seq::empty(), values(*old(known_values))),
            state(*final(tensors), *final(cx), Seq::empty(), values(*final(known_values))),
            ending(result),
        ),
{
    settle(try_expand_node(node, tensors, cx, known_values))
}

/// The import of the same nodes, and of those that the operation does not admit.
pub(crate) fn try_expand_node(
    node: &NodeDef,
    tensors: &mut NameMap<GraphTensor>,
    cx: &mut ComputeGraph,
    known_values: &mut NameMap<Vec<u32>>,
) -> (result: Result<(), Fault>)
    requires
        valid(*old(tensors), *old(cx)),
    ensures
        valid(*final(tensors), *final(cx)),
        grows(*old(cx), *final(cx)),
        expand_step(
            *node,
            state(*old(tensors), *old(cx), Seq::empty(), values(*old(known_values))),
            state(*final(tensors), *final(cx), Seq::empty(), values(*final(known_values))),
            outcome(result),
        ),
{
    if node.input.len() != 2 {
        return Err(Fault::Rejected);
    }
    let x = match fetch(tensors, &node.input[0], "Expand: missing input tensor '") {
        Ok(x) => x,
        Err(fault) => {
            return Err(fault);
        },
    };
    let target = match recall(known_values, &node.input[1]) {
        Some(v) => to_sizes(&v),
        None => {
            return Err(
                missing_error("Expand: missing shape data for '", node.input[1].as_str()),
            );
        },
    };
    let own = match known_sizes(x.dims()) {
        Some(own) => own,
        None => {
            return Err(Fault::Rejected);
        },
    };
    if own.len() > target.len() || node.output.len() == 0 {
        return Err(Fault::Rejected);
    }
    let sizes = greater_sizes(&own, &target);
    if !x.shape.broadcasts_to(&sizes) {
        return Err(Fault::Rejected);
    }
    let out = node.output[0].as_str();
    let vals = recall(known_values, &node.input[0]);
    bind(tensors, cx, out, broadcast_to(&x, &sizes));
    if let Some(vals) = vals {
        let count: usize = match checked_product(&sizes) {
            Some(count) => count,
            None => {
                return Err(Fault::Rejected);
            },
        };
        let whole = match checked_product(&own) {
            Some(n) => n == vals.len(),
            None => false,
        };
        if whole {
            remember(known_values, out, spread_elements(&vals, &own, &sizes, count));
        } else {
            remember(known_values, out, cycle(&vals, count));
        }
    }
    Ok(())
}

/// An Expand node that is given the sizes that the input has leaves them, and
/// the known elements, as they are.
pub proof fn law_expand_to_own_sizes(v: Seq<u32>, own: Seq<usize>)
    requires
        v.len() <= usize::MAX,
        bounded_product(own) == Some(v.len() as usize),
    ensures
        expand_sizes(known_dims(own), own) == own,
        can_broadcast(known_dims(own), own),
        expanded_values(v, own, own) == v,
{
    assert(expand_sizes(known_dims(own), own) =~= own);
    lemma_bounded_product(own);
    law_spread_into_own_sizes(v, own);
}

/// The known elements of the output of an Expand node are those that its tensor
/// reads, if that of the input is contiguous.
pub proof fn law_expanded_values_are_read(v: Seq<u32>, from: Seq<usize>, to: Seq<usize>, p: int)
    requires
        v.len() <= usize::MAX,
        bounded_product(from) == Some(v.len() as usize),
        can_broadcast(known_dims(from), to),
        0 <= p < product(to),
    ensures
        expanded_values(v, from, to)[p] == v[read_position(
            row_major(known_dims(from)).broadcast(to),
            p,
        )],
{
    law_repeated_tensor_reads_repeated_values(from, to, p);
}

} // verus!

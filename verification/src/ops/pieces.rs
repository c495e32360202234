//! Tensors put one after the other, and parts of tensors.

use crate::bits::ZERO;
use crate::fold::{cut_elements, join_along, part};
#[allow(unused_imports)]
use crate::fold::{cut_values, joined_along, joined_sizes, lies_within};
use crate::graph::{are_ordered, concatenates, group_graph, ComputeGraph, GraphTensor};
#[allow(unused_imports)]
use crate::graph::{can_concat, grows, load, ranges_ordered, Tensor};
use crate::names::{join, size_to_decimal, NameMap};
#[allow(unused_imports)]
use crate::names::decimal;
use crate::ops::axes::{count_axis, to_whole_numbers};
#[allow(unused_imports)]
use crate::ops::axes::{counted, whole_numbers};
use crate::ops::constant::{define, to_sizes};
#[allow(unused_imports)]
use crate::ops::constant::{defined, sizes_from};
#[allow(unused_imports)]
use crate::ops::gather::at_least_one;
use crate::proto::{copy_bits, get_int_attr, NodeDef};
use crate::shape::{checked_product, copy_dims, dims_of, known_sizes, Dim};
#[allow(unused_imports)]
use crate::shape::{all_known, bounded_product, known_dims, product, sizes_of};
use crate::state::{bind, fetch, group_state, recall, remember, settle, supply, Fault};
#[allow(unused_imports)]
use crate::state::{
    changed, data, ending, env, handles, missing, outcome, state, valid, values, Outcome, State,
};
use vstd::arithmetic::div_mod::*;
use vstd::pervasive::unreached;
use vstd::prelude::*;

verus! {

broadcast use {group_graph, group_state};

/// Whether the elements of all inputs are known.
pub open spec fn inputs_known(node: NodeDef, before: State) -> bool {
    forall|i: int|
        0 <= i < node.input@.len() ==> before.known.contains_key(#[trigger] node.inp(i))
}

/// The known elements of the first `n` inputs, one after the other.
pub open spec fn joined_values(node: NodeDef, before: State, n: nat) -> Seq<u32>
    decreases n,
{
    if n == 0 {
        Seq::empty()
    } else {
        joined_values(node, before, (n - 1) as nat) + before.known[node.inp(n - 1)]
    }
}

/// The first `n` inputs one after the other along an axis.
pub open spec fn chained(node: NodeDef, before: State, axis: int, n: nat) -> Tensor
    decreases n,
{
    if n <= 1 {
        before.env[node.inp(0)]
    } else {
        chained(node, before, axis, (n - 1) as nat).concat(
            before.env[node.inp(n - 1)],
            axis as usize,
        )
    }
}

/// How putting the first `n` inputs one after the other ends.
pub open spec fn chain_outcome(node: NodeDef, before: State, axis: int, n: nat) -> Outcome
    decreases n,
{
    if n == 0 {
        Outcome::Done
    } else {
        let prior = chain_outcome(node, before, axis, (n - 1) as nat);
        let name = node.inp(n - 1);
        if !(prior is Done) {
            prior
        } else if !before.env.contains_key(name) {
            Outcome::Fails(missing("Concat: missing input tensor '"@, name))
        } else if n > 1 && !can_concat(
            chained(node, before, axis, (n - 1) as nat).dims(),
            before.env[name].dims(),
            axis,
        ) {
            Outcome::Rejects
        } else {
            Outcome::Done
        }
    }
}

/// The axis that a Concat node puts its inputs one after the other along.
pub open spec fn concat_axis(node: NodeDef, before: State) -> int {
    counted(node.int_attr("axis"@, 0), before.env[node.inp(0)].dims().len())
}

/// Whether input `i` has as many known elements as its sizes say.
pub open spec fn is_whole(node: NodeDef, before: State, i: int) -> bool {
    let dims = before.env[node.inp(i)].dims();
    &&& all_known(dims)
    &&& bounded_product(sizes_of(dims)) == Some(before.known[node.inp(i)].len() as usize)
}

/// Whether the known elements of the first `n` inputs can be put one after the
/// other along an axis: each has as many as its sizes say, and so many are
/// representable.
pub open spec fn can_join(node: NodeDef, before: State, axis: int, n: nat) -> bool
    decreases n,
{
    if n == 0 {
        true
    } else if n == 1 {
        is_whole(node, before, 0)
    } else {
        &&& can_join(node, before, axis, (n - 1) as nat)
        &&& is_whole(node, before, n - 1)
        &&& bounded_product(sizes_of(chained(node, before, axis, n).dims())) is Some
    }
}

/// The known elements of the first `n` inputs, one after the other along an
/// axis.
pub open spec fn chained_values(node: NodeDef, before: State, axis: int, n: nat) -> Seq<u32>
    decreases n,
{
    if n <= 1 {
        before.known[node.inp(0)]
    } else {
        joined_along(
            chained_values(node, before, axis, (n - 1) as nat),
            sizes_of(chained(node, before, axis, (n - 1) as nat).dims()),
            before.known[node.inp(n - 1)],
            sizes_of(before.env[node.inp(n - 1)].dims()),
            axis,
        )
    }
}

/// How putting all inputs of a Concat node one after the other ends.
pub open spec fn whole_chain_outcome(node: NodeDef, before: State) -> Outcome {
    chain_outcome(node, before, concat_axis(node, before), node.input@.len())
}

/// Whether the known elements of all inputs of a Concat node can be put one after
/// the other along the axis, and there are any.
pub open spec fn concat_folds(node: NodeDef, before: State) -> bool {
    let axis = concat_axis(node, before);
    let count = node.input@.len();
    &&& inputs_known(node, before)
    &&& whole_chain_outcome(node, before) is Done
    &&& 0 <= axis < before.env[node.inp(0)].dims().len()
    &&& can_join(node, before, axis, count)
    &&& chained_values(node, before, axis, count).len() > 0
}

/// How the import of a Concat node ends.
pub open spec fn concat_outcome(node: NodeDef, before: State) -> Outcome {
    if node.input@.len() == 0 || node.output@.len() == 0 {
        Outcome::Rejects
    } else if inputs_known(node, before) {
        Outcome::Done
    } else {
        whole_chain_outcome(node, before)
    }
}

/// What the import of a Concat node does. If the elements of all inputs are
/// known, the output is a named tensor of them, in the order that they have one
/// after the other along the axis. Lists that are not as long as the sizes of
/// their tensors say, or whose tensors lack the axis, are put one after the other
/// as they are. If there are no elements at all, the output has one axis of the
/// size 1.
pub open spec fn concat_step(node: NodeDef, before: State, after: State, result: Outcome) -> bool {
    let out = node.out(0);
    let count = node.input@.len();
    let axis = concat_axis(node, before);
    let joined = joined_values(node, before, count);
    &&& result == concat_outcome(node, before)
    &&& result is Fails ==> after == before
    &&& result is Done ==> if concat_folds(node, before) {
        defined(
            out,
            sizes_of(chained(node, before, axis, count).dims()),
            chained_values(node, before, axis, count),
            before,
            after,
        )
    } else if inputs_known(node, before) {
        defined(out, seq![at_least_one(joined.len()) as usize], joined, before, after)
    } else {
        &&& after.env == before.env.insert(out, chained(node, before, axis, count))
        &&& changed(before.tensors, after.tensors, set![out])
        &&& after.weights == before.weights
        &&& after.known == before.known
    }
}

/// The known elements of all inputs, one after the other, if all are known.
fn join_values(node: &NodeDef, known_values: &NameMap<Vec<u32>>, Ghost(before): Ghost<State>) -> (joined:
    Option<Vec<u32>>)
    requires
        before.known == values(*known_values),
    ensures
        match joined {
            Some(v) => inputs_known(*node, before) && v@ == joined_values(
                *node,
                before,
                node.input@.len(),
            ),
            None => !inputs_known(*node, before),
        },
{
    let mut joined: Vec<u32> = Vec::new();
    let mut i: usize = 0;
    while i < node.input.len()
        invariant
            before.known == values(*known_values),
            i <= node.input@.len(),
            joined@ == joined_values(*node, before, i as nat),
            forall|k: int| 0 <= k < i ==> before.known.contains_key(#[trigger] node.inp(k)),
        decreases node.input.len() - i,
    {
        match recall(known_values, &node.input[i]) {
            Some(v) => {
                let mut v = v;
                joined.append(&mut v);
            },
            None => {
                assert(!before.known.contains_key(node.inp(i as int)));
                return None;
            },
        }
        i = i + 1;
    }
    Some(joined)
}

/// The dimensions of the inputs of a Concat node one after the other, and the
/// axis, if it is one of the first input.
fn check_chain(
    node: &NodeDef,
    tensors: &NameMap<GraphTensor>,
    Ghost(before): Ghost<State>,
    Ghost(cx): Ghost<ComputeGraph>,
) -> (found: Result<Option<usize>, Fault>)
    requires
        node.input@.len() > 0,
        before.env == env(*tensors, cx),
    ensures
        match found {
            Ok(axis) => {
                &&& whole_chain_outcome(*node, before) is Done
                &&& match axis {
                    Some(a) => {
                        &&& a == concat_axis(*node, before)
                        &&& a < before.env[node.inp(0)].dims().len()
                    },
                    None => {
                        &&& node.input@.len() == 1
                        &&& !(0 <= concat_axis(*node, before) < before.env[node.inp(
                            0,
                        )].dims().len())
                    },
                }
            },
            Err(fault) => {
                &&& outcome(Err(fault)) == whole_chain_outcome(*node, before)
                &&& !(outcome(Err(fault)) is Done)
            },
        },
{
    let ghost number = concat_axis(*node, before);
    let ghost total = node.input@.len();
    proof {
        lemma_chain_outcome(*node, before, number, 1, total);
        assert(chain_outcome(*node, before, number, 0) is Done);
    }
    let first = match fetch(tensors, &node.input[0], "Concat: missing input tensor '") {
        Ok(first) => first,
        Err(fault) => {
            return Err(fault);
        },
    };
    let rank: usize = first.dims().len();
    let found = count_axis(get_int_attr(node, "axis", 0), rank, rank);
    if node.input.len() == 1 {
        return match found {
            Some(axis) => Ok(Some(axis)),
            None => Ok(None),
        };
    }
    let mut dims = copy_dims(first.dims());
    let mut i: usize = 1;
    while i < node.input.len()
        invariant
            1 <= i <= node.input@.len(),
            node.input@.len() > 1,
            before.env == env(*tensors, cx),
            total == node.input@.len(),
            number == concat_axis(*node, before),
            dims@ == chained(*node, before, number, i as nat).dims(),
            chain_outcome(*node, before, number, i as nat) is Done,
            i > 1 ==> found is Some,
            match found {
                Some(axis) => axis == number && axis < rank,
                None => !(0 <= number < rank),
            },
            rank == before.env[node.inp(0)].dims().len(),
        decreases node.input.len() - i,
    {
        proof {
            lemma_chain_outcome(*node, before, number, (i + 1) as nat, total);
            lemma_chained_rank(*node, before, number, i as nat);
        }
        let next = match fetch(tensors, &node.input[i], "Concat: missing input tensor '") {
            Ok(next) => next,
            Err(fault) => {
                return Err(fault);
            },
        };
        assert(before.env[node.inp(i as int)].dims() == next@.shape.dims);
        match found {
            Some(axis) => {
                if !concatenates(&dims, next.dims(), axis) {
                    return Err(Fault::Rejected);
                }
                let size = match (dims[axis], next.dims()[axis]) {
                    (Dim::Known(x), Dim::Known(y)) => Dim::Known(x + y),
                    _ => Dim::Dynamic,
                };
                dims.set(axis, size);
            },
            None => {
                return Err(Fault::Rejected);
            },
        }
        i = i + 1;
    }
    Ok(found)
}

/// The known elements of all inputs of a Concat node one after the other along
/// the axis, with their sizes, if that is possible.
fn join_chain(
    node: &NodeDef,
    axis: usize,
    tensors: &NameMap<GraphTensor>,
    known_values: &NameMap<Vec<u32>>,
    Ghost(before): Ghost<State>,
    Ghost(cx): Ghost<ComputeGraph>,
) -> (found: Option<(Vec<u32>, Vec<usize>)>)
    requires
        node.input@.len() > 0,
        before.env == env(*tensors, cx),
        before.known == values(*known_values),
        inputs_known(*node, before),
        whole_chain_outcome(*node, before) is Done,
        axis == concat_axis(*node, before),
        axis < before.env[node.inp(0)].dims().len(),
    ensures
        ({
            let number = concat_axis(*node, before);
            let count = node.input@.len();
            match found {
                Some((v, s)) => {
                    &&& can_join(*node, before, number, count)
                    &&& v@ == chained_values(*node, before, number, count)
                    &&& s@ == sizes_of(chained(*node, before, number, count).dims())
                },
                None => !can_join(*node, before, number, count),
            }
        }),
{
    let ghost number = concat_axis(*node, before);
    let ghost total = node.input@.len();
    proof {
        lemma_chain_done(*node, before, number, 1, total);
        assert(before.known.contains_key(node.inp(0)));
        assert(chain_outcome(*node, before, number, 1) is Done);
        if can_join(*node, before, number, total) {
            lemma_can_join(*node, before, number, 1, total);
        }
    }
    let (mut v, mut s) = match whole_input(node, 0, tensors, known_values, Ghost(before), Ghost(cx)) {
        Some(found) => found,
        None => {
            return None;
        },
    };
    let mut i: usize = 1;
    while i < node.input.len()
        invariant
            1 <= i <= node.input@.len(),
            before.env == env(*tensors, cx),
            before.known == values(*known_values),
            inputs_known(*node, before),
            total == node.input@.len(),
            number == concat_axis(*node, before),
            chain_outcome(*node, before, number, total) is Done,
            axis == number,
            axis < before.env[node.inp(0)].dims().len(),
            can_join(*node, before, number, i as nat),
            v@ == chained_values(*node, before, number, i as nat),
            s@ == sizes_of(chained(*node, before, number, i as nat).dims()),
            known_dims(s@) == chained(*node, before, number, i as nat).dims(),
            v@.len() == product(s@),
        decreases node.input.len() - i,
    {
        let ghost so_far = chained(*node, before, number, i as nat).dims();
        let ghost next_dims = before.env[node.inp(i as int)].dims();
        proof {
            lemma_chain_done(*node, before, number, (i + 1) as nat, total);
            lemma_chain_done(*node, before, number, i as nat, total);
            lemma_chained_rank(*node, before, number, i as nat);
            assert(before.known.contains_key(node.inp(i as int)));
            if can_join(*node, before, number, total) {
                lemma_can_join(*node, before, number, (i + 1) as nat, total);
            }
        }
        let (w, t) = match whole_input(
            node,
            i,
            tensors,
            known_values,
            Ghost(before),
            Ghost(cx),
        ) {
            Some(found) => found,
            None => {
                return None;
            },
        };
        proof {
            assert(can_concat(so_far, next_dims, number));
            assert(so_far[number] == Dim::Known(s@[number]));
            assert(next_dims[number] == Dim::Known(t@[number]));
            assert forall|k: int| 0 <= k < s@.len() && k != number implies #[trigger] s@[k]
                == t@[k] by {
                assert(so_far[k] == next_dims[k]);
                assert(so_far[k] == Dim::Known(s@[k]));
                assert(next_dims[k] == Dim::Known(t@[k]));
            }
        }
        let mut both: Vec<usize> = Vec::new();
        let mut k: usize = 0;
        while k < s.len()
            invariant
                k <= s@.len(),
                axis < s@.len(),
                axis < t@.len(),
                s@[axis as int] + t@[axis as int] <= usize::MAX,
                both@.len() == k,
                forall|l: int|
                    0 <= l < k ==> #[trigger] both@[l] == joined_sizes(s@, t@, axis as int)[l],
            decreases s.len() - k,
        {
            if k == axis {
                both.push(s[k] + t[k]);
            } else {
                both.push(s[k]);
            }
            k = k + 1;
        }
        assert(both@ =~= joined_sizes(s@, t@, axis as int));
        proof {
            let after = chained(*node, before, number, (i + 1) as nat).dims();
            assert(after =~= known_dims(both@));
            assert(sizes_of(after) =~= both@);
        }
        let count: usize = match checked_product(&both) {
            Some(count) => count,
            None => {
                return None;
            },
        };
        v = join_along(&v, &s, &w, &t, axis, count);
        s = both;
        i = i + 1;
    }
    Some((v, s))
}

/// The known elements of an input and its sizes, if there are as many elements
/// as these say.
pub(crate) fn whole_input(
    node: &NodeDef,
    i: usize,
    tensors: &NameMap<GraphTensor>,
    known_values: &NameMap<Vec<u32>>,
    Ghost(before): Ghost<State>,
    Ghost(cx): Ghost<ComputeGraph>,
) -> (found: Option<(Vec<u32>, Vec<usize>)>)
    requires
        i < node.input@.len(),
        before.env == env(*tensors, cx),
        before.known == values(*known_values),
        before.known.contains_key(node.inp(i as int)),
        before.env.contains_key(node.inp(i as int)),
    ensures
        match found {
            Some((v, s)) => {
                &&& is_whole(*node, before, i as int)
                &&& v@ == before.known[node.inp(i as int)]
                &&& s@ == sizes_of(before.env[node.inp(i as int)].dims())
                &&& known_dims(s@) == before.env[node.inp(i as int)].dims()
                &&& v@.len() == product(s@)
            },
            None => !is_whole(*node, before, i as int),
        },
{
    let v = match recall(known_values, &node.input[i]) {
        Some(v) => v,
        None => {
            return None;
        },
    };
    let s = match tensors.get(node.input[i].as_str()) {
        Some(tensor) => match known_sizes(tensor.dims()) {
            Some(s) => s,
            None => {
                return None;
            },
        },
        None => {
            return None;
        },
    };
    match checked_product(&s) {
        Some(count) => {
            if count == v.len() {
                Some((v, s))
            } else {
                None
            }
        },
        None => None,
    }
}

proof fn lemma_can_join(node: NodeDef, before: State, axis: int, n: nat, m: nat)
    requires
        n <= m,
        can_join(node, before, axis, m),
    ensures
        can_join(node, before, axis, n),
    decreases m,
{
    if n < m {
        if m == 1 {
        } else {
            lemma_can_join(node, before, axis, n, (m - 1) as nat);
        }
    }
}

proof fn lemma_chain_done(node: NodeDef, before: State, axis: int, n: nat, m: nat)
    requires
        n <= m,
        chain_outcome(node, before, axis, m) is Done,
    ensures
        chain_outcome(node, before, axis, n) is Done,
    decreases m,
{
    if n < m {
        lemma_chain_done(node, before, axis, n, (m - 1) as nat);
    }
}

/// Adds the inputs of a Concat node one after the other.
fn add_chain(
    node: &NodeDef,
    axis: Option<usize>,
    tensors: &NameMap<GraphTensor>,
    cx: &mut ComputeGraph,
    Ghost(before): Ghost<State>,
) -> (r: GraphTensor)
    requires
        valid(*tensors, *old(cx)),
        node.input@.len() > 0,
        before.env == env(*tensors, *old(cx)),
        whole_chain_outcome(*node, before) is Done,
        match axis {
            Some(a) => a == concat_axis(*node, before),
            None => node.input@.len() == 1,
        },
    ensures
        grows(*old(cx), *final(cx)),
        final(cx).holds(r@),
        final(cx).meaning(r@) == chained(
            *node,
            before,
            concat_axis(*node, before),
            node.input@.len(),
        ),
{
    let ghost number = concat_axis(*node, before);
    let ghost total = node.input@.len();
    proof {
        lemma_chain_done(*node, before, number, 1, total);
        assert(before.env.contains_key(node.inp(0)));
    }
    let mut result = match tensors.get(node.input[0].as_str()) {
        Some(first) => first.copy(),
        None => unreached(),
    };
    let mut i: usize = 1;
    while i < node.input.len()
        invariant
            1 <= i <= node.input@.len(),
            valid(*tensors, *cx),
            valid(*tensors, *old(cx)),
            grows(*old(cx), *cx),
            before.env == env(*tensors, *old(cx)),
            total == node.input@.len(),
            number == concat_axis(*node, before),
            chain_outcome(*node, before, number, total) is Done,
            match axis {
                Some(a) => a == number,
                None => node.input@.len() == 1,
            },
            cx.holds(result@),
            cx.meaning(result@) == chained(*node, before, number, i as nat),
        decreases node.input.len() - i,
    {
        proof {
            lemma_chain_done(*node, before, number, (i + 1) as nat, total);
            lemma_chain_done(*node, before, number, i as nat, total);
            assert(before.env.contains_key(node.inp(i as int)));
        }
        if let (Some(next), Some(at)) = (tensors.get(node.input[i].as_str()), axis) {
            assert(before.env[node.inp(i as int)] == cx.meaning(next@));
            assert(cx.meaning(result@).shape == result@.shape);
            let ghost prior = *cx;
            result = cx.concat(&result, next, at);
            assert(grows(prior, *cx));
        }
        i = i + 1;
    }
    result
}

/// Imports a Concat node: the inputs one after the other along an axis.
pub fn parse_concat_node(
    node: &NodeDef,
    tensors: &mut NameMap<GraphTensor>,
    cx: &mut ComputeGraph,
    weight_data: &mut Vec<(String, Vec<u32>)>,
    known_values: &mut NameMap<Vec<u32>>,
) -> (result: Result<(), String>)
    requires
        valid(*old(tensors), *old(cx)),
        !(concat_outcome(
                *node,
                state(*old(tensors), *old(cx), data(*old(weight_data)), values(*old(known_values))),
            ) is Rejects),
    ensures
        valid(*final(tensors), *final(cx)),
        grows(*old(cx), *final(cx)),
        concat_step(
            *node,
            state(*old(tensors), *old(cx), data(*old(weight_data)), values(*old(known_values))),
            state(
                *final(tensors),
                *final(cx),
                data(*final(weight_data)),
                values(*final(known_values)),
            ),
            ending(result),
        ),
{
    settle(try_concat_node(node, tensors, cx, weight_data, known_values))
}

/// The import of the same nodes, and of those that the operation does not admit.
pub(crate) fn try_concat_node(
    node: &NodeDef,
    tensors: &mut NameMap<GraphTensor>,
    cx: &mut ComputeGraph,
    weight_data: &mut Vec<(String, Vec<u32>)>,
    known_values: &mut NameMap<Vec<u32>>,
) -> (result: Result<(), Fault>)
    requires
        valid(*old(tensors), *old(cx)),
    ensures
        valid(*final(tensors), *final(cx)),
        grows(*old(cx), *final(cx)),
        concat_step(
            *node,
            state(*old(tensors), *old(cx), data(*old(weight_data)), values(*old(known_values))),
            state(
                *final(tensors),
                *final(cx),
                data(*final(weight_data)),
                values(*final(known_values)),
            ),
            outcome(result),
        ),
{
    let ghost before = state(*tensors, *cx, data(*weight_data), values(*known_values));
    if node.input.len() == 0 || node.output.len() == 0 {
        return Err(Fault::Rejected);
    }
    let out = node.output[0].as_str();
    let chain = check_chain(node, tensors, Ghost(before), Ghost(*cx));
    if let Some(joined) = join_values(node, known_values, Ghost(before)) {
        if let Ok(Some(axis)) = chain {
            if let Some((v, sizes)) = join_chain(
                node,
                axis,
                tensors,
                known_values,
                Ghost(before),
                Ghost(*cx),
            ) {
                if v.len() > 0 {
                    define(out, &sizes, v, tensors, cx, weight_data, known_values);
                    return Ok(());
                }
            }
        }
        let len: usize = if joined.len() == 0 {
            1
        } else {
            joined.len()
        };
        let shape: Vec<usize> = vec![len];
        assert(shape@ =~= seq![len]);
        define(out, &shape, joined, tensors, cx, weight_data, known_values);
        return Ok(());
    }
    match chain {
        Ok(axis) => {
            let result = add_chain(node, axis, tensors, cx, Ghost(before));
            bind(tensors, cx, out, result);
            Ok(())
        },
        Err(fault) => Err(fault),
    }
}

/// What stops at some input stops.
proof fn lemma_chain_outcome(node: NodeDef, before: State, axis: int, n: nat, m: nat)
    requires
        n <= m,
    ensures
        !(chain_outcome(node, before, axis, n) is Done) ==> chain_outcome(node, before, axis, m)
            == chain_outcome(node, before, axis, n),
    decreases m,
{
    if n < m {
        lemma_chain_outcome(node, before, axis, n, (m - 1) as nat);
    }
}

/// Tensors one after the other have as many axes as the first one.
proof fn lemma_chained_rank(node: NodeDef, before: State, axis: int, n: nat)
    requires
        n >= 1,
        chain_outcome(node, before, axis, n) is Done,
    ensures
        chained(node, before, axis, n).dims().len() == before.env[node.inp(0)].dims().len(),
    decreases n,
{
    if n > 1 {
        lemma_chained_rank(node, before, axis, (n - 1) as nat);
    }
}

/// What a Slice node cuts out: for each of some axes, where the part starts,
/// where it ends, and in which steps it goes on.
#[verifier::ext_equal]
pub struct Cuts {
    pub starts: Seq<i64>,
    pub ends: Seq<i64>,
    pub axes: Seq<i64>,
    pub steps: Seq<i64>,
}

/// The position among `size` ones that the start or the end of a part stands
/// for: negative numbers count from the end, and those beyond the ends stand
/// for the ends.
pub open spec fn cut_position(number: i64, size: int) -> int {
    if number < 0 {
        if size + number < 0 {
            0
        } else {
            size + number
        }
    } else if number > size {
        size
    } else {
        number as int
    }
}

impl Cuts {
    /// The axis of cut `i` of a tensor with `rank` axes.
    pub open spec fn axis(self, rank: nat, i: int) -> int {
        counted(self.axes[i], rank)
    }

    /// How the cuts from `i` on end.
    pub open spec fn outcome(self, dims: Seq<Dim>, i: int) -> Outcome
        decreases self.axes.len() - i,
    {
        let axis = self.axis(dims.len(), i);
        if i < 0 || i >= self.axes.len() {
            Outcome::Done
        } else if !(0 <= axis < dims.len()) {
            Outcome::Rejects
        } else if dims[axis] is Dynamic {
            Outcome::Fails("Slice: dimension must be concrete"@)
        } else if dims[axis]->Known_0 > i32::MAX || i >= self.starts.len() || i >= self.ends.len() {
            Outcome::Rejects
        } else if i >= self.steps.len() || self.steps[i] != 1 {
            Outcome::Rejects
        } else {
            self.outcome(dims, i + 1)
        }
    }

    /// The part of the axis that cut `i` leaves.
    pub open spec fn range(self, dims: Seq<Dim>, i: int) -> (Dim, Dim) {
        let size = dims[self.axis(dims.len(), i)]->Known_0 as int;
        (
            Dim::Known(cut_position(self.starts[i], size) as usize),
            Dim::Known(cut_position(self.ends[i], size) as usize),
        )
    }

    /// The parts of all axes that the first `n` cuts leave.
    pub open spec fn ranges(self, dims: Seq<Dim>, n: nat) -> Seq<(Dim, Dim)>
        decreases n,
    {
        if n == 0 {
            Seq::new(dims.len(), |i: int| (Dim::Known(0), dims[i]))
        } else {
            self.ranges(dims, (n - 1) as nat).update(
                self.axis(dims.len(), n - 1),
                self.range(dims, n - 1),
            )
        }
    }
}

/// A part that is cut out lies within its axis.
pub proof fn law_cut_within_axis(number: i64, size: int)
    requires
        size >= 0,
    ensures
        0 <= cut_position(number, size) <= size,
{
}

/// Whether the numbers of input `i`, if it is given, are known.
pub open spec fn numbers_known(node: NodeDef, i: int, before: State) -> bool {
    !node.has_input(i) || before.known.contains_key(node.inp(i))
}

/// What a Slice node cuts out. If it gives no axes, the first ones are meant, and
/// if it gives no steps, they are 1.
pub open spec fn cuts_of(node: NodeDef, before: State) -> Cuts {
    let starts = whole_numbers(before.known[node.inp(1)]);
    Cuts {
        starts,
        ends: whole_numbers(before.known[node.inp(2)]),
        axes: if node.has_input(3) {
            whole_numbers(before.known[node.inp(3)])
        } else {
            Seq::new(starts.len(), |i: int| i as i64)
        },
        steps: if node.has_input(4) {
            whole_numbers(before.known[node.inp(4)])
        } else {
            Seq::new(starts.len(), |i: int| 1i64)
        },
    }
}

/// A message about numbers that must be known.
pub open spec fn must_be_known(prefix: Seq<char>, name: Seq<char>) -> Seq<char> {
    prefix + name + "' must be known"@
}

/// Whether a Slice node cuts one part out of a vector.
pub open spec fn cuts_vector(node: NodeDef, before: State) -> bool {
    before.env[node.inp(0)].dims().len() == 1 && cuts_of(node, before).axes.len() == 1
}

/// Whether the elements of the output of a Slice node are known: those of the
/// input are, and it cuts one part out of a vector, or they are as many as the
/// sizes say and the part is not empty.
pub open spec fn slice_known(node: NodeDef, before: State) -> bool {
    &&& before.known.contains_key(node.inp(0))
    &&& cuts_vector(node, before) || (is_whole(node, before, 0) && product(
        range_widths(slice_ranges(node, before)),
    ) > 0)
}

/// Where parts of axes start.
pub open spec fn range_starts(ranges: Seq<(Dim, Dim)>) -> Seq<usize> {
    Seq::new(ranges.len(), |i: int| ranges[i].0->Known_0)
}

/// The sizes of parts of axes.
pub open spec fn range_widths(ranges: Seq<(Dim, Dim)>) -> Seq<usize> {
    Seq::new(ranges.len(), |i: int| (ranges[i].1->Known_0 - ranges[i].0->Known_0) as usize)
}

/// The known elements that a Slice node cuts out.
pub open spec fn sliced_values(node: NodeDef, before: State) -> Seq<u32> {
    let v = before.known[node.inp(0)];
    let ranges = slice_ranges(node, before);
    if is_whole(node, before, 0) {
        cut_values(
            v,
            sizes_of(before.env[node.inp(0)].dims()),
            range_starts(ranges),
            range_widths(ranges),
        )
    } else {
        v.subrange(ranges[0].0->Known_0 as int, ranges[0].1->Known_0 as int)
    }
}

/// The sizes of a named tensor that a Slice node makes: those of the part, or 1
/// if it is an empty part of a vector.
pub open spec fn sliced_sizes(node: NodeDef, before: State) -> Seq<usize> {
    if sliced_values(node, before).len() == 0 {
        seq![1usize]
    } else {
        range_widths(slice_ranges(node, before))
    }
}

/// The parts of all axes that a Slice node leaves.
pub open spec fn slice_ranges(node: NodeDef, before: State) -> Seq<(Dim, Dim)> {
    let cuts = cuts_of(node, before);
    cuts.ranges(before.env[node.inp(0)].dims(), cuts.axes.len())
}

/// How the import of a Slice node ends.
pub open spec fn slice_outcome(node: NodeDef, before: State) -> Outcome {
    let dims = before.env[node.inp(0)].dims();
    let cut = cuts_of(node, before).outcome(dims, 0);
    let ranges = slice_ranges(node, before);
    if node.input@.len() < 3 {
        Outcome::Rejects
    } else if !before.env.contains_key(node.inp(0)) {
        Outcome::Fails(missing("Slice: missing input tensor '"@, node.inp(0)))
    } else if !before.known.contains_key(node.inp(1)) {
        Outcome::Fails(must_be_known("Slice: starts '"@, node.inp(1)))
    } else if !before.known.contains_key(node.inp(2)) {
        Outcome::Fails(must_be_known("Slice: ends '"@, node.inp(2)))
    } else if !numbers_known(node, 3, before) {
        Outcome::Fails(must_be_known("Slice: axes '"@, node.inp(3)))
    } else if !numbers_known(node, 4, before) {
        Outcome::Fails(must_be_known("Slice: steps '"@, node.inp(4)))
    } else if !(cut is Done) {
        cut
    } else if node.output@.len() == 0 {
        Outcome::Rejects
    } else if !ranges_ordered(ranges) {
        Outcome::Rejects
    } else if slice_known(node, before) && !is_whole(node, before, 0) && ranges[0].1->Known_0
        > before.known[node.inp(0)].len() {
        Outcome::Rejects
    } else {
        Outcome::Done
    }
}

/// What the import of a Slice node does. If the elements of the part are known,
/// the output is a named tensor of them, with a 0 as its data if the part is
/// empty.
pub open spec fn slice_step(node: NodeDef, before: State, after: State, result: Outcome) -> bool {
    let out = node.out(0);
    let cut = sliced_values(node, before);
    &&& result == slice_outcome(node, before)
    &&& result is Fails ==> after == before
    &&& result is Done ==> {
        &&& changed(before.tensors, after.tensors, set![out])
        &&& if slice_known(node, before) {
            &&& after.env == before.env.insert(
                out,
                load(out, known_dims(sliced_sizes(node, before))),
            )
            &&& after.known == before.known.insert(out, cut)
            &&& after.weights == before.weights.push(
                (
                    out,
                    if cut.len() == 0 {
                        seq![ZERO]
                    } else {
                        cut
                    },
                ),
            )
        } else {
            &&& after.env == before.env.insert(
                out,
                before.env[node.inp(0)].slice(slice_ranges(node, before)),
            )
            &&& after.known == before.known
            &&& after.weights == before.weights
        }
    }
}

/// The position that the start or the end of a part stands for.
fn place_cut(number: i64, size: usize) -> (at: usize)
    requires
        size <= i32::MAX,
    ensures
        at == cut_position(number, size as int),
        at <= size,
{
    let limit: i64 = size as i64;
    if number < 0 {
        if limit + number < 0 {
            0
        } else {
            (limit + number) as usize
        }
    } else if number > limit {
        size
    } else {
        number as usize
    }
}

/// Whether parts of axes of known sizes are known and end within the axes.
pub open spec fn ranges_within(ranges: Seq<(Dim, Dim)>, dims: Seq<Dim>) -> bool {
    &&& ranges.len() == dims.len()
    &&& forall|i: int|
        0 <= i < dims.len() && dims[i] is Known ==> {
            &&& (#[trigger] ranges[i]).0 is Known
            &&& ranges[i].1 is Known
            &&& ranges[i].1->Known_0 <= dims[i]->Known_0
        }
}

/// The parts of all axes that the cuts leave.
fn cut_ranges(
    dims: &Vec<Dim>,
    starts: &Vec<i64>,
    ends: &Vec<i64>,
    axes: &Vec<i64>,
    steps: &Vec<i64>,
) -> (found: Result<Vec<(Dim, Dim)>, Fault>)
    ensures
        ({
            let cuts = Cuts { starts: starts@, ends: ends@, axes: axes@, steps: steps@ };
            match found {
                Ok(ranges) => {
                    &&& cuts.outcome(dims@, 0) is Done
                    &&& ranges@ == cuts.ranges(dims@, axes@.len())
                    &&& ranges_within(ranges@, dims@)
                },
                Err(fault) => outcome(Err(fault)) == cuts.outcome(dims@, 0),
            }
        }),
{
    let ghost cuts = Cuts { starts: starts@, ends: ends@, axes: axes@, steps: steps@ };
    let mut ranges: Vec<(Dim, Dim)> = Vec::new();
    let mut k: usize = 0;
    while k < dims.len()
        invariant
            k <= dims@.len(),
            ranges@.len() == k,
            forall|j: int| 0 <= j < k ==> #[trigger] ranges@[j] == (Dim::Known(0), dims@[j]),
        decreases dims.len() - k,
    {
        ranges.push((Dim::Known(0), dims[k]));
        k = k + 1;
    }
    assert(ranges@ =~= cuts.ranges(dims@, 0));
    let mut i: usize = 0;
    while i < axes.len()
        invariant
            cuts == (Cuts { starts: starts@, ends: ends@, axes: axes@, steps: steps@ }),
            i <= axes@.len(),
            ranges@ == cuts.ranges(dims@, i as nat),
            ranges_within(ranges@, dims@),
            cuts.outcome(dims@, i as int) == cuts.outcome(dims@, 0),
        decreases axes.len() - i,
    {
        let axis: usize = match count_axis(axes[i], dims.len(), dims.len()) {
            Some(axis) => axis,
            None => {
                return Err(Fault::Rejected);
            },
        };
        let size: usize = match dims[axis] {
            Dim::Known(size) => size,
            Dim::Dynamic => {
                return Err(Fault::Error(String::from_str("Slice: dimension must be concrete")));
            },
        };
        if size > 0x7fff_ffff || i >= starts.len() || i >= ends.len() || i >= steps.len() {
            return Err(Fault::Rejected);
        }
        if steps[i] != 1 {
            return Err(Fault::Rejected);
        }
        let range = (
            Dim::Known(place_cut(starts[i], size)),
            Dim::Known(place_cut(ends[i], size)),
        );
        ranges.set(axis, range);
        i = i + 1;
        assert(ranges@ =~= cuts.ranges(dims@, i as nat));
    }
    Ok(ranges)
}

/// The whole numbers of an input.
fn known_numbers(known_values: &NameMap<Vec<u32>>, name: &String, prefix: &str) -> (found: Result<
    Vec<i64>,
    Fault,
>)
    ensures
        match found {
            Ok(numbers) => values(*known_values).contains_key(name@) && numbers@ == whole_numbers(
                values(*known_values)[name@],
            ),
            Err(Fault::Error(message)) => !values(*known_values).contains_key(name@) && message@
                == must_be_known(prefix@, name@),
            Err(Fault::Rejected) => false,
        },
{
    match recall(known_values, name) {
        Some(v) => Ok(to_whole_numbers(&v)),
        None => Err(Fault::Error(join(prefix, name.as_str(), "' must be known"))),
    }
}

/// What a Slice node cuts out of its input.
fn read_cuts(node: &NodeDef, dims: &Vec<Dim>, known_values: &NameMap<Vec<u32>>, Ghost(before): Ghost<
    State,
>) -> (found: Result<(Vec<(Dim, Dim)>, bool), Fault>)
    requires
        node.input@.len() >= 3,
        before.env.contains_key(node.inp(0)),
        dims@ == before.env[node.inp(0)].dims(),
        before.known == values(*known_values),
    ensures
        ({
            let cuts = cuts_of(*node, before);
            match found {
                Ok((ranges, single)) => {
                    &&& before.known.contains_key(node.inp(1))
                    &&& before.known.contains_key(node.inp(2))
                    &&& numbers_known(*node, 3, before)
                    &&& numbers_known(*node, 4, before)
                    &&& cuts.outcome(dims@, 0) is Done
                    &&& ranges@ == slice_ranges(*node, before)
                    &&& ranges_within(ranges@, dims@)
                    &&& single == (cuts.axes.len() == 1)
                },
                Err(fault) => {
                    &&& outcome(Err(fault)) == slice_outcome(*node, before)
                    &&& !(outcome(Err(fault)) is Done)
                },
            }
        }),
{
    let starts = match known_numbers(known_values, &node.input[1], "Slice: starts '") {
        Ok(starts) => starts,
        Err(fault) => {
            return Err(fault);
        },
    };
    let ends = match known_numbers(known_values, &node.input[2], "Slice: ends '") {
        Ok(ends) => ends,
        Err(fault) => {
            return Err(fault);
        },
    };
    let axes = if node.gives_input(3) {
        match known_numbers(known_values, &node.input[3], "Slice: axes '") {
            Ok(axes) => axes,
            Err(fault) => {
                return Err(fault);
            },
        }
    } else {
        let mut axes: Vec<i64> = Vec::new();
        let mut i: usize = 0;
        while i < starts.len()
            invariant
                i <= starts@.len(),
                axes@.len() == i,
                forall|k: int| 0 <= k < i ==> #[trigger] axes@[k] == k as i64,
            decreases starts.len() - i,
        {
            axes.push(i as i64);
            i = i + 1;
        }
        assert(axes@ =~= cuts_of(*node, before).axes);
        axes
    };
    let steps = if node.gives_input(4) {
        match known_numbers(known_values, &node.input[4], "Slice: steps '") {
            Ok(steps) => steps,
            Err(fault) => {
                return Err(fault);
            },
        }
    } else {
        let mut steps: Vec<i64> = Vec::new();
        let mut i: usize = 0;
        while i < starts.len()
            invariant
                i <= starts@.len(),
                steps@.len() == i,
                forall|k: int| 0 <= k < i ==> #[trigger] steps@[k] == 1,
            decreases starts.len() - i,
        {
            steps.push(1);
            i = i + 1;
        }
        assert(steps@ =~= cuts_of(*node, before).steps);
        steps
    };
    let ghost cuts = Cuts { starts: starts@, ends: ends@, axes: axes@, steps: steps@ };
    assert(cuts =~= cuts_of(*node, before));
    match cut_ranges(dims, &starts, &ends, &axes, &steps) {
        Ok(ranges) => Ok((ranges, axes.len() == 1)),
        Err(fault) => Err(fault),
    }
}

proof fn lemma_single_range(cuts: Cuts, dims: Seq<Dim>)
    requires
        dims.len() == 1,
        cuts.axes.len() == 1,
        cuts.outcome(dims, 0) is Done,
    ensures
        cuts.ranges(dims, 1)[0] == cuts.range(dims, 0),
{
    assert(cuts.axis(1, 0) == 0);
    assert(cuts.ranges(dims, 1) == cuts.ranges(dims, 0).update(0, cuts.range(dims, 0)));
}

/// Where known parts of axes start, and their sizes.
fn split_ranges_known(ranges: &Vec<(Dim, Dim)>, sizes: &Vec<usize>) -> (parts: (
    Vec<usize>,
    Vec<usize>,
))
    requires
        ranges_within(ranges@, known_dims(sizes@)),
        ranges_ordered(ranges@),
    ensures
        parts.0@ == range_starts(ranges@),
        parts.1@ == range_widths(ranges@),
        lies_within(sizes@, parts.0@, parts.1@),
{
    let mut starts: Vec<usize> = Vec::new();
    let mut widths: Vec<usize> = Vec::new();
    let mut i: usize = 0;
    while i < ranges.len()
        invariant
            ranges_within(ranges@, known_dims(sizes@)),
            ranges_ordered(ranges@),
            i <= ranges@.len(),
            starts@.len() == i,
            widths@.len() == i,
            forall|k: int|
                #![trigger starts@[k]]
                #![trigger widths@[k]]
                0 <= k < i ==> {
                    &&& starts@[k] == ranges@[k].0->Known_0
                    &&& widths@[k] == ranges@[k].1->Known_0 - ranges@[k].0->Known_0
                    &&& starts@[k] + widths@[k] <= sizes@[k]
                },
        decreases ranges.len() - i,
    {
        let range = ranges[i];
        assert(range == ranges@[i as int]);
        assert(known_dims(sizes@)[i as int] == Dim::Known(sizes@[i as int]));
        if let (Dim::Known(start), Dim::Known(end)) = range {
            starts.push(start);
            widths.push(end - start);
        }
        i = i + 1;
    }
    assert(starts@ =~= range_starts(ranges@));
    assert(widths@ =~= range_widths(ranges@));
    (starts, widths)
}

/// Makes a named tensor of the known elements of a part.
fn define_cut(
    out: &str,
    widths: Vec<usize>,
    cut: Vec<u32>,
    tensors: &mut NameMap<GraphTensor>,
    cx: &mut ComputeGraph,
    weight_data: &mut Vec<(String, Vec<u32>)>,
    known_values: &mut NameMap<Vec<u32>>,
)
    requires
        valid(*old(tensors), *old(cx)),
    ensures
        valid(*final(tensors), *final(cx)),
        grows(*old(cx), *final(cx)),
        env(*final(tensors), *final(cx)) == env(*old(tensors), *old(cx)).insert(
            out@,
            load(
                out@,
                known_dims(
                    if cut@.len() == 0 {
                        seq![1usize]
                    } else {
                        widths@
                    },
                ),
            ),
        ),
        changed(handles(*old(tensors)), handles(*final(tensors)), set![out@]),
        values(*final(known_values)) == values(*old(known_values)).insert(out@, cut@),
        data(*final(weight_data)) == data(*old(weight_data)).push(
            (
                out@,
                if cut@.len() == 0 {
                    seq![ZERO]
                } else {
                    cut@
                },
            ),
        ),
{
    let (shape, given) = if cut.len() == 0 {
        let one: Vec<usize> = vec![1];
        assert(one@ =~= seq![1usize]);
        let zero: Vec<u32> = vec![ZERO];
        assert(zero@ =~= seq![ZERO]);
        (one, zero)
    } else {
        (widths, copy_bits(&cut))
    };
    let tensor = cx.named_tensor(out, dims_of(&shape));
    bind(tensors, cx, out, tensor);
    remember(known_values, out, cut);
    supply(weight_data, out, given);
}

/// Imports a Slice node: the part of the input from given starts up to given
/// ends along some axes.
pub fn parse_slice_node(
    node: &NodeDef,
    tensors: &mut NameMap<GraphTensor>,
    cx: &mut ComputeGraph,
    weight_data: &mut Vec<(String, Vec<u32>)>,
    known_values: &mut NameMap<Vec<u32>>,
) -> (result: Result<(), String>)
    requires
        valid(*old(tensors), *old(cx)),
        !(slice_outcome(
                *node,
                state(*old(tensors), *old(cx), data(*old(weight_data)), values(*old(known_values))),
            ) is Rejects),
    ensures
        valid(*final(tensors), *final(cx)),
        grows(*old(cx), *final(cx)),
        slice_step(
            *node,
            state(*old(tensors), *old(cx), data(*old(weight_data)), values(*old(known_values))),
            state(
                *final(tensors),
                *final(cx),
                data(*final(weight_data)),
                values(*final(known_values)),
            ),
            ending(result),
        ),
{
    settle(try_slice_node(node, tensors, cx, weight_data, known_values))
}

/// The import of the same nodes, and of those that the operation does not admit.
pub(crate) fn try_slice_node(
    node: &NodeDef,
    tensors: &mut NameMap<GraphTensor>,
    cx: &mut ComputeGraph,
    weight_data: &mut Vec<(String, Vec<u32>)>,
    known_values: &mut NameMap<Vec<u32>>,
) -> (result: Result<(), Fault>)
    requires
        valid(*old(tensors), *old(cx)),
    ensures
        valid(*final(tensors), *final(cx)),
        grows(*old(cx), *final(cx)),
        slice_step(
            *node,
            state(*old(tensors), *old(cx), data(*old(weight_data)), values(*old(known_values))),
            state(
                *final(tensors),
                *final(cx),
                data(*final(weight_data)),
                values(*final(known_values)),
            ),
            outcome(result),
        ),
{
    let ghost before = state(*tensors, *cx, data(*weight_data), values(*known_values));
    if node.input.len() < 3 {
        return Err(Fault::Rejected);
    }
    let input = match fetch(tensors, &node.input[0], "Slice: missing input tensor '") {
        Ok(input) => input,
        Err(fault) => {
            return Err(fault);
        },
    };
    let (ranges, single) = match read_cuts(node, input.dims(), known_values, Ghost(before)) {
        Ok(found) => found,
        Err(fault) => {
            return Err(fault);
        },
    };
    if node.output.len() == 0 || !are_ordered(&ranges) {
        return Err(Fault::Rejected);
    }
    let out = node.output[0].as_str();
    if recall(known_values, &node.input[0]).is_some() {
        if let Some((vals, sizes)) = whole_input(
            node,
            0,
            tensors,
            known_values,
            Ghost(before),
            Ghost(*cx),
        ) {
            let (starts, widths) = split_ranges_known(&ranges, &sizes);
            let cut = cut_elements(&vals, &sizes, &starts, &widths);
            if cut.len() > 0 || (input.dims().len() == 1 && single) {
                define_cut(out, widths, cut, tensors, cx, weight_data, known_values);
                return Ok(());
            }
        }
    }
    if let Some(vals) = recall(known_values, &node.input[0]) {
        if input.dims().len() == 1 && single {
            proof {
                lemma_single_range(cuts_of(*node, before), input@.shape.dims);
            }
            let range = ranges[0];
            assert(range == ranges@[0]);
            if let (Dim::Known(start), Dim::Known(end)) = range {
                if end > vals.len() {
                    return Err(Fault::Rejected);
                }
                let cut = part(&vals, start, end);
                let width: usize = end - start;
                let widths: Vec<usize> = vec![width];
                assert(widths@ =~= range_widths(ranges@));
                define_cut(out, widths, cut, tensors, cx, weight_data, known_values);
                return Ok(());
            }
        }
    }
    let result = cx.slice(&input, ranges);
    bind(tensors, cx, out, result);
    Ok(())
}

/// The sum of the first `n` sizes.
pub open spec fn sum_of(sizes: Seq<usize>, n: nat) -> nat
    decreases n,
{
    if n == 0 {
        0
    } else {
        sum_of(sizes, (n - 1) as nat) + sizes[n - 1] as nat
    }
}

/// The size of all but the last of `count` parts of an axis of the size `size`:
/// as small as possible, so that the parts make up the axis.
pub open spec fn chunk(size: usize, count: usize) -> int {
    (size + count - 1) / (count as int)
}

/// How much of an axis of the size `size` the first `n` of `count` parts take.
pub open spec fn taken(size: usize, count: usize, n: int) -> int {
    if n * chunk(size, count) <= size {
        n * chunk(size, count)
    } else {
        size as int
    }
}

/// The sizes of `count` parts of an axis of the size `size`: all the same, but
/// for the last ones, which may be smaller.
pub open spec fn even_sizes(size: usize, count: usize) -> Seq<usize> {
    Seq::new(
        count as nat,
        |i: int| (taken(size, count, i + 1) - taken(size, count, i)) as usize,
    )
}

/// The axis that a Split node splits.
pub open spec fn split_axis(node: NodeDef, before: State) -> int {
    counted(node.int_attr("axis"@, 0), before.env[node.inp(0)].dims().len())
}

/// The number of parts that a Split node without given sizes makes.
pub open spec fn split_count(node: NodeDef) -> i64 {
    node.int_attr("num_outputs"@, node.output@.len() as i64)
}

/// The sizes of the parts that a Split node makes.
pub open spec fn split_sizes(node: NodeDef, before: State) -> Seq<usize> {
    if node.has_input(1) {
        sizes_from(before.known[node.inp(1)])
    } else {
        even_sizes(
            before.env[node.inp(0)].dims()[split_axis(node, before)]->Known_0,
            split_count(node) as usize,
        )
    }
}

/// The greatest position that the expressions of a graph can hold.
pub open spec fn limited(position: nat) -> usize {
    if position > i32::MAX {
        0x7fff_ffff
    } else {
        position as usize
    }
}

/// The part of all axes that output `i` of a Split node gets.
pub open spec fn split_ranges(dims: Seq<Dim>, axis: int, sizes: Seq<usize>, i: int) -> Seq<
    (Dim, Dim),
> {
    Seq::new(
        dims.len(),
        |k: int|
            if k == axis {
                (
                    Dim::Known(limited(sum_of(sizes, i as nat))),
                    Dim::Known(limited(sum_of(sizes, (i + 1) as nat))),
                )
            } else {
                (Dim::Known(0), dims[k])
            },
    )
}

/// The named tensors after the first `n` outputs of a Split node got theirs.
pub open spec fn split_env(
    node: NodeDef,
    before: State,
    axis: int,
    sizes: Seq<usize>,
    n: nat,
) -> Map<Seq<char>, Tensor>
    decreases n,
{
    if n == 0 {
        before.env
    } else {
        let x = before.env[node.inp(0)];
        split_env(node, before, axis, sizes, (n - 1) as nat).insert(
            node.out(n - 1),
            x.slice(split_ranges(x.dims(), axis, sizes, n - 1)),
        )
    }
}

/// The known values after the first `n` outputs of a Split node got theirs: if
/// the input is a vector with known elements, each output gets its part of
/// them.
pub open spec fn split_known(node: NodeDef, before: State, sizes: Seq<usize>, n: nat) -> Map<
    Seq<char>,
    Seq<u32>,
>
    decreases n,
{
    if n == 0 {
        before.known
    } else {
        let known = split_known(node, before, sizes, (n - 1) as nat);
        if before.env[node.inp(0)].dims().len() == 1 && known.contains_key(node.inp(0)) {
            known.insert(
                node.out(n - 1),
                known[node.inp(0)].subrange(
                    sum_of(sizes, (n - 1) as nat) as int,
                    sum_of(sizes, n) as int,
                ),
            )
        } else {
            known
        }
    }
}

/// Whether the first `n` parts of the known values exist.
pub open spec fn can_split_known(node: NodeDef, before: State, sizes: Seq<usize>, n: nat) -> bool
    decreases n,
{
    n == 0 || {
        let known = split_known(node, before, sizes, (n - 1) as nat);
        &&& can_split_known(node, before, sizes, (n - 1) as nat)
        &&& before.env[node.inp(0)].dims().len() == 1 && known.contains_key(node.inp(0)) ==> sum_of(
            sizes,
            n,
        ) <= known[node.inp(0)].len()
    }
}

/// The names of the first `n` outputs.
pub open spec fn output_names(node: NodeDef, n: nat) -> Set<Seq<char>>
    decreases n,
{
    if n == 0 {
        Set::empty()
    } else {
        output_names(node, (n - 1) as nat).insert(node.out(n - 1))
    }
}

/// How the import of a Split node ends.
pub open spec fn split_outcome(node: NodeDef, before: State) -> Outcome {
    let dims = before.env[node.inp(0)].dims();
    let axis = split_axis(node, before);
    let sizes = split_sizes(node, before);
    let total = sum_of(sizes, sizes.len());
    if node.input@.len() == 0 {
        Outcome::Rejects
    } else if !before.env.contains_key(node.inp(0)) {
        Outcome::Fails(missing("Split: missing input tensor '"@, node.inp(0)))
    } else if !(0 <= axis < dims.len()) {
        Outcome::Rejects
    } else if dims[axis] is Dynamic {
        Outcome::Fails("Split: dimension must be concrete"@)
    } else if !numbers_known(node, 1, before) {
        Outcome::Fails(must_be_known("Split: split sizes '"@, node.inp(1)))
    } else if !node.has_input(1) && !(0 < split_count(node) <= node.output@.len()) {
        Outcome::Rejects
    } else if total > usize::MAX {
        Outcome::Rejects
    } else if total != dims[axis]->Known_0 {
        Outcome::Fails(
            "Split: sum of split sizes ("@ + decimal(total as int) + ") != dimension size ("@
                + decimal(dims[axis]->Known_0 as int) + ")"@,
        )
    } else if sizes.len() > node.output@.len() || !can_split_known(
        node,
        before,
        sizes,
        sizes.len(),
    ) {
        Outcome::Rejects
    } else {
        Outcome::Done
    }
}

/// What the import of a Split node does.
pub open spec fn split_step(node: NodeDef, before: State, after: State, result: Outcome) -> bool {
    let sizes = split_sizes(node, before);
    let axis = split_axis(node, before);
    &&& result == split_outcome(node, before)
    &&& result is Fails ==> after == before
    &&& result is Done ==> {
        &&& after.env == split_env(node, before, axis, sizes, sizes.len())
        &&& changed(before.tensors, after.tensors, output_names(node, sizes.len()))
        &&& after.weights == before.weights
        &&& after.known == split_known(node, before, sizes, sizes.len())
    }
}

/// The sum of more sizes is not less.
pub proof fn lemma_sum_grows(sizes: Seq<usize>, n: nat, m: nat)
    requires
        n <= m,
    ensures
        sum_of(sizes, n) <= sum_of(sizes, m),
    decreases m,
{
    if n < m {
        lemma_sum_grows(sizes, n, (m - 1) as nat);
    }
}

/// The sum of sizes, if it is representable.
fn add_sizes(sizes: &Vec<usize>) -> (total: Option<usize>)
    ensures
        match total {
            Some(t) => t == sum_of(sizes@, sizes@.len()),
            None => sum_of(sizes@, sizes@.len()) > usize::MAX,
        },
{
    let mut total: usize = 0;
    let mut i: usize = 0;
    while i < sizes.len()
        invariant
            i <= sizes@.len(),
            total == sum_of(sizes@, i as nat),
        decreases sizes.len() - i,
    {
        proof {
            lemma_sum_grows(sizes@, (i + 1) as nat, sizes@.len());
        }
        match total.checked_add(sizes[i]) {
            Some(t) => {
                total = t;
            },
            None => {
                return None;
            },
        }
        i = i + 1;
    }
    Some(total)
}

proof fn lemma_taken(size: usize, count: usize, n: int)
    requires
        count > 0,
        0 <= n,
    ensures
        0 <= chunk(size, count) <= size,
        0 <= taken(size, count, n) <= taken(size, count, n + 1) <= size,
        taken(size, count, count as int) == size,
        taken(size, count, 0) == 0,
{
    let c = chunk(size, count);
    let m = count as int;
    let total = size + m - 1;
    lemma_fundamental_div_mod(total, m);
    lemma_mod_bound(total, m);
    lemma_div_pos_is_pos(total, m);
    assert(m * c >= size) by (nonlinear_arith)
        requires
            total == m * c + total % m,
            total % m < m,
            total == size + m - 1,
    ;
    assert(c <= size) by (nonlinear_arith)
        requires
            total == m * c + total % m,
            0 <= total % m,
            total == size + m - 1,
            m >= 1,
            size >= 0,
            c >= 0,
    ;
    assert(0 <= n * c && n * c + c == (n + 1) * c && m * c == count * c) by (nonlinear_arith)
        requires
            n >= 0,
            c >= 0,
            m == count,
    ;
    assert(0 * c == 0);
}

/// The sizes of parts that are all the same, but for the last ones.
fn split_evenly(size: usize, count: usize) -> (sizes: Vec<usize>)
    requires
        count > 0,
    ensures
        sizes@ == even_sizes(size, count),
{
    proof {
        lemma_taken(size, count, 0);
        lemma_fundamental_div_mod(size as int, count as int);
        lemma_mod_bound(size as int, count as int);
        lemma_div_pos_is_pos(size as int, count as int);
        lemma_chunk(size, count);
    }
    let part: usize = if size % count == 0 {
        size / count
    } else {
        size / count + 1
    };
    let mut sizes: Vec<usize> = Vec::new();
    let mut done: usize = 0;
    let mut i: usize = 0;
    while i < count
        invariant
            count > 0,
            i <= count,
            part == chunk(size, count),
            done == taken(size, count, i as int),
            done <= size,
            sizes@.len() == i,
            forall|k: int| 0 <= k < i ==> #[trigger] sizes@[k] == even_sizes(size, count)[k],
        decreases count - i,
    {
        proof {
            lemma_taken(size, count, i as int);
            let c = part as int;
            assert(i * c + c == (i + 1) * c) by (nonlinear_arith);
        }
        let next: usize = if part <= size - done {
            part
        } else {
            size - done
        };
        sizes.push(next);
        done = done + next;
        i = i + 1;
    }
    assert(sizes@ =~= even_sizes(size, count));
    sizes
}

proof fn lemma_chunk(size: usize, count: usize)
    requires
        count > 0,
    ensures
        chunk(size, count) == if size as int % count as int == 0 {
            size as int / count as int
        } else {
            size as int / count as int + 1
        },
{
    let m = count as int;
    let q = size as int / m;
    let r = size as int % m;
    lemma_fundamental_div_mod(size as int, m);
    lemma_mod_bound(size as int, m);
    if r == 0 {
        assert(size + m - 1 == q * m + (m - 1)) by (nonlinear_arith)
            requires
                size == m * q + r,
                r == 0,
        ;
        lemma_fundamental_div_mod_converse(size + m - 1, m, q, m - 1);
    } else {
        assert(size + m - 1 == (q + 1) * m + (r - 1)) by (nonlinear_arith)
            requires
                size == m * q + r,
        ;
        lemma_fundamental_div_mod_converse(size + m - 1, m, q + 1, r - 1);
    }
}

/// The parts that an axis is split into by number make up the axis, and none is
/// greater than the one before it.
pub proof fn law_even_sizes_add_up(size: usize, count: usize)
    requires
        count > 0,
    ensures
        sum_of(even_sizes(size, count), count as nat) == size,
        forall|i: int|
            0 <= i < count - 1 ==> #[trigger] even_sizes(size, count)[i] >= even_sizes(
                size,
                count,
            )[i + 1],
{
    lemma_even_sum(size, count, count as nat);
    lemma_taken(size, count, 0);
    assert forall|i: int| 0 <= i < count - 1 implies #[trigger] even_sizes(size, count)[i]
        >= even_sizes(size, count)[i + 1] by {
        lemma_taken(size, count, i);
        lemma_taken(size, count, i + 1);
        let c = chunk(size, count);
        assert(i * c + c == (i + 1) * c && (i + 1) * c + c == (i + 2) * c) by (nonlinear_arith);
    }
}

proof fn lemma_even_sum(size: usize, count: usize, n: nat)
    requires
        count > 0,
        n <= count,
    ensures
        sum_of(even_sizes(size, count), n) == taken(size, count, n as int),
    decreases n,
{
    lemma_taken(size, count, 0);
    if n > 0 {
        lemma_even_sum(size, count, (n - 1) as nat);
        lemma_taken(size, count, n - 1);
    }
}

/// The first `n` parts of a list that is split into parts of the given sizes,
/// one after the other.
pub open spec fn parts_joined(v: Seq<u32>, sizes: Seq<usize>, n: nat) -> Seq<u32>
    decreases n,
{
    if n == 0 {
        Seq::empty()
    } else {
        parts_joined(v, sizes, (n - 1) as nat) + v.subrange(
            sum_of(sizes, (n - 1) as nat) as int,
            sum_of(sizes, n) as int,
        )
    }
}

proof fn lemma_parts_joined(v: Seq<u32>, sizes: Seq<usize>, n: nat)
    requires
        sum_of(sizes, n) <= v.len(),
    ensures
        parts_joined(v, sizes, n) == v.subrange(0, sum_of(sizes, n) as int),
    decreases n,
{
    if n > 0 {
        lemma_parts_joined(v, sizes, (n - 1) as nat);
    }
    assert(parts_joined(v, sizes, n) =~= v.subrange(0, sum_of(sizes, n) as int));
}

/// The parts that a list is split into, one after the other, are the list.
pub proof fn law_parts_make_the_whole(v: Seq<u32>, sizes: Seq<usize>)
    requires
        sum_of(sizes, sizes.len()) == v.len(),
    ensures
        parts_joined(v, sizes, sizes.len()) == v,
{
    lemma_parts_joined(v, sizes, sizes.len());
    assert(v.subrange(0, v.len() as int) =~= v);
}

/// The sizes of the parts that a Split node makes.
fn read_split_sizes(
    node: &NodeDef,
    size: usize,
    known_values: &NameMap<Vec<u32>>,
    Ghost(before): Ghost<State>,
) -> (found: Result<Vec<usize>, Fault>)
    requires
        node.input@.len() > 0,
        before.env.contains_key(node.inp(0)),
        0 <= split_axis(*node, before) < before.env[node.inp(0)].dims().len(),
        before.env[node.inp(0)].dims()[split_axis(*node, before)] == Dim::Known(size),
        before.known == values(*known_values),
    ensures
        match found {
            Ok(sizes) => {
                &&& numbers_known(*node, 1, before)
                &&& node.has_input(1) || 0 < split_count(*node) <= node.output@.len()
                &&& sizes@ == split_sizes(*node, before)
            },
            Err(fault) => {
                &&& outcome(Err(fault)) == split_outcome(*node, before)
                &&& !(outcome(Err(fault)) is Done)
            },
        },
{
    if node.gives_input(1) {
        match recall(known_values, &node.input[1]) {
            Some(v) => Ok(to_sizes(&v)),
            None => Err(
                Fault::Error(
                    join("Split: split sizes '", node.input[1].as_str(), "' must be known"),
                ),
            ),
        }
    } else {
        let count: i64 = get_int_attr(node, "num_outputs", node.output.len() as i64);
        if count <= 0 || count as u64 > node.output.len() as u64 {
            return Err(Fault::Rejected);
        }
        Ok(split_evenly(size, count as usize))
    }
}

/// The part of all axes that an output of a Split node gets.
fn part_ranges(dims: &Vec<Dim>, axis: usize, start: usize, end: usize) -> (ranges: Vec<(Dim, Dim)>)
    requires
        start <= end,
    ensures
        ranges@ == Seq::new(
            dims@.len(),
            |k: int|
                if k == axis {
                    (Dim::Known(limited(start as nat)), Dim::Known(limited(end as nat)))
                } else {
                    (Dim::Known(0), dims@[k])
                },
        ),
        ranges_ordered(ranges@),
{
    let low: usize = if start > 0x7fff_ffff {
        0x7fff_ffff
    } else {
        start
    };
    let high: usize = if end > 0x7fff_ffff {
        0x7fff_ffff
    } else {
        end
    };
    let mut ranges: Vec<(Dim, Dim)> = Vec::new();
    let mut k: usize = 0;
    while k < dims.len()
        invariant
            low == limited(start as nat),
            high == limited(end as nat),
            k <= dims@.len(),
            ranges@.len() == k,
            forall|j: int|
                0 <= j < k ==> #[trigger] ranges@[j] == if j == axis {
                    (Dim::Known(low), Dim::Known(high))
                } else {
                    (Dim::Known(0), dims@[j])
                },
        decreases dims.len() - k,
    {
        if k == axis {
            ranges.push((Dim::Known(low), Dim::Known(high)));
        } else {
            ranges.push((Dim::Known(0), dims[k]));
        }
        k = k + 1;
    }
    assert(ranges@ =~= Seq::new(
        dims@.len(),
        |k: int|
            if k == axis {
                (Dim::Known(limited(start as nat)), Dim::Known(limited(end as nat)))
            } else {
                (Dim::Known(0), dims@[k])
            },
    ));
    ranges
}

proof fn lemma_can_split_known(node: NodeDef, before: State, sizes: Seq<usize>, n: nat, m: nat)
    requires
        n <= m,
        can_split_known(node, before, sizes, m),
    ensures
        can_split_known(node, before, sizes, n),
    decreases m,
{
    if n < m {
        lemma_can_split_known(node, before, sizes, n, (m - 1) as nat);
    }
}

/// Gives the outputs of a Split node their parts.
fn split_into(
    node: &NodeDef,
    input: &GraphTensor,
    axis: usize,
    sizes: &Vec<usize>,
    tensors: &mut NameMap<GraphTensor>,
    cx: &mut ComputeGraph,
    known_values: &mut NameMap<Vec<u32>>,
    Ghost(before): Ghost<State>,
) -> (result: Result<(), Fault>)
    requires
        valid(*old(tensors), *old(cx)),
        before.env == env(*old(tensors), *old(cx)),
        before.tensors == handles(*old(tensors)),
        before.known == values(*old(known_values)),
        node.input@.len() > 0,
        before.env.contains_key(node.inp(0)),
        input@ == before.tensors[node.inp(0)],
        axis < input@.shape.dims.len(),
        sizes@.len() <= node.output@.len(),
        sum_of(sizes@, sizes@.len()) <= usize::MAX,
    ensures
        valid(*final(tensors), *final(cx)),
        grows(*old(cx), *final(cx)),
        match result {
            Ok(()) => {
                &&& can_split_known(*node, before, sizes@, sizes@.len())
                &&& env(*final(tensors), *final(cx)) == split_env(
                    *node,
                    before,
                    axis as int,
                    sizes@,
                    sizes@.len(),
                )
                &&& changed(
                    before.tensors,
                    handles(*final(tensors)),
                    output_names(*node, sizes@.len()),
                )
                &&& values(*final(known_values)) == split_known(
                    *node,
                    before,
                    sizes@,
                    sizes@.len(),
                )
            },
            Err(fault) => {
                &&& fault is Rejected
                &&& !can_split_known(*node, before, sizes@, sizes@.len())
            },
        },
{
    let mut offset: usize = 0;
    let mut i: usize = 0;
    while i < sizes.len()
        invariant
            i <= sizes@.len() <= node.output@.len(),
            node.input@.len() > 0,
            valid(*tensors, *cx),
            grows(*old(cx), *cx),
            cx.holds(input@),
            cx.meaning(input@) == before.env[node.inp(0)],
            axis < input@.shape.dims.len(),
            sum_of(sizes@, sizes@.len()) <= usize::MAX,
            offset == sum_of(sizes@, i as nat),
            can_split_known(*node, before, sizes@, i as nat),
            env(*tensors, *cx) == split_env(*node, before, axis as int, sizes@, i as nat),
            changed(before.tensors, handles(*tensors), output_names(*node, i as nat)),
            values(*known_values) == split_known(*node, before, sizes@, i as nat),
        decreases sizes.len() - i,
    {
        proof {
            lemma_sum_grows(sizes@, (i + 1) as nat, sizes@.len());
        }
        let end: usize = offset + sizes[i];
        let ranges = part_ranges(input.dims(), axis, offset, end);
        assert(ranges@ =~= split_ranges(input@.shape.dims, axis as int, sizes@, i as int));
        let result = cx.slice(input, ranges);
        let out = node.output[i].as_str();
        bind(tensors, cx, out, result);
        if input.dims().len() == 1 {
            if let Some(vals) = recall(known_values, &node.input[0]) {
                if end > vals.len() {
                    proof {
                        if can_split_known(*node, before, sizes@, sizes@.len()) {
                            lemma_can_split_known(
                                *node,
                                before,
                                sizes@,
                                (i + 1) as nat,
                                sizes@.len(),
                            );
                        }
                    }
                    return Err(Fault::Rejected);
                }
                remember(known_values, out, part(&vals, offset, end));
            }
        }
        offset = end;
        i = i + 1;
    }
    Ok(())
}

/// Imports a Split node: the input split along an axis into one part for each
/// output, with the sizes that the known values of the second input give, or
/// with equal sizes.
pub fn parse_split_node(
    node: &NodeDef,
    tensors: &mut NameMap<GraphTensor>,
    cx: &mut ComputeGraph,
    weight_data: &mut Vec<(String, Vec<u32>)>,
    known_values: &mut NameMap<Vec<u32>>,
) -> (result: Result<(), String>)
    requires
        valid(*old(tensors), *old(cx)),
        !(split_outcome(
                *node,
                state(*old(tensors), *old(cx), data(*old(weight_data)), values(*old(known_values))),
            ) is Rejects),
    ensures
        valid(*final(tensors), *final(cx)),
        grows(*old(cx), *final(cx)),
        split_step(
            *node,
            state(*old(tensors), *old(cx), data(*old(weight_data)), values(*old(known_values))),
            state(
                *final(tensors),
                *final(cx),
                data(*final(weight_data)),
                values(*final(known_values)),
            ),
            ending(result),
        ),
{
    settle(try_split_node(node, tensors, cx, weight_data, known_values))
}

/// The import of the same nodes, and of those that the operation does not admit.
pub(crate) fn try_split_node(
    node: &NodeDef,
    tensors: &mut NameMap<GraphTensor>,
    cx: &mut ComputeGraph,
    weight_data: &mut Vec<(String, Vec<u32>)>,
    known_values: &mut NameMap<Vec<u32>>,
) -> (result: Result<(), Fault>)
    requires
        valid(*old(tensors), *old(cx)),
    ensures
        valid(*final(tensors), *final(cx)),
        grows(*old(cx), *final(cx)),
        split_step(
            *node,
            state(*old(tensors), *old(cx), data(*old(weight_data)), values(*old(known_values))),
            state(
                *final(tensors),
                *final(cx),
                data(*final(weight_data)),
                values(*final(known_values)),
            ),
            outcome(result),
        ),
{
    let ghost before = state(*tensors, *cx, data(*weight_data), values(*known_values));
    if node.input.len() == 0 {
        return Err(Fault::Rejected);
    }
    let input = match fetch(tensors, &node.input[0], "Split: missing input tensor '") {
        Ok(input) => input,
        Err(fault) => {
            return Err(fault);
        },
    };
    let rank: usize = input.dims().len();
    let axis: usize = match count_axis(get_int_attr(node, "axis", 0), rank, rank) {
        Some(axis) => axis,
        None => {
            return Err(Fault::Rejected);
        },
    };
    let size: usize = match input.dims()[axis] {
        Dim::Known(size) => size,
        Dim::Dynamic => {
            return Err(Fault::Error(String::from_str("Split: dimension must be concrete")));
        },
    };
    let sizes = match read_split_sizes(node, size, known_values, Ghost(before)) {
        Ok(sizes) => sizes,
        Err(fault) => {
            return Err(fault);
        },
    };
    let total: usize = match add_sizes(&sizes) {
        Some(total) => total,
        None => {
            return Err(Fault::Rejected);
        },
    };
    if total != size {
        let mut message = join(
            "Split: sum of split sizes (",
            size_to_decimal(total).as_str(),
            ") != dimension size (",
        );
        message.append(size_to_decimal(size).as_str());
        message.append(")");
        return Err(Fault::Error(message));
    }
    if sizes.len() > node.output.len() {
        return Err(Fault::Rejected);
    }
    split_into(node, &input, axis, &sizes, tensors, cx, known_values, Ghost(before))
}

/// The outputs of a Split node that get known values get tensors.
pub proof fn lemma_split_knows_tensors(
    node: NodeDef,
    before: State,
    axis: int,
    sizes: Seq<usize>,
    n: nat,
    name: Seq<char>,
)
    requires
        forall|k: Seq<char>| #[trigger]
            before.known.contains_key(k) ==> before.env.contains_key(k),
        split_known(node, before, sizes, n).contains_key(name),
    ensures
        split_env(node, before, axis, sizes, n).contains_key(name),
    decreases n,
{
    if n > 0 && name != node.out(n - 1) {
        lemma_split_knows_tensors(node, before, axis, sizes, (n - 1) as nat, name);
    }
}

/// Two lists that are vectors, one after the other along their axis, are one
/// after the other.
proof fn lemma_join_vectors(a: Seq<u32>, b: Seq<u32>, m: usize, n: usize)
    requires
        a.len() == m,
        b.len() == n,
        m + n <= usize::MAX,
    ensures
        joined_along(a, seq![m], b, seq![n], 0) == a + b,
{
    let x = seq![m];
    let y = seq![n];
    reveal_with_fuel(product, 2);
    assert(x.subrange(1, 1) =~= Seq::empty());
    assert(y.subrange(1, 1) =~= Seq::empty());
    assert(joined_sizes(x, y, 0) =~= seq![(m + n) as usize]);
    assert(seq![(m + n) as usize].drop_last() =~= Seq::empty());
    assert(product(seq![(m + n) as usize]) == 1 * (m + n));
    assert(m * 1 == m && n * 1 == n);
    assert forall|p: int| 0 <= p < m + n implies joined_along(a, x, b, y, 0)[p] == (a + b)[p] by {
        lemma_fundamental_div_mod_converse(p, m + n, 0, p);
    }
    assert(joined_along(a, x, b, y, 0) =~= a + b);
}

/// The known elements of vectors, one after the other along their axis, are one
/// after the other.
proof fn lemma_chain_of_vectors(node: NodeDef, before: State, axis: int, n: nat)
    requires
        n >= 1,
        chain_outcome(node, before, axis, n) is Done,
        can_join(node, before, axis, n),
        before.env[node.inp(0)].dims().len() == 1,
        forall|i: int| 0 <= i < n ==> before.known[#[trigger] node.inp(i)].len() <= usize::MAX,
    ensures
        chained_values(node, before, axis, n) == joined_values(node, before, n),
        chained(node, before, axis, n).dims() == seq![
            Dim::Known(joined_values(node, before, n).len() as usize),
        ],
        joined_values(node, before, n).len() <= usize::MAX,
    decreases n,
{
    let last = before.env[node.inp(n - 1)].dims();
    let v = before.known[node.inp(n - 1)];
    assert(is_whole(node, before, n - 1));
    if n == 1 {
        assert(joined_values(node, before, 0) =~= Seq::empty());
        assert(joined_values(node, before, 1) =~= v);
        lemma_vector_size(last, v.len());
    } else {
        let m = (n - 1) as nat;
        lemma_chain_done(node, before, axis, m, n);
        lemma_chain_of_vectors(node, before, axis, m);
        let so_far = chained(node, before, axis, m).dims();
        assert(can_concat(so_far, last, axis));
        assert(axis == 0);
        lemma_vector_size(last, v.len());
        let a = joined_values(node, before, m);
        assert(sizes_of(so_far) =~= seq![a.len() as usize]);
        assert(sizes_of(last) =~= seq![v.len() as usize]);
        assert(so_far[0] == Dim::Known(a.len() as usize) && last[0] == Dim::Known(v.len() as usize));
        lemma_join_vectors(a, v, a.len() as usize, v.len() as usize);
        assert(chained(node, before, axis, n).dims() =~= seq![
            Dim::Known(joined_values(node, before, n).len() as usize),
        ]);
    }
}

proof fn lemma_vector_size(dims: Seq<Dim>, len: nat)
    requires
        dims.len() == 1,
        all_known(dims),
        len <= usize::MAX,
        bounded_product(sizes_of(dims)) == Some(len as usize),
    ensures
        dims == seq![Dim::Known(len as usize)],
{
    let sizes = sizes_of(dims);
    reveal_with_fuel(bounded_product, 2);
    assert(dims[0] is Known);
    assert(sizes.drop_last() =~= Seq::empty());
    assert(bounded_product(sizes.drop_last()) == Some(1usize));
    assert(1 * sizes.last() == sizes.last());
    assert(dims =~= seq![Dim::Known(len as usize)]);
}

/// The outputs of a Split node, if their names differ, have their parts.
proof fn lemma_split_parts(node: NodeDef, before: State, axis: int, sizes: Seq<usize>, n: nat, i: int)
    requires
        0 <= i < n <= node.output@.len(),
        before.env[node.inp(0)].dims().len() == 1,
        before.known.contains_key(node.inp(0)),
        forall|j: int| 0 <= j < n ==> #[trigger] node.out(j) != node.inp(0),
        forall|j: int, k: int|
            0 <= j < k < n ==> #[trigger] node.out(j) != #[trigger] node.out(k),
    ensures
        split_known(node, before, sizes, n).contains_key(node.inp(0)),
        split_known(node, before, sizes, n)[node.inp(0)] == before.known[node.inp(0)],
        split_known(node, before, sizes, n).contains_key(node.out(i)),
        split_known(node, before, sizes, n)[node.out(i)] == before.known[node.inp(0)].subrange(
            sum_of(sizes, i as nat) as int,
            sum_of(sizes, (i + 1) as nat) as int,
        ),
        split_env(node, before, axis, sizes, n).contains_key(node.out(i)),
        split_env(node, before, axis, sizes, n)[node.out(i)].dims().len() == 1,
    decreases n,
{
    let m = (n - 1) as nat;
    lemma_split_keeps_input(node, before, sizes, m);
    assert(node.out(n - 1) != node.inp(0));
    if i < n - 1 {
        lemma_split_parts(node, before, axis, sizes, m, i);
        assert(node.out(i) != node.out(n - 1));
    }
}

proof fn lemma_split_keeps_input(node: NodeDef, before: State, sizes: Seq<usize>, n: nat)
    requires
        before.known.contains_key(node.inp(0)),
        forall|j: int| 0 <= j < n ==> #[trigger] node.out(j) != node.inp(0),
    ensures
        split_known(node, before, sizes, n).contains_key(node.inp(0)),
        split_known(node, before, sizes, n)[node.inp(0)] == before.known[node.inp(0)],
    decreases n,
{
    if n > 0 {
        lemma_split_keeps_input(node, before, sizes, (n - 1) as nat);
        assert(node.out(n - 1) != node.inp(0));
    }
}

proof fn lemma_joined_parts(
    node: NodeDef,
    before: State,
    v: Seq<u32>,
    sizes: Seq<usize>,
    n: nat,
)
    requires
        forall|i: int|
            0 <= i < n ==> before.known[#[trigger] node.inp(i)] == v.subrange(
                sum_of(sizes, i as nat) as int,
                sum_of(sizes, (i + 1) as nat) as int,
            ),
    ensures
        joined_values(node, before, n) == parts_joined(v, sizes, n),
    decreases n,
{
    if n > 0 {
        lemma_joined_parts(node, before, v, sizes, (n - 1) as nat);
        assert(before.known[node.inp(n - 1)] == v.subrange(
            sum_of(sizes, (n - 1) as nat) as int,
            sum_of(sizes, n) as int,
        ));
    }
}

/// A Concat node of the outputs of a Split node, in their order, is done and gives
/// back the vector that was split, whose elements are known: the output has its
/// elements, known and as data, and its size, if there are any. The names of the
/// outputs differ from each other and from that of the vector.
pub proof fn law_concat_undoes_split(
    split: NodeDef,
    concat: NodeDef,
    before: State,
    middle: State,
    after: State,
    result: Outcome,
)
    requires
        split_step(split, before, middle, Outcome::Done),
        concat_step(concat, middle, after, result),
        concat.input@.len() > 0,
        concat.output@.len() > 0,
        before.env[split.inp(0)].dims().len() == 1,
        before.known.contains_key(split.inp(0)),
        before.known[split.inp(0)].len() <= usize::MAX,
        before.env[split.inp(0)].dims()[0] == Dim::Known(before.known[split.inp(0)].len() as usize),
        concat.input@.len() == split_sizes(split, before).len(),
        forall|i: int| 0 <= i < concat.input@.len() ==> #[trigger] concat.inp(i) == split.out(i),
        forall|i: int|
            0 <= i < concat.input@.len() ==> #[trigger] split.out(i) != split.inp(0),
        forall|i: int, j: int|
            0 <= i < j < concat.input@.len() ==> #[trigger] split.out(i) != #[trigger] split.out(j),
    ensures
        result is Done,
        after.known == middle.known.insert(concat.out(0), before.known[split.inp(0)]),
        after.weights == middle.weights.push((concat.out(0), before.known[split.inp(0)])),
        before.known[split.inp(0)].len() > 0 ==> after.env[concat.out(0)].dims()
            == before.env[split.inp(0)].dims(),
{
    let sizes = split_sizes(split, before);
    let axis = split_axis(split, before);
    let n = sizes.len();
    let v = before.known[split.inp(0)];
    assert forall|i: int| 0 <= i < n implies {
        &&& middle.known.contains_key(#[trigger] concat.inp(i))
        &&& middle.known[concat.inp(i)] == v.subrange(
            sum_of(sizes, i as nat) as int,
            sum_of(sizes, (i + 1) as nat) as int,
        )
        &&& middle.env[concat.inp(i)].dims().len() == 1
    } by {
        assert(concat.inp(i) == split.out(i));
        lemma_split_parts(split, before, axis, sizes, n, i);
    }
    lemma_joined_parts(concat, middle, v, sizes, n);
    law_parts_make_the_whole(v, sizes);
    assert(inputs_known(concat, middle));
    if concat_folds(concat, middle) {
        assert forall|i: int| 0 <= i < n implies middle.known[#[trigger] concat.inp(i)].len()
            <= usize::MAX by {
            lemma_sum_grows(sizes, (i + 1) as nat, n);
            lemma_sum_grows(sizes, i as nat, (i + 1) as nat);
        }
        assert(concat.inp(0) == concat.inp(0));
        lemma_chain_of_vectors(concat, middle, concat_axis(concat, middle), n);
    }
    if v.len() > 0 {
        assert(after.env[concat.out(0)].dims() =~= before.env[split.inp(0)].dims());
    }
}

/// The tensors of the outputs of a Split node, if their names differ.
pub proof fn lemma_split_tensors(
    node: NodeDef,
    before: State,
    axis: int,
    sizes: Seq<usize>,
    n: nat,
    i: int,
)
    requires
        0 <= i < n,
        forall|j: int, k: int|
            0 <= j < k < n ==> #[trigger] node.out(j) != #[trigger] node.out(k),
    ensures
        split_env(node, before, axis, sizes, n)[node.out(i)] == before.env[node.inp(0)].slice(
            split_ranges(before.env[node.inp(0)].dims(), axis, sizes, i),
        ),
    decreases n,
{
    if i < n - 1 {
        lemma_split_tensors(node, before, axis, sizes, (n - 1) as nat, i);
        assert(node.out(i) != node.out(n - 1));
    }
}

/// The sizes of parts, one after the other, add up along the axis.
proof fn lemma_chained_parts(
    node: NodeDef,
    before: State,
    dims: Seq<Dim>,
    axis: int,
    sizes: Seq<usize>,
    n: nat,
)
    requires
        0 <= axis < dims.len() <= usize::MAX,
        1 <= n <= sizes.len(),
        sum_of(sizes, sizes.len()) <= 0x7fff_ffff,
        forall|i: int|
            0 <= i < n ==> (#[trigger] before.env[node.inp(i)]).dims() == dims.update(
                axis,
                Dim::Known(sizes[i]),
            ),
    ensures
        chained(node, before, axis, n).dims() == dims.update(
            axis,
            Dim::Known(sum_of(sizes, n) as usize),
        ),
    decreases n,
{
    assert(before.env[node.inp(n - 1)].dims() == dims.update(axis, Dim::Known(sizes[n - 1])));
    if n > 1 {
        lemma_chained_parts(node, before, dims, axis, sizes, (n - 1) as nat);
        lemma_sum_grows(sizes, n, sizes.len());
    } else {
        assert(sum_of(sizes, 1) == sum_of(sizes, 0) + sizes[0]);
    }
    assert(chained(node, before, axis, n).dims() =~= dims.update(
        axis,
        Dim::Known(sum_of(sizes, n) as usize),
    ));
}

/// A Concat node of the outputs of a Split node, in their order and along the
/// same axis, has the sizes of the tensor that was split, whatever its rank, if the
/// names of the outputs differ and the size of the axis has 31 bits at most.
pub proof fn law_concat_of_split_has_its_sizes(
    split: NodeDef,
    concat: NodeDef,
    before: State,
    middle: State,
    after: State,
)
    requires
        split_step(split, before, middle, Outcome::Done),
        concat_step(concat, middle, after, Outcome::Done),
        !inputs_known(concat, middle),
        before.env[split.inp(0)].dims()[split_axis(split, before)]->Known_0 <= 0x7fff_ffff,
        before.env[split.inp(0)].dims().len() <= usize::MAX,
        concat_axis(concat, middle) == split_axis(split, before),
        concat.input@.len() == split_sizes(split, before).len(),
        forall|i: int| 0 <= i < concat.input@.len() ==> #[trigger] concat.inp(i) == split.out(i),
        forall|i: int, j: int|
            0 <= i < j < concat.input@.len() ==> #[trigger] split.out(i) != #[trigger] split.out(j),
    ensures
        after.env[concat.out(0)].dims() == before.env[split.inp(0)].dims(),
{
    let sizes = split_sizes(split, before);
    let axis = split_axis(split, before);
    let n = sizes.len();
    let dims = before.env[split.inp(0)].dims();
    assert forall|i: int| 0 <= i < n implies (#[trigger] middle.env[concat.inp(i)]).dims()
        == dims.update(axis, Dim::Known(sizes[i])) by {
        assert(concat.inp(i) == split.out(i));
        lemma_split_tensors(split, before, axis, sizes, n, i);
        lemma_sum_grows(sizes, (i + 1) as nat, n);
        lemma_sum_grows(sizes, i as nat, n);
        assert(sum_of(sizes, (i + 1) as nat) == sum_of(sizes, i as nat) + sizes[i]);
        assert(middle.env[concat.inp(i)].dims() =~= dims.update(axis, Dim::Known(sizes[i])));
    }
    lemma_chained_parts(concat, middle, dims, axis, sizes, n);
    assert(dims.update(axis, dims[axis]) =~= dims);
}

/// What is known stays known when a vector is split.
pub proof fn lemma_split_keeps_known(
    node: NodeDef,
    before: State,
    sizes: Seq<usize>,
    n: nat,
    name: Seq<char>,
)
    requires
        before.known.contains_key(name),
    ensures
        split_known(node, before, sizes, n).contains_key(name),
    decreases n,
{
    if n > 0 {
        lemma_split_keeps_known(node, before, sizes, (n - 1) as nat, name);
    }
}

/// A Split node takes no name away.
pub proof fn lemma_split_keeps_names(
    node: NodeDef,
    before: State,
    axis: int,
    sizes: Seq<usize>,
    n: nat,
    name: Seq<char>,
)
    requires
        before.env.contains_key(name),
    ensures
        split_env(node, before, axis, sizes, n).contains_key(name),
    decreases n,
{
    if n > 0 {
        lemma_split_keeps_names(node, before, axis, sizes, (n - 1) as nat, name);
    }
}

} // verus!

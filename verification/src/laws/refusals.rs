//! Nodes that are refused: their operations do not admit them.

#[allow(unused_imports)]
use crate::bits::{as_i64, as_usize, FloatMath};
#[allow(unused_imports)]
use crate::laws::kinds::law_node_is_of_its_type;
#[allow(unused_imports)]
use crate::nodes::node_step;
#[allow(unused_imports)]
use crate::ops::axes::whole_numbers;
#[allow(unused_imports)]
use crate::ops::constant::sizes_from;
#[allow(unused_imports)]
use crate::ops::layout::can_reshape;
#[allow(unused_imports)]
use crate::ops::select::expand_sizes;
#[allow(unused_imports)]
use crate::proto::NodeDef;
#[allow(unused_imports)]
use crate::shape::{aligned, broadcast_sizes, can_broadcast, joint_rank, sizes_of, Dim};
#[allow(unused_imports)]
use crate::state::{Outcome, State};
use vstd::prelude::*;

verus! {

/// A node with another number of inputs than its operation takes is refused.
pub proof fn law_number_of_inputs<M: FloatMath>(
    math: M,
    node: NodeDef,
    before: State,
    after: State,
    result: Outcome,
)
    requires
        node_step(math, node, before, after, result),
    ensures
        ({
            let t = node.op_type@;
            let count = node.input@.len();
            &&& t == "Gemm"@ && count < 2 ==> result is Rejects
            &&& t == "Add"@ && count != 2 ==> result is Rejects
            &&& t == "Mul"@ && count != 2 ==> result is Rejects
            &&& t == "Div"@ && count != 2 ==> result is Rejects
            &&& t == "Sqrt"@ && count != 1 ==> result is Rejects
            &&& t == "Tanh"@ && count != 1 ==> result is Rejects
            &&& t == "Softmax"@ && count != 1 ==> result is Rejects
            &&& t == "Erf"@ && count != 1 ==> result is Rejects
            &&& t == "Gelu"@ && count != 1 ==> result is Rejects
            &&& t == "LayerNormalization"@ && count < 2 ==> result is Rejects
            &&& t == "ConstantOfShape"@ && count != 1 ==> result is Rejects
            &&& t == "Identity"@ && count != 1 ==> result is Rejects
            &&& t == "Dropout"@ && count == 0 ==> result is Rejects
            &&& t == "Equal"@ && count != 2 ==> result is Rejects
            &&& t == "Where"@ && count != 3 ==> result is Rejects
            &&& t == "Expand"@ && count != 2 ==> result is Rejects
            &&& t == "Gather"@ && count != 2 ==> result is Rejects
            &&& t == "Trilu"@ && count == 0 ==> result is Rejects
            &&& t == "Cast"@ && count != 1 ==> result is Rejects
            &&& t == "Transpose"@ && count != 1 ==> result is Rejects
            &&& t == "MatMul"@ && count != 2 ==> result is Rejects
            &&& t == "Mod"@ && count != 2 ==> result is Rejects
            &&& t == "Shape"@ && count != 1 ==> result is Rejects
            &&& t == "Reshape"@ && count != 2 ==> result is Rejects
            &&& t == "Slice"@ && count < 3 ==> result is Rejects
            &&& t == "Concat"@ && count == 0 ==> result is Rejects
            &&& t == "Unsqueeze"@ && count != 2 ==> result is Rejects
            &&& t == "Squeeze"@ && count == 0 ==> result is Rejects
            &&& t == "Split"@ && count == 0 ==> result is Rejects
        }),
{
    law_node_is_of_its_type(math, node, before, after, result);
}

/// Two tensors whose sizes differ on an axis, matched from the last one backwards, where
/// neither is 1, are not added, multiplied, divided or compared.
pub proof fn law_sizes_that_differ<M: FloatMath>(
    math: M,
    node: NodeDef,
    before: State,
    after: State,
    result: Outcome,
    e: int,
)
    requires
        node_step(math, node, before, after, result),
        node.op_type@ == "Add"@ || node.op_type@ == "Mul"@ || node.op_type@ == "Div"@
            || node.op_type@ == "Equal"@ || node.op_type@ == "Mod"@,
        node.input@.len() == 2,
        before.env.contains_key(node.inp(0)),
        before.env.contains_key(node.inp(1)),
        ({
            let a = before.env[node.inp(0)].dims();
            let b = before.env[node.inp(1)].dims();
            &&& 1 <= e <= a.len()
            &&& e <= b.len()
            &&& a[a.len() - e] != b[b.len() - e]
            &&& a[a.len() - e] != Dim::Known(1)
            &&& b[b.len() - e] != Dim::Known(1)
        }),
    ensures
        result is Rejects,
{
    law_node_is_of_its_type(math, node, before, after, result);
    let a = before.env[node.inp(0)].dims();
    let b = before.env[node.inp(1)].dims();
    let x = sizes_of(a);
    let y = sizes_of(b);
    if broadcast_sizes(a, b) is Some {
        let rank = joint_rank(x, y) as int;
        assert(a[a.len() - e] is Known && b[b.len() - e] is Known);
        assert(aligned(x, rank, rank - e) == x[a.len() - e]);
        assert(aligned(y, rank, rank - e) == y[b.len() - e]);
        assert(false);
    }
}

/// Matrices of which the rows of the first have another length than the columns of the
/// second are not multiplied, nor are stacks of matrices of other sizes.
pub proof fn law_matrices_that_do_not_fit<M: FloatMath>(
    math: M,
    node: NodeDef,
    before: State,
    after: State,
    result: Outcome,
    i: int,
)
    requires
        node_step(math, node, before, after, result),
        node.op_type@ == "MatMul"@,
        node.input@.len() == 2,
        before.env.contains_key(node.inp(0)),
        before.env.contains_key(node.inp(1)),
        ({
            let a = before.env[node.inp(0)].dims();
            let b = before.env[node.inp(1)].dims();
            ||| a.len() == 0
            ||| b.len() < 2
            ||| a.last() != b[b.len() - 2]
            ||| b.len() > 2 && a.len() != b.len()
            ||| b.len() > 2 && 0 <= i < a.len() - 2 && a[i] != b[i]
        }),
    ensures
        result is Rejects,
{
    law_node_is_of_its_type(math, node, before, after, result);
    let a = before.env[node.inp(0)].dims();
    let b = before.env[node.inp(1)].dims();
    if b.len() > 2 && a.len() == b.len() && 0 <= i < a.len() - 2 && a[i] != b[i] {
        assert(a.subrange(0, a.len() - 2)[i] != b.subrange(0, b.len() - 2)[i]);
    }
}

/// An axis that the input does not have, counted from either end, is refused.
pub proof fn law_axis_that_is_none<M: FloatMath>(
    math: M,
    node: NodeDef,
    before: State,
    after: State,
    result: Outcome,
)
    requires
        node_step(math, node, before, after, result),
        before.env.contains_key(node.inp(0)),
    ensures
        ({
            let t = node.op_type@;
            let rank = before.env[node.inp(0)].dims().len();
            let last = node.int_attr("axis"@, (-1) as i64);
            let first = node.int_attr("axis"@, 0);
            &&& t == "Softmax"@ && (last >= rank || last < -rank) ==> result is Rejects
            &&& t == "LayerNormalization"@ && (last > rank || last < -rank)
                && before.env.contains_key(node.inp(1)) ==> result is Rejects
            &&& t == "Split"@ && (first >= rank || first < -rank) ==> result is Rejects
            &&& t == "Gather"@ && (first >= rank || first < -rank) && before.env.contains_key(
                node.inp(1),
            ) ==> result is Rejects
        }),
{
    law_node_is_of_its_type(math, node, before, after, result);
}

/// An order that names an axis twice, or one that the input does not have, or not as many
/// axes as it has, is refused.
pub proof fn law_order_that_is_none<M: FloatMath>(
    math: M,
    node: NodeDef,
    before: State,
    after: State,
    result: Outcome,
    i: int,
    j: int,
)
    requires
        node_step(math, node, before, after, result),
        node.op_type@ == "Transpose"@,
        before.env.contains_key(node.inp(0)),
        node.attr("perm"@) is Some,
        ({
            let order = node.attr("perm"@)->0.ints@;
            let rank = before.env[node.inp(0)].dims().len();
            ||| order.len() != rank
            ||| 0 <= i < order.len() && !(0 <= order[i] < rank)
            ||| 0 <= i < j < order.len() && order[i] == order[j]
        }),
    ensures
        result is Rejects,
{
    law_node_is_of_its_type(math, node, before, after, result);
}

/// An input is not expanded along an axis that is longer than 1 and shorter than asked
/// for, nor into fewer axes than it has.
pub proof fn law_sizes_that_cannot_be_expanded<M: FloatMath>(
    math: M,
    node: NodeDef,
    before: State,
    after: State,
    result: Outcome,
    e: int,
)
    requires
        node_step(math, node, before, after, result),
        node.op_type@ == "Expand"@,
        node.input@.len() == 2,
        before.env.contains_key(node.inp(0)),
        before.known.contains_key(node.inp(1)),
        ({
            let dims = before.env[node.inp(0)].dims();
            let asked = before.known[node.inp(1)];
            ||| dims.len() > asked.len()
            ||| 1 <= e <= dims.len() && dims[dims.len() - e] is Known && dims[dims.len()
                - e]->Known_0 != 1 && dims[dims.len() - e]->Known_0 < as_usize(
                asked[asked.len() - e],
            )
        }),
    ensures
        result is Rejects,
{
    law_node_is_of_its_type(math, node, before, after, result);
    let dims = before.env[node.inp(0)].dims();
    let asked = before.known[node.inp(1)];
    if dims.len() <= asked.len() {
        let target = sizes_from(asked);
        let lengths = expand_sizes(dims, target);
        if can_broadcast(dims, lengths) {
            let j = dims.len() - e;
            assert(dims[j] == Dim::Known(1) || dims[j] == Dim::Known(
                lengths[lengths.len() - dims.len() + j],
            ));
            assert(false);
        }
    }
}

/// A size is not copied from an axis that the input does not have.
pub proof fn law_sizes_that_cannot_be_copied<M: FloatMath>(
    math: M,
    node: NodeDef,
    before: State,
    after: State,
    result: Outcome,
    i: int,
)
    requires
        node_step(math, node, before, after, result),
        node.op_type@ == "Reshape"@,
        node.input@.len() == 2,
        before.env.contains_key(node.inp(0)),
        before.known.contains_key(node.inp(1)),
        0 <= i < before.known[node.inp(1)].len(),
        as_i64(before.known[node.inp(1)][i]) == 0,
        i >= before.env[node.inp(0)].dims().len(),
    ensures
        result is Rejects,
{
    law_node_is_of_its_type(math, node, before, after, result);
    let target = whole_numbers(before.known[node.inp(1)]);
    let own = sizes_of(before.env[node.inp(0)].dims());
    assert(target[i] == 0);
    assert(!can_reshape(own, target));
}

} // verus!

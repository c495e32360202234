//! Nodes that cannot be imported, and what is said of them.

#[allow(unused_imports)]
use crate::bits::FloatMath;
#[allow(unused_imports)]
use crate::laws::cuts::{lemma_makes_parts, lemma_taken_by, makes_parts, taken_by};
#[allow(unused_imports)]
use crate::laws::kinds::law_node_is_of_its_type;
#[allow(unused_imports)]
use crate::names::decimal;
#[allow(unused_imports)]
use crate::nodes::{node_step, quoted};
#[allow(unused_imports)]
use crate::ops::pieces::{chain_outcome, concat_axis};
#[allow(unused_imports)]
use crate::proto::NodeDef;
#[allow(unused_imports)]
use crate::shape::Dim;
#[allow(unused_imports)]
use crate::state::{Outcome, State};
use vstd::prelude::*;

verus! {

/// Whether an import fails for want of something, which it names, and leaves all as it
/// was.
pub open spec fn fails_for(
    prefix: Seq<char>,
    name: Seq<char>,
    before: State,
    after: State,
    result: Outcome,
) -> bool {
    result == Outcome::Fails(prefix + name + "'"@) && after == before
}

proof fn lemma_chain_fails(node: NodeDef, before: State, axis: int, n: nat)
    requires
        n >= 1,
        !before.env.contains_key(node.inp(0)),
    ensures
        chain_outcome(node, before, axis, n) == Outcome::Fails(
            "Concat: missing input tensor '"@ + node.inp(0) + "'"@,
        ),
    decreases n,
{
    if n > 1 {
        lemma_chain_fails(node, before, axis, (n - 1) as nat);
    } else {
        assert(chain_outcome(node, before, axis, 0) is Done);
    }
}

/// A node whose first input is no tensor fails, and its message names the input.
pub proof fn law_first_input_is_missing<M: FloatMath>(
    math: M,
    node: NodeDef,
    before: State,
    after: State,
    result: Outcome,
)
    requires
        node_step(math, node, before, after, result),
        !before.env.contains_key(node.inp(0)),
    ensures
        ({
            let t = node.op_type@;
            let count = node.input@.len();
            &&& t == "Gemm"@ && count >= 2 ==> fails_for(
                "Gemm: missing input tensor '"@,
                node.inp(0),
                before,
                after,
                result,
            )
            &&& t == "Add"@ && count == 2 ==> fails_for(
                "Add: missing input tensor '"@,
                node.inp(0),
                before,
                after,
                result,
            )
            &&& t == "Mul"@ && count == 2 ==> fails_for(
                "Mul: missing input tensor '"@,
                node.inp(0),
                before,
                after,
                result,
            )
            &&& t == "Div"@ && count == 2 ==> fails_for(
                "Div: missing input tensor '"@,
                node.inp(0),
                before,
                after,
                result,
            )
            &&& t == "Sqrt"@ && count == 1 ==> fails_for(
                "Sqrt: missing input tensor '"@,
                node.inp(0),
                before,
                after,
                result,
            )
            &&& t == "Tanh"@ && count == 1 ==> fails_for(
                "Tanh: missing input tensor '"@,
                node.inp(0),
                before,
                after,
                result,
            )
            &&& t == "Softmax"@ && count == 1 ==> fails_for(
                "Softmax: missing input tensor '"@,
                node.inp(0),
                before,
                after,
                result,
            )
            &&& t == "Erf"@ && count == 1 ==> fails_for(
                "Erf: missing input tensor '"@,
                node.inp(0),
                before,
                after,
                result,
            )
            &&& t == "Gelu"@ && count == 1 ==> fails_for(
                "Gelu: missing input tensor '"@,
                node.inp(0),
                before,
                after,
                result,
            )
            &&& t == "LayerNormalization"@ && count >= 2 ==> fails_for(
                "LayerNorm: missing input tensor '"@,
                node.inp(0),
                before,
                after,
                result,
            )
            &&& t == "Identity"@ && count == 1 ==> fails_for(
                "Identity: missing input tensor '"@,
                node.inp(0),
                before,
                after,
                result,
            )
            &&& t == "Dropout"@ && count >= 1 ==> fails_for(
                "Dropout: missing input tensor '"@,
                node.inp(0),
                before,
                after,
                result,
            )
            &&& t == "Equal"@ && count == 2 ==> fails_for(
                "Equal: missing input tensor '"@,
                node.inp(0),
                before,
                after,
                result,
            )
            &&& t == "Where"@ && count == 3 ==> fails_for(
                "Where: missing condition tensor '"@,
                node.inp(0),
                before,
                after,
                result,
            )
            &&& t == "Expand"@ && count == 2 ==> fails_for(
                "Expand: missing input tensor '"@,
                node.inp(0),
                before,
                after,
                result,
            )
            &&& t == "Gather"@ && count == 2 ==> fails_for(
                "Gather: missing data tensor '"@,
                node.inp(0),
                before,
                after,
                result,
            )
            &&& t == "Trilu"@ && count >= 1 ==> fails_for(
                "Trilu: missing input tensor '"@,
                node.inp(0),
                before,
                after,
                result,
            )
            &&& t == "Cast"@ && count == 1 ==> fails_for(
                "Cast: missing input tensor '"@,
                node.inp(0),
                before,
                after,
                result,
            )
            &&& t == "Transpose"@ && count == 1 ==> fails_for(
                "Transpose: missing input tensor '"@,
                node.inp(0),
                before,
                after,
                result,
            )
            &&& t == "MatMul"@ && count == 2 ==> fails_for(
                "MatMul: missing input tensor '"@,
                node.inp(0),
                before,
                after,
                result,
            )
            &&& t == "Mod"@ && count == 2 ==> fails_for(
                "Mod: missing input tensor '"@,
                node.inp(0),
                before,
                after,
                result,
            )
            &&& t == "Shape"@ && count == 1 ==> fails_for(
                "Shape: missing input tensor '"@,
                node.inp(0),
                before,
                after,
                result,
            )
            &&& t == "Reshape"@ && count == 2 ==> fails_for(
                "Reshape: missing input tensor '"@,
                node.inp(0),
                before,
                after,
                result,
            )
            &&& t == "Slice"@ && count >= 3 ==> fails_for(
                "Slice: missing input tensor '"@,
                node.inp(0),
                before,
                after,
                result,
            )
            &&& t == "Unsqueeze"@ && count == 2 ==> fails_for(
                "Unsqueeze: missing input tensor '"@,
                node.inp(0),
                before,
                after,
                result,
            )
            &&& t == "Squeeze"@ && count >= 1 ==> fails_for(
                "Squeeze: missing input tensor '"@,
                node.inp(0),
                before,
                after,
                result,
            )
            &&& t == "Split"@ && count >= 1 ==> fails_for(
                "Split: missing input tensor '"@,
                node.inp(0),
                before,
                after,
                result,
            )
            &&& t == "Concat"@ && count >= 1 && node.output@.len() > 0
                && !before.known.contains_key(node.inp(0)) ==> fails_for(
                "Concat: missing input tensor '"@,
                node.inp(0),
                before,
                after,
                result,
            )
        }),
{
    law_node_is_of_its_type(math, node, before, after, result);
    if node.op_type@ == "Concat"@ && node.input@.len() >= 1 {
        lemma_chain_fails(node, before, concat_axis(node, before), node.input@.len());
    }
}

/// A node whose second input has to be a tensor and is none fails, and its message names
/// the input.
pub proof fn law_second_input_is_missing<M: FloatMath>(
    math: M,
    node: NodeDef,
    before: State,
    after: State,
    result: Outcome,
)
    requires
        node_step(math, node, before, after, result),
        before.env.contains_key(node.inp(0)),
        !before.env.contains_key(node.inp(1)),
    ensures
        ({
            let t = node.op_type@;
            let count = node.input@.len();
            &&& t == "Gemm"@ && count >= 2 ==> fails_for(
                "Gemm: missing weight tensor '"@,
                node.inp(1),
                before,
                after,
                result,
            )
            &&& t == "Add"@ && count == 2 ==> fails_for(
                "Add: missing input tensor '"@,
                node.inp(1),
                before,
                after,
                result,
            )
            &&& t == "Mul"@ && count == 2 ==> fails_for(
                "Mul: missing input tensor '"@,
                node.inp(1),
                before,
                after,
                result,
            )
            &&& t == "Div"@ && count == 2 ==> fails_for(
                "Div: missing input tensor '"@,
                node.inp(1),
                before,
                after,
                result,
            )
            &&& t == "LayerNormalization"@ && count >= 2 ==> fails_for(
                "LayerNorm: missing scale tensor '"@,
                node.inp(1),
                before,
                after,
                result,
            )
            &&& t == "Equal"@ && count == 2 ==> fails_for(
                "Equal: missing input tensor '"@,
                node.inp(1),
                before,
                after,
                result,
            )
            &&& t == "Where"@ && count == 3 ==> fails_for(
                "Where: missing X tensor '"@,
                node.inp(1),
                before,
                after,
                result,
            )
            &&& t == "MatMul"@ && count == 2 ==> fails_for(
                "MatMul: missing input tensor '"@,
                node.inp(1),
                before,
                after,
                result,
            )
            &&& t == "Mod"@ && count == 2 ==> fails_for(
                "Mod: missing input tensor '"@,
                node.inp(1),
                before,
                after,
                result,
            )
            &&& t == "Gather"@ && count == 2 && !before.known.contains_key(node.inp(1))
                ==> fails_for(
                "Gather: missing indices tensor '"@,
                node.inp(1),
                before,
                after,
                result,
            )
        }),
{
    law_node_is_of_its_type(math, node, before, after, result);
}

/// Whether an import fails for want of known elements of an input, which it names, and
/// leaves all as it was.
pub open spec fn fails_to_know(
    prefix: Seq<char>,
    name: Seq<char>,
    suffix: Seq<char>,
    before: State,
    after: State,
    result: Outcome,
) -> bool {
    result == Outcome::Fails(prefix + name + suffix) && after == before
}

/// A node that needs to know the elements of an input, be it sizes, axes or positions,
/// fails if it does not, and its message names the input.
pub proof fn law_numbers_are_unknown<M: FloatMath>(
    math: M,
    node: NodeDef,
    before: State,
    after: State,
    result: Outcome,
)
    requires
        node_step(math, node, before, after, result),
        before.env.contains_key(node.inp(0)),
    ensures
        ({
            let t = node.op_type@;
            let count = node.input@.len();
            let second = before.known.contains_key(node.inp(1));
            let third = before.known.contains_key(node.inp(2));
            &&& t == "Expand"@ && count == 2 && !second ==> fails_for(
                "Expand: missing shape data for '"@,
                node.inp(1),
                before,
                after,
                result,
            )
            &&& t == "Reshape"@ && count == 2 && !second ==> fails_to_know(
                "Reshape: shape input '"@,
                node.inp(1),
                "' must be a known constant"@,
                before,
                after,
                result,
            )
            &&& t == "Unsqueeze"@ && count == 2 && !second ==> fails_to_know(
                "Unsqueeze: axes '"@,
                node.inp(1),
                "' must be known"@,
                before,
                after,
                result,
            )
            &&& t == "Squeeze"@ && node.has_input(1) && !second ==> fails_to_know(
                "Squeeze: axes '"@,
                node.inp(1),
                "' must be known"@,
                before,
                after,
                result,
            )
            &&& t == "Trilu"@ && node.has_input(1) && !second ==> fails_to_know(
                "Trilu: k input '"@,
                node.inp(1),
                "' must be a known constant"@,
                before,
                after,
                result,
            )
            &&& t == "Slice"@ && count >= 3 && !second ==> fails_to_know(
                "Slice: starts '"@,
                node.inp(1),
                "' must be known"@,
                before,
                after,
                result,
            )
            &&& t == "Slice"@ && count >= 3 && second && !third ==> fails_to_know(
                "Slice: ends '"@,
                node.inp(2),
                "' must be known"@,
                before,
                after,
                result,
            )
            &&& t == "Slice"@ && count >= 3 && second && third && node.has_input(3)
                && !before.known.contains_key(node.inp(3)) ==> fails_to_know(
                "Slice: axes '"@,
                node.inp(3),
                "' must be known"@,
                before,
                after,
                result,
            )
        }),
{
    law_node_is_of_its_type(math, node, before, after, result);
}

/// A Split node whose parts do not add up to the size of the axis fails, and its message
/// has both numbers.
pub proof fn law_parts_do_not_add_up<M: FloatMath>(
    math: M,
    node: NodeDef,
    before: State,
    after: State,
    result: Outcome,
    axis: int,
    size: usize,
    parts: Seq<usize>,
)
    requires
        node_step(math, node, before, after, result),
        node.op_type@ == "Split"@,
        node.input@.len() > 0,
        before.env.contains_key(node.inp(0)),
        0 <= axis < before.env[node.inp(0)].dims().len(),
        ({
            let given = node.int_attr("axis"@, 0);
            given == axis || given == axis - before.env[node.inp(0)].dims().len()
        }),
        before.env[node.inp(0)].dims()[axis] == Dim::Known(size),
        node.has_input(1),
        makes_parts(node, before, size, parts),
        taken_by(parts, parts.len()) <= usize::MAX,
        taken_by(parts, parts.len()) != size,
    ensures
        result == Outcome::Fails(
            "Split: sum of split sizes ("@ + decimal(taken_by(parts, parts.len()) as int)
                + ") != dimension size ("@ + decimal(size as int) + ")"@,
        ),
        after == before,
{
    law_node_is_of_its_type(math, node, before, after, result);
    lemma_makes_parts(node, before, size, parts);
    lemma_taken_by(parts, parts.len());
}

/// A Constant node without a tensor to hold, or with one of a type that is not read,
/// fails.
pub proof fn law_constant_without_elements<M: FloatMath>(
    math: M,
    node: NodeDef,
    before: State,
    after: State,
    result: Outcome,
)
    requires
        node_step(math, node, before, after, result),
        node.op_type@ == "Constant"@,
        node.output@.len() == 1,
    ensures
        ({
            let value = node.attr("value"@);
            &&& value is None ==> result == Outcome::Fails(
                "Constant node missing 'value' attribute"@,
            )
            &&& value is Some && value->0.t is None ==> result == Outcome::Fails(
                "Constant 'value' attribute has no TensorProto"@,
            )
            &&& value is Some && value->0.t is Some ==> {
                let code = value->0.t->0.data_type;
                code != 1 && code != 6 && code != 7 && code != 9 && code != 11 ==> result
                    == Outcome::Fails(
                    "Constant node: unsupported data_type "@ + decimal(code as int),
                )
            }
            &&& result is Fails ==> after == before
        }),
{
    law_node_is_of_its_type(math, node, before, after, result);
}

/// A node of a type that is not imported fails, and its message quotes the type.
pub proof fn law_type_is_unknown<M: FloatMath>(
    math: M,
    node: NodeDef,
    before: State,
    after: State,
    result: Outcome,
)
    requires
        node_step(math, node, before, after, result),
        node.op_type@ != "Gemm"@,
        node.op_type@ != "Add"@,
        node.op_type@ != "Mul"@,
        node.op_type@ != "Div"@,
        node.op_type@ != "Sqrt"@,
        node.op_type@ != "Tanh"@,
        node.op_type@ != "Softmax"@,
        node.op_type@ != "Erf"@,
        node.op_type@ != "Gelu"@,
        node.op_type@ != "LayerNormalization"@,
        node.op_type@ != "Constant"@,
        node.op_type@ != "ConstantOfShape"@,
        node.op_type@ != "Identity"@,
        node.op_type@ != "Dropout"@,
        node.op_type@ != "Equal"@,
        node.op_type@ != "Where"@,
        node.op_type@ != "Expand"@,
        node.op_type@ != "Gather"@,
        node.op_type@ != "Trilu"@,
        node.op_type@ != "Cast"@,
        node.op_type@ != "Transpose"@,
        node.op_type@ != "MatMul"@,
        node.op_type@ != "Mod"@,
        node.op_type@ != "Shape"@,
        node.op_type@ != "Reshape"@,
        node.op_type@ != "Slice"@,
        node.op_type@ != "Concat"@,
        node.op_type@ != "Unsqueeze"@,
        node.op_type@ != "Squeeze"@,
        node.op_type@ != "Split"@,
    ensures
        result == Outcome::Fails("Unsupported ONNX op type: "@ + quoted(node.op_type@)),
        after == before,
{
}

} // verus!

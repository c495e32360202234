//! Which operation a node is imported by.

#[allow(unused_imports)]
use crate::bits::FloatMath;
#[allow(unused_imports)]
use crate::fold::{Mapping, Pairing};
#[allow(unused_imports)]
use crate::nodes::{kind_of, node_step, Kind};
#[allow(unused_imports)]
use crate::ops::activation::{
    activation_step, erf_formula, erf_numbers, gelu_formula, gelu_numbers, softmax_step, tanh_step,
};
#[allow(unused_imports)]
use crate::ops::constant::{constant_of_shape_step, constant_step};
#[allow(unused_imports)]
use crate::ops::elementwise::{div_step, fold_step, pair_step, unary_step};
#[allow(unused_imports)]
use crate::ops::gather::gather_step;
#[allow(unused_imports)]
use crate::ops::layout::{
    cast_step, dropout_step, identity_step, reshape_step, shape_step, squeeze_step, transpose_step,
    unsqueeze_step,
};
#[allow(unused_imports)]
use crate::ops::matrix::{gemm_step, matmul_step, trilu_step};
#[allow(unused_imports)]
use crate::ops::normalize::layer_norm_step;
#[allow(unused_imports)]
use crate::ops::pieces::{concat_step, slice_step, split_step};
#[allow(unused_imports)]
use crate::ops::select::{expand_step, where_step};
#[allow(unused_imports)]
use crate::proto::NodeDef;
#[allow(unused_imports)]
use crate::state::{Outcome, State};
use vstd::prelude::*;

verus! {

/// The types of nodes are told apart, each as the operation of that name.
proof fn lemma_kinds()
    ensures
        kind_of("Gemm"@) == Some(Kind::Gemm),
        kind_of("Add"@) == Some(Kind::Add),
        kind_of("Mul"@) == Some(Kind::Mul),
        kind_of("Div"@) == Some(Kind::Div),
        kind_of("Sqrt"@) == Some(Kind::Sqrt),
        kind_of("Tanh"@) == Some(Kind::Tanh),
        kind_of("Softmax"@) == Some(Kind::Softmax),
        kind_of("Erf"@) == Some(Kind::Erf),
        kind_of("Gelu"@) == Some(Kind::Gelu),
        kind_of("LayerNormalization"@) == Some(Kind::LayerNormalization),
        kind_of("Constant"@) == Some(Kind::Constant),
        kind_of("ConstantOfShape"@) == Some(Kind::ConstantOfShape),
        kind_of("Identity"@) == Some(Kind::Identity),
        kind_of("Dropout"@) == Some(Kind::Dropout),
        kind_of("Equal"@) == Some(Kind::Equal),
        kind_of("Where"@) == Some(Kind::Where),
        kind_of("Expand"@) == Some(Kind::Expand),
        kind_of("Gather"@) == Some(Kind::Gather),
        kind_of("Trilu"@) == Some(Kind::Trilu),
        kind_of("Cast"@) == Some(Kind::Cast),
        kind_of("Transpose"@) == Some(Kind::Transpose),
        kind_of("MatMul"@) == Some(Kind::MatMul),
        kind_of("Mod"@) == Some(Kind::Mod),
        kind_of("Shape"@) == Some(Kind::Shape),
        kind_of("Reshape"@) == Some(Kind::Reshape),
        kind_of("Slice"@) == Some(Kind::Slice),
        kind_of("Concat"@) == Some(Kind::Concat),
        kind_of("Unsqueeze"@) == Some(Kind::Unsqueeze),
        kind_of("Squeeze"@) == Some(Kind::Squeeze),
        kind_of("Split"@) == Some(Kind::Split),
{
    reveal_strlit("Gemm");
    assert("Gemm"@.len() == 4 && "Gemm"@[0] == 'G' && "Gemm"@[1] == 'e' && "Gemm"@[2] == 'm');
    reveal_strlit("Add");
    assert("Add"@.len() == 3 && "Add"@[0] == 'A' && "Add"@[1] == 'd' && "Add"@[2] == 'd');
    reveal_strlit("Mul");
    assert("Mul"@.len() == 3 && "Mul"@[0] == 'M' && "Mul"@[1] == 'u' && "Mul"@[2] == 'l');
    reveal_strlit("Div");
    assert("Div"@.len() == 3 && "Div"@[0] == 'D' && "Div"@[1] == 'i' && "Div"@[2] == 'v');
    reveal_strlit("Sqrt");
    assert("Sqrt"@.len() == 4 && "Sqrt"@[0] == 'S' && "Sqrt"@[1] == 'q' && "Sqrt"@[2] == 'r');
    reveal_strlit("Tanh");
    assert("Tanh"@.len() == 4 && "Tanh"@[0] == 'T' && "Tanh"@[1] == 'a' && "Tanh"@[2] == 'n');
    reveal_strlit("Softmax");
    assert("Softmax"@.len() == 7 && "Softmax"@[0] == 'S'
        && "Softmax"@[1] == 'o' && "Softmax"@[2] == 'f');
    reveal_strlit("Erf");
    assert("Erf"@.len() == 3 && "Erf"@[0] == 'E' && "Erf"@[1] == 'r' && "Erf"@[2] == 'f');
    reveal_strlit("Gelu");
    assert("Gelu"@.len() == 4 && "Gelu"@[0] == 'G' && "Gelu"@[1] == 'e' && "Gelu"@[2] == 'l');
    reveal_strlit("LayerNormalization");
    assert("LayerNormalization"@.len() == 18 && "LayerNormalization"@[0] == 'L'
        && "LayerNormalization"@[1] == 'a' && "LayerNormalization"@[2] == 'y');
    reveal_strlit("Constant");
    assert("Constant"@.len() == 8 && "Constant"@[0] == 'C'
        && "Constant"@[1] == 'o' && "Constant"@[2] == 'n');
    reveal_strlit("ConstantOfShape");
    assert("ConstantOfShape"@.len() == 15 && "ConstantOfShape"@[0] == 'C'
        && "ConstantOfShape"@[1] == 'o' && "ConstantOfShape"@[2] == 'n');
    reveal_strlit("Identity");
    assert("Identity"@.len() == 8 && "Identity"@[0] == 'I'
        && "Identity"@[1] == 'd' && "Identity"@[2] == 'e');
    reveal_strlit("Dropout");
    assert("Dropout"@.len() == 7 && "Dropout"@[0] == 'D'
        && "Dropout"@[1] == 'r' && "Dropout"@[2] == 'o');
    reveal_strlit("Equal");
    assert("Equal"@.len() == 5 && "Equal"@[0] == 'E' && "Equal"@[1] == 'q' && "Equal"@[2] == 'u');
    reveal_strlit("Where");
    assert("Where"@.len() == 5 && "Where"@[0] == 'W' && "Where"@[1] == 'h' && "Where"@[2] == 'e');
    reveal_strlit("Expand");
    assert("Expand"@.len() == 6 && "Expand"@[0] == 'E'
        && "Expand"@[1] == 'x' && "Expand"@[2] == 'p');
    reveal_strlit("Gather");
    assert("Gather"@.len() == 6 && "Gather"@[0] == 'G'
        && "Gather"@[1] == 'a' && "Gather"@[2] == 't');
    reveal_strlit("Trilu");
    assert("Trilu"@.len() == 5 && "Trilu"@[0] == 'T' && "Trilu"@[1] == 'r' && "Trilu"@[2] == 'i');
    reveal_strlit("Cast");
    assert("Cast"@.len() == 4 && "Cast"@[0] == 'C' && "Cast"@[1] == 'a' && "Cast"@[2] == 's');
    reveal_strlit("Transpose");
    assert("Transpose"@.len() == 9 && "Transpose"@[0] == 'T'
        && "Transpose"@[1] == 'r' && "Transpose"@[2] == 'a');
    reveal_strlit("MatMul");
    assert("MatMul"@.len() == 6 && "MatMul"@[0] == 'M'
        && "MatMul"@[1] == 'a' && "MatMul"@[2] == 't');
    reveal_strlit("Mod");
    assert("Mod"@.len() == 3 && "Mod"@[0] == 'M' && "Mod"@[1] == 'o' && "Mod"@[2] == 'd');
    reveal_strlit("Shape");
    assert("Shape"@.len() == 5 && "Shape"@[0] == 'S' && "Shape"@[1] == 'h' && "Shape"@[2] == 'a');
    reveal_strlit("Reshape");
    assert("Reshape"@.len() == 7 && "Reshape"@[0] == 'R'
        && "Reshape"@[1] == 'e' && "Reshape"@[2] == 's');
    reveal_strlit("Slice");
    assert("Slice"@.len() == 5 && "Slice"@[0] == 'S' && "Slice"@[1] == 'l' && "Slice"@[2] == 'i');
    reveal_strlit("Concat");
    assert("Concat"@.len() == 6 && "Concat"@[0] == 'C'
        && "Concat"@[1] == 'o' && "Concat"@[2] == 'n');
    reveal_strlit("Unsqueeze");
    assert("Unsqueeze"@.len() == 9 && "Unsqueeze"@[0] == 'U'
        && "Unsqueeze"@[1] == 'n' && "Unsqueeze"@[2] == 's');
    reveal_strlit("Squeeze");
    assert("Squeeze"@.len() == 7 && "Squeeze"@[0] == 'S'
        && "Squeeze"@[1] == 'q' && "Squeeze"@[2] == 'u');
    reveal_strlit("Split");
    assert("Split"@.len() == 5 && "Split"@[0] == 'S' && "Split"@[1] == 'p' && "Split"@[2] == 'l');
}

/// A node is imported by the operation that its type names.
pub proof fn law_node_is_of_its_type<M: FloatMath>(
    math: M,
    node: NodeDef,
    before: State,
    after: State,
    result: Outcome,
)
    requires
        node_step(math, node, before, after, result),
    ensures
        node.op_type@ == "Gemm"@ ==> gemm_step(node, before, after, result),
        node.op_type@ == "Add"@ ==> fold_step(
            math,
            node,
            "Add: missing input tensor '"@,
            Pairing::Add,
            before,
            after,
            result,
        ),
        node.op_type@ == "Mul"@ ==> fold_step(
            math,
            node,
            "Mul: missing input tensor '"@,
            Pairing::Mul,
            before,
            after,
            result,
        ),
        node.op_type@ == "Div"@ ==> div_step(math, node, before, after, result),
        node.op_type@ == "Sqrt"@ ==> unary_step(
            math,
            node,
            "Sqrt: missing input tensor '"@,
            Mapping::Sqrt,
            before,
            after,
            result,
        ),
        node.op_type@ == "Tanh"@ ==> tanh_step(math, node, before, after, result),
        node.op_type@ == "Softmax"@ ==> softmax_step(node, before, after, result),
        node.op_type@ == "Erf"@ ==> activation_step(
            node,
            "Erf: missing input tensor '"@,
            erf_numbers(),
            erf_formula(before.env[node.inp(0)], node.out(0)),
            before,
            after,
            result,
        ),
        node.op_type@ == "Gelu"@ ==> activation_step(
            node,
            "Gelu: missing input tensor '"@,
            gelu_numbers(),
            gelu_formula(before.env[node.inp(0)], node.out(0)),
            before,
            after,
            result,
        ),
        node.op_type@ == "LayerNormalization"@ ==> layer_norm_step(node, before, after, result),
        node.op_type@ == "Constant"@ ==> constant_step(node, before, after, result),
        node.op_type@ == "ConstantOfShape"@ ==> constant_of_shape_step(node, before, after, result),
        node.op_type@ == "Identity"@ ==> identity_step(node, before, after, result),
        node.op_type@ == "Dropout"@ ==> dropout_step(node, before, after, result),
        node.op_type@ == "Equal"@ ==> pair_step(
            math,
            node,
            "Equal: missing input tensor '"@,
            "Equal: missing input tensor '"@,
            Pairing::Equal,
            before,
            after,
            result,
        ),
        node.op_type@ == "Where"@ ==> where_step(node, before, after, result),
        node.op_type@ == "Expand"@ ==> expand_step(node, before, after, result),
        node.op_type@ == "Gather"@ ==> gather_step(node, before, after, result),
        node.op_type@ == "Trilu"@ ==> trilu_step(node, before, after, result),
        node.op_type@ == "Cast"@ ==> cast_step(node, before, after, result),
        node.op_type@ == "Transpose"@ ==> transpose_step(node, before, after, result),
        node.op_type@ == "MatMul"@ ==> matmul_step(node, before, after, result),
        node.op_type@ == "Mod"@ ==> pair_step(
            math,
            node,
            "Mod: missing input tensor '"@,
            "Mod: missing input tensor '"@,
            Pairing::Rem,
            before,
            after,
            result,
        ),
        node.op_type@ == "Shape"@ ==> shape_step(node, before, after, result),
        node.op_type@ == "Reshape"@ ==> reshape_step(node, before, after, result),
        node.op_type@ == "Slice"@ ==> slice_step(node, before, after, result),
        node.op_type@ == "Concat"@ ==> concat_step(node, before, after, result),
        node.op_type@ == "Unsqueeze"@ ==> unsqueeze_step(node, before, after, result),
        node.op_type@ == "Squeeze"@ ==> squeeze_step(node, before, after, result),
        node.op_type@ == "Split"@ ==> split_step(node, before, after, result),
{
    lemma_kinds();
}

} // verus!

//! The import of all nodes of a model, one after the other.

use crate::bits::FloatMath;
#[allow(unused_imports)]
use crate::fold::{Mapping, Pairing};
use crate::graph::{group_graph, ComputeGraph, GraphTensor};
#[allow(unused_imports)]
use crate::graph::grows;
use crate::names::{join, NameMap};
use crate::ops::activation::{try_erf_node, try_gelu_node, try_softmax_node, try_tanh_node};
#[allow(unused_imports)]
use crate::ops::activation::{
    activation_step, erf_formula, erf_numbers, gelu_formula, gelu_numbers, softmax_step, tanh_step,
};
use crate::ops::constant::{try_constant, try_constant_of_shape};
#[allow(unused_imports)]
use crate::ops::constant::{constant_of_shape_step, constant_step};
use crate::ops::elementwise::{
    try_add_node, try_div_node, try_equal_node, try_mod_node, try_mul_node, try_sqrt_node,
};
#[allow(unused_imports)]
use crate::ops::elementwise::{div_step, fold_step, pair_step, unary_step};
use crate::ops::gather::try_gather_node;
#[allow(unused_imports)]
use crate::ops::gather::gather_step;
use crate::ops::layout::{
    try_cast_node, try_dropout_node, try_identity, try_reshape_node, try_shape_node,
    try_squeeze_node, try_transpose_node, try_unsqueeze_node,
};
#[allow(unused_imports)]
use crate::ops::layout::{
    cast_step, dropout_step, identity_step, reshape_step, shape_step, squeeze_step, transpose_step,
    unsqueeze_step,
};
use crate::ops::matrix::{try_gemm_node, try_matmul_node, try_trilu_node};
#[allow(unused_imports)]
use crate::ops::matrix::{gemm_step, matmul_step, trilu_step};
use crate::ops::normalize::try_layer_normalization_node;
#[allow(unused_imports)]
use crate::ops::normalize::layer_norm_step;
use crate::ops::pieces::{try_concat_node, try_slice_node, try_split_node};
#[allow(unused_imports)]
use crate::ops::pieces::{
    concat_step, lemma_split_keeps_known, lemma_split_keeps_names, lemma_split_knows_tensors,
    slice_step, split_axis, split_sizes, split_step,
};
use crate::ops::select::{try_expand_node, try_where_node};
#[allow(unused_imports)]
use crate::ops::select::{expand_step, where_step};
use crate::proto::{text_is, NodeDef};
use crate::state::{group_state, settle, Fault};
#[allow(unused_imports)]
use crate::state::{
    data, ending, env, lemma_numbers_are_named, lemma_numbers_keep_names, outcome, state, valid,
    values, Outcome, State,
};
use vstd::prelude::*;

verus! {

broadcast use {group_graph, group_state};

/// The operations that nodes are imported for.
#[derive(Clone, Copy, PartialEq, Eq, Debug, Structural)]
pub enum Kind {
    Gemm,
    Add,
    Mul,
    Div,
    Sqrt,
    Tanh,
    Softmax,
    Erf,
    Gelu,
    LayerNormalization,
    Constant,
    ConstantOfShape,
    Identity,
    Dropout,
    Equal,
    Where,
    Expand,
    Gather,
    Trilu,
    Cast,
    Transpose,
    MatMul,
    Mod,
    Shape,
    Reshape,
    Slice,
    Concat,
    Unsqueeze,
    Squeeze,
    Split,
}

/// The operation that the type of a node names, if nodes are imported for it.
pub open spec fn kind_of(op_type: Seq<char>) -> Option<Kind> {
    if op_type == "Gemm"@ {
        Some(Kind::Gemm)
    } else if op_type == "Add"@ {
        Some(Kind::Add)
    } else if op_type == "Mul"@ {
        Some(Kind::Mul)
    } else if op_type == "Div"@ {
        Some(Kind::Div)
    } else if op_type == "Sqrt"@ {
        Some(Kind::Sqrt)
    } else if op_type == "Tanh"@ {
        Some(Kind::Tanh)
    } else if op_type == "Softmax"@ {
        Some(Kind::Softmax)
    } else if op_type == "Erf"@ {
        Some(Kind::Erf)
    } else if op_type == "Gelu"@ {
        Some(Kind::Gelu)
    } else if op_type == "LayerNormalization"@ {
        Some(Kind::LayerNormalization)
    } else if op_type == "Constant"@ {
        Some(Kind::Constant)
    } else if op_type == "ConstantOfShape"@ {
        Some(Kind::ConstantOfShape)
    } else if op_type == "Identity"@ {
        Some(Kind::Identity)
    } else if op_type == "Dropout"@ {
        Some(Kind::Dropout)
    } else if op_type == "Equal"@ {
        Some(Kind::Equal)
    } else if op_type == "Where"@ {
        Some(Kind::Where)
    } else if op_type == "Expand"@ {
        Some(Kind::Expand)
    } else if op_type == "Gather"@ {
        Some(Kind::Gather)
    } else if op_type == "Trilu"@ {
        Some(Kind::Trilu)
    } else if op_type == "Cast"@ {
        Some(Kind::Cast)
    } else if op_type == "Transpose"@ {
        Some(Kind::Transpose)
    } else if op_type == "MatMul"@ {
        Some(Kind::MatMul)
    } else if op_type == "Mod"@ {
        Some(Kind::Mod)
    } else if op_type == "Shape"@ {
        Some(Kind::Shape)
    } else if op_type == "Reshape"@ {
        Some(Kind::Reshape)
    } else if op_type == "Slice"@ {
        Some(Kind::Slice)
    } else if op_type == "Concat"@ {
        Some(Kind::Concat)
    } else if op_type == "Unsqueeze"@ {
        Some(Kind::Unsqueeze)
    } else if op_type == "Squeeze"@ {
        Some(Kind::Squeeze)
    } else if op_type == "Split"@ {
        Some(Kind::Split)
    } else {
        None
    }
}

/// The operation that the type of a node names, if nodes are imported for it.
pub fn find_kind(op_type: &String) -> (kind: Option<Kind>)
    ensures
        kind == kind_of(op_type@),
{
    if text_is(op_type, "Gemm") {
        Some(Kind::Gemm)
    } else if text_is(op_type, "Add") {
        Some(Kind::Add)
    } else if text_is(op_type, "Mul") {
        Some(Kind::Mul)
    } else if text_is(op_type, "Div") {
        Some(Kind::Div)
    } else if text_is(op_type, "Sqrt") {
        Some(Kind::Sqrt)
    } else if text_is(op_type, "Tanh") {
        Some(Kind::Tanh)
    } else if text_is(op_type, "Softmax") {
        Some(Kind::Softmax)
    } else if text_is(op_type, "Erf") {
        Some(Kind::Erf)
    } else if text_is(op_type, "Gelu") {
        Some(Kind::Gelu)
    } else if text_is(op_type, "LayerNormalization") {
        Some(Kind::LayerNormalization)
    } else if text_is(op_type, "Constant") {
        Some(Kind::Constant)
    } else if text_is(op_type, "ConstantOfShape") {
        Some(Kind::ConstantOfShape)
    } else if text_is(op_type, "Identity") {
        Some(Kind::Identity)
    } else if text_is(op_type, "Dropout") {
        Some(Kind::Dropout)
    } else if text_is(op_type, "Equal") {
        Some(Kind::Equal)
    } else if text_is(op_type, "Where") {
        Some(Kind::Where)
    } else if text_is(op_type, "Expand") {
        Some(Kind::Expand)
    } else if text_is(op_type, "Gather") {
        Some(Kind::Gather)
    } else if text_is(op_type, "Trilu") {
        Some(Kind::Trilu)
    } else if text_is(op_type, "Cast") {
        Some(Kind::Cast)
    } else if text_is(op_type, "Transpose") {
        Some(Kind::Transpose)
    } else if text_is(op_type, "MatMul") {
        Some(Kind::MatMul)
    } else if text_is(op_type, "Mod") {
        Some(Kind::Mod)
    } else if text_is(op_type, "Shape") {
        Some(Kind::Shape)
    } else if text_is(op_type, "Reshape") {
        Some(Kind::Reshape)
    } else if text_is(op_type, "Slice") {
        Some(Kind::Slice)
    } else if text_is(op_type, "Concat") {
        Some(Kind::Concat)
    } else if text_is(op_type, "Unsqueeze") {
        Some(Kind::Unsqueeze)
    } else if text_is(op_type, "Squeeze") {
        Some(Kind::Squeeze)
    } else if text_is(op_type, "Split") {
        Some(Kind::Split)
    } else {
        None
    }
}

/// The text of a string in quotation marks, with escapes, as `{:?}` formats it.
pub uninterp spec fn quoted(text: Seq<char>) -> Seq<char>;

/// Calls `format!` with `{:?}` on a string slice. The contract only claims that
/// the text that comes back is the same for the same slice; what it is, is left
/// to the standard library.
#[verifier::external_body]
fn quote(text: &str) -> (r: String)
    ensures
        r@ == quoted(text@),
{
    format!("{:?}", text)
}

/// What the import of a node does, by its operation.
pub open spec fn kind_step<M: FloatMath>(
    math: M,
    kind: Kind,
    node: NodeDef,
    before: State,
    after: State,
    result: Outcome,
) -> bool {
    match kind {
        Kind::Gemm => gemm_step(node, before, after, result),
        Kind::Add => fold_step(
            math,
            node,
            "Add: missing input tensor '"@,
            Pairing::Add,
            before,
            after,
            result,
        ),
        Kind::Mul => fold_step(
            math,
            node,
            "Mul: missing input tensor '"@,
            Pairing::Mul,
            before,
            after,
            result,
        ),
        Kind::Div => div_step(math, node, before, after, result),
        Kind::Sqrt => unary_step(
            math,
            node,
            "Sqrt: missing input tensor '"@,
            Mapping::Sqrt,
            before,
            after,
            result,
        ),
        Kind::Tanh => tanh_step(math, node, before, after, result),
        Kind::Softmax => softmax_step(node, before, after, result),
        Kind::Erf => activation_step(
            node,
            "Erf: missing input tensor '"@,
            erf_numbers(),
            erf_formula(before.env[node.inp(0)], node.out(0)),
            before,
            after,
            result,
        ),
        Kind::Gelu => activation_step(
            node,
            "Gelu: missing input tensor '"@,
            gelu_numbers(),
            gelu_formula(before.env[node.inp(0)], node.out(0)),
            before,
            after,
            result,
        ),
        Kind::LayerNormalization => layer_norm_step(node, before, after, result),
        Kind::Constant => constant_step(node, before, after, result),
        Kind::ConstantOfShape => constant_of_shape_step(node, before, after, result),
        Kind::Identity => identity_step(node, before, after, result),
        Kind::Dropout => dropout_step(node, before, after, result),
        Kind::Equal => pair_step(
            math,
            node,
            "Equal: missing input tensor '"@,
            "Equal: missing input tensor '"@,
            Pairing::Equal,
            before,
            after,
            result,
        ),
        Kind::Where => where_step(node, before, after, result),
        Kind::Expand => expand_step(node, before, after, result),
        Kind::Gather => gather_step(node, before, after, result),
        Kind::Trilu => trilu_step(node, before, after, result),
        Kind::Cast => cast_step(node, before, after, result),
        Kind::Transpose => transpose_step(node, before, after, result),
        Kind::MatMul => matmul_step(node, before, after, result),
        Kind::Mod => pair_step(
            math,
            node,
            "Mod: missing input tensor '"@,
            "Mod: missing input tensor '"@,
            Pairing::Rem,
            before,
            after,
            result,
        ),
        Kind::Shape => shape_step(node, before, after, result),
        Kind::Reshape => reshape_step(node, before, after, result),
        Kind::Slice => slice_step(node, before, after, result),
        Kind::Concat => concat_step(node, before, after, result),
        Kind::Unsqueeze => unsqueeze_step(node, before, after, result),
        Kind::Squeeze => squeeze_step(node, before, after, result),
        Kind::Split => split_step(node, before, after, result),
    }
}

/// What the import of a node does. A node of an unknown type is not imported.
pub open spec fn node_step<M: FloatMath>(
    math: M,
    node: NodeDef,
    before: State,
    after: State,
    result: Outcome,
) -> bool {
    match kind_of(node.op_type@) {
        Some(kind) => kind_step(math, kind, node, before, after, result),
        None => {
            &&& result == Outcome::Fails(
                "Unsupported ONNX op type: "@ + quoted(node.op_type@),
            )
            &&& after == before
        },
    }
}

/// Imports a node of a known operation.
fn process_kind<M: FloatMath>(
    kind: Kind,
    node: &NodeDef,
    tensors: &mut NameMap<GraphTensor>,
    cx: &mut ComputeGraph,
    weight_data: &mut Vec<(String, Vec<u32>)>,
    known_values: &mut NameMap<Vec<u32>>,
    math: &M,
) -> (result: Result<(), Fault>)
    requires
        valid(*old(tensors), *old(cx)),
    ensures
        valid(*final(tensors), *final(cx)),
        grows(*old(cx), *final(cx)),
        kind_step(
            *math,
            kind,
            *node,
            state(*old(tensors), *old(cx), data(*old(weight_data)), values(*old(known_values))),
            state(
                *final(tensors),
                *final(cx),
                data(*final(weight_data)),
                values(*final(known_values)),
            ),
            outcome(result),
        ),
{
    match kind {
        Kind::Gemm => try_gemm_node(node, tensors, cx),
        Kind::Add => try_add_node(node, tensors, cx, weight_data, known_values, math),
        Kind::Mul => try_mul_node(node, tensors, cx, weight_data, known_values, math),
        Kind::Div => try_div_node(node, tensors, cx, weight_data, known_values, math),
        Kind::Sqrt => try_sqrt_node(node, tensors, cx, known_values, math),
        Kind::Tanh => try_tanh_node(node, tensors, cx, weight_data, known_values, math),
        Kind::Softmax => try_softmax_node(node, tensors, cx, weight_data),
        Kind::Erf => try_erf_node(node, tensors, cx, weight_data),
        Kind::Gelu => try_gelu_node(node, tensors, cx, weight_data),
        Kind::LayerNormalization => try_layer_normalization_node(node, tensors, cx, weight_data),
        Kind::Constant => try_constant(node, tensors, cx, weight_data, known_values),
        Kind::ConstantOfShape => try_constant_of_shape(node, tensors, cx, weight_data, known_values),
        Kind::Identity => try_identity(node, tensors, cx, known_values),
        Kind::Dropout => try_dropout_node(node, tensors, cx, known_values),
        Kind::Equal => try_equal_node(node, tensors, cx, known_values, math),
        Kind::Where => try_where_node(node, tensors, cx, weight_data, known_values),
        Kind::Expand => try_expand_node(node, tensors, cx, known_values),
        Kind::Gather => try_gather_node(node, tensors, cx, weight_data, known_values),
        Kind::Trilu => try_trilu_node(node, tensors, cx, weight_data, known_values),
        Kind::Cast => try_cast_node(node, tensors, cx, known_values),
        Kind::Transpose => try_transpose_node(node, tensors, cx),
        Kind::MatMul => try_matmul_node(node, tensors, cx),
        Kind::Mod => try_mod_node(node, tensors, cx, known_values, math),
        Kind::Shape => try_shape_node(node, tensors, cx, weight_data, known_values),
        Kind::Reshape => try_reshape_node(node, tensors, cx, known_values),
        Kind::Slice => try_slice_node(node, tensors, cx, weight_data, known_values),
        Kind::Concat => try_concat_node(node, tensors, cx, weight_data, known_values),
        Kind::Unsqueeze => try_unsqueeze_node(node, tensors, cx, known_values),
        Kind::Squeeze => try_squeeze_node(node, tensors, cx, known_values),
        Kind::Split => try_split_node(node, tensors, cx, weight_data, known_values),
    }
}

/// Imports a node.
fn process_node<M: FloatMath>(
    node: &NodeDef,
    tensors: &mut NameMap<GraphTensor>,
    cx: &mut ComputeGraph,
    weight_data: &mut Vec<(String, Vec<u32>)>,
    known_values: &mut NameMap<Vec<u32>>,
    math: &M,
) -> (result: Result<(), Fault>)
    requires
        valid(*old(tensors), *old(cx)),
    ensures
        valid(*final(tensors), *final(cx)),
        grows(*old(cx), *final(cx)),
        node_step(
            *math,
            *node,
            state(*old(tensors), *old(cx), data(*old(weight_data)), values(*old(known_values))),
            state(
                *final(tensors),
                *final(cx),
                data(*final(weight_data)),
                values(*final(known_values)),
            ),
            outcome(result),
        ),
{
    match find_kind(&node.op_type) {
        Some(kind) => process_kind(kind, node, tensors, cx, weight_data, known_values, math),
        None => {
            let quotation = quote(node.op_type.as_str());
            let message = join("Unsupported ONNX op type: ", quotation.as_str(), "");
            proof {
                reveal_strlit("");
                assert(message@ =~= "Unsupported ONNX op type: "@ + quoted(node.op_type@));
            }
            Err(Fault::Error(message))
        },
    }
}

/// Whether `trace` is what is known before each of the nodes that are imported,
/// one after the other, up to the first one that is not, and after the last of
/// them.
pub open spec fn traced<M: FloatMath>(
    math: M,
    nodes: Seq<NodeDef>,
    trace: Seq<State>,
    before: State,
    after: State,
    result: Outcome,
) -> bool {
    &&& 1 <= trace.len() <= nodes.len() + 1
    &&& trace[0] == before
    &&& forall|i: int|
        #![trigger nodes[i]]
        0 <= i < trace.len() - 1 ==> node_step(
            math,
            nodes[i],
            trace[i],
            trace[i + 1],
            Outcome::Done,
        )
    &&& if trace.len() == nodes.len() + 1 {
        result is Done && after == trace.last()
    } else {
        &&& !(result is Done)
        &&& node_step(math, nodes[trace.len() - 1], trace.last(), after, result)
    }
}

/// What the import of nodes does, one after the other, up to the first one that
/// is not imported.
pub open spec fn nodes_step<M: FloatMath>(
    math: M,
    nodes: Seq<NodeDef>,
    before: State,
    after: State,
    result: Outcome,
) -> bool {
    exists|trace: Seq<State>| #[trigger] traced(math, nodes, trace, before, after, result)
}

/// Whether no node is refused when nodes are imported, one after the other.
pub open spec fn admits_nodes<M: FloatMath>(math: M, nodes: Seq<NodeDef>, before: State) -> bool {
    forall|after: State, result: Outcome| #[trigger]
        nodes_step(math, nodes, before, after, result) ==> !(result is Rejects)
}

/// Imports nodes that their operations admit, one after the other, up to the first
/// one that fails.
pub fn process_onnx_nodes<M: FloatMath>(
    nodes: &Vec<NodeDef>,
    tensors: &mut NameMap<GraphTensor>,
    cx: &mut ComputeGraph,
    weight_data: &mut Vec<(String, Vec<u32>)>,
    known_values: &mut NameMap<Vec<u32>>,
    math: &M,
) -> (result: Result<(), String>)
    requires
        valid(*old(tensors), *old(cx)),
        admits_nodes(
            *math,
            nodes@,
            state(*old(tensors), *old(cx), data(*old(weight_data)), values(*old(known_values))),
        ),
    ensures
        valid(*final(tensors), *final(cx)),
        grows(*old(cx), *final(cx)),
        nodes_step(
            *math,
            nodes@,
            state(*old(tensors), *old(cx), data(*old(weight_data)), values(*old(known_values))),
            state(
                *final(tensors),
                *final(cx),
                data(*final(weight_data)),
                values(*final(known_values)),
            ),
            ending(result),
        ),
{
    settle(try_process_onnx_nodes(nodes, tensors, cx, weight_data, known_values, math))
}

/// Imports nodes, one after the other, up to the first one that fails or that its
/// operation does not admit.
pub fn try_process_onnx_nodes<M: FloatMath>(
    nodes: &Vec<NodeDef>,
    tensors: &mut NameMap<GraphTensor>,
    cx: &mut ComputeGraph,
    weight_data: &mut Vec<(String, Vec<u32>)>,
    known_values: &mut NameMap<Vec<u32>>,
    math: &M,
) -> (result: Result<(), Fault>)
    requires
        valid(*old(tensors), *old(cx)),
    ensures
        valid(*final(tensors), *final(cx)),
        grows(*old(cx), *final(cx)),
        nodes_step(
            *math,
            nodes@,
            state(*old(tensors), *old(cx), data(*old(weight_data)), values(*old(known_values))),
            state(
                *final(tensors),
                *final(cx),
                data(*final(weight_data)),
                values(*final(known_values)),
            ),
            outcome(result),
        ),
{
    let ghost before = state(*tensors, *cx, data(*weight_data), values(*known_values));
    let ghost mut trace = seq![before];
    let mut i: usize = 0;
    while i < nodes.len()
        invariant
            i <= nodes@.len(),
            valid(*tensors, *cx),
            grows(*old(cx), *cx),
            before == state(
                *old(tensors),
                *old(cx),
                data(*old(weight_data)),
                values(*old(known_values)),
            ),
            trace.len() == i + 1,
            trace[0] == before,
            trace.last() == state(*tensors, *cx, data(*weight_data), values(*known_values)),
            forall|k: int|
                #![trigger nodes@[k]]
                0 <= k < i ==> node_step(
                    *math,
                    nodes@[k],
                    trace[k],
                    trace[k + 1],
                    Outcome::Done,
                ),
        decreases nodes.len() - i,
    {
        let result = process_node(&nodes[i], tensors, cx, weight_data, known_values, math);
        let ghost after = state(*tensors, *cx, data(*weight_data), values(*known_values));
        match result {
            Ok(()) => {},
            Err(fault) => {
                assert(traced(
                    *math,
                    nodes@,
                    trace,
                    before,
                    after,
                    outcome(Err(fault)),
                ));
                return Err(fault);
            },
        }
        proof {
            trace = trace.push(after);
        }
        i = i + 1;
    }
    assert(traced(*math, nodes@, trace, before, trace.last(), Outcome::Done));
    Ok(())
}

/// Nodes can be imported in two goes.
pub proof fn law_import_in_two_goes<M: FloatMath>(
    math: M,
    first: Seq<NodeDef>,
    second: Seq<NodeDef>,
    before: State,
    middle: State,
    after: State,
    result: Outcome,
)
    requires
        nodes_step(math, first, before, middle, Outcome::Done),
        nodes_step(math, second, middle, after, result),
    ensures
        nodes_step(math, first + second, before, after, result),
{
    let one = choose|trace: Seq<State>| #[trigger]
        traced(math, first, trace, before, middle, Outcome::Done);
    let two = choose|trace: Seq<State>| #[trigger]
        traced(math, second, trace, middle, after, result);
    let both = one.drop_last() + two;
    let nodes = first + second;
    assert forall|i: int|
        #![trigger nodes[i]]
        0 <= i < both.len() - 1 implies node_step(
        math,
        nodes[i],
        both[i],
        both[i + 1],
        Outcome::Done,
    ) by {
        if i < first.len() {
            assert(nodes[i] == first[i]);
            assert(both[i] == one[i]);
            assert(both[i + 1] == one[i + 1]);
        } else {
            let k = i - first.len();
            assert(nodes[i] == second[k]);
            assert(both[i] == two[k]);
            assert(both[i + 1] == two[k + 1]);
        }
    }
    assert(traced(math, nodes, both, before, after, result));
}

/// The import of a node takes no name away, whether it succeeds or fails.
pub proof fn law_node_keeps_names<M: FloatMath>(
    math: M,
    node: NodeDef,
    before: State,
    after: State,
    result: Outcome,
    name: Seq<char>,
)
    requires
        node_step(math, node, before, after, result),
        !(result is Rejects),
        before.tensors.contains_key(name),
    ensures
        after.tensors.contains_key(name),
{
}

proof fn lemma_trace_keeps_names<M: FloatMath>(
    math: M,
    nodes: Seq<NodeDef>,
    trace: Seq<State>,
    before: State,
    after: State,
    result: Outcome,
    name: Seq<char>,
    n: int,
)
    requires
        traced(math, nodes, trace, before, after, result),
        before.tensors.contains_key(name),
        0 <= n < trace.len(),
    ensures
        trace[n].tensors.contains_key(name),
    decreases n,
{
    if n > 0 {
        lemma_trace_keeps_names(math, nodes, trace, before, after, result, name, n - 1);
        let node = nodes[n - 1];
        assert(trace[n - 1 + 1] == trace[n]);
        law_node_keeps_names(math, node, trace[n - 1], trace[n], Outcome::Done, name);
    }
}

/// The import of nodes takes no name away, whether it succeeds or fails.
pub proof fn law_import_keeps_names<M: FloatMath>(
    math: M,
    nodes: Seq<NodeDef>,
    before: State,
    after: State,
    result: Outcome,
    name: Seq<char>,
)
    requires
        nodes_step(math, nodes, before, after, result),
        !(result is Rejects),
        before.tensors.contains_key(name),
    ensures
        after.tensors.contains_key(name),
{
    let trace = choose|trace: Seq<State>| #[trigger]
        traced(math, nodes, trace, before, after, result);
    let n = trace.len() - 1;
    lemma_trace_keeps_names(math, nodes, trace, before, after, result, name, n);
    if !(result is Done) {
        law_node_keeps_names(math, nodes[n], trace[n], after, result, name);
    }
}

/// The import of a node only adds to the data of the named tensors, whether it
/// succeeds or fails.
pub proof fn law_node_keeps_data<M: FloatMath>(
    math: M,
    node: NodeDef,
    before: State,
    after: State,
    result: Outcome,
)
    requires
        node_step(math, node, before, after, result),
        !(result is Rejects),
    ensures
        before.weights.is_prefix_of(after.weights),
{
    assert(before.weights.is_prefix_of(after.weights));
}

/// Whether all names with known values are those of tensors.
pub open spec fn known_are_named(s: State) -> bool {
    forall|name: Seq<char>| #[trigger]
        s.known.contains_key(name) ==> s.env.contains_key(name)
}

/// The import of a node makes values known only of tensors.
pub proof fn law_node_knows_tensors<M: FloatMath>(
    math: M,
    node: NodeDef,
    before: State,
    after: State,
    result: Outcome,
)
    requires
        node_step(math, node, before, after, result),
        !(result is Rejects),
        known_are_named(before),
    ensures
        known_are_named(after),
{
    broadcast use lemma_numbers_keep_names;

    assert forall|name: Seq<char>| #[trigger] after.known.contains_key(name) implies after.env.contains_key(
        name,
    ) by {
        if kind_of(node.op_type@) == Some(Kind::Split) && result is Done {
            let sizes = split_sizes(node, before);
            let axis = split_axis(node, before);
            lemma_split_knows_tensors(node, before, axis, sizes, sizes.len(), name);
        }
    }
}

/// The import of no nodes is done and changes nothing.
pub proof fn law_import_of_no_nodes<M: FloatMath>(
    math: M,
    before: State,
    after: State,
    result: Outcome,
)
    requires
        nodes_step(math, Seq::empty(), before, after, result),
    ensures
        result is Done,
        after == before,
{
}

/// How the import of some nodes and others behind them ends is how that of the
/// first ends, if it is not done, and else how that of the others ends after it.
pub proof fn law_import_is_that_of_its_parts<M: FloatMath>(
    math: M,
    first: Seq<NodeDef>,
    second: Seq<NodeDef>,
    before: State,
    after: State,
    result: Outcome,
)
    requires
        nodes_step(math, first + second, before, after, result),
    ensures
        (!(result is Done) && nodes_step(math, first, before, after, result)) || exists|
            middle: State,
        |
            {
                &&& #[trigger] nodes_step(math, first, before, middle, Outcome::Done)
                &&& nodes_step(math, second, middle, after, result)
            },
{
    let nodes = first + second;
    let trace = choose|trace: Seq<State>| #[trigger]
        traced(math, nodes, trace, before, after, result);
    let n = first.len() as int;
    assert forall|i: int| 0 <= i < n implies #[trigger] first[i] == nodes[i] by {}
    if trace.len() <= n {
        assert(first[trace.len() - 1] == nodes[trace.len() - 1]);
        assert forall|i: int|
            #![trigger first[i]]
            0 <= i < trace.len() - 1 implies node_step(
            math,
            first[i],
            trace[i],
            trace[i + 1],
            Outcome::Done,
        ) by {
            assert(first[i] == nodes[i]);
        }
        assert(traced(math, first, trace, before, after, result));
    } else {
        let middle = trace[n];
        let one = trace.subrange(0, n + 1);
        let two = trace.subrange(n, trace.len() as int);
        assert forall|i: int|
            #![trigger first[i]]
            0 <= i < one.len() - 1 implies node_step(
            math,
            first[i],
            one[i],
            one[i + 1],
            Outcome::Done,
        ) by {
            assert(first[i] == nodes[i]);
        }
        assert(traced(math, first, one, before, middle, Outcome::Done));
        assert forall|i: int|
            #![trigger second[i]]
            0 <= i < two.len() - 1 implies node_step(
            math,
            second[i],
            two[i],
            two[i + 1],
            Outcome::Done,
        ) by {
            assert(second[i] == nodes[n + i]);
            assert(two[i + 1] == trace[n + i + 1]);
        }
        if trace.len() < nodes.len() + 1 {
            assert(second[two.len() - 1] == nodes[trace.len() - 1]);
        }
        assert(traced(math, second, two, middle, after, result));
        assert(nodes_step(math, first, before, middle, Outcome::Done));
    }
}

/// If none of some nodes is refused, none of the first ones is, and none of the
/// others after them.
pub proof fn law_parts_are_admitted<M: FloatMath>(
    math: M,
    first: Seq<NodeDef>,
    second: Seq<NodeDef>,
    before: State,
)
    requires
        admits_nodes(math, first + second, before),
    ensures
        admits_nodes(math, first, before),
        forall|middle: State| #[trigger]
            nodes_step(math, first, before, middle, Outcome::Done) ==> admits_nodes(
                math,
                second,
                middle,
            ),
{
    assert forall|after: State, result: Outcome| #[trigger]
        nodes_step(math, first, before, after, result) implies !(result is Rejects) by {
        if result is Rejects {
            law_import_stops_at_a_failure(math, first, second, before, after, result);
        }
    }
    assert forall|middle: State| #[trigger]
        nodes_step(math, first, before, middle, Outcome::Done) implies admits_nodes(
        math,
        second,
        middle,
    ) by {
        assert forall|after: State, result: Outcome| #[trigger]
            nodes_step(math, second, middle, after, result) implies !(result is Rejects) by {
            law_import_in_two_goes(math, first, second, before, middle, after, result);
        }
    }
}

/// Whether all data is that of named tensors.
pub open spec fn data_are_named(s: State) -> bool {
    forall|i: int| 0 <= i < s.weights.len() ==> s.env.contains_key((#[trigger] s.weights[i]).0)
}

/// The import of a node adds data only of named tensors.
pub proof fn law_node_names_data<M: FloatMath>(
    math: M,
    node: NodeDef,
    before: State,
    after: State,
    result: Outcome,
)
    requires
        node_step(math, node, before, after, result),
        !(result is Rejects),
        data_are_named(before),
    ensures
        data_are_named(after),
{
    broadcast use {lemma_numbers_keep_names, lemma_numbers_are_named};

    assert forall|name: Seq<char>| #[trigger] before.env.contains_key(
        name,
    ) implies after.env.contains_key(name) by {
        if kind_of(node.op_type@) == Some(Kind::Split) && result is Done {
            let sizes = split_sizes(node, before);
            let axis = split_axis(node, before);
            lemma_split_keeps_names(node, before, axis, sizes, sizes.len(), name);
        }
    }
    assert forall|i: int| 0 <= i < after.weights.len() implies after.env.contains_key(
        (#[trigger] after.weights[i]).0,
    ) by {
        if i < before.weights.len() {
            law_node_keeps_data(math, node, before, after, result);
            assert(after.weights[i] == before.weights[i]);
            assert(before.env.contains_key(before.weights[i].0));
        }
    }
}

/// What is known of a name stays known when a node is imported.
pub proof fn law_node_keeps_known<M: FloatMath>(
    math: M,
    node: NodeDef,
    before: State,
    after: State,
    result: Outcome,
)
    requires
        node_step(math, node, before, after, result),
        !(result is Rejects),
    ensures
        forall|name: Seq<char>| #[trigger]
            before.known.contains_key(name) ==> after.known.contains_key(name),
{
    assert forall|name: Seq<char>| #[trigger] before.known.contains_key(
        name,
    ) implies after.known.contains_key(name) by {
        if kind_of(node.op_type@) == Some(Kind::Split) && result is Done {
            let sizes = split_sizes(node, before);
            lemma_split_keeps_known(node, before, sizes, sizes.len(), name);
        }
    }
}

proof fn lemma_trace_keeps<M: FloatMath>(
    math: M,
    nodes: Seq<NodeDef>,
    trace: Seq<State>,
    before: State,
    after: State,
    result: Outcome,
    n: int,
)
    requires
        traced(math, nodes, trace, before, after, result),
        0 <= n < trace.len(),
    ensures
        before.weights.is_prefix_of(trace[n].weights),
        known_are_named(before) ==> known_are_named(trace[n]),
        data_are_named(before) ==> data_are_named(trace[n]),
        forall|name: Seq<char>| #[trigger]
            before.known.contains_key(name) ==> trace[n].known.contains_key(name),
    decreases n,
{
    if n > 0 {
        lemma_trace_keeps(math, nodes, trace, before, after, result, n - 1);
        let node = nodes[n - 1];
        assert(trace[n - 1 + 1] == trace[n]);
        law_node_keeps_data(math, node, trace[n - 1], trace[n], Outcome::Done);
        if known_are_named(before) {
            law_node_knows_tensors(math, node, trace[n - 1], trace[n], Outcome::Done);
        }
        law_node_keeps_known(math, node, trace[n - 1], trace[n], Outcome::Done);
        if data_are_named(before) {
            law_node_names_data(math, node, trace[n - 1], trace[n], Outcome::Done);
        }
    }
}

/// The import of nodes only adds to the data of the named tensors, makes values
/// known only of tensors, adds data only of tensors, and what is known of a name
/// stays known, whether it succeeds or fails.
pub proof fn law_import_keeps_data<M: FloatMath>(
    math: M,
    nodes: Seq<NodeDef>,
    before: State,
    after: State,
    result: Outcome,
)
    requires
        nodes_step(math, nodes, before, after, result),
        !(result is Rejects),
    ensures
        before.weights.is_prefix_of(after.weights),
        known_are_named(before) ==> known_are_named(after),
        data_are_named(before) ==> data_are_named(after),
        forall|name: Seq<char>| #[trigger]
            before.known.contains_key(name) ==> after.known.contains_key(name),
{
    let trace = choose|trace: Seq<State>| #[trigger]
        traced(math, nodes, trace, before, after, result);
    let n = trace.len() - 1;
    lemma_trace_keeps(math, nodes, trace, before, after, result, n);
    if !(result is Done) {
        law_node_keeps_data(math, nodes[n], trace[n], after, result);
        if known_are_named(before) {
            law_node_knows_tensors(math, nodes[n], trace[n], after, result);
        }
        law_node_keeps_known(math, nodes[n], trace[n], after, result);
        if data_are_named(before) {
            law_node_names_data(math, nodes[n], trace[n], after, result);
        }
    }
}

/// Where nodes fail, or are refused, further nodes behind them change nothing: it
/// is how all of them end.
pub proof fn law_import_stops_at_a_failure<M: FloatMath>(
    math: M,
    first: Seq<NodeDef>,
    second: Seq<NodeDef>,
    before: State,
    after: State,
    result: Outcome,
)
    requires
        nodes_step(math, first, before, after, result),
        !(result is Done),
    ensures
        nodes_step(math, first + second, before, after, result),
{
    let trace = choose|trace: Seq<State>| #[trigger]
        traced(math, first, trace, before, after, result);
    let nodes = first + second;
    assert forall|i: int|
        #![trigger nodes[i]]
        0 <= i < trace.len() - 1 implies node_step(
        math,
        nodes[i],
        trace[i],
        trace[i + 1],
        Outcome::Done,
    ) by {
        assert(nodes[i] == first[i]);
    }
    assert(nodes[trace.len() - 1] == first[trace.len() - 1]);
    assert(traced(math, nodes, trace, before, after, result));
}

} // verus!

//! What the import of a node leaves as it was, and what a model lists.

#[allow(unused_imports)]
use crate::bits::FloatMath;
#[allow(unused_imports)]
use crate::graph::{asked, Handle, Tensor};
#[allow(unused_imports)]
use crate::laws::kinds::law_node_is_of_its_type;
#[allow(unused_imports)]
use crate::model::{
    completed, found_outputs, ids, imported, model_step, output_list, ModelFault, OnnxGraphResult,
};
#[allow(unused_imports)]
use crate::nodes::{kind_of, node_step, nodes_step, traced, Kind};
#[allow(unused_imports)]
use crate::ops::activation::{erf_numbers, gelu_numbers, softmax_numbers, tanh_numbers};
#[allow(unused_imports)]
use crate::ops::normalize::layer_norm_numbers;
#[allow(unused_imports)]
use crate::ops::pieces::{split_axis, split_env, split_known, split_sizes};
#[allow(unused_imports)]
use crate::proto::{shape_of, GraphDef, NodeDef};
#[allow(unused_imports)]
use crate::state::{with_numbers, Outcome, State};
use vstd::prelude::*;

verus! {

proof fn lemma_begins(base: Seq<char>, end: Seq<char>, name: Seq<char>)
    requires
        !base.is_prefix_of(name),
    ensures
        name != base + end,
{
    if name == base + end {
        assert(base.is_prefix_of(base + end)) by {
            assert((base + end).subrange(0, base.len() as int) =~= base);
        }
    }
}

proof fn lemma_numbers_leave(
    named: Map<Seq<char>, Tensor>,
    out: Seq<char>,
    numbers: Seq<(Seq<char>, u32)>,
    name: Seq<char>,
)
    requires
        !out.is_prefix_of(name),
    ensures
        with_numbers(named, out, numbers).contains_key(name) == named.contains_key(name),
        with_numbers(named, out, numbers)[name] == named[name],
    decreases numbers.len(),
{
    if numbers.len() > 0 {
        lemma_numbers_leave(named, out, numbers.drop_last(), name);
        lemma_begins(out, numbers.last().0, name);
    }
}

proof fn lemma_split_leaves(
    node: NodeDef,
    before: State,
    axis: int,
    parts: Seq<usize>,
    n: nat,
    name: Seq<char>,
)
    requires
        n <= node.output@.len(),
        forall|i: int| 0 <= i < node.output@.len() ==> name != #[trigger] node.out(i),
    ensures
        split_env(node, before, axis, parts, n).contains_key(name) == before.env.contains_key(name),
        split_env(node, before, axis, parts, n)[name] == before.env[name],
        split_known(node, before, parts, n).contains_key(name) == before.known.contains_key(name),
        split_known(node, before, parts, n)[name] == before.known[name],
    decreases n,
{
    if n > 0 {
        lemma_split_leaves(node, before, axis, parts, (n - 1) as nat, name);
        assert(name != node.out(n - 1));
    }
}

/// The import of a node that succeeds leaves all tensors as they were, and what is known
/// of them, but for those of its outputs, of names that begin with that of its first
/// output, and for Div and Gemm nodes of names that begin with that of the second input.
pub proof fn law_other_tensors_stay<M: FloatMath>(
    math: M,
    node: NodeDef,
    before: State,
    after: State,
    name: Seq<char>,
)
    requires
        node_step(math, node, before, after, Outcome::Done),
        forall|i: int| 0 <= i < node.output@.len() ==> name != #[trigger] node.out(i),
        !node.out(0).is_prefix_of(name),
        node.op_type@ == "Div"@ || node.op_type@ == "Gemm"@ ==> !node.inp(1).is_prefix_of(name),
    ensures
        after.env.contains_key(name) == before.env.contains_key(name),
        after.env[name] == before.env[name],
        after.known.contains_key(name) == before.known.contains_key(name),
        after.known[name] == before.known[name],
{
    let out = node.out(0);
    assert(name != out) by {
        assert(out.is_prefix_of(out)) by {
            assert(out.subrange(0, out.len() as int) =~= out);
        }
    }
    match kind_of(node.op_type@)->0 {
        Kind::Tanh => lemma_numbers_leave(before.env, out, tanh_numbers(), name),
        Kind::Softmax => lemma_numbers_leave(before.env, out, softmax_numbers(), name),
        Kind::Erf => lemma_numbers_leave(before.env, out, erf_numbers(), name),
        Kind::Gelu => lemma_numbers_leave(before.env, out, gelu_numbers(), name),
        Kind::LayerNormalization => {
            lemma_numbers_leave(before.env, out, layer_norm_numbers(node), name)
        },
        Kind::Div => {
            assert(node.op_type@ == "Div"@);
            lemma_begins(node.inp(1), "_recip"@, name);
        },
        Kind::Gemm => {
            assert(node.op_type@ == "Gemm"@);
            lemma_begins(node.inp(1), "_kn"@, name);
        },
        Kind::Where => {
            lemma_begins(out, "_x_clamped"@, name);
            lemma_begins(out, "_y_clamped"@, name);
        },
        Kind::Split => {
            let parts = split_sizes(node, before);
            let axis = split_axis(node, before);
            lemma_split_leaves(node, before, axis, parts, parts.len(), name);
        },
        _ => {},
    }
}

/// Nodes whose output is always computed when the graph runs make nothing known; and
/// the others do so only of what is known: of both inputs, of all three, or of the
/// first one.
pub proof fn law_known_comes_from_known<M: FloatMath>(
    math: M,
    node: NodeDef,
    before: State,
    after: State,
)
    requires
        node_step(math, node, before, after, Outcome::Done),
    ensures
        ({
            let t = node.op_type@;
            let first = before.known.contains_key(node.inp(0));
            let second = before.known.contains_key(node.inp(1));
            let third = before.known.contains_key(node.inp(2));
            &&& t == "Gemm"@ || t == "MatMul"@ || t == "Softmax"@ || t == "Erf"@ || t == "Gelu"@
                || t == "LayerNormalization"@ || t == "Transpose"@ ==> after.known == before.known
            &&& (t == "Add"@ || t == "Mul"@ || t == "Div"@ || t == "Equal"@ || t == "Mod"@ || t
                == "Gather"@) && !(first && second) ==> after.known == before.known
            &&& t == "Where"@ && !(first && second && third) ==> after.known == before.known
            &&& (t == "Sqrt"@ || t == "Tanh"@ || t == "Identity"@ || t == "Dropout"@ || t
                == "Expand"@ || t == "Trilu"@ || t == "Cast"@ || t == "Reshape"@ || t
                == "Unsqueeze"@ || t == "Squeeze"@ || t == "Slice"@) && !first ==> after.known
                == before.known
        }),
{
    law_node_is_of_its_type(math, node, before, after, Outcome::Done);
}

/// The import of one node is that of the node.
pub proof fn law_import_of_one_node<M: FloatMath>(
    math: M,
    node: NodeDef,
    before: State,
    after: State,
    result: Outcome,
)
    requires
        nodes_step(math, seq![node], before, after, result),
    ensures
        node_step(math, node, before, after, result),
{
    let nodes = seq![node];
    let trace = choose|trace: Seq<State>| #[trigger]
        traced(math, nodes, trace, before, after, result);
    assert(nodes[0] == node);
    if trace.len() == 2 {
        assert(node_step(math, nodes[0], trace[0], trace[1], Outcome::Done));
        assert(result == Outcome::Done);
    }
}

/// An imported model asks, for each output that it lists, for the result of the node that
/// it has under that name, and lists the outputs of the model in their order, with their
/// sizes, as far as there are tensors for them.
pub proof fn law_results_are_those_of_the_outputs<M: FloatMath>(
    math: M,
    graph: GraphDef,
    stored: Seq<Option<Vec<u8>>>,
    cuda: bool,
    r: OnnxGraphResult,
    i: int,
)
    requires
        model_step(math, graph, stored, cuda, Ok(r)),
        0 <= i < r.output_names@.len(),
    ensures
        r.runtime.cuda == cuda,
        r.output_names@.len() == r.output_shapes@.len(),
        r.context.outputs@.len() == r.output_names@.len(),
        r.tensor_ids@.contains_key(r.output_names@[i]@),
        r.context.outputs@[i]@.id == r.tensor_ids@[r.output_names@[i]@],
        exists|j: int|
            0 <= j < graph.output@.len() && (#[trigger] graph.output@[j]).name@
                == r.output_names@[i]@ && shape_of(graph.output@[j]) == r.output_shapes@[i]@,
{
    let result: Result<OnnxGraphResult, ModelFault> = Ok(r);
    let (begin, end, names, nodes) = choose|
        begin: State,
        end: State,
        names: Seq<Seq<char>>,
        nodes: Outcome,
    | #[trigger]
        imported(math, graph, stored, cuda, begin, end, names, nodes, result);
    assert(nodes is Done);
    let found = found_outputs(graph, end.tensors, graph.output@.len());
    let list = output_list(r.output_names@, r.output_shapes@);
    assert(list == found);
    assert(list[i] == (r.output_names@[i]@, r.output_shapes@[i]@));
    let outputs = asked(r.context.outputs@);
    assert(completed(graph, stored, cuda, names, end, result));
    assert(outputs == Seq::new(found.len(), |k: int| end.tensors[found[k].0]));
    assert(outputs.len() == r.context.outputs@.len());
    assert(list.len() == r.output_names@.len());
    assert(outputs[i] == r.context.outputs@[i]@);
    assert(outputs[i] == end.tensors[found[i].0]);
    lemma_found_output(graph, end.tensors, graph.output@.len(), i);
    assert(end.tensors.contains_key(found[i].0));
    assert(ids(end.tensors)[found[i].0] == end.tensors[found[i].0].id as usize);
}

proof fn lemma_found_output(graph: GraphDef, tensors: Map<Seq<char>, Handle>, n: nat, i: int)
    requires
        n <= graph.output@.len(),
        0 <= i < found_outputs(graph, tensors, n).len(),
    ensures
        tensors.contains_key(found_outputs(graph, tensors, n)[i].0),
        exists|j: int|
            0 <= j < n && (#[trigger] graph.output@[j]).name@ == found_outputs(
                graph,
                tensors,
                n,
            )[i].0 && shape_of(graph.output@[j]) == found_outputs(graph, tensors, n)[i].1,
    decreases n,
{
    if n > 0 {
        let before = found_outputs(graph, tensors, (n - 1) as nat);
        if i < before.len() {
            lemma_found_output(graph, tensors, (n - 1) as nat, i);
        } else {
            assert(graph.output@[n - 1].name@ == found_outputs(graph, tensors, n)[i].0);
        }
    }
}

} // verus!

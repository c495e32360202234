//! Products of matrices, and their triangles.

use crate::bits::{to_i32, ONE, ZERO};
#[allow(unused_imports)]
use crate::bits::as_i32;
use crate::compose::fill;
#[allow(unused_imports)]
use crate::compose::filled;
use crate::graph::{broadcast_to, group_graph, multiplies, same_dims, ComputeGraph, GraphTensor};
#[allow(unused_imports)]
use crate::graph::{can_multiply, grows, load, made, scalar, Operation, Tensor};
use crate::names::{join, NameMap};
use crate::ops::activation::{multiply, sum};
#[allow(unused_imports)]
use crate::ops::activation::{plus, times};
use crate::ops::constant::define;
#[allow(unused_imports)]
use crate::ops::constant::defined;
use crate::proto::{get_f32_attr, get_int_attr, NodeDef};
use crate::shape::{known_sizes, Dim};
#[allow(unused_imports)]
use crate::shape::{all_known, sizes_of};
use crate::state::{bind, fetch, group_state, recall, settle, Fault};
#[allow(unused_imports)]
use crate::state::{
    changed, data, ending, env, missing, outcome, state, valid, values, Outcome, State,
};
use vstd::arithmetic::div_mod::*;
use vstd::prelude::*;

verus! {

broadcast use {group_graph, group_state};

/// How the import of a MatMul node ends.
pub open spec fn matmul_outcome(node: NodeDef, before: State) -> Outcome {
    if node.input@.len() != 2 {
        Outcome::Rejects
    } else if !before.env.contains_key(node.inp(0)) {
        Outcome::Fails(missing("MatMul: missing input tensor '"@, node.inp(0)))
    } else if !before.env.contains_key(node.inp(1)) {
        Outcome::Fails(missing("MatMul: missing input tensor '"@, node.inp(1)))
    } else if !can_multiply(before.env[node.inp(0)].dims(), before.env[node.inp(1)].dims())
        || node.output@.len() == 0 {
        Outcome::Rejects
    } else {
        Outcome::Done
    }
}

/// What the import of a MatMul node does.
pub open spec fn matmul_step(node: NodeDef, before: State, after: State, result: Outcome) -> bool {
    &&& result == matmul_outcome(node, before)
    &&& result is Fails ==> after == before
    &&& result is Done ==> {
        &&& after.env == before.env.insert(
            node.out(0),
            before.env[node.inp(0)].matmul(before.env[node.inp(1)]),
        )
        &&& changed(before.tensors, after.tensors, set![node.out(0)])
        &&& after.weights == before.weights
        &&& after.known == before.known
    }
}

/// Imports a MatMul node: the product of two matrices, or of batches of them.
pub fn parse_matmul_node(
    node: &NodeDef,
    tensors: &mut NameMap<GraphTensor>,
    cx: &mut ComputeGraph,
) -> (result: Result<(), String>)
    requires
        valid(*old(tensors), *old(cx)),
        !(matmul_outcome(
                *node,
                state(*old(tensors), *old(cx), Seq::empty(), Map::empty()),
            ) is Rejects),
    ensures
        valid(*final(tensors), *final(cx)),
        grows(*old(cx), *final(cx)),
        matmul_step(
            *node,
            state(*old(tensors), *old(cx), Seq::empty(), Map::empty()),
            state(*final(tensors), *final(cx), Seq::empty(), Map::empty()),
            ending(result),
        ),
{
    settle(try_matmul_node(node, tensors, cx))
}

/// The import of the same nodes, and of those that the operation does not admit.
pub(crate) fn try_matmul_node(
    node: &NodeDef,
    tensors: &mut NameMap<GraphTensor>,
    cx: &mut ComputeGraph,
) -> (result: Result<(), Fault>)
    requires
        valid(*old(tensors), *old(cx)),
    ensures
        valid(*final(tensors), *final(cx)),
        grows(*old(cx), *final(cx)),
        matmul_step(
            *node,
            state(*old(tensors), *old(cx), Seq::empty(), Map::empty()),
            state(*final(tensors), *final(cx), Seq::empty(), Map::empty()),
            outcome(result),
        ),
{
    if node.input.len() != 2 {
        return Err(Fault::Rejected);
    }
    let a = match fetch(tensors, &node.input[0], "MatMul: missing input tensor '") {
        Ok(a) => a,
        Err(fault) => {
            return Err(fault);
        },
    };
    let b = match fetch(tensors, &node.input[1], "MatMul: missing input tensor '") {
        Ok(b) => b,
        Err(fault) => {
            return Err(fault);
        },
    };
    if !multiplies(a.dims(), b.dims()) || node.output.len() == 0 {
        return Err(Fault::Rejected);
    }
    let result = cx.matmul(&a, &b);
    bind(tensors, cx, node.output[0].as_str(), result);
    Ok(())
}

/// The name of a weight matrix with rows and columns exchanged.
pub open spec fn kn_name(name: Seq<char>) -> Seq<char> {
    name + "_kn"@
}

/// Whether a Gemm node exchanges the rows and columns of its second input.
pub open spec fn gemm_flips_weight(node: NodeDef) -> bool {
    node.int_attr("transB"@, 0) != 0
}

/// Whether a Gemm node exchanges the rows and columns of its first input.
pub open spec fn gemm_flips_input(node: NodeDef) -> bool {
    node.int_attr("transA"@, 0) != 0
}

/// The first input of a Gemm node, with rows and columns exchanged if it says
/// so.
pub open spec fn gemm_input(node: NodeDef, before: State) -> Tensor {
    if gemm_flips_input(node) {
        before.env[node.inp(0)].permuted(seq![1usize, 0usize])
    } else {
        before.env[node.inp(0)]
    }
}

/// The second input of a Gemm node. If rows and columns are to be exchanged,
/// that is a new named tensor, whose data is given in that order.
pub open spec fn gemm_weight(node: NodeDef, before: State) -> Tensor {
    let weight = before.env[node.inp(1)];
    if gemm_flips_weight(node) {
        load(kn_name(node.inp(1)), seq![weight.dims()[1], weight.dims()[0]])
    } else {
        weight
    }
}

/// The named tensors after the second input of a Gemm node got its new name.
pub open spec fn gemm_env(node: NodeDef, before: State) -> Map<Seq<char>, Tensor> {
    if gemm_flips_weight(node) {
        before.env.insert(kn_name(node.inp(1)), gemm_weight(node, before))
    } else {
        before.env
    }
}

/// The names that a Gemm node gives besides that of its output.
pub open spec fn gemm_names(node: NodeDef) -> Set<Seq<char>> {
    if gemm_flips_weight(node) {
        set![kn_name(node.inp(1))]
    } else {
        Set::empty()
    }
}

/// The tensor times a number; itself if the number is 1.
pub open spec fn scaled(x: Tensor, factor: u32) -> Tensor {
    if factor == ONE {
        x
    } else {
        times(x, filled(scalar(factor), x.dims()))
    }
}

/// The product in a Gemm node.
pub open spec fn gemm_product(node: NodeDef, before: State) -> Tensor {
    scaled(
        gemm_input(node, before).matmul(gemm_weight(node, before)),
        node.float_attr("alpha"@, ONE),
    )
}

/// What a Gemm node computes: `alpha * A * B + beta * C`, where `C` is a vector
/// that is added to each row.
pub open spec fn gemm_formula(node: NodeDef, before: State) -> Tensor {
    let result = gemm_product(node, before);
    if node.has_input(2) {
        let bias = gemm_env(node, before)[node.inp(2)];
        plus(result, scaled(bias.expanded(0, result.dims()[0]), node.float_attr("beta"@, ONE)))
    } else {
        result
    }
}

/// Whether the product in a Gemm node is defined.
pub open spec fn gemm_multiplies(node: NodeDef, before: State) -> bool {
    &&& gemm_flips_input(node) ==> before.env[node.inp(0)].dims().len() == 2
    &&& gemm_flips_weight(node) ==> before.env[node.inp(1)].dims().len() == 2
    &&& can_multiply(gemm_input(node, before).dims(), gemm_weight(node, before).dims())
}

/// How the import of a Gemm node ends.
pub open spec fn gemm_outcome(node: NodeDef, before: State) -> Outcome {
    let result = gemm_product(node, before);
    let named = gemm_env(node, before);
    if node.input@.len() < 2 {
        Outcome::Rejects
    } else if !before.env.contains_key(node.inp(0)) {
        Outcome::Fails(missing("Gemm: missing input tensor '"@, node.inp(0)))
    } else if !before.env.contains_key(node.inp(1)) {
        Outcome::Fails(missing("Gemm: missing weight tensor '"@, node.inp(1)))
    } else if !gemm_multiplies(node, before) {
        Outcome::Rejects
    } else if node.has_input(2) && !named.contains_key(node.inp(2)) {
        Outcome::Fails(missing("Gemm: missing bias tensor '"@, node.inp(2)))
    } else if node.has_input(2) && !(result.dims().len() == 2 && named[node.inp(2)].dims()
        == seq![result.dims()[1]]) {
        Outcome::Rejects
    } else if node.output@.len() == 0 {
        Outcome::Rejects
    } else {
        Outcome::Done
    }
}

/// What the import of a Gemm node does. If the bias is missing, the second
/// input has got its new name already.
pub open spec fn gemm_step(node: NodeDef, before: State, after: State, result: Outcome) -> bool {
    let named = gemm_env(node, before);
    &&& result == gemm_outcome(node, before)
    &&& result is Fails ==> if before.env.contains_key(node.inp(0)) && before.env.contains_key(
        node.inp(1),
    ) {
        &&& after.env == named
        &&& changed(before.tensors, after.tensors, gemm_names(node))
        &&& after.weights == before.weights
        &&& after.known == before.known
    } else {
        after == before
    }
    &&& result is Done ==> {
        &&& after.env == named.insert(node.out(0), gemm_formula(node, before))
        &&& changed(before.tensors, after.tensors, gemm_names(node).insert(node.out(0)))
        &&& after.weights == before.weights
        &&& after.known == before.known
    }
}

/// Adds the product with a number, unless that is 1.
fn scale(cx: &mut ComputeGraph, x: &GraphTensor, factor: u32) -> (r: GraphTensor)
    requires
        old(cx).holds(x@),
    ensures
        grows(*old(cx), *final(cx)),
        final(cx).holds(r@),
        final(cx).meaning(r@) == scaled(old(cx).meaning(x@), factor),
        r@.shape.dims == x@.shape.dims,
{
    if factor == ONE {
        return x.copy();
    }
    let number = cx.constant(factor);
    assert(cx.meaning(number@).shape == number@.shape);
    let spread = fill(&number, x.dims(), Ghost(*cx));
    assert(spread@.shape.dims =~= x@.shape.dims);
    multiply(cx, x, &spread)
}

/// Adds the product of two matrices and a number.
fn add_scaled_product(cx: &mut ComputeGraph, a: &GraphTensor, b: &GraphTensor, factor: u32) -> (r:
    GraphTensor)
    requires
        old(cx).holds(a@),
        old(cx).holds(b@),
        can_multiply(a@.shape.dims, b@.shape.dims),
    ensures
        grows(*old(cx), *final(cx)),
        final(cx).holds(r@),
        final(cx).meaning(r@) == scaled(
            old(cx).meaning(a@).matmul(old(cx).meaning(b@)),
            factor,
        ),
{
    let product = cx.matmul(a, b);
    scale(cx, &product, factor)
}

/// Adds a vector times a number to each row of a matrix, if it is as long as they
/// are.
fn add_bias(cx: &mut ComputeGraph, x: &GraphTensor, bias: &GraphTensor, factor: u32) -> (r: Option<
    GraphTensor,
>)
    requires
        old(cx).holds(x@),
        old(cx).holds(bias@),
    ensures
        grows(*old(cx), *final(cx)),
        match r {
            Some(t) => {
                &&& x@.shape.dims.len() == 2
                &&& bias@.shape.dims == seq![x@.shape.dims[1]]
                &&& final(cx).holds(t@)
                &&& final(cx).meaning(t@) == plus(
                    old(cx).meaning(x@),
                    scaled(old(cx).meaning(bias@).expanded(0, x@.shape.dims[0]), factor),
                )
            },
            None => !(x@.shape.dims.len() == 2 && bias@.shape.dims == seq![x@.shape.dims[1]]),
        },
{
    if x.dims().len() != 2 {
        return None;
    }
    let row: Vec<Dim> = vec![x.dims()[1]];
    assert(row@ =~= seq![x@.shape.dims[1]]);
    if !same_dims(bias.dims(), &row) {
        return None;
    }
    let rows = bias.expand_dim(0, x.dims()[0]);
    assert(rows@.shape.dims =~= x@.shape.dims);
    let shift = scale(cx, &rows, factor);
    Some(sum(cx, x, &shift))
}

/// The tensor with its two axes exchanged.
fn exchange(x: &GraphTensor) -> (r: GraphTensor)
    requires
        x@.shape.wf(),
        x@.shape.dims.len() == 2,
    ensures
        r@.id == x@.id,
        r@.shape == x@.shape.permuted(seq![1usize, 0usize]),
        r@.shape.wf(),
{
    let order: Vec<usize> = vec![1, 0];
    assert(order@ =~= seq![1usize, 0usize]);
    x.permute(&order)
}

/// Imports a Gemm node: the product of two matrices, times a number, plus a
/// vector that is added to each row, times a number. Rows and columns of either
/// matrix can be exchanged first.
pub fn parse_gemm_node(
    node: &NodeDef,
    tensors: &mut NameMap<GraphTensor>,
    cx: &mut ComputeGraph,
) -> (result: Result<(), String>)
    requires
        valid(*old(tensors), *old(cx)),
        !(gemm_outcome(
                *node,
                state(*old(tensors), *old(cx), Seq::empty(), Map::empty()),
            ) is Rejects),
    ensures
        valid(*final(tensors), *final(cx)),
        grows(*old(cx), *final(cx)),
        gemm_step(
            *node,
            state(*old(tensors), *old(cx), Seq::empty(), Map::empty()),
            state(*final(tensors), *final(cx), Seq::empty(), Map::empty()),
            ending(result),
        ),
{
    settle(try_gemm_node(node, tensors, cx))
}

/// The import of the same nodes, and of those that the operation does not admit.
pub(crate) fn try_gemm_node(
    node: &NodeDef,
    tensors: &mut NameMap<GraphTensor>,
    cx: &mut ComputeGraph,
) -> (result: Result<(), Fault>)
    requires
        valid(*old(tensors), *old(cx)),
    ensures
        valid(*final(tensors), *final(cx)),
        grows(*old(cx), *final(cx)),
        gemm_step(
            *node,
            state(*old(tensors), *old(cx), Seq::empty(), Map::empty()),
            state(*final(tensors), *final(cx), Seq::empty(), Map::empty()),
            outcome(result),
        ),
{
    if node.input.len() < 2 {
        return Err(Fault::Rejected);
    }
    let given = match fetch(tensors, &node.input[0], "Gemm: missing input tensor '") {
        Ok(given) => given,
        Err(fault) => {
            return Err(fault);
        },
    };
    let weight = match fetch(tensors, &node.input[1], "Gemm: missing weight tensor '") {
        Ok(weight) => weight,
        Err(fault) => {
            return Err(fault);
        },
    };
    let a = if get_int_attr(node, "transA", 0) != 0 {
        if given.dims().len() != 2 {
            return Err(Fault::Rejected);
        }
        exchange(&given)
    } else {
        given
    };
    let b = if get_int_attr(node, "transB", 0) != 0 {
        if weight.dims().len() != 2 {
            return Err(Fault::Rejected);
        }
        let name = join(node.input[1].as_str(), "_kn", "");
        proof {
            reveal_strlit("");
            assert(name@ =~= kn_name(node.inp(1)));
        }
        let dims: Vec<Dim> = vec![weight.dims()[1], weight.dims()[0]];
        assert(dims@ =~= seq![weight@.shape.dims[1], weight@.shape.dims[0]]);
        let flipped = cx.named_tensor(name.as_str(), dims);
        assert(cx.meaning(flipped@).shape == flipped@.shape);
        bind(tensors, cx, name.as_str(), flipped.copy());
        flipped
    } else {
        weight
    };
    if !multiplies(a.dims(), b.dims()) {
        return Err(Fault::Rejected);
    }
    let result = add_scaled_product(cx, &a, &b, get_f32_attr(node, "alpha", ONE));
    assert(cx.meaning(result@).shape == result@.shape);
    let output = if node.gives_input(2) {
        let bias = match fetch(tensors, &node.input[2], "Gemm: missing bias tensor '") {
            Ok(bias) => bias,
            Err(fault) => {
                return Err(fault);
            },
        };
        match add_bias(cx, &result, &bias, get_f32_attr(node, "beta", ONE)) {
            Some(shifted) => shifted,
            None => {
                return Err(Fault::Rejected);
            },
        }
    } else {
        result
    };
    if node.output.len() == 0 {
        return Err(Fault::Rejected);
    }
    bind(tensors, cx, node.output[0].as_str(), output);
    Ok(())
}

/// Whether a place lies in the upper or in the lower triangle of a matrix, both
/// of which end in the diagonal `k` places to the right of the main one.
pub open spec fn in_triangle(upper: bool, row: int, col: int, k: int) -> bool {
    if upper {
        col - row >= k
    } else {
        col - row <= k
    }
}

/// The elements of a list of matrices with 0 in place of those outside a
/// triangle, and of those that belong to no whole matrix.
pub open spec fn triangle_values(
    v: Seq<u32>,
    rows: usize,
    cols: usize,
    upper: bool,
    k: i32,
) -> Seq<u32> {
    let size = rows * cols;
    Seq::new(
        v.len(),
        |p: int|
            if p < (v.len() as int / size) * size && in_triangle(
                upper,
                (p % size) / (cols as int),
                (p % size) % (cols as int),
                k as int,
            ) {
                v[p]
            } else {
                ZERO
            },
    )
}

/// Whether a Trilu node keeps the upper triangle.
pub open spec fn trilu_upper(node: NodeDef) -> bool {
    node.int_attr("upper"@, 1) == 1
}

/// The diagonal that the triangle of a Trilu node ends in.
pub open spec fn trilu_diagonal(node: NodeDef, before: State) -> i32 {
    if node.has_input(1) {
        as_i32(before.known[node.inp(1)][0])
    } else {
        0
    }
}

/// How the import of a Trilu node ends.
pub open spec fn trilu_outcome(node: NodeDef, before: State) -> Outcome {
    let dims = before.env[node.inp(0)].dims();
    let rank = dims.len();
    if node.input@.len() == 0 {
        Outcome::Rejects
    } else if !before.env.contains_key(node.inp(0)) {
        Outcome::Fails(missing("Trilu: missing input tensor '"@, node.inp(0)))
    } else if node.has_input(1) && !before.known.contains_key(node.inp(1)) {
        Outcome::Fails("Trilu: k input '"@ + node.inp(1) + "' must be a known constant"@)
    } else if node.has_input(1) && before.known[node.inp(1)].len() == 0 {
        Outcome::Rejects
    } else if rank < 2 {
        Outcome::Rejects
    } else if dims[rank - 2] is Dynamic {
        Outcome::Fails("Trilu: second-to-last dimension must be concrete"@)
    } else if dims[rank - 1] is Dynamic {
        Outcome::Fails("Trilu: last dimension must be concrete"@)
    } else if node.output@.len() == 0 || !all_known(dims) {
        Outcome::Rejects
    } else if before.known.contains_key(node.inp(0)) {
        let rows = dims[rank - 2]->Known_0;
        let cols = dims[rank - 1]->Known_0;
        if rows > i32::MAX || cols > i32::MAX || rows * cols > usize::MAX || rows * cols == 0 {
            Outcome::Rejects
        } else {
            Outcome::Done
        }
    } else if dims[rank - 2] != dims[rank - 1] {
        Outcome::Rejects
    } else {
        Outcome::Done
    }
}

/// The mask that is 1 in a triangle of a square matrix and 0 outside.
pub open spec fn triangle_mask(upper: bool, size: usize, k: i32) -> Tensor {
    made(
        Operation::Triangle(upper, size, k),
        Seq::empty(),
        seq![Dim::Known(size), Dim::Known(size)],
    )
}

/// What the import of a Trilu node does.
pub open spec fn trilu_step(node: NodeDef, before: State, after: State, result: Outcome) -> bool {
    let out = node.out(0);
    let x = before.env[node.inp(0)];
    let sizes = sizes_of(x.dims());
    let rank = sizes.len();
    let upper = trilu_upper(node);
    let k = trilu_diagonal(node, before);
    &&& result == trilu_outcome(node, before)
    &&& result is Fails ==> after == before
    &&& result is Done ==> if before.known.contains_key(node.inp(0)) {
        defined(
            out,
            sizes,
            triangle_values(
                before.known[node.inp(0)],
                sizes[rank - 2],
                sizes[rank - 1],
                upper,
                k,
            ),
            before,
            after,
        )
    } else {
        &&& after.env == before.env.insert(
            out,
            times(x, triangle_mask(upper, sizes[rank - 2], k).broadcast(sizes)),
        )
        &&& changed(before.tensors, after.tensors, set![out])
        &&& after.weights == before.weights
        &&& after.known == before.known
    }
}

/// The elements of a list of matrices with 0 in place of those outside a
/// triangle.
fn keep_triangle(v: &Vec<u32>, rows: usize, cols: usize, upper: bool, k: i32) -> (out: Vec<u32>)
    requires
        rows <= i32::MAX,
        cols <= i32::MAX,
        0 < rows * cols <= usize::MAX,
    ensures
        out@ == triangle_values(v@, rows, cols, upper, k),
{
    let size: usize = rows * cols;
    assert(cols > 0) by (nonlinear_arith)
        requires
            rows * cols > 0,
            rows >= 0,
            cols >= 0,
    ;
    proof {
        lemma_fundamental_div_mod(v@.len() as int, size as int);
        lemma_mod_bound(v@.len() as int, size as int);
        assert((v@.len() as int / size as int) * size == size * (v@.len() as int / size as int))
            by (nonlinear_arith);
    }
    let whole: usize = v.len() - v.len() % size;
    let mut out: Vec<u32> = Vec::new();
    let mut p: usize = 0;
    while p < v.len()
        invariant
            rows <= i32::MAX,
            0 < cols <= i32::MAX,
            size == rows * cols,
            size > 0,
            whole == (v@.len() as int / size as int) * size,
            p <= v@.len(),
            out@.len() == p,
            forall|i: int|
                0 <= i < p ==> #[trigger] out@[i] == triangle_values(v@, rows, cols, upper, k)[i],
        decreases v.len() - p,
    {
        let place: usize = p % size;
        proof {
            lemma_mod_bound(p as int, size as int);
            lemma_fundamental_div_mod(place as int, cols as int);
            lemma_mod_bound(place as int, cols as int);
            lemma_div_pos_is_pos(place as int, cols as int);
            assert(place as int / cols as int <= rows) by (nonlinear_arith)
                requires
                    place < rows * cols,
                    place == cols * (place as int / cols as int) + place as int % cols as int,
                    place as int % cols as int >= 0,
                    cols > 0,
            ;
        }
        let row: i64 = (place / cols) as i64;
        let col: i64 = (place % cols) as i64;
        let keep = if upper {
            col - row >= k as i64
        } else {
            col - row <= k as i64
        };
        if p < whole && keep {
            out.push(v[p]);
        } else {
            out.push(ZERO);
        }
        p = p + 1;
    }
    assert(out@ =~= triangle_values(v@, rows, cols, upper, k));
    out
}

/// Imports a Trilu node: the upper or lower triangle of a matrix, or of each
/// matrix of a batch, with 0 outside of it.
pub fn parse_trilu_node(
    node: &NodeDef,
    tensors: &mut NameMap<GraphTensor>,
    cx: &mut ComputeGraph,
    weight_data: &mut Vec<(String, Vec<u32>)>,
    known_values: &mut NameMap<Vec<u32>>,
) -> (result: Result<(), String>)
    requires
        valid(*old(tensors), *old(cx)),
        !(trilu_outcome(
                *node,
                state(*old(tensors), *old(cx), data(*old(weight_data)), values(*old(known_values))),
            ) is Rejects),
    ensures
        valid(*final(tensors), *final(cx)),
        grows(*old(cx), *final(cx)),
        trilu_step(
            *node,
            state(*old(tensors), *old(cx), data(*old(weight_data)), values(*old(known_values))),
            state(
                *final(tensors),
                *final(cx),
                data(*final(weight_data)),
                values(*final(known_values)),
            ),
            ending(result),
        ),
{
    settle(try_trilu_node(node, tensors, cx, weight_data, known_values))
}

/// The import of the same nodes, and of those that the operation does not admit.
pub(crate) fn try_trilu_node(
    node: &NodeDef,
    tensors: &mut NameMap<GraphTensor>,
    cx: &mut ComputeGraph,
    weight_data: &mut Vec<(String, Vec<u32>)>,
    known_values: &mut NameMap<Vec<u32>>,
) -> (result: Result<(), Fault>)
    requires
        valid(*old(tensors), *old(cx)),
    ensures
        valid(*final(tensors), *final(cx)),
        grows(*old(cx), *final(cx)),
        trilu_step(
            *node,
            state(*old(tensors), *old(cx), data(*old(weight_data)), values(*old(known_values))),
            state(
                *final(tensors),
                *final(cx),
                data(*final(weight_data)),
                values(*final(known_values)),
            ),
            outcome(result),
        ),
{
    if node.input.len() == 0 {
        return Err(Fault::Rejected);
    }
    let input = match fetch(tensors, &node.input[0], "Trilu: missing input tensor '") {
        Ok(input) => input,
        Err(fault) => {
            return Err(fault);
        },
    };
    let upper = get_int_attr(node, "upper", 1) == 1;
    let k: i32 = if node.gives_input(1) {
        match recall(known_values, &node.input[1]) {
            Some(v) => {
                if v.len() == 0 {
                    return Err(Fault::Rejected);
                }
                to_i32(v[0])
            },
            None => {
                return Err(
                    Fault::Error(
                        join(
                            "Trilu: k input '",
                            node.input[1].as_str(),
                            "' must be a known constant",
                        ),
                    ),
                );
            },
        }
    } else {
        0
    };
    let rank: usize = input.dims().len();
    if rank < 2 {
        return Err(Fault::Rejected);
    }
    let rows: usize = match input.dims()[rank - 2] {
        Dim::Known(rows) => rows,
        Dim::Dynamic => {
            return Err(
                Fault::Error(
                    String::from_str("Trilu: second-to-last dimension must be concrete"),
                ),
            );
        },
    };
    let cols: usize = match input.dims()[rank - 1] {
        Dim::Known(cols) => cols,
        Dim::Dynamic => {
            return Err(
                Fault::Error(String::from_str("Trilu: last dimension must be concrete")),
            );
        },
    };
    let sizes = match known_sizes(input.dims()) {
        Some(sizes) => sizes,
        None => {
            return Err(Fault::Rejected);
        },
    };
    if node.output.len() == 0 {
        return Err(Fault::Rejected);
    }
    let out = node.output[0].as_str();
    if let Some(v) = recall(known_values, &node.input[0]) {
        if rows > 0x7fff_ffff || cols > 0x7fff_ffff {
            return Err(Fault::Rejected);
        }
        match rows.checked_mul(cols) {
            Some(size) => {
                if size == 0 {
                    return Err(Fault::Rejected);
                }
            },
            None => {
                return Err(Fault::Rejected);
            },
        }
        let kept = keep_triangle(&v, rows, cols, upper, k);
        define(out, &sizes, kept, tensors, cx, weight_data, known_values);
        return Ok(());
    }
    if rows != cols {
        return Err(Fault::Rejected);
    }
    let mask = cx.triangle(upper, rows, k);
    assert(cx.meaning(mask@).shape == mask@.shape);
    let spread = broadcast_to(&mask, &sizes);
    let result = multiply(cx, &input, &spread);
    bind(tensors, cx, out, result);
    Ok(())
}

/// The upper triangle above a diagonal and the lower triangle below it make up
/// the matrices: each element is in one of them, and 0 in the other.
pub proof fn law_triangles_make_the_whole(
    v: Seq<u32>,
    rows: usize,
    cols: usize,
    k: i32,
    p: int,
)
    requires
        i32::MIN < k,
        rows * cols > 0,
        v.len() % ((rows * cols) as nat) == 0,
        0 <= p < v.len(),
    ensures
        ({
            let above = triangle_values(v, rows, cols, true, k)[p];
            let below = triangle_values(v, rows, cols, false, (k - 1) as i32)[p];
            (above == v[p] && below == ZERO) || (above == ZERO && below == v[p])
        }),
{
    let size = rows * cols;
    lemma_fundamental_div_mod(v.len() as int, size);
    assert((v.len() as int / size) * size == size * (v.len() as int / size)) by (nonlinear_arith);
}

} // verus!

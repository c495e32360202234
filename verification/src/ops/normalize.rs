//! Means, and the normalization of layers by them.

use crate::bits::NEG_ONE;
use crate::compose::lead;
#[allow(unused_imports)]
use crate::compose::led;
use crate::graph::{group_graph, names_axis, same_dims, ComputeGraph, GraphTensor, Unary};
#[allow(unused_imports)]
use crate::graph::{dims_without, grows, Handle, Tensor};
use crate::names::{join, NameMap};
use crate::ops::activation::{apply, multiply, spread_to, sum};
#[allow(unused_imports)]
use crate::ops::activation::{plus, spread, times};
use crate::ops::axes::{copy_numbers, count_axes, count_axis, range_of_axes, to_whole_numbers};
#[allow(unused_imports)]
use crate::ops::axes::{all_in_rank, axis_range, counted, counted_all, whole_numbers};
use crate::proto::{find_attr, get_f32_attr, get_int_attr, NodeDef};
use crate::shape::{known_sizes, Dim};
#[allow(unused_imports)]
use crate::shape::{all_known, known_dims, sizes_of, Shape};
use crate::state::{bind, fetch, group_state, name_numbers, recall, settle, Fault};
#[allow(unused_imports)]
use crate::state::{
    changed, data, ending, env, handles, missing, number, number_data, number_list, number_names,
    outcome, state, valid, values, with_numbers, Outcome, State,
};
use vstd::prelude::*;

verus! {

broadcast use {group_graph, group_state};

/// The bits of 0.00001, the number that is added to a variance if a node gives
/// none.
pub const EPSILON: u32 = 0x3727_c5ac;

/// The shape of a tensor that has lost the axes `axes` of `dims`, with those
/// from axis `from` on put back as repetitions.
pub open spec fn restored_from(shape: Shape, dims: Seq<Dim>, axes: Seq<usize>, from: int) -> Shape
    decreases dims.len() - from,
{
    if from < 0 || from >= dims.len() {
        shape
    } else if axes.contains(from as usize) {
        restored_from(shape.expanded(from, dims[from]), dims, axes, from + 1)
    } else {
        restored_from(shape, dims, axes, from + 1)
    }
}

/// The tensor with the axes `axes` of `dims`, which it has lost, put back as
/// repetitions.
pub open spec fn restored(t: Tensor, dims: Seq<Dim>, axes: Seq<usize>) -> Tensor {
    Tensor { shape: restored_from(t.shape, dims, axes, 0), ..t }
}

/// The dimensions from `from` on without those of the axes `axes`.
spec fn rest_without(dims: Seq<Dim>, axes: Seq<usize>, from: int) -> Seq<Dim>
    decreases dims.len() - from,
{
    if from < 0 || from >= dims.len() {
        Seq::empty()
    } else if axes.contains(from as usize) {
        rest_without(dims, axes, from + 1)
    } else {
        seq![dims[from]] + rest_without(dims, axes, from + 1)
    }
}

proof fn lemma_rest_without(dims: Seq<Dim>, axes: Seq<usize>, from: int)
    requires
        0 <= from <= dims.len(),
    ensures
        dims_without(dims, axes) == dims_without(dims.subrange(0, from), axes) + rest_without(
            dims,
            axes,
            from,
        ),
    decreases dims.len() - from,
{
    if from == dims.len() {
        assert(dims.subrange(0, from) =~= dims);
        assert(dims_without(dims, axes) + Seq::<Dim>::empty() =~= dims_without(dims, axes));
    } else {
        lemma_rest_without(dims, axes, from + 1);
        let next = dims.subrange(0, from + 1);
        assert(next.drop_last() =~= dims.subrange(0, from));
        if !axes.contains(from as usize) {
            assert(dims_without(dims.subrange(0, from), axes).push(dims[from]) + rest_without(
                dims,
                axes,
                from + 1,
            ) =~= dims_without(dims.subrange(0, from), axes) + rest_without(dims, axes, from));
        }
    }
}

/// Puts back lost axes as repetitions.
pub(crate) fn restore(t: &GraphTensor, dims: &Vec<Dim>, axes: &Vec<usize>) -> (r: GraphTensor)
    requires
        t@.shape.wf(),
        t@.shape.dims == dims_without(dims@, axes@),
    ensures
        r@ == (Handle { shape: restored_from(t@.shape, dims@, axes@, 0), ..t@ }),
        r@.shape.dims == dims@,
        r@.shape.wf(),
{
    let mut r = t.copy();
    let mut i: usize = 0;
    proof {
        lemma_rest_without(dims@, axes@, 0);
        assert(dims@.subrange(0, 0) =~= Seq::empty());
        assert(r@.shape.dims =~= dims@.subrange(0, 0) + rest_without(dims@, axes@, 0));
    }
    while i < dims.len()
        invariant
            i <= dims.len(),
            r@.shape.wf(),
            r@.id == t@.id,
            r@.shape.dims == dims@.subrange(0, i as int) + rest_without(dims@, axes@, i as int),
            restored_from(r@.shape, dims@, axes@, i as int) == restored_from(
                t@.shape,
                dims@,
                axes@,
                0,
            ),
        decreases dims.len() - i,
    {
        if names_axis(axes, i) {
            let ghost before = r@.shape.dims;
            r = r.expand_dim(i, dims[i]);
            assert(r@.shape.dims =~= dims@.subrange(0, i + 1) + rest_without(
                dims@,
                axes@,
                i + 1,
            ));
        } else {
            assert(r@.shape.dims =~= dims@.subrange(0, i + 1) + rest_without(
                dims@,
                axes@,
                i + 1,
            ));
        }
        i = i + 1;
    }
    assert(r@.shape.dims =~= dims@);
    r
}

/// The dimensions with the size 1 on the axes `axes`.
pub open spec fn ones_on(dims: Seq<Dim>, axes: Seq<usize>) -> Seq<Dim> {
    Seq::new(
        dims.len(),
        |i: int|
            if axes.contains(i as usize) {
                Dim::Known(1)
            } else {
                dims[i]
            },
    )
}

proof fn lemma_ones_on(dims: Seq<Dim>, axes: Seq<usize>)
    requires
        dims.len() <= usize::MAX,
    ensures
        dims_without(ones_on(dims, axes), axes) == dims_without(dims, axes),
    decreases dims.len(),
{
    if dims.len() > 0 {
        lemma_ones_on(dims.drop_last(), axes);
        assert(ones_on(dims, axes).drop_last() =~= ones_on(dims.drop_last(), axes));
    }
}

/// The dimensions with the size 1 on the axes `axes`.
fn put_ones(dims: &Vec<Dim>, axes: &Vec<usize>) -> (ones: Vec<Dim>)
    ensures
        ones@ == ones_on(dims@, axes@),
{
    let mut ones: Vec<Dim> = Vec::new();
    let mut i: usize = 0;
    while i < dims.len()
        invariant
            i <= dims.len(),
            ones@.len() == i,
            forall|k: int| 0 <= k < i ==> #[trigger] ones@[k] == ones_on(dims@, axes@)[k],
        decreases dims.len() - i,
    {
        if names_axis(axes, i) {
            ones.push(Dim::Known(1));
        } else {
            ones.push(dims[i]);
        }
        i = i + 1;
    }
    assert(ones@ =~= ones_on(dims@, axes@));
    ones
}

/// Where the axes of a ReduceMean node are found.
pub enum AxesFrom {
    /// In the known values of the second input.
    Known(Seq<u32>),
    /// The second input is not known.
    Unknown,
    /// In an attribute.
    Attribute(Seq<i64>),
    /// Nowhere: all axes are meant.
    Nowhere,
}

/// Where the axes of a node are found: in the second input, or else in the
/// attribute `axes`.
pub open spec fn axes_from(node: NodeDef, before: State) -> AxesFrom {
    if node.has_input(1) {
        if before.known.contains_key(node.inp(1)) {
            AxesFrom::Known(before.known[node.inp(1)])
        } else {
            AxesFrom::Unknown
        }
    } else {
        match node.attr("axes"@) {
            Some(a) => AxesFrom::Attribute(a.ints@),
            None => AxesFrom::Nowhere,
        }
    }
}

/// The numbers of the axes of a node, if it gives any.
pub open spec fn given_axes(node: NodeDef, before: State) -> Option<Seq<i64>> {
    match axes_from(node, before) {
        AxesFrom::Known(v) => Some(whole_numbers(v)),
        AxesFrom::Attribute(v) => Some(v),
        _ => None,
    }
}

/// The axes that a ReduceMean node takes the mean along.
pub open spec fn mean_axes(node: NodeDef, before: State) -> Seq<usize> {
    let rank = before.env[node.inp(0)].dims().len();
    match given_axes(node, before) {
        Some(axes) => counted_all(axes, rank),
        None => axis_range(0, rank as usize),
    }
}

/// How the import of a ReduceMean node ends.
pub open spec fn reduce_mean_outcome(node: NodeDef, before: State) -> Outcome {
    let rank = before.env[node.inp(0)].dims().len();
    if node.input@.len() == 0 {
        Outcome::Rejects
    } else if !before.env.contains_key(node.inp(0)) {
        Outcome::Fails(missing("ReduceMean: missing input tensor '"@, node.inp(0)))
    } else if axes_from(node, before) is Unknown {
        Outcome::Fails("ReduceMean: axes '"@ + node.inp(1) + "' must be known"@)
    } else if given_axes(node, before) matches Some(axes) && !all_in_rank(axes, rank) {
        Outcome::Rejects
    } else if !mean_axes(node, before).no_duplicates() || node.output@.len() == 0 {
        Outcome::Rejects
    } else {
        Outcome::Done
    }
}

/// What the import of a ReduceMean node does: the output is the mean along the
/// axes, which keep the size 1 if `keepdims` is not 0.
pub open spec fn reduce_mean_step(
    node: NodeDef,
    before: State,
    after: State,
    result: Outcome,
) -> bool {
    let x = before.env[node.inp(0)];
    let axes = mean_axes(node, before);
    let mean = x.mean(axes);
    &&& result == reduce_mean_outcome(node, before)
    &&& result is Fails ==> after == before
    &&& result is Done ==> {
        &&& after.env == before.env.insert(
            node.out(0),
            if node.int_attr("keepdims"@, 1) != 0 {
                restored(mean, ones_on(x.dims(), axes), axes)
            } else {
                mean
            },
        )
        &&& changed(before.tensors, after.tensors, set![node.out(0)])
        &&& after.weights == before.weights
        &&& after.known == before.known
    }
}

/// Whether no axis occurs twice.
fn are_distinct(axes: &Vec<usize>) -> (r: bool)
    ensures
        r == axes@.no_duplicates(),
{
    let mut i: usize = 0;
    while i < axes.len()
        invariant
            i <= axes.len(),
            forall|k: int, l: int| 0 <= k < l < axes@.len() && k < i ==> axes@[k] != axes@[l],
        decreases axes.len() - i,
    {
        let mut j: usize = i + 1;
        while j < axes.len()
            invariant
                i < j <= axes.len(),
                forall|l: int| i < l < j ==> axes@[i as int] != axes@[l],
            decreases axes.len() - j,
        {
            if axes[i] == axes[j] {
                return false;
            }
            j = j + 1;
        }
        i = i + 1;
    }
    true
}

/// Imports a ReduceMean node: the mean along some axes, which are the known
/// values of the second input, or those of an attribute, or all. The attribute
/// `keepdims` says whether the axes are kept with the size 1.
pub fn parse_reduce_mean_node(
    node: &NodeDef,
    tensors: &mut NameMap<GraphTensor>,
    cx: &mut ComputeGraph,
    known_values: &mut NameMap<Vec<u32>>,
) -> (result: Result<(), String>)
    requires
        valid(*old(tensors), *old(cx)),
        !(reduce_mean_outcome(
                *node,
                state(*old(tensors), *old(cx), Seq::empty(), values(*old(known_values))),
            ) is Rejects),
    ensures
        valid(*final(tensors), *final(cx)),
        grows(*old(cx), *final(cx)),
        reduce_mean_step(
            *node,
            state(*old(tensors), *old(cx), Seq::empty(), values(*old(known_values))),
            state(*final(tensors), *final(cx), Seq::empty(), values(*final(known_values))),
            ending(result),
        ),
{
    settle(try_reduce_mean_node(node, tensors, cx, known_values))
}

/// The import of the same nodes, and of those that the operation does not admit.
pub(crate) fn try_reduce_mean_node(
    node: &NodeDef,
    tensors: &mut NameMap<GraphTensor>,
    cx: &mut ComputeGraph,
    known_values: &mut NameMap<Vec<u32>>,
) -> (result: Result<(), Fault>)
    requires
        valid(*old(tensors), *old(cx)),
    ensures
        valid(*final(tensors), *final(cx)),
        grows(*old(cx), *final(cx)),
        reduce_mean_step(
            *node,
            state(*old(tensors), *old(cx), Seq::empty(), values(*old(known_values))),
            state(*final(tensors), *final(cx), Seq::empty(), values(*final(known_values))),
            outcome(result),
        ),
{
    if node.input.len() == 0 {
        return Err(Fault::Rejected);
    }
    let x = match fetch(tensors, &node.input[0], "ReduceMean: missing input tensor '") {
        Ok(x) => x,
        Err(fault) => {
            return Err(fault);
        },
    };
    let rank: usize = x.dims().len();
    let keep = get_int_attr(node, "keepdims", 1) != 0;
    let given = if node.gives_input(1) {
        match recall(known_values, &node.input[1]) {
            Some(v) => Some(to_whole_numbers(&v)),
            None => {
                return Err(
                    Fault::Error(
                        join("ReduceMean: axes '", node.input[1].as_str(), "' must be known"),
                    ),
                );
            },
        }
    } else {
        match find_attr(node, "axes") {
            Some(a) => Some(copy_numbers(&a.ints)),
            None => None,
        }
    };
    let axes = match given {
        Some(numbers) => match count_axes(&numbers, rank) {
            Some(axes) => axes,
            None => {
                return Err(Fault::Rejected);
            },
        },
        None => range_of_axes(0, rank),
    };
    if !are_distinct(&axes) || node.output.len() == 0 {
        return Err(Fault::Rejected);
    }
    let mean = cx.mean(&x, &axes);
    assert(cx.meaning(mean@).shape == mean@.shape);
    let result = if keep {
        let ones = put_ones(x.dims(), &axes);
        proof {
            lemma_ones_on(x@.shape.dims, axes@);
        }
        restore(&mean, &ones, &axes)
    } else {
        mean
    };
    bind(tensors, cx, node.output[0].as_str(), result);
    Ok(())
}

/// The numbers that the formula of LayerNormalization needs.
pub open spec fn layer_norm_numbers(node: NodeDef) -> Seq<(Seq<char>, u32)> {
    seq![("_neg_one"@, NEG_ONE), ("_epsilon"@, node.float_attr("epsilon"@, EPSILON))]
}

/// The first axis that a LayerNormalization node normalizes.
pub open spec fn norm_axis(node: NodeDef, rank: nat) -> int {
    counted(node.int_attr("axis"@, (-1) as i64), rank)
}

/// `x` without its mean along the axes from `axis` on.
pub open spec fn centered(x: Tensor, out: Seq<char>, axis: usize) -> Tensor {
    let axes = axis_range(axis, x.dims().len() as usize);
    plus(x, times(restored(x.mean(axes), x.dims(), axes), spread(x, out, "_neg_one"@)))
}

/// The reciprocal of the standard deviation of a tensor without its mean, along the
/// axes from `axis` on: `1 / sqrt(variance + epsilon)`.
pub open spec fn inverse_deviation(c: Tensor, out: Seq<char>, axis: usize) -> Tensor {
    let variance = times(c, c).mean(axis_range(axis, c.dims().len() as usize));
    plus(variance, spread(variance, out, "_epsilon"@)).unary(Unary::Sqrt).unary(Unary::Recip)
}

/// `x` without its mean and divided by its standard deviation along the axes
/// from `axis` on: `(x - mean) / sqrt(variance + epsilon)`.
pub open spec fn normalized(x: Tensor, out: Seq<char>, axis: usize) -> Tensor {
    let axes = axis_range(axis, x.dims().len() as usize);
    let c = centered(x, out, axis);
    times(c, restored(inverse_deviation(c, out, axis), x.dims(), axes))
}

/// The formula of LayerNormalization: the normalized input times the scale.
pub open spec fn layer_norm_formula(
    x: Tensor,
    scale: Tensor,
    out: Seq<char>,
    axis: usize,
) -> Tensor {
    times(normalized(x, out, axis), led(scale, x.dims(), axis as nat))
}

/// How the import of a LayerNormalization node ends.
pub open spec fn layer_norm_outcome(node: NodeDef, before: State) -> Outcome {
    let x = before.env[node.inp(0)];
    let scale = before.env[node.inp(1)];
    let rank = x.dims().len();
    let axis = norm_axis(node, rank);
    let named = with_numbers(before.env, node.out(0), layer_norm_numbers(node));
    if node.input@.len() < 2 {
        Outcome::Rejects
    } else if !before.env.contains_key(node.inp(0)) {
        Outcome::Fails(missing("LayerNorm: missing input tensor '"@, node.inp(0)))
    } else if !before.env.contains_key(node.inp(1)) {
        Outcome::Fails(missing("LayerNorm: missing scale tensor '"@, node.inp(1)))
    } else if node.output@.len() == 0 || !all_known(x.dims()) || !(0 <= axis <= rank) {
        Outcome::Rejects
    } else if scale.dims() != x.dims().subrange(axis, rank as int) {
        Outcome::Rejects
    } else if !node.has_input(2) {
        Outcome::Done
    } else if !named.contains_key(node.inp(2)) {
        Outcome::Fails(missing("LayerNorm: missing bias tensor '"@, node.inp(2)))
    } else if named[node.inp(2)].dims() != x.dims().subrange(axis, rank as int) {
        Outcome::Rejects
    } else {
        Outcome::Done
    }
}

/// What the import of a LayerNormalization node does. If the bias is missing,
/// the numbers of the formula have got their names already.
pub open spec fn layer_norm_step(
    node: NodeDef,
    before: State,
    after: State,
    result: Outcome,
) -> bool {
    let out = node.out(0);
    let x = before.env[node.inp(0)];
    let axis = norm_axis(node, x.dims().len()) as usize;
    let numbers = layer_norm_numbers(node);
    let named = with_numbers(before.env, out, numbers);
    let scaled = layer_norm_formula(x, before.env[node.inp(1)], out, axis);
    &&& result == layer_norm_outcome(node, before)
    &&& result is Fails ==> if node.has_input(2) && before.env.contains_key(node.inp(0))
        && before.env.contains_key(node.inp(1)) {
        &&& after.env == named
        &&& changed(before.tensors, after.tensors, number_names(out, numbers))
        &&& after.weights == before.weights + number_data(out, numbers)
        &&& after.known == before.known
    } else {
        after == before
    }
    &&& result is Done ==> {
        &&& after.env == named.insert(
            out,
            if node.has_input(2) {
                plus(scaled, led(named[node.inp(2)], x.dims(), axis as nat))
            } else {
                scaled
            },
        )
        &&& changed(before.tensors, after.tensors, number_names(out, numbers).insert(out))
        &&& after.weights == before.weights + number_data(out, numbers)
        &&& after.known == before.known
    }
}

/// Whether `part` holds the dimensions of `dims` from `axis` on.
fn ends_in(dims: &Vec<Dim>, axis: usize, part: &Vec<Dim>) -> (r: bool)
    requires
        axis <= dims@.len(),
    ensures
        r == (part@ == dims@.subrange(axis as int, dims@.len() as int)),
{
    let mut rest: Vec<Dim> = Vec::new();
    let mut i: usize = axis;
    while i < dims.len()
        invariant
            axis <= i <= dims@.len(),
            rest@ == dims@.subrange(axis as int, i as int),
        decreases dims.len() - i,
    {
        rest.push(dims[i]);
        i = i + 1;
        assert(rest@ =~= dims@.subrange(axis as int, i as int));
    }
    same_dims(part, &rest)
}

/// Adds the mean along some axes, which are put back as repetitions.
fn mean_in_place(cx: &mut ComputeGraph, x: &GraphTensor, axes: &Vec<usize>) -> (r: GraphTensor)
    requires
        old(cx).holds(x@),
    ensures
        grows(*old(cx), *final(cx)),
        final(cx).holds(r@),
        final(cx).meaning(r@) == restored(
            old(cx).meaning(x@).mean(axes@),
            x@.shape.dims,
            axes@,
        ),
        r@.shape.dims == x@.shape.dims,
{
    let mean = cx.mean(x, axes);
    assert(cx.meaning(mean@).shape == mean@.shape);
    restore(&mean, x.dims(), axes)
}

/// The first axes of `dims`.
proof fn lemma_dims_before(dims: Seq<Dim>, axis: usize)
    requires
        axis <= dims.len() <= usize::MAX,
    ensures
        dims_without(dims, axis_range(axis, dims.len() as usize)) == dims.subrange(0, axis as int),
{
    let axes = axis_range(axis, dims.len() as usize);
    lemma_kept_before(dims, axes, axis, axis as int);
    lemma_dropped_after(dims, axes, axis, dims.len() as int);
    assert(dims.subrange(0, dims.len() as int) =~= dims);
}

proof fn lemma_kept_before(dims: Seq<Dim>, axes: Seq<usize>, axis: usize, n: int)
    requires
        axis <= dims.len() <= usize::MAX,
        axes == axis_range(axis, dims.len() as usize),
        0 <= n <= axis,
    ensures
        dims_without(dims.subrange(0, n), axes) == dims.subrange(0, n),
    decreases n,
{
    if n > 0 {
        lemma_kept_before(dims, axes, axis, n - 1);
        assert(dims.subrange(0, n).drop_last() =~= dims.subrange(0, n - 1));
        assert(!axes.contains((n - 1) as usize));
        assert(dims.subrange(0, n - 1).push(dims[n - 1]) =~= dims.subrange(0, n));
    } else {
        assert(dims.subrange(0, 0) =~= Seq::empty());
    }
}

proof fn lemma_dropped_after(dims: Seq<Dim>, axes: Seq<usize>, axis: usize, n: int)
    requires
        axis <= dims.len() <= usize::MAX,
        axes == axis_range(axis, dims.len() as usize),
        axis <= n <= dims.len(),
        dims_without(dims.subrange(0, axis as int), axes) == dims.subrange(0, axis as int),
    ensures
        dims_without(dims.subrange(0, n), axes) == dims.subrange(0, axis as int),
    decreases n,
{
    if n > axis {
        lemma_dropped_after(dims, axes, axis, n - 1);
        assert(dims.subrange(0, n).drop_last() =~= dims.subrange(0, n - 1));
        assert(axes[n - 1 - axis] == n - 1);
        assert(axes.contains((n - 1) as usize));
    }
}

/// Adds `x` without its mean along the axes from `axis` on.
fn add_centered(
    cx: &mut ComputeGraph,
    x: &GraphTensor,
    neg_one: &GraphTensor,
    sizes: &Vec<usize>,
    axis: usize,
    Ghost(out): Ghost<Seq<char>>,
) -> (r: GraphTensor)
    requires
        old(cx).holds(x@),
        old(cx).holds(neg_one@),
        old(cx).meaning(neg_one@) == number(out + "_neg_one"@),
        known_dims(sizes@) == x@.shape.dims,
        sizes@ == sizes_of(x@.shape.dims),
        axis <= sizes@.len(),
    ensures
        grows(*old(cx), *final(cx)),
        final(cx).holds(r@),
        final(cx).meaning(r@) == centered(old(cx).meaning(x@), out, axis),
        r@.shape.dims == x@.shape.dims,
{
    assert(cx.meaning(neg_one@).shape == neg_one@.shape);
    let mean = mean_in_place(cx, x, &range_of_axes(axis, sizes.len()));
    let spread_neg_one = spread_to(neg_one, sizes);
    let neg_mean = multiply(cx, &mean, &spread_neg_one);
    sum(cx, x, &neg_mean)
}

/// The first `count` sizes.
fn first_sizes(sizes: &Vec<usize>, count: usize) -> (first: Vec<usize>)
    requires
        count <= sizes@.len(),
    ensures
        first@ == sizes@.subrange(0, count as int),
{
    let mut first: Vec<usize> = Vec::new();
    let mut i: usize = 0;
    while i < count
        invariant
            i <= count <= sizes@.len(),
            first@ == sizes@.subrange(0, i as int),
        decreases count - i,
    {
        first.push(sizes[i]);
        i = i + 1;
        assert(first@ =~= sizes@.subrange(0, i as int));
    }
    first
}

/// Adds the reciprocal of the standard deviation.
fn add_inverse_deviation(
    cx: &mut ComputeGraph,
    c: &GraphTensor,
    epsilon: &GraphTensor,
    sizes: &Vec<usize>,
    axis: usize,
    Ghost(out): Ghost<Seq<char>>,
) -> (r: GraphTensor)
    requires
        old(cx).holds(c@),
        old(cx).holds(epsilon@),
        old(cx).meaning(epsilon@) == number(out + "_epsilon"@),
        known_dims(sizes@) == c@.shape.dims,
        sizes@ == sizes_of(c@.shape.dims),
        axis <= sizes@.len(),
    ensures
        grows(*old(cx), *final(cx)),
        final(cx).holds(r@),
        final(cx).meaning(r@) == inverse_deviation(old(cx).meaning(c@), out, axis),
        r@.shape.dims == c@.shape.dims.subrange(0, axis as int),
{
    assert(cx.meaning(epsilon@).shape == epsilon@.shape);
    let squared = multiply(cx, c, c);
    let variance = cx.mean(&squared, &range_of_axes(axis, sizes.len()));
    assert(cx.meaning(variance@).shape == variance@.shape);
    proof {
        lemma_dims_before(c@.shape.dims, axis);
    }
    let first = first_sizes(sizes, axis);
    assert(sizes_of(variance@.shape.dims) =~= first@);
    assert(known_dims(first@) =~= variance@.shape.dims);
    let spread_epsilon = spread_to(epsilon, &first);
    let shifted = sum(cx, &variance, &spread_epsilon);
    let deviation = apply(cx, Unary::Sqrt, &shifted);
    apply(cx, Unary::Recip, &deviation)
}

/// Adds the product of a tensor without its mean and the reciprocal of its standard
/// deviation, repeated along the axes from `axis` on.
fn add_scaled_difference(
    cx: &mut ComputeGraph,
    c: &GraphTensor,
    inverse: &GraphTensor,
    rank: usize,
    axis: usize,
) -> (r: GraphTensor)
    requires
        old(cx).holds(c@),
        old(cx).holds(inverse@),
        axis <= rank,
        c@.shape.dims.len() == rank,
        inverse@.shape.dims == c@.shape.dims.subrange(0, axis as int),
    ensures
        grows(*old(cx), *final(cx)),
        final(cx).holds(r@),
        final(cx).meaning(r@) == times(
            old(cx).meaning(c@),
            restored(old(cx).meaning(inverse@), c@.shape.dims, axis_range(axis, rank)),
        ),
        r@.shape.dims == c@.shape.dims,
{
    proof {
        lemma_dims_before(c@.shape.dims, axis);
    }
    let repeated = restore(inverse, c.dims(), &range_of_axes(axis, rank));
    multiply(cx, c, &repeated)
}

/// Adds `x` without its mean and divided by its standard deviation.
fn add_normalized(
    cx: &mut ComputeGraph,
    x: &GraphTensor,
    neg_one: &GraphTensor,
    epsilon: &GraphTensor,
    sizes: &Vec<usize>,
    axis: usize,
    Ghost(out): Ghost<Seq<char>>,
) -> (r: GraphTensor)
    requires
        old(cx).holds(x@),
        old(cx).holds(neg_one@),
        old(cx).meaning(neg_one@) == number(out + "_neg_one"@),
        old(cx).holds(epsilon@),
        old(cx).meaning(epsilon@) == number(out + "_epsilon"@),
        known_dims(sizes@) == x@.shape.dims,
        sizes@ == sizes_of(x@.shape.dims),
        axis <= sizes@.len(),
    ensures
        grows(*old(cx), *final(cx)),
        final(cx).holds(r@),
        final(cx).meaning(r@) == normalized(old(cx).meaning(x@), out, axis),
        r@.shape.dims == x@.shape.dims,
{
    let difference = add_centered(cx, x, neg_one, sizes, axis, Ghost(out));
    let inverse = add_inverse_deviation(cx, &difference, epsilon, sizes, axis, Ghost(out));
    add_scaled_difference(cx, &difference, &inverse, sizes.len(), axis)
}

/// Adds the product of a normalized tensor and the scale, which has its last axes.
fn add_scaled(cx: &mut ComputeGraph, x: &GraphTensor, scale: &GraphTensor, axis: usize) -> (r:
    GraphTensor)
    requires
        old(cx).holds(x@),
        old(cx).holds(scale@),
        axis <= x@.shape.dims.len(),
        scale@.shape.dims == x@.shape.dims.subrange(axis as int, x@.shape.dims.len() as int),
    ensures
        grows(*old(cx), *final(cx)),
        final(cx).holds(r@),
        final(cx).meaning(r@) == times(
            old(cx).meaning(x@),
            led(old(cx).meaning(scale@), x@.shape.dims, axis as nat),
        ),
        r@.shape.dims == x@.shape.dims,
{
    let scale_led = lead(scale, x.dims(), axis);
    assert(scale_led@.shape.dims =~= x@.shape.dims);
    multiply(cx, x, &scale_led)
}

/// Adds the formula of LayerNormalization on the numbers that it needs.
fn add_formula(
    cx: &mut ComputeGraph,
    x: &GraphTensor,
    scale: &GraphTensor,
    neg_one: &GraphTensor,
    epsilon: &GraphTensor,
    sizes: &Vec<usize>,
    axis: usize,
    Ghost(out): Ghost<Seq<char>>,
) -> (r: GraphTensor)
    requires
        old(cx).holds(x@),
        old(cx).holds(scale@),
        old(cx).holds(neg_one@),
        old(cx).meaning(neg_one@) == number(out + "_neg_one"@),
        old(cx).holds(epsilon@),
        old(cx).meaning(epsilon@) == number(out + "_epsilon"@),
        known_dims(sizes@) == x@.shape.dims,
        sizes@ == sizes_of(x@.shape.dims),
        axis <= sizes@.len(),
        scale@.shape.dims == x@.shape.dims.subrange(axis as int, sizes@.len() as int),
    ensures
        grows(*old(cx), *final(cx)),
        final(cx).holds(r@),
        final(cx).meaning(r@) == layer_norm_formula(
            old(cx).meaning(x@),
            old(cx).meaning(scale@),
            out,
            axis,
        ),
        r@.shape.dims == x@.shape.dims,
{
    let unit = add_normalized(cx, x, neg_one, epsilon, sizes, axis, Ghost(out));
    add_scaled(cx, &unit, scale, axis)
}

/// Adds the formula of LayerNormalization, without the bias.
fn add_layer_norm(
    tensors: &mut NameMap<GraphTensor>,
    cx: &mut ComputeGraph,
    weight_data: &mut Vec<(String, Vec<u32>)>,
    node: &NodeDef,
    x: &GraphTensor,
    scale: &GraphTensor,
    sizes: &Vec<usize>,
    axis: usize,
) -> (r: GraphTensor)
    requires
        valid(*old(tensors), *old(cx)),
        old(cx).holds(x@),
        old(cx).holds(scale@),
        node.output@.len() > 0,
        known_dims(sizes@) == x@.shape.dims,
        sizes@ == sizes_of(x@.shape.dims),
        axis <= sizes@.len(),
        scale@.shape.dims == x@.shape.dims.subrange(axis as int, sizes@.len() as int),
    ensures
        valid(*final(tensors), *final(cx)),
        grows(*old(cx), *final(cx)),
        final(cx).holds(r@),
        final(cx).meaning(r@) == layer_norm_formula(
            old(cx).meaning(x@),
            old(cx).meaning(scale@),
            node.out(0),
            axis,
        ),
        r@.shape.dims == x@.shape.dims,
        env(*final(tensors), *final(cx)) == with_numbers(
            env(*old(tensors), *old(cx)),
            node.out(0),
            layer_norm_numbers(*node),
        ),
        changed(
            handles(*old(tensors)),
            handles(*final(tensors)),
            number_names(node.out(0), layer_norm_numbers(*node)),
        ),
        data(*final(weight_data)) == data(*old(weight_data)) + number_data(
            node.out(0),
            layer_norm_numbers(*node),
        ),
{
    let numbers = vec![("_neg_one", NEG_ONE), ("_epsilon", get_f32_attr(node, "epsilon", EPSILON))];
    assert(number_list(numbers@) =~= layer_norm_numbers(*node));
    let named = name_numbers(tensors, cx, weight_data, node.output[0].as_str(), &numbers);
    add_formula(cx, x, scale, &named[0], &named[1], sizes, axis, Ghost(node.out(0)))
}

/// Imports a LayerNormalization node: the input is normalized along the axes
/// from `axis` on (the last one, if none is given), multiplied by a scale, and
/// shifted by a bias, if there is one.
pub fn parse_layer_normalization_node(
    node: &NodeDef,
    tensors: &mut NameMap<GraphTensor>,
    cx: &mut ComputeGraph,
    weight_data: &mut Vec<(String, Vec<u32>)>,
) -> (result: Result<(), String>)
    requires
        valid(*old(tensors), *old(cx)),
        !(layer_norm_outcome(
                *node,
                state(*old(tensors), *old(cx), data(*old(weight_data)), Map::empty()),
            ) is Rejects),
    ensures
        valid(*final(tensors), *final(cx)),
        grows(*old(cx), *final(cx)),
        layer_norm_step(
            *node,
            state(*old(tensors), *old(cx), data(*old(weight_data)), Map::empty()),
            state(*final(tensors), *final(cx), data(*final(weight_data)), Map::empty()),
            ending(result),
        ),
{
    settle(try_layer_normalization_node(node, tensors, cx, weight_data))
}

/// The import of the same nodes, and of those that the operation does not admit.
pub(crate) fn try_layer_normalization_node(
    node: &NodeDef,
    tensors: &mut NameMap<GraphTensor>,
    cx: &mut ComputeGraph,
    weight_data: &mut Vec<(String, Vec<u32>)>,
) -> (result: Result<(), Fault>)
    requires
        valid(*old(tensors), *old(cx)),
    ensures
        valid(*final(tensors), *final(cx)),
        grows(*old(cx), *final(cx)),
        layer_norm_step(
            *node,
            state(*old(tensors), *old(cx), data(*old(weight_data)), Map::empty()),
            state(*final(tensors), *final(cx), data(*final(weight_data)), Map::empty()),
            outcome(result),
        ),
{
    if node.input.len() < 2 {
        return Err(Fault::Rejected);
    }
    let x = match fetch(tensors, &node.input[0], "LayerNorm: missing input tensor '") {
        Ok(x) => x,
        Err(fault) => {
            return Err(fault);
        },
    };
    let scale = match fetch(tensors, &node.input[1], "LayerNorm: missing scale tensor '") {
        Ok(scale) => scale,
        Err(fault) => {
            return Err(fault);
        },
    };
    if node.output.len() == 0 {
        return Err(Fault::Rejected);
    }
    let sizes = match known_sizes(x.dims()) {
        Some(sizes) => sizes,
        None => {
            return Err(Fault::Rejected);
        },
    };
    let rank: usize = sizes.len();
    let given: i64 = get_int_attr(node, "axis", -1);
    let axis: usize = match count_axis(given, rank, rank) {
        Some(axis) => axis,
        None => {
            if given < 0 || given as u64 != rank as u64 {
                return Err(Fault::Rejected);
            }
            rank
        },
    };
    if !ends_in(x.dims(), axis, scale.dims()) {
        return Err(Fault::Rejected);
    }
    let out = node.output[0].as_str();
    let scaled = add_layer_norm(tensors, cx, weight_data, node, &x, &scale, &sizes, axis);
    let result = if node.gives_input(2) {
        let bias = match fetch(tensors, &node.input[2], "LayerNorm: missing bias tensor '") {
            Ok(bias) => bias,
            Err(fault) => {
                return Err(fault);
            },
        };
        if !ends_in(x.dims(), axis, bias.dims()) {
            return Err(Fault::Rejected);
        }
        let bias_led = lead(&bias, x.dims(), axis);
        assert(bias_led@.shape.dims =~= x@.shape.dims);
        sum(cx, &scaled, &bias_led)
    } else {
        scaled
    };
    bind(tensors, cx, out, result);
    Ok(())
}

} // verus!

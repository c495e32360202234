//! Elements of a tensor at given indices along an axis.

use crate::bits::{from_usize, to_i64, ZERO};
#[allow(unused_imports)]
use crate::bits::{as_i64, law_whole_numbers_survive, of_int};
use crate::compose::fill;
#[allow(unused_imports)]
use crate::compose::filled;
use crate::graph::{group_graph, Binary, ComputeGraph, DType, GraphTensor, Unary};
#[allow(unused_imports)]
use crate::graph::{grows, made, scalar, Operation, Tensor};
use crate::names::NameMap;
use crate::ops::axes::count_axis;
#[allow(unused_imports)]
use crate::ops::axes::counted;
use crate::ops::constant::define;
#[allow(unused_imports)]
use crate::ops::constant::defined;
#[allow(unused_imports)]
use crate::ops::layout::reads_back;
use crate::proto::{get_int_attr, NodeDef};
#[allow(unused_imports)]
use crate::reading::{
    blocks_exchanged, computed_at, computes, lemma_blocks_exchanged, lemma_led_by,
    lemma_repeated_reads_one, reads_forward, viewed,
};
use crate::shape::{checked_product, copy_dims, known_sizes, Dim};
#[allow(unused_imports)]
use crate::shape::{
    all_known, bounded_product, is_permutation, known_dims, law_contiguous_reads_in_order,
    lemma_bounded_product, lemma_product_is_bounded, lemma_product_of_both, product, read_position,
    row_major, sizes_of, Shape,
};
use crate::state::{bind, fetch, group_state, recall, settle, Fault};
#[allow(unused_imports)]
use crate::state::{
    changed, data, ending, env, missing, outcome, state, valid, values, Outcome, State,
};
use vstd::arithmetic::div_mod::*;
use vstd::prelude::*;

verus! {

broadcast use {group_graph, group_state};

/// The position among `size` ones that an index stands for; indices from -1
/// down count from the end, and all others start over at the ends.
pub open spec fn normal_index(index: int, size: int) -> int {
    index % size
}

/// The position among `size` ones that an index stands for.
fn normalize_index(index: i64, size: usize) -> (at: usize)
    requires
        size > 0,
    ensures
        at == normal_index(index as int, size as int),
        at < size,
{
    proof {
        lemma_mod_bound(index as int, size as int);
    }
    if index >= 0 {
        ((index as u64) % (size as u64)) as usize
    } else {
        let back: u64 = if index == i64::MIN {
            0x8000_0000_0000_0000
        } else {
            (-index) as u64
        };
        let m: usize = (back % (size as u64)) as usize;
        proof {
            let q = back as int / size as int;
            lemma_fundamental_div_mod(back as int, size as int);
            lemma_mod_bound(back as int, size as int);
            if m == 0 {
                assert(index == (-q) * size + 0) by (nonlinear_arith)
                    requires
                        index == -back,
                        back == size * q,
                ;
                lemma_fundamental_div_mod_converse(index as int, size as int, -q, 0);
            } else {
                assert(index == (-q - 1) * size + (size - m)) by (nonlinear_arith)
                    requires
                        index == -back,
                        back == size * q + m,
                ;
                lemma_fundamental_div_mod_converse(index as int, size as int, -q - 1, size - m);
            }
        }
        if m == 0 {
            0
        } else {
            size - m
        }
    }
}

/// The number, or 1 if it is 0.
pub open spec fn at_least_one(n: nat) -> nat {
    if n == 0 {
        1
    } else {
        n
    }
}

/// The number of positions before an axis.
pub open spec fn outer_size(sizes: Seq<usize>, axis: int) -> nat {
    at_least_one(product(sizes.subrange(0, axis)))
}

/// The number of positions behind an axis.
pub open spec fn inner_size(sizes: Seq<usize>, axis: int) -> nat {
    at_least_one(product(sizes.subrange(axis + 1, sizes.len() as int)))
}

/// The position of the element that goes to position `p`, where `indices`
/// replace the indices along `axis` of elements with the sizes `sizes`.
pub open spec fn source_position(
    sizes: Seq<usize>,
    axis: int,
    indices: Seq<u32>,
    p: int,
) -> int {
    let inner = inner_size(sizes, axis) as int;
    let index = indices[(p / inner) % (indices.len() as int)];
    let before = p / inner / (indices.len() as int);
    (before * sizes[axis] + normal_index(as_i64(index) as int, sizes[axis] as int)) * inner + p
        % inner
}

/// The number of elements that are found at the indices.
pub open spec fn found_size(sizes: Seq<usize>, axis: int, indices: Seq<u32>) -> nat {
    outer_size(sizes, axis) * indices.len() * inner_size(sizes, axis)
}

/// Whether all elements that are asked for exist, and `count` positions are
/// enough for them.
pub open spec fn can_gather(
    elements: Seq<u32>,
    sizes: Seq<usize>,
    axis: int,
    indices: Seq<u32>,
    count: nat,
) -> bool {
    count > 0 ==> {
        &&& indices.len() > 0 ==> sizes[axis] > 0
        &&& found_size(sizes, axis, indices) <= count
        &&& forall|p: int|
            0 <= p < found_size(sizes, axis, indices) ==> #[trigger] source_position(
                sizes,
                axis,
                indices,
                p,
            ) < elements.len()
    }
}

/// The elements at the indices along an axis; at least one, and 0 where there
/// is none.
pub open spec fn gathered(
    elements: Seq<u32>,
    sizes: Seq<usize>,
    axis: int,
    indices: Seq<u32>,
    count: nat,
) -> Seq<u32> {
    Seq::new(
        at_least_one(count),
        |p: int|
            if count > 0 && p < found_size(sizes, axis, indices) {
                elements[source_position(sizes, axis, indices, p)]
            } else {
                ZERO
            },
    )
}

/// The position of the element that goes to position `p`, if it can be
/// computed.
fn find_position(
    size: usize,
    inner: usize,
    indices: &Vec<u32>,
    p: usize,
    Ghost(sizes): Ghost<Seq<usize>>,
    Ghost(axis): Ghost<int>,
) -> (position: Option<usize>)
    requires
        0 <= axis < sizes.len(),
        size == sizes[axis],
        size > 0,
        inner == inner_size(sizes, axis),
        indices@.len() > 0,
    ensures
        match position {
            Some(s) => s == source_position(sizes, axis, indices@, p as int),
            None => source_position(sizes, axis, indices@, p as int) > usize::MAX,
        },
{
    let count: usize = indices.len();
    proof {
        lemma_mod_bound(p as int, inner as int);
        lemma_mod_bound(p as int / inner as int, count as int);
        lemma_div_pos_is_pos(p as int, inner as int);
        lemma_div_pos_is_pos(p as int / inner as int, count as int);
    }
    let before: usize = p / inner / count;
    let at: usize = normalize_index(to_i64(indices[(p / inner) % count]), size);
    let rest: usize = p % inner;
    proof {
        let b = before as int;
        let s = size as int;
        let i = inner as int;
        assert(b * s >= 0) by (nonlinear_arith)
            requires
                b >= 0,
                s >= 0,
        ;
        assert((b * s + at) * i >= b * s + at) by (nonlinear_arith)
            requires
                b * s + at >= 0,
                i >= 1,
        ;
    }
    let scaled: usize = match before.checked_mul(size) {
        Some(scaled) => scaled,
        None => {
            return None;
        },
    };
    let row: usize = match scaled.checked_add(at) {
        Some(row) => row,
        None => {
            return None;
        },
    };
    let start: usize = match row.checked_mul(inner) {
        Some(start) => start,
        None => {
            return None;
        },
    };
    start.checked_add(rest)
}

/// The sizes from axis `from` up to axis `to`.
pub(crate) fn some_sizes(sizes: &Vec<usize>, from: usize, to: usize) -> (part: Vec<usize>)
    requires
        from <= to <= sizes@.len(),
    ensures
        part@ == sizes@.subrange(from as int, to as int),
{
    let mut part: Vec<usize> = Vec::new();
    let mut i: usize = from;
    while i < to
        invariant
            from <= i <= to <= sizes@.len(),
            part@ == sizes@.subrange(from as int, i as int),
        decreases to - i,
    {
        part.push(sizes[i]);
        i = i + 1;
        assert(part@ =~= sizes@.subrange(from as int, i as int));
    }
    part
}

/// The product of sizes, or 1 if it is 0.
fn some_product(sizes: &Vec<usize>) -> (p: usize)
    requires
        0 < product(sizes@) <= usize::MAX,
    ensures
        p == at_least_one(product(sizes@)),
{
    proof {
        lemma_product_is_bounded(sizes@);
    }
    match checked_product(sizes) {
        Some(p) => p,
        None => 1,
    }
}

/// The elements at the indices along an axis, if all exist.
fn gather_values(
    elements: &Vec<u32>,
    sizes: &Vec<usize>,
    axis: usize,
    indices: &Vec<u32>,
    count: usize,
) -> (found: Option<Vec<u32>>)
    requires
        axis < sizes@.len(),
        count > 0 ==> 0 < product(sizes@.subrange(0, axis as int)) <= usize::MAX,
        count > 0 ==> 0 < product(sizes@.subrange(axis + 1, sizes@.len() as int)) <= usize::MAX,
    ensures
        match found {
            Some(v) => {
                &&& can_gather(elements@, sizes@, axis as int, indices@, count as nat)
                &&& v@ == gathered(elements@, sizes@, axis as int, indices@, count as nat)
            },
            None => !can_gather(elements@, sizes@, axis as int, indices@, count as nat),
        },
{
    let mut found: Vec<u32> = Vec::new();
    if count == 0 {
        found.push(ZERO);
        assert(found@ =~= gathered(elements@, sizes@, axis as int, indices@, count as nat));
        return Some(found);
    }
    assert(axis + 1 <= sizes.len());
    let outer: usize = some_product(&some_sizes(sizes, 0, axis));
    let inner: usize = some_product(&some_sizes(sizes, axis + 1, sizes.len()));
    let ghost total = found_size(sizes@, axis as int, indices@);
    proof {
        let o = outer as int;
        let n = indices@.len() as int;
        let i = inner as int;
        assert(o * n >= 0) by (nonlinear_arith)
            requires
                o >= 0,
                n >= 0,
        ;
        assert(o * n * i >= o * n) by (nonlinear_arith)
            requires
                o * n >= 0,
                i >= 1,
        ;
    }
    let rows: usize = match outer.checked_mul(indices.len()) {
        Some(rows) => rows,
        None => {
            return None;
        },
    };
    let size: usize = match rows.checked_mul(inner) {
        Some(size) => size,
        None => {
            return None;
        },
    };
    if size > count || (indices.len() > 0 && sizes[axis] == 0) {
        return None;
    }
    proof {
        if indices@.len() == 0 {
            assert(outer * 0 == 0);
            assert(0 * inner == 0);
        }
    }
    let mut p: usize = 0;
    while p < size
        invariant
            p <= size <= count,
            count > 0,
            size == found_size(sizes@, axis as int, indices@),
            axis < sizes@.len(),
            inner == inner_size(sizes@, axis as int),
            indices@.len() > 0 ==> sizes@[axis as int] > 0,
            size > 0 ==> indices@.len() > 0,
            found@.len() == p,
            forall|k: int|
                0 <= k < p ==> #[trigger] source_position(sizes@, axis as int, indices@, k)
                    < elements@.len(),
            forall|k: int|
                0 <= k < p ==> #[trigger] found@[k] == elements@[source_position(
                    sizes@,
                    axis as int,
                    indices@,
                    k,
                )],
        decreases size - p,
    {
        let position = find_position(
            sizes[axis],
            inner,
            indices,
            p,
            Ghost(sizes@),
            Ghost(axis as int),
        );
        match position {
            Some(at) => {
                if at >= elements.len() {
                    assert(!(source_position(sizes@, axis as int, indices@, p as int)
                        < elements@.len()));
                    return None;
                }
                found.push(elements[at]);
            },
            None => {
                assert(elements.len() <= usize::MAX);
                assert(!(source_position(sizes@, axis as int, indices@, p as int)
                    < elements@.len()));
                return None;
            },
        }
        p = p + 1;
    }
    while p < count
        invariant
            size <= p <= count,
            count > 0,
            size == found_size(sizes@, axis as int, indices@),
            found@.len() == p,
            forall|k: int|
                0 <= k < size ==> #[trigger] found@[k] == elements@[source_position(
                    sizes@,
                    axis as int,
                    indices@,
                    k,
                )],
            forall|k: int| size <= k < p ==> #[trigger] found@[k] == ZERO,
        decreases count - p,
    {
        found.push(ZERO);
        p = p + 1;
    }
    assert(found@ =~= gathered(elements@, sizes@, axis as int, indices@, count as nat));
    Some(found)
}

/// The element at an index before the axis, the place of an index along it,
/// and an index behind it is the one of the given elements at the same
/// indices, with the index in that place along the axis.
pub proof fn law_gathered_element(
    elements: Seq<u32>,
    sizes: Seq<usize>,
    axis: int,
    indices: Seq<u32>,
    count: nat,
    before: int,
    place: int,
    behind: int,
)
    requires
        0 <= axis < sizes.len(),
        count > 0,
        can_gather(elements, sizes, axis, indices, count),
        0 <= before < outer_size(sizes, axis),
        0 <= place < indices.len(),
        0 <= behind < inner_size(sizes, axis),
    ensures
        gathered(elements, sizes, axis, indices, count)[(before * indices.len() + place)
            * inner_size(sizes, axis) + behind] == elements[(before * sizes[axis] + normal_index(
            as_i64(indices[place]) as int,
            sizes[axis] as int,
        )) * inner_size(sizes, axis) + behind],
{
    let inner = inner_size(sizes, axis) as int;
    let outer = outer_size(sizes, axis) as int;
    let n = indices.len() as int;
    let row = before * n + place;
    let p = row * inner + behind;
    lemma_fundamental_div_mod_converse(p, inner, row, behind);
    lemma_fundamental_div_mod_converse(row, n, before, place);
    assert(0 <= row < outer * n) by (nonlinear_arith)
        requires
            row == before * n + place,
            0 <= place < n,
            0 <= before < outer,
    ;
    assert(0 <= p < outer * n * inner) by (nonlinear_arith)
        requires
            p == row * inner + behind,
            0 <= behind < inner,
            0 <= row < outer * n,
    ;
    assert(source_position(sizes, axis, indices, p) < elements.len());
}

/// The sizes of what is found at indices along an axis: the indices take the
/// place of the axis.
pub open spec fn gather_sizes(sizes: Seq<usize>, indices: Seq<usize>, axis: int) -> Seq<usize> {
    sizes.subrange(0, axis) + indices + sizes.subrange(axis + 1, sizes.len() as int)
}

/// The sizes, or that of a vector of one element if there are none.
pub open spec fn or_one(sizes: Seq<usize>) -> Seq<usize> {
    if sizes.len() == 0 {
        seq![1usize]
    } else {
        sizes
    }
}

/// The sizes of what is found at indices along an axis.
fn place_sizes(sizes: &Vec<usize>, indices: &Vec<usize>, axis: usize) -> (out: Vec<usize>)
    requires
        axis < sizes@.len(),
    ensures
        out@ == gather_sizes(sizes@, indices@, axis as int),
{
    let mut out = some_sizes(sizes, 0, axis);
    let mut i: usize = 0;
    assert(out@ =~= sizes@.subrange(0, axis as int) + indices@.subrange(0, 0));
    while i < indices.len()
        invariant
            i <= indices@.len(),
            axis < sizes@.len(),
            out@ == sizes@.subrange(0, axis as int) + indices@.subrange(0, i as int),
        decreases indices.len() - i,
    {
        out.push(indices[i]);
        i = i + 1;
        assert(out@ =~= sizes@.subrange(0, axis as int) + indices@.subrange(0, i as int));
    }
    assert(indices@.subrange(0, i as int) =~= indices@);
    assert(axis + 1 <= sizes.len());
    let mut j: usize = axis + 1;
    assert(out@ =~= sizes@.subrange(0, axis as int) + indices@ + sizes@.subrange(axis + 1, axis + 1));
    while j < sizes.len()
        invariant
            axis < j <= sizes@.len(),
            out@ == sizes@.subrange(0, axis as int) + indices@ + sizes@.subrange(
                axis + 1,
                j as int,
            ),
        decreases sizes.len() - j,
    {
        out.push(sizes[j]);
        j = j + 1;
        assert(out@ =~= sizes@.subrange(0, axis as int) + indices@ + sizes@.subrange(
            axis + 1,
            j as int,
        ));
    }
    out
}

proof fn lemma_gather_factors(sizes: Seq<usize>, indices: Seq<usize>, axis: int)
    requires
        0 <= axis < sizes.len(),
        0 < product(gather_sizes(sizes, indices, axis)) <= usize::MAX,
    ensures
        0 < product(sizes.subrange(0, axis)) <= usize::MAX,
        0 < product(sizes.subrange(axis + 1, sizes.len() as int)) <= usize::MAX,
{
    let a = sizes.subrange(0, axis);
    let c = sizes.subrange(axis + 1, sizes.len() as int);
    lemma_product_of_both(a + indices, c);
    lemma_product_of_both(a, indices);
    let x = product(a);
    let y = product(indices);
    let z = product(c);
    assert(0 < x <= x * y * z && 0 < z <= x * y * z) by (nonlinear_arith)
        requires
            x * y * z > 0,
    ;
}

/// The axis that a Gather node takes indices along.
pub open spec fn gather_axis(node: NodeDef, rank: nat) -> int {
    counted(node.int_attr("axis"@, 0), rank)
}

/// Whether the elements of the data and the indices of a Gather node are both
/// known.
pub open spec fn gather_known(node: NodeDef, before: State) -> bool {
    before.known.contains_key(node.inp(0)) && before.known.contains_key(node.inp(1))
}

/// The sizes of the indices of a Gather node, whose elements are known.
pub open spec fn index_sizes(node: NodeDef, before: State) -> Seq<usize> {
    if before.env.contains_key(node.inp(1)) {
        sizes_of(before.env[node.inp(1)].dims())
    } else {
        seq![before.known[node.inp(1)].len() as usize]
    }
}

/// How the import of a Gather node ends whose data and indices are known.
pub open spec fn gather_fold_outcome(node: NodeDef, before: State) -> Outcome {
    let dims = before.env[node.inp(0)].dims();
    let axis = gather_axis(node, dims.len());
    let count = bounded_product(gather_sizes(sizes_of(dims), index_sizes(node, before), axis));
    if node.output@.len() == 0 || !all_known(dims) || !(0 <= axis < dims.len()) {
        Outcome::Rejects
    } else if before.env.contains_key(node.inp(1)) && !all_known(
        before.env[node.inp(1)].dims(),
    ) {
        Outcome::Rejects
    } else if count is None || !can_gather(
        before.known[node.inp(0)],
        sizes_of(dims),
        axis,
        before.known[node.inp(1)],
        count->0 as nat,
    ) {
        Outcome::Rejects
    } else {
        Outcome::Done
    }
}

/// What the import of a Gather node does whose data and indices are known: the
/// output is a named tensor of the elements at the indices.
pub open spec fn gather_folded(node: NodeDef, before: State, after: State) -> bool {
    let sizes = sizes_of(before.env[node.inp(0)].dims());
    let axis = gather_axis(node, sizes.len());
    let out_sizes = gather_sizes(sizes, index_sizes(node, before), axis);
    defined(
        node.out(0),
        or_one(out_sizes),
        gathered(
            before.known[node.inp(0)],
            sizes,
            axis,
            before.known[node.inp(1)],
            bounded_product(out_sizes)->0 as nat,
        ),
        before,
        after,
    )
}

/// The import of a Gather node whose data and indices are known.
fn fold_gather(
    node: &NodeDef,
    x: &GraphTensor,
    elements: &Vec<u32>,
    indices: &Vec<u32>,
    tensors: &mut NameMap<GraphTensor>,
    cx: &mut ComputeGraph,
    weight_data: &mut Vec<(String, Vec<u32>)>,
    known_values: &mut NameMap<Vec<u32>>,
) -> (result: Result<(), Fault>)
    requires
        valid(*old(tensors), *old(cx)),
        node.input@.len() == 2,
        ({
            let before = state(
                *old(tensors),
                *old(cx),
                data(*old(weight_data)),
                values(*old(known_values)),
            );
            &&& before.env.contains_key(node.inp(0))
            &&& gather_known(*node, before)
            &&& x@ == before.tensors[node.inp(0)]
            &&& elements@ == before.known[node.inp(0)]
            &&& indices@ == before.known[node.inp(1)]
        }),
    ensures
        valid(*final(tensors), *final(cx)),
        grows(*old(cx), *final(cx)),
        ({
            let before = state(
                *old(tensors),
                *old(cx),
                data(*old(weight_data)),
                values(*old(known_values)),
            );
            let after = state(
                *final(tensors),
                *final(cx),
                data(*final(weight_data)),
                values(*final(known_values)),
            );
            &&& outcome(result) == gather_fold_outcome(*node, before)
            &&& result is Ok ==> gather_folded(*node, before, after)
        }),
{
    if node.output.len() == 0 {
        return Err(Fault::Rejected);
    }
    let sizes = match known_sizes(x.dims()) {
        Some(sizes) => sizes,
        None => {
            return Err(Fault::Rejected);
        },
    };
    let axis: usize = match count_axis(get_int_attr(node, "axis", 0), sizes.len(), sizes.len()) {
        Some(axis) => axis,
        None => {
            return Err(Fault::Rejected);
        },
    };
    let places = match tensors.get(node.input[1].as_str()) {
        Some(tensor) => match known_sizes(tensor.dims()) {
            Some(places) => places,
            None => {
                return Err(Fault::Rejected);
            },
        },
        None => {
            let places: Vec<usize> = vec![indices.len()];
            assert(places@ =~= seq![indices@.len() as usize]);
            places
        },
    };
    let out_sizes = place_sizes(&sizes, &places, axis);
    let count: usize = match checked_product(&out_sizes) {
        Some(count) => count,
        None => {
            return Err(Fault::Rejected);
        },
    };
    proof {
        if count > 0 {
            lemma_gather_factors(sizes@, places@, axis as int);
        }
    }
    let found = match gather_values(elements, &sizes, axis, indices, count) {
        Some(found) => found,
        None => {
            return Err(Fault::Rejected);
        },
    };
    let shape = if out_sizes.len() == 0 {
        let one: Vec<usize> = vec![1];
        assert(one@ =~= seq![1usize]);
        one
    } else {
        out_sizes
    };
    define(node.output[0].as_str(), &shape, found, tensors, cx, weight_data, known_values);
    Ok(())
}

/// The indices with `size` added to the negative ones.
pub open spec fn normal_indices(indices: Tensor, size: usize) -> Tensor {
    let zero = filled(scalar(ZERO), indices.dims());
    let adjustment = filled(scalar(of_int(size as int)), indices.dims());
    indices.binary(
        Binary::Add,
        indices.binary(Binary::Lt, zero).binary(Binary::Mul, adjustment),
    )
}

/// The whole number as a scalar.
pub open spec fn integer(value: i64) -> Tensor {
    made(Operation::Integer(value), Seq::empty(), Seq::empty())
}

/// The whole numbers from 0 up to `count`.
pub open spec fn offsets(count: usize) -> Tensor {
    made(Operation::Arange(count), Seq::empty(), seq![Dim::Known(count)])
}

/// The flat indices of the elements of the slices at `indices`, each of which
/// has `inner` elements: `index * inner + offset`, in whole numbers.
pub open spec fn flat_indices(indices: Tensor, inner: usize) -> Tensor {
    let rank = indices.dims().len();
    let start = indices.unary(Unary::Cast(DType::Int)).binary(
        Binary::IntMul,
        filled(integer(inner as i64), indices.dims()),
    );
    start.expanded(rank as int, Dim::Known(inner)).binary(
        Binary::IntAdd,
        filled(offsets(inner), indices.dims()),
    )
}

/// The number of elements of a slice along the first axis, if it is
/// representable.
pub open spec fn slice_size(rest: Seq<Dim>) -> Option<usize> {
    bounded_product(sizes_of(rest))
}

/// The slices of `x` along its first axis at `indices`.
pub open spec fn gather_front(x: Tensor, indices: Tensor) -> Tensor {
    let rest = x.dims().subrange(1, x.dims().len() as int);
    let found = x.gather(flat_indices(indices, slice_size(rest)->0));
    if x.dims().len() > 2 {
        found.reshaped(indices.dims() + rest)
    } else {
        found
    }
}

/// The order of `rank` axes that brings `axis` to the front.
pub open spec fn to_front(axis: int, rank: nat) -> Seq<usize> {
    Seq::new(
        rank,
        |i: int|
            if i == 0 {
                axis as usize
            } else if i <= axis {
                (i - 1) as usize
            } else {
                i as usize
            },
    )
}

/// The order of axes that brings the first `count` of them, which stand for
/// `axis` of `rank` axes, back to its place.
pub open spec fn from_front(count: nat, axis: int, rank: nat) -> Seq<usize> {
    Seq::new(
        (count + rank - 1) as nat,
        |i: int|
            if i < axis {
                (count + i) as usize
            } else if i < axis + count {
                (i - axis) as usize
            } else {
                i as usize
            },
    )
}

/// The elements of `x` at `indices` along an axis.
pub open spec fn gather_tensor(x: Tensor, indices: Tensor, axis: int) -> Tensor {
    let rank = x.dims().len();
    let at = normal_indices(indices, x.dims()[axis]->Known_0);
    if rank == 1 {
        x.gather(at.unary(Unary::Cast(DType::Int)))
    } else if axis == 0 {
        gather_front(x, at)
    } else {
        gather_front(x.permuted(to_front(axis, rank)), at).reshaped(
            indices.dims() + x.dims().remove(axis),
        ).permuted(from_front(indices.dims().len(), axis, rank))
    }
}

/// How the import of a Gather node ends whose data or indices are not known.
pub open spec fn gather_dynamic_outcome(node: NodeDef, before: State) -> Outcome {
    let dims = before.env[node.inp(0)].dims();
    let axis = gather_axis(node, dims.len());
    let rest = dims.remove(axis);
    if !before.env.contains_key(node.inp(1)) {
        Outcome::Fails(missing("Gather: missing indices tensor '"@, node.inp(1)))
    } else if !(0 <= axis < dims.len()) {
        Outcome::Rejects
    } else if dims[axis] is Dynamic {
        Outcome::Fails("Gather: axis dimension must be concrete for index normalization"@)
    } else if dims.len() > 1 && !all_known(rest) {
        Outcome::Fails("Gather: inner dimensions must be concrete"@)
    } else if dims.len() > 1 && (slice_size(rest) is None || slice_size(rest)->0 > 0x7fff_ffff) {
        Outcome::Rejects
    } else if (dims.len() > 2 || axis != 0) && !all_known(before.env[node.inp(1)].dims()) {
        Outcome::Rejects
    } else if axis != 0 && before.env[node.inp(1)].dims().len() + dims.len() > usize::MAX {
        Outcome::Rejects
    } else if node.output@.len() == 0 {
        Outcome::Rejects
    } else {
        Outcome::Done
    }
}

/// Adds `size` to the negative indices.
fn add_normal_indices(cx: &mut ComputeGraph, indices: &GraphTensor, size: usize) -> (r: GraphTensor)
    requires
        old(cx).holds(indices@),
    ensures
        grows(*old(cx), *final(cx)),
        final(cx).holds(r@),
        final(cx).meaning(r@) == normal_indices(old(cx).meaning(indices@), size),
        r@.shape.dims == indices@.shape.dims,
{
    let zero_scalar = cx.constant(ZERO);
    assert(cx.meaning(zero_scalar@).shape == zero_scalar@.shape);
    let zero = fill(&zero_scalar, indices.dims(), Ghost(*cx));
    assert(zero@.shape.dims =~= indices@.shape.dims);
    let size_scalar = cx.constant(from_usize(size));
    assert(cx.meaning(size_scalar@).shape == size_scalar@.shape);
    let adjustment = fill(&size_scalar, indices.dims(), Ghost(*cx));
    assert(adjustment@.shape.dims =~= indices@.shape.dims);
    let negative = cx.binary(Binary::Lt, indices, &zero);
    assert(cx.meaning(negative@).shape == negative@.shape);
    let added = cx.binary(Binary::Mul, &negative, &adjustment);
    assert(cx.meaning(added@).shape == added@.shape);
    let r = cx.binary(Binary::Add, indices, &added);
    assert(cx.meaning(r@).shape == r@.shape);
    r
}

/// Adds the flat indices of the elements of slices.
fn add_flat_indices(cx: &mut ComputeGraph, indices: &GraphTensor, inner: usize) -> (r: GraphTensor)
    requires
        old(cx).holds(indices@),
        inner <= 0x7fff_ffff,
    ensures
        grows(*old(cx), *final(cx)),
        final(cx).holds(r@),
        final(cx).meaning(r@) == flat_indices(old(cx).meaning(indices@), inner),
        r@.shape.dims == indices@.shape.dims.push(Dim::Known(inner)),
{
    let whole = cx.unary(Unary::Cast(DType::Int), indices);
    assert(cx.meaning(whole@).shape == whole@.shape);
    let inner_scalar = cx.constant_int(inner as i64);
    assert(cx.meaning(inner_scalar@).shape == inner_scalar@.shape);
    let inner_filled = fill(&inner_scalar, indices.dims(), Ghost(*cx));
    assert(inner_filled@.shape.dims =~= indices@.shape.dims);
    let start = cx.binary(Binary::IntMul, &whole, &inner_filled);
    assert(cx.meaning(start@).shape == start@.shape);
    let start_expanded = start.expand_dim(indices.dims().len(), Dim::Known(inner));
    let range = cx.arange(inner);
    assert(cx.meaning(range@).shape == range@.shape);
    let range_filled = fill(&range, indices.dims(), Ghost(*cx));
    assert(range_filled@.shape.dims =~= indices@.shape.dims.push(Dim::Known(inner)));
    assert(start_expanded@.shape.dims =~= indices@.shape.dims.push(Dim::Known(inner)));
    let r = cx.binary(Binary::IntAdd, &start_expanded, &range_filled);
    assert(cx.meaning(r@).shape == r@.shape);
    r
}

/// The dimensions of `a` followed by those of `b` from axis `from` on.
fn follow(a: &Vec<Dim>, b: &Vec<Dim>, from: usize) -> (both: Vec<Dim>)
    requires
        from <= b@.len(),
    ensures
        both@ == a@ + b@.subrange(from as int, b@.len() as int),
{
    let mut both = copy_dims(a);
    let mut i: usize = from;
    assert(both@ =~= a@ + b@.subrange(from as int, from as int));
    while i < b.len()
        invariant
            from <= i <= b@.len(),
            both@ == a@ + b@.subrange(from as int, i as int),
        decreases b.len() - i,
    {
        both.push(b[i]);
        i = i + 1;
        assert(both@ =~= a@ + b@.subrange(from as int, i as int));
    }
    both
}

/// Adds the slices of `x` along its first axis at `indices`.
fn gather_axis0(cx: &mut ComputeGraph, x: &GraphTensor, indices: &GraphTensor, inner: usize) -> (r:
    GraphTensor)
    requires
        old(cx).holds(x@),
        old(cx).holds(indices@),
        x@.shape.dims.len() >= 2,
        slice_size(x@.shape.dims.subrange(1, x@.shape.dims.len() as int)) == Some(inner),
        inner <= 0x7fff_ffff,
    ensures
        grows(*old(cx), *final(cx)),
        final(cx).holds(r@),
        final(cx).meaning(r@) == gather_front(old(cx).meaning(x@), old(cx).meaning(indices@)),
{
    let flat = add_flat_indices(cx, indices, inner);
    let found = cx.gather(x, &flat);
    if x.dims().len() > 2 {
        found.reshape(follow(indices.dims(), x.dims(), 1))
    } else {
        found
    }
}

/// The axis that is brought to the front, and then the others, are each axis once.
pub proof fn lemma_to_front(dims: Seq<Dim>, axis: int)
    requires
        0 <= axis < dims.len() <= usize::MAX,
    ensures
        is_permutation(to_front(axis, dims.len()), dims.len()),
        ({
            let moved = Seq::new(
                dims.len(),
                |i: int| dims[to_front(axis, dims.len())[i] as int],
            );
            moved.subrange(1, dims.len() as int) == dims.remove(axis)
        }),
{
    let moved = Seq::new(dims.len(), |i: int| dims[to_front(axis, dims.len())[i] as int]);
    assert(moved.subrange(1, dims.len() as int) =~= dims.remove(axis));
}

/// The order that brings the axis back names each axis once.
pub proof fn lemma_from_front(count: nat, axis: int, rank: nat)
    requires
        0 <= axis < rank,
        count + rank <= usize::MAX,
    ensures
        is_permutation(from_front(count, axis, rank), (count + rank - 1) as nat),
{
}

/// The order of axes that brings `axis` to the front.
fn move_to_front(axis: usize, rank: usize) -> (order: Vec<usize>)
    requires
        axis < rank,
    ensures
        order@ == to_front(axis as int, rank as nat),
{
    let mut order: Vec<usize> = Vec::new();
    order.push(axis);
    let mut i: usize = 1;
    while i < rank
        invariant
            1 <= i <= rank,
            axis < rank,
            order@.len() == i,
            forall|k: int| 0 <= k < i ==> #[trigger] order@[k] == to_front(axis as int, rank as nat)[k],
        decreases rank - i,
    {
        if i <= axis {
            order.push(i - 1);
        } else {
            order.push(i);
        }
        i = i + 1;
    }
    assert(order@ =~= to_front(axis as int, rank as nat));
    order
}

/// The order of axes that brings the first `count` of them back to the place
/// of `axis`.
fn move_from_front(count: usize, axis: usize, rank: usize) -> (order: Vec<usize>)
    requires
        axis < rank,
        count + rank <= usize::MAX,
    ensures
        order@ == from_front(count as nat, axis as int, rank as nat),
{
    let mut order: Vec<usize> = Vec::new();
    let mut i: usize = 0;
    while i < count + rank - 1
        invariant
            axis < rank,
            count + rank <= usize::MAX,
            i <= count + rank - 1,
            order@.len() == i,
            forall|k: int|
                0 <= k < i ==> #[trigger] order@[k] == from_front(
                    count as nat,
                    axis as int,
                    rank as nat,
                )[k],
        decreases count + rank - i,
    {
        if i < axis {
            order.push(count + i);
        } else if i < axis + count {
            order.push(i - axis);
        } else {
            order.push(i);
        }
        i = i + 1;
    }
    assert(order@ =~= from_front(count as nat, axis as int, rank as nat));
    order
}

/// The dimensions without that of an axis.
fn drop_axis(dims: &Vec<Dim>, axis: usize) -> (rest: Vec<Dim>)
    requires
        axis < dims@.len(),
    ensures
        rest@ == dims@.remove(axis as int),
{
    let mut rest = copy_dims(dims);
    let _ = rest.remove(axis);
    rest
}

/// Adds the slices of `x` along an axis at indices.
fn gather_slices(
    cx: &mut ComputeGraph,
    x: &GraphTensor,
    indices: &GraphTensor,
    at: &GraphTensor,
    axis: usize,
    rest: &Vec<Dim>,
    inner: usize,
) -> (r: GraphTensor)
    requires
        old(cx).holds(x@),
        old(cx).holds(at@),
        axis < x@.shape.dims.len(),
        x@.shape.dims.len() >= 2,
        x@.shape.dims[axis as int] is Known,
        old(cx).meaning(at@) == normal_indices(
            old(cx).meaning(indices@),
            x@.shape.dims[axis as int]->Known_0,
        ),
        rest@ == x@.shape.dims.remove(axis as int),
        slice_size(rest@) == Some(inner),
        inner <= 0x7fff_ffff,
        axis != 0 ==> indices@.shape.dims.len() + x@.shape.dims.len() <= usize::MAX,
    ensures
        grows(*old(cx), *final(cx)),
        final(cx).holds(r@),
        final(cx).meaning(r@) == gather_tensor(
            old(cx).meaning(x@),
            old(cx).meaning(indices@),
            axis as int,
        ),
{
    let rank: usize = x.dims().len();
    if axis == 0 {
        assert(rest@ =~= x@.shape.dims.subrange(1, rank as int));
        gather_axis0(cx, x, at, inner)
    } else {
        proof {
            lemma_to_front(x@.shape.dims, axis as int);
            lemma_from_front(indices@.shape.dims.len(), axis as int, rank as nat);
        }
        let front = x.permute(&move_to_front(axis, rank));
        assert(front@.shape.dims.subrange(1, rank as int) =~= rest@);
        let found = gather_axis0(cx, &front, at, inner);
        let shaped = found.reshape(follow(indices.dims(), rest, 0));
        assert(rest@.subrange(0, rest@.len() as int) =~= rest@);
        shaped.permute(&move_from_front(indices.dims().len(), axis, rank))
    }
}

/// How the import of a Gather node ends.
pub open spec fn gather_outcome(node: NodeDef, before: State) -> Outcome {
    if node.input@.len() != 2 {
        Outcome::Rejects
    } else if !before.env.contains_key(node.inp(0)) {
        Outcome::Fails(missing("Gather: missing data tensor '"@, node.inp(0)))
    } else if gather_known(node, before) {
        gather_fold_outcome(node, before)
    } else {
        gather_dynamic_outcome(node, before)
    }
}

/// What the import of a Gather node does.
pub open spec fn gather_step(node: NodeDef, before: State, after: State, result: Outcome) -> bool {
    let out = node.out(0);
    let x = before.env[node.inp(0)];
    &&& result == gather_outcome(node, before)
    &&& result is Fails ==> after == before
    &&& result is Done ==> if gather_known(node, before) {
        gather_folded(node, before, after)
    } else {
        &&& after.env == before.env.insert(
            out,
            gather_tensor(x, before.env[node.inp(1)], gather_axis(node, x.dims().len())),
        )
        &&& changed(before.tensors, after.tensors, set![out])
        &&& after.weights == before.weights
        &&& after.known == before.known
    }
}

/// Imports a Gather node: the elements, or for data with more than one axis the
/// slices, at given indices along an axis. Negative indices count from the end
/// of the axis.
pub fn parse_gather_node(
    node: &NodeDef,
    tensors: &mut NameMap<GraphTensor>,
    cx: &mut ComputeGraph,
    weight_data: &mut Vec<(String, Vec<u32>)>,
    known_values: &mut NameMap<Vec<u32>>,
) -> (result: Result<(), String>)
    requires
        valid(*old(tensors), *old(cx)),
        !(gather_outcome(
                *node,
                state(*old(tensors), *old(cx), data(*old(weight_data)), values(*old(known_values))),
            ) is Rejects),
    ensures
        valid(*final(tensors), *final(cx)),
        grows(*old(cx), *final(cx)),
        gather_step(
            *node,
            state(*old(tensors), *old(cx), data(*old(weight_data)), values(*old(known_values))),
            state(
                *final(tensors),
                *final(cx),
                data(*final(weight_data)),
                values(*final(known_values)),
            ),
            ending(result),
        ),
{
    settle(try_gather_node(node, tensors, cx, weight_data, known_values))
}

/// The import of the same nodes, and of those that the operation does not admit.
pub(crate) fn try_gather_node(
    node: &NodeDef,
    tensors: &mut NameMap<GraphTensor>,
    cx: &mut ComputeGraph,
    weight_data: &mut Vec<(String, Vec<u32>)>,
    known_values: &mut NameMap<Vec<u32>>,
) -> (result: Result<(), Fault>)
    requires
        valid(*old(tensors), *old(cx)),
    ensures
        valid(*final(tensors), *final(cx)),
        grows(*old(cx), *final(cx)),
        gather_step(
            *node,
            state(*old(tensors), *old(cx), data(*old(weight_data)), values(*old(known_values))),
            state(
                *final(tensors),
                *final(cx),
                data(*final(weight_data)),
                values(*final(known_values)),
            ),
            outcome(result),
        ),
{
    if node.input.len() != 2 {
        return Err(Fault::Rejected);
    }
    let x = match fetch(tensors, &node.input[0], "Gather: missing data tensor '") {
        Ok(x) => x,
        Err(fault) => {
            return Err(fault);
        },
    };
    if let Some(elements) = recall(known_values, &node.input[0]) {
        if let Some(indices) = recall(known_values, &node.input[1]) {
            return fold_gather(
                node,
                &x,
                &elements,
                &indices,
                tensors,
                cx,
                weight_data,
                known_values,
            );
        }
    }
    let indices = match fetch(tensors, &node.input[1], "Gather: missing indices tensor '") {
        Ok(indices) => indices,
        Err(fault) => {
            return Err(fault);
        },
    };
    let rank: usize = x.dims().len();
    let axis: usize = match count_axis(get_int_attr(node, "axis", 0), rank, rank) {
        Some(axis) => axis,
        None => {
            return Err(Fault::Rejected);
        },
    };
    let size: usize = match x.dims()[axis] {
        Dim::Known(size) => size,
        Dim::Dynamic => {
            return Err(
                Fault::Error(
                    String::from_str(
                        "Gather: axis dimension must be concrete for index normalization",
                    ),
                ),
            );
        },
    };
    let result = if rank == 1 {
        if node.output.len() == 0 {
            return Err(Fault::Rejected);
        }
        let at = add_normal_indices(cx, &indices, size);
        let whole = cx.unary(Unary::Cast(DType::Int), &at);
        cx.gather(&x, &whole)
    } else {
        let rest = drop_axis(x.dims(), axis);
        let rest_sizes = match known_sizes(&rest) {
            Some(rest_sizes) => rest_sizes,
            None => {
                return Err(
                    Fault::Error(String::from_str("Gather: inner dimensions must be concrete")),
                );
            },
        };
        let inner: usize = match checked_product(&rest_sizes) {
            Some(inner) => inner,
            None => {
                return Err(Fault::Rejected);
            },
        };
        if inner > 0x7fff_ffff || node.output.len() == 0 {
            return Err(Fault::Rejected);
        }
        if (rank > 2 || axis != 0) && known_sizes(indices.dims()).is_none() {
            return Err(Fault::Rejected);
        }
        if axis != 0 && indices.dims().len() > usize::MAX - rank {
            return Err(Fault::Rejected);
        }
        let at = add_normal_indices(cx, &indices, size);
        gather_slices(cx, &x, &indices, &at, axis, &rest, inner)
    };
    bind(tensors, cx, node.output[0].as_str(), result);
    Ok(())
}

/// The dimensions of what is found at indices along an axis are those of the
/// data, with those of the indices in the place of the axis.
pub proof fn law_gather_dims(x: Tensor, indices: Tensor, axis: int)
    requires
        0 <= axis < x.dims().len(),
        x.dims().len() > 1 ==> all_known(x.dims().remove(axis)),
        x.dims().len() > 1 ==> slice_size(x.dims().remove(axis)) is Some,
        indices.dims().len() + x.dims().len() <= usize::MAX,
    ensures
        gather_tensor(x, indices, axis).dims() == x.dims().subrange(0, axis) + indices.dims()
            + x.dims().subrange(axis + 1, x.dims().len() as int),
{
    let rank = x.dims().len();
    let dims = x.dims();
    let expected = dims.subrange(0, axis) + indices.dims() + dims.subrange(axis + 1, rank as int);
    if rank == 1 {
        assert(expected =~= indices.dims());
    } else if axis == 0 {
        if rank > 2 {
            assert(expected =~= indices.dims() + dims.subrange(1, rank as int));
        } else {
            let rest = dims.subrange(1, 2);
            assert(rest =~= dims.remove(0));
            assert(rest.len() == 1 && rest[0] is Known);
            let inner = slice_size(rest)->0;
            let single = sizes_of(rest);
            let size = rest[0]->Known_0;
            assert(single.drop_last() =~= Seq::empty());
            assert(single.last() == size);
            assert(bounded_product(single.drop_last()) == Some(1usize));
            assert(1 * size == size);
            assert(bounded_product(single) == Some(size));
            assert(indices.dims().insert(indices.dims().len() as int, rest[0]) =~= expected);
        }
    } else {
        let shaped = indices.dims() + dims.remove(axis);
        let order = from_front(indices.dims().len(), axis, rank);
        assert(Seq::new(order.len(), |i: int| shaped[order[i] as int]) =~= expected);
    }
}

/// The position that a graph computes from an index: `size` is added to negative
/// ones.
pub open spec fn adjusted(index: int, size: int) -> int {
    if index < 0 {
        index + size
    } else {
        index
    }
}

/// A row-major shape reads forward, each element where it is stored.
proof fn lemma_row_major(dims: Seq<Dim>, p: int)
    requires
        all_known(dims),
        dims.len() <= usize::MAX,
        0 <= p < product(sizes_of(dims)),
    ensures
        reads_forward(row_major(dims)),
        read_position(row_major(dims), p) == p,
{
    law_contiguous_reads_in_order(row_major(dims), p);
}

/// The whole numbers of indices with `size` added to the negative ones.
proof fn lemma_normal_value(
    value: spec_fn(Tensor, int) -> int,
    indices: Tensor,
    size: usize,
    p: int,
)
    requires
        computes(value),
        all_known(indices.dims()),
        indices.dims().len() <= usize::MAX,
        0 <= p < product(sizes_of(indices.dims())),
        as_i64(of_int(size as int)) == size,
    ensures
        value(normal_indices(indices, size), p) == adjusted(value(indices, p), size as int),
        value(normal_indices(indices, size).unary(Unary::Cast(DType::Int)), p) == adjusted(
            value(indices, p),
            size as int,
        ),
{
    let dims = indices.dims();
    let zero = filled(scalar(ZERO), dims);
    let adjustment = filled(scalar(of_int(size as int)), dims);
    let negative = indices.binary(Binary::Lt, zero);
    let added = negative.binary(Binary::Mul, adjustment);
    let normal = normal_indices(indices, size);
    lemma_row_major(dims, p);
    law_whole_numbers_survive(0);
    assert(of_int(0) == ZERO);
    assert(computed_at(value, zero, p));
    assert(computed_at(value, adjustment, p));
    assert(computed_at(value, negative, p));
    assert(computed_at(value, added, p));
    assert(computed_at(value, normal, p));
    assert(computed_at(value, normal.unary(Unary::Cast(DType::Int)), p));
    let sign: int = if value(indices, p) < 0 {
        1
    } else {
        0
    };
    assert(value(added, p) == sign * size);
    assert(sign * size == if sign == 1 {
        size as int
    } else {
        0
    }) by (nonlinear_arith)
        requires
            sign == 0 || sign == 1,
    ;
}

/// The flat indices, in whole numbers.
proof fn lemma_flat_value(
    value: spec_fn(Tensor, int) -> int,
    indices: Tensor,
    inner: usize,
    place: int,
    offset: int,
)
    requires
        computes(value),
        all_known(indices.dims()),
        indices.dims().len() < usize::MAX,
        indices.shape == row_major(indices.dims()),
        0 <= place < product(sizes_of(indices.dims())),
        0 <= offset < inner <= i64::MAX,
    ensures
        value(flat_indices(indices, inner), place * inner + offset) == value(indices, place) * inner
            + offset,
{
    let dims = indices.dims();
    let rank = dims.len();
    let p = place * inner + offset;
    let whole = indices.unary(Unary::Cast(DType::Int));
    let factor = filled(integer(inner as i64), dims);
    let start = whole.binary(Binary::IntMul, factor);
    let wide = start.expanded(rank as int, Dim::Known(inner));
    let range = filled(offsets(inner), dims);
    let flat = flat_indices(indices, inner);
    let all = dims.push(Dim::Known(inner));
    lemma_fundamental_div_mod_converse(p, inner as int, place, offset);
    // All positions lie within the tensors.
    let sizes = sizes_of(dims);
    assert(wide.dims() =~= all);
    assert(sizes_of(all) =~= sizes.push(inner));
    assert(sizes.push(inner).drop_last() =~= sizes);
    let count = product(sizes) as int;
    assert(0 <= p < count * inner) by (nonlinear_arith)
        requires
            p == place * inner + offset,
            0 <= place < count,
            0 <= offset < inner,
    ;
    lemma_row_major(dims, place);
    lemma_row_major(all, p);
    assert(flat == wide.binary(Binary::IntAdd, range));
    assert(computed_at(value, flat, p));
    // The starts are repeated along the last axis.
    assert(reads_forward(wide.shape));
    let before = Shape {
        dims: wide.shape.dims.drop_last(),
        places: wide.shape.places.drop_last(),
    };
    assert(before =~= row_major(dims));
    assert(read_position(wide.shape, p) == place);
    assert(computed_at(value, wide, p));
    assert(computed_at(value, whole, place));
    assert(computed_at(value, factor, place));
    assert(value(wide, p) == value(indices, place) * inner);
    // The offsets are repeated along the axes of the indices.
    lemma_led_by(offsets(inner).shape, dims, rank);
    assert(dims.subrange(0, rank as int) =~= dims);
    let repeated = Shape {
        dims: range.shape.dims.drop_last(),
        places: range.shape.places.drop_last(),
    };
    assert(repeated.dims =~= dims);
    assert(range.shape.places.last() == Some(0usize));
    assert forall|i: int| 0 <= i < repeated.places.len() implies (
    #[trigger] repeated.places[i]) is None by {
        assert(range.shape.places[i] is None);
    }
    lemma_repeated_reads_one(repeated, p / inner as int);
    assert(read_position(range.shape, p) == offset);
    assert(reads_forward(range.shape));
    assert(computed_at(value, range, p));
}

/// The position in the data, with the sizes `sizes`, that the tensor of a Gather
/// node reads for its element at position `p`, where `indices` are the sizes of the
/// indices: the element is stored at the place that it has before its axes are
/// brought into their order, and the flat index there is a position in the data
/// with the axis brought to the front.
pub open spec fn graph_source(
    t: Tensor,
    value: spec_fn(Tensor, int) -> int,
    sizes: Seq<usize>,
    indices: Seq<usize>,
    axis: int,
    p: int,
) -> int {
    let rank = sizes.len();
    let at = viewed(indices + sizes.remove(axis), from_front(indices.len(), axis, rank), p);
    viewed(sizes, to_front(axis, rank), value(t.inputs[1], at))
}

/// What the tensor of a Gather node is made of: it finds elements of the data with
/// the axis brought to the front, stores them with the axes of the indices first,
/// and reads them with these in the place of the axis.
pub proof fn lemma_gather_tensor(x: Tensor, indices: Tensor, axis: int)
    requires
        0 <= axis < x.dims().len(),
        x.shape.wf(),
        all_known(x.dims()),
        x.dims().len() > 1 ==> slice_size(x.dims().remove(axis)) is Some,
        indices.dims().len() + x.dims().len() <= usize::MAX,
    ensures
        ({
            let t = gather_tensor(x, indices, axis);
            let rank = x.dims().len();
            let at = normal_indices(indices, x.dims()[axis]->Known_0);
            &&& t.op == Operation::Gather
            &&& t.inputs == seq![
                x.permuted(to_front(axis, rank)),
                if rank == 1 {
                    at.unary(Unary::Cast(DType::Int))
                } else {
                    flat_indices(at, slice_size(x.dims().remove(axis))->0)
                },
            ]
            &&& t.shape == row_major(indices.dims() + x.dims().remove(axis)).permuted(
                from_front(indices.dims().len(), axis, rank),
            )
        }),
{
    let rank = x.dims().len();
    let dims = x.dims();
    let rest = dims.remove(axis);
    let count = indices.dims().len();
    let stored = row_major(indices.dims() + rest);
    let t = gather_tensor(x, indices, axis);
    if axis == 0 {
        assert(x.permuted(to_front(0, rank)).shape =~= x.shape);
        assert(stored.permuted(from_front(count, 0, rank)) =~= stored);
        assert(dims.subrange(1, rank as int) =~= rest);
        if rank == 1 {
            assert(indices.dims() + rest =~= indices.dims());
        } else if rank == 2 {
            let single = sizes_of(rest);
            let size = rest[0]->Known_0;
            assert(rest[0] is Known);
            assert(single.drop_last() =~= Seq::empty());
            assert(single.last() == size);
            assert(bounded_product(single.drop_last()) == Some(1usize));
            assert(1 * size == size);
            assert(bounded_product(single) == Some(size));
            assert(count == normal_indices(indices, dims[0]->Known_0).dims().len());
            assert(indices.dims().insert(count as int, rest[0]) =~= indices.dims() + rest);
        }
    } else {
        let front = x.permuted(to_front(axis, rank));
        assert(front.dims().subrange(1, rank as int) =~= rest);
    }
    assert(t.inputs =~= seq![
        x.permuted(to_front(axis, rank)),
        if rank == 1 {
            normal_indices(indices, dims[axis]->Known_0).unary(Unary::Cast(DType::Int))
        } else {
            flat_indices(normal_indices(indices, dims[axis]->Known_0), slice_size(rest)->0)
        },
    ]);
}

/// The tensor of a Gather node reads, for each position, the element of the data
/// that is found for it when data and indices are known.
proof fn lemma_graph_source(
    x: Tensor,
    indices: Tensor,
    axis: int,
    value: spec_fn(Tensor, int) -> int,
    numbers: Seq<u32>,
    p: int,
)
    requires
        0 <= axis < x.dims().len(),
        x.shape.wf(),
        all_known(x.dims()),
        all_known(indices.dims()),
        x.dims().len() > 1 ==> slice_size(x.dims().remove(axis)) is Some && slice_size(
            x.dims().remove(axis),
        )->0 <= 0x7fff_ffff,
        indices.dims().len() + x.dims().len() <= usize::MAX,
        numbers.len() == product(sizes_of(indices.dims())),
        computes(value),
        reads_back(x.dims()[axis]->Known_0),
        forall|j: int|
            0 <= j < numbers.len() ==> value(indices, j) == as_i64(#[trigger] numbers[j]) && -(
            x.dims()[axis]->Known_0 as int) <= as_i64(numbers[j]) < x.dims()[axis]->Known_0,
        0 <= p < product(gather_sizes(sizes_of(x.dims()), sizes_of(indices.dims()), axis)),
    ensures
        graph_source(
            gather_tensor(x, indices, axis),
            value,
            sizes_of(x.dims()),
            sizes_of(indices.dims()),
            axis,
            p,
        ) == source_position(sizes_of(x.dims()), axis, numbers, p),
        p < found_size(sizes_of(x.dims()), axis, numbers),
{
    let dims = x.dims();
    let rank = dims.len();
    let sizes = sizes_of(dims);
    let places = sizes_of(indices.dims());
    let a = sizes.subrange(0, axis);
    let b = sizes.subrange(axis + 1, rank as int);
    let n = sizes[axis] as int;
    let one = seq![sizes[axis]];
    lemma_gather_tensor(x, indices, axis);
    let t = gather_tensor(x, indices, axis);
    // The position, taken apart.
    let outer = product(a) as int;
    let count = product(places) as int;
    let inner = product(b) as int;
    lemma_product_of_both(a + places, b);
    lemma_product_of_both(a, places);
    assert(outer > 0 && count > 0 && inner > 0) by (nonlinear_arith)
        requires
            0 <= p < outer * count * inner,
            outer >= 0,
            count >= 0,
            inner >= 0,
    ;
    let row = p / inner;
    let behind = p % inner;
    lemma_fundamental_div_mod(p, inner);
    lemma_mod_bound(p, inner);
    assert(0 <= row < outer * count) by (nonlinear_arith)
        requires
            p == inner * row + behind,
            0 <= behind < inner,
            0 <= p < outer * count * inner,
    ;
    let before = row / count;
    let place = row % count;
    lemma_fundamental_div_mod(row, count);
    lemma_mod_bound(row, count);
    assert(0 <= before < outer) by (nonlinear_arith)
        requires
            row == count * before + place,
            0 <= place < count,
            0 <= row < outer * count,
    ;
    assert(p == (before * count + place) * inner + behind) by (nonlinear_arith)
        requires
            p == inner * row + behind,
            row == count * before + place,
    ;
    // Where the element is stored.
    let back = from_front(places.len(), axis, rank);
    assert(back =~= blocks_exchanged(places.len(), a.len(), b.len()));
    assert(places + sizes.remove(axis) =~= places + a + b);
    lemma_blocks_exchanged(places, a, b, place, before, behind);
    let at = (place * outer + before) * inner + behind;
    assert(viewed(places + sizes.remove(axis), back, p) == at);
    // The flat index there.
    let number = as_i64(numbers[place]) as int;
    let found = adjusted(number, n);
    assert(value(indices, place) == number);
    let normal = normal_indices(indices, sizes[axis]);
    lemma_normal_value(value, indices, sizes[axis], place);
    let flat = (found * outer + before) * inner + behind;
    let each = outer * inner;
    let offset = before * inner + behind;
    assert(0 <= offset < each && at == place * each + offset && flat == found * each + offset)
        by (nonlinear_arith)
        requires
            at == (place * outer + before) * inner + behind,
            flat == (found * outer + before) * inner + behind,
            each == outer * inner,
            offset == before * inner + behind,
            0 <= before < outer,
            0 <= behind < inner,
    ;
    let rest = dims.remove(axis);
    if rank == 1 {
        assert(a =~= Seq::empty() && b =~= Seq::empty());
        assert(outer == 1 && inner == 1 && each == 1);
    } else {
        assert(sizes_of(rest) =~= a + b);
        lemma_product_of_both(a, b);
        lemma_bounded_product(sizes_of(rest));
        assert(slice_size(rest)->0 == each);
        lemma_flat_value(value, normal, slice_size(rest)->0, place, offset);
    }
    assert(value(t.inputs[1], at) == flat);
    // The position in the data.
    let order = to_front(axis, rank);
    assert(order =~= blocks_exchanged(a.len(), one.len(), b.len()));
    assert(sizes =~= a + one + b);
    reveal_with_fuel(product, 2);
    assert(one.drop_last() =~= Seq::empty());
    assert(product(one) == 1 * n);
    lemma_blocks_exchanged(a, one, b, before, found, behind);
    if number < 0 {
        lemma_fundamental_div_mod_converse(number, n, -1, number + n);
    } else {
        lemma_fundamental_div_mod_converse(number, n, 0, number);
    }
}

/// Of two imports of a Gather node on data and indices with the same sizes, one with
/// both known and one without, both end in the same sizes, and for each position of
/// the output the known element is the one that the tensor of the other reads, where
/// its indices are computed in whole numbers and are those that are known. The sizes
/// of a single element are 1, if it is known, and none, if it is not.
pub proof fn law_known_and_computed_gather_agree(
    node: NodeDef,
    known: State,
    known_after: State,
    open: State,
    open_after: State,
    value: spec_fn(Tensor, int) -> int,
)
    requires
        gather_step(node, known, known_after, Outcome::Done),
        gather_step(node, open, open_after, Outcome::Done),
        gather_known(node, known),
        !gather_known(node, open),
        known.env.contains_key(node.inp(1)),
        known.env[node.inp(0)].dims() == open.env[node.inp(0)].dims(),
        known.env[node.inp(1)].dims() == open.env[node.inp(1)].dims(),
        open.env[node.inp(0)].shape.wf(),
        open.env[node.inp(0)].dims().len() + open.env[node.inp(1)].dims().len() <= usize::MAX,
        known.known[node.inp(1)].len() == product(sizes_of(open.env[node.inp(1)].dims())),
        computes(value),
        ({
            let dims = open.env[node.inp(0)].dims();
            let size = dims[gather_axis(node, dims.len())]->Known_0;
            &&& reads_back(size)
            &&& forall|j: int|
                0 <= j < known.known[node.inp(1)].len() ==> {
                    let number = as_i64(#[trigger] known.known[node.inp(1)][j]);
                    value(open.env[node.inp(1)], j) == number && -(size as int) <= number < size
                }
        }),
    ensures
        ({
            let x = open.env[node.inp(0)];
            let sizes = sizes_of(x.dims());
            let indices = sizes_of(open.env[node.inp(1)].dims());
            let axis = gather_axis(node, sizes.len());
            let found = gather_sizes(sizes, indices, axis);
            let t = open_after.env[node.out(0)];
            &&& t.dims() == known_dims(found)
            &&& known_after.env[node.out(0)].dims() == known_dims(or_one(found))
            &&& t.op == Operation::Gather
            &&& t.inputs[0] == x.permuted(to_front(axis, sizes.len()))
            &&& t.shape == row_major(known_dims(indices + sizes.remove(axis))).permuted(
                from_front(indices.len(), axis, sizes.len()),
            )
            &&& forall|p: int|
                0 <= p < product(found) ==> {
                    let source = #[trigger] graph_source(t, value, sizes, indices, axis, p);
                    &&& source == source_position(sizes, axis, known.known[node.inp(1)], p)
                    &&& known_after.known[node.out(0)][p] == known.known[node.inp(0)][source]
                }
            &&& open_after.weights == open.weights
            &&& open_after.known == open.known
        }),
{
    let x = open.env[node.inp(0)];
    let at = open.env[node.inp(1)];
    let dims = x.dims();
    let sizes = sizes_of(dims);
    let indices = sizes_of(at.dims());
    let axis = gather_axis(node, sizes.len());
    let found = gather_sizes(sizes, indices, axis);
    let t = open_after.env[node.out(0)];
    let numbers = known.known[node.inp(1)];
    assert(index_sizes(node, known) == indices);
    law_gather_dims(x, at, axis);
    lemma_gather_tensor(x, at, axis);
    assert(t.dims() =~= known_dims(found)) by {
        assert(dims =~= known_dims(sizes));
        assert(at.dims() =~= known_dims(indices));
    }
    assert(at.dims() + dims.remove(axis) =~= known_dims(indices + sizes.remove(axis)));
    assert forall|p: int| 0 <= p < product(found) implies {
        let source = #[trigger] graph_source(t, value, sizes, indices, axis, p);
        &&& source == source_position(sizes, axis, numbers, p)
        &&& known_after.known[node.out(0)][p] == known.known[node.inp(0)][source]
    } by {
        lemma_graph_source(x, at, axis, value, numbers, p);
        lemma_bounded_product(found);
    }
}

} // verus!

//! The elements that a Gather node finds at indices along an axis.

#[allow(unused_imports)]
use crate::bits::{as_i64, of_int, ZERO};
#[allow(unused_imports)]
use crate::compose::filled;
#[allow(unused_imports)]
use crate::graph::{scalar, Binary, DType, Operation, Tensor, Unary};
#[allow(unused_imports)]
use crate::laws::products::lemma_led;
#[allow(unused_imports)]
use crate::ops::gather::{
    can_gather, flat_indices, found_size, from_front, gather_axis, gather_sizes, gather_step,
    gather_tensor, inner_size, integer, law_gather_dims, law_gathered_element, lemma_from_front,
    lemma_gather_tensor, lemma_to_front, normal_index, normal_indices, offsets, outer_size,
    slice_size, source_position, to_front,
};
#[allow(unused_imports)]
use crate::proto::NodeDef;
#[allow(unused_imports)]
use crate::reading::{
    index_at, lemma_position_of_both, lemma_position_within, lemma_within_both, position_at, within,
};
#[allow(unused_imports)]
use crate::shape::{
    all_known, known_dims, lemma_bounded_product, lemma_product_is_bounded, lemma_product_of_both,
    product, row_major, sizes_of, Dim,
};
#[allow(unused_imports)]
use crate::state::{Outcome, State};
#[allow(unused_imports)]
use crate::values::{
    at, equals, has_index, is_sound, lemma_binary, lemma_expanded, lemma_number_of_int,
    lemma_numbers, lemma_permuted, lemma_row_major_place, lemma_unary, number, sizes, stored, whole,
    Numbers,
};
#[allow(unused_imports)]
use vstd::arithmetic::div_mod::{
    lemma_fundamental_div_mod, lemma_fundamental_div_mod_converse, lemma_mod_bound,
};
use vstd::prelude::*;

verus! {

/// Whether whole numbers stay what they are when they are cast to whole numbers.
pub open spec fn keeps_whole(m: Numbers) -> bool {
    forall|x: real, i: int| #[trigger] equals(x, i) ==> (m.cast)(DType::Int, x) == x
}

/// The position among `size` ones that an index stands for: negative ones count from
/// behind the last.
pub open spec fn found_at(i: int, size: int) -> int {
    if i < 0 {
        i + size
    } else {
        i
    }
}

proof fn lemma_normal(m: Numbers, indices: Tensor, size: usize, j: Seq<int>, i: int)
    requires
        is_sound(indices.shape),
        has_index(indices, j),
        size <= 0x100_0000,
        at(m, indices, j) == i as real,
    ensures
        normal_indices(indices, size).dims() == indices.dims(),
        normal_indices(indices, size).shape == row_major(indices.dims()),
        at(m, normal_indices(indices, size), j) == found_at(i, size as int) as real,
{
    let none = Seq::<int>::empty();
    let dims = indices.dims();
    lemma_row_major_place(Seq::empty(), none);
    assert(j + none =~= j);
    let zero = filled(scalar(ZERO), dims);
    let adjustment = filled(scalar(of_int(size as int)), dims);
    lemma_led(m, scalar(ZERO), dims, j, none);
    lemma_led(m, scalar(of_int(size as int)), dims, j, none);
    assert(zero.dims() =~= dims);
    assert(adjustment.dims() =~= dims);
    lemma_numbers();
    lemma_number_of_int(size as int);
    lemma_binary(m, indices, Binary::Lt, zero, j);
    let below = indices.binary(Binary::Lt, zero);
    lemma_binary(m, below, Binary::Mul, adjustment, j);
    lemma_binary(m, indices, Binary::Add, below.binary(Binary::Mul, adjustment), j);
    let s = size as real;
    assert(1real * s == s && 0real * s == 0real) by (nonlinear_arith);
}

proof fn lemma_flat(m: Numbers, indices: Tensor, inner: usize, j: Seq<int>, i: int, o: int)
    requires
        is_sound(indices.shape),
        has_index(indices, j),
        indices.dims().len() < usize::MAX,
        inner <= 0x7fff_ffff,
        0 <= o < inner,
        keeps_whole(m),
        at(m, indices, j) == i as real,
    ensures
        flat_indices(indices, inner).dims() == indices.dims().push(Dim::Known(inner)),
        flat_indices(indices, inner).shape == row_major(
            flat_indices(indices, inner).dims(),
        ),
        at(m, flat_indices(indices, inner), j.push(o)) == (i * inner + o) as real,
{
    let dims = indices.dims();
    let rank = dims.len();
    let none = Seq::<int>::empty();
    lemma_row_major_place(Seq::empty(), none);
    assert(j + none =~= j);
    let factor = filled(integer(inner as i64), dims);
    lemma_led(m, integer(inner as i64), dims, j, none);
    assert(factor.dims() =~= dims);
    lemma_unary(m, indices, Unary::Cast(DType::Int), j);
    let cast = indices.unary(Unary::Cast(DType::Int));
    assert(equals(i as real, i));
    lemma_binary(m, cast, Binary::IntMul, factor, j);
    let start = cast.binary(Binary::IntMul, factor);
    lemma_row_major_place(dims, j);
    lemma_expanded(m, start, rank as int, Dim::Known(inner), j, o);
    assert(j.insert(rank as int, o) =~= j.push(o));
    let wide = start.expanded(rank as int, Dim::Known(inner));
    assert(wide.dims() =~= dims.push(Dim::Known(inner)));
    let range = filled(offsets(inner), dims);
    let one = seq![o];
    let single = seq![Dim::Known(inner)];
    lemma_row_major_place(single, one);
    lemma_led(m, offsets(inner), dims, j, one);
    assert(j + one =~= j.push(o));
    assert(range.dims() =~= wide.dims());
    assert(sizes_of(single) =~= seq![inner]);
    assert(seq![inner].drop_last() =~= Seq::empty());
    reveal_with_fuel(position_at, 2);
    assert(0 * inner == 0);
    assert(at(m, offsets(inner), one) == o as real);
    assert(has_index(wide, j.push(o))) by {
        assert(sizes(wide) =~= sizes(indices).push(inner));
        assert forall|k: int| 0 <= k < sizes(wide).len() implies 0 <= #[trigger] j.push(o)[k]
            < sizes(wide)[k] by {
            if k < rank {
                assert(0 <= j[k] < sizes(indices)[k]);
            }
        }
        assert forall|k: int| 0 <= k < wide.dims().len() implies (
        #[trigger] wide.dims()[k]) is Known by {
            if k < rank {
                assert(dims[k] is Known);
            }
        }
    }
    lemma_binary(m, wide, Binary::IntAdd, range, j.push(o));
    let n = inner as real;
    assert(i as real * n == (i * inner) as real) by (nonlinear_arith)
        requires
            n == inner as real,
    ;
}

proof fn lemma_whole(i: int)
    ensures
        whole(i as real) == i,
{
    assert(equals(i as real, i));
}

/// What lies in the data at an index whose axis is brought to the front.
proof fn lemma_front(
    m: Numbers,
    x: Tensor,
    axis: int,
    lead: Seq<int>,
    i: int,
    behind: Seq<int>,
)
    requires
        is_sound(x.shape),
        0 <= axis < x.dims().len(),
        has_index(x, lead.push(i) + behind),
        lead.len() == axis,
    ensures
        ({
            let front = x.permuted(to_front(axis, x.dims().len()));
            let rest = sizes(x).remove(axis);
            let flat = i * product(rest) + position_at(rest, lead + behind);
            &&& within(rest, lead + behind)
            &&& at(m, front, index_at(sizes(front), flat)) == at(m, x, lead.push(i) + behind)
        }),
{
    let dims = x.dims();
    let rank = dims.len();
    let order = to_front(axis, rank);
    let front = x.permuted(order);
    let rest = sizes(x).remove(axis);
    let index = lead.push(i) + behind;
    let others = lead + behind;
    lemma_to_front(dims, axis);
    lemma_permuted(m, x, order, index);
    let moved = Seq::new(order.len(), |k: int| index[order[k] as int]);
    let head = seq![i];
    assert(moved =~= head + others);
    let first = seq![sizes(x)[axis]];
    assert(sizes(front) =~= first + rest);
    assert(within(rest, others)) by {
        assert forall|k: int| 0 <= k < rest.len() implies 0 <= #[trigger] others[k] < rest[k] by {
            if k < axis {
                assert(0 <= index[k] < sizes(x)[k]);
            } else {
                assert(0 <= index[k + 1] < sizes(x)[k + 1]);
            }
        }
    }
    assert(0 <= index[axis] < sizes(x)[axis]);
    assert(within(first, head));
    lemma_within_both(first, rest, head, others);
    lemma_position_of_both(first, rest, head, others);
    lemma_position_within(first + rest, head + others);
    assert(first.drop_last() =~= Seq::empty());
    reveal_with_fuel(position_at, 2);
    assert(0 * sizes(x)[axis] == 0);
    assert(position_at(first, head) == i);
}

/// What is stored where the indices hold the position of a number.
proof fn lemma_stored(m: Numbers, u: Tensor, s: int, jo: Seq<int>, flat: int)
    requires
        u.op == Operation::Gather,
        u.inputs.len() == 2,
        index_at(sizes(u.inputs[1]), s) == jo,
        at(m, u.inputs[1], jo) == flat as real,
    ensures
        stored(m, u, s) == at(m, u.inputs[0], index_at(sizes(u.inputs[0]), flat)),
{
    lemma_whole(flat);
}

/// Where the tensor of a Gather node stores an element: the axes of the indices come
/// first, and then the others of the data.
proof fn lemma_gather_place(
    m: Numbers,
    x: Tensor,
    indices: Tensor,
    axis: int,
    lead: Seq<int>,
    j: Seq<int>,
    behind: Seq<int>,
)
    requires
        x.shape.wf(),
        0 <= axis < x.dims().len(),
        all_known(x.dims()),
        x.dims().len() + indices.dims().len() <= usize::MAX,
        x.dims().len() > 1 ==> slice_size(x.dims().remove(axis)) is Some,
        lead.len() == axis,
        lead.len() + behind.len() == x.dims().len() - 1,
        j.len() == indices.dims().len(),
    ensures
        ({
            let t = gather_tensor(x, indices, axis);
            let rest = sizes(x).remove(axis);
            at(m, t, lead + j + behind) == stored(
                m,
                t,
                position_at(sizes(indices), j) * product(rest) + position_at(rest, lead + behind),
            )
        }),
{
    let rank = x.dims().len();
    let count = indices.dims().len();
    let rest = x.dims().remove(axis);
    let others = lead + behind;
    assert(sizes_of(rest) =~= sizes(x).remove(axis));
    let t = gather_tensor(x, indices, axis);
    lemma_gather_tensor(x, indices, axis);
    let shaped = indices.dims() + rest;
    let u = Tensor { shape: row_major(shaped), ..t };
    let order = from_front(count, axis, rank);
    let w = j + others;
    lemma_from_front(count, axis, rank);
    lemma_row_major_place(shaped, w);
    lemma_permuted(m, u, order, w);
    assert(Seq::new(order.len(), |k: int| w[order[k] as int]) =~= lead + j + behind);
    assert(sizes_of(shaped) =~= sizes(indices) + sizes_of(rest));
    lemma_position_of_both(sizes(indices), sizes_of(rest), j, others);
}

/// The tensor of a Gather node has, where the indices have a number, the numbers of the
/// data in that position along the axis.
proof fn lemma_gathered(
    m: Numbers,
    x: Tensor,
    indices: Tensor,
    axis: int,
    lead: Seq<int>,
    j: Seq<int>,
    behind: Seq<int>,
    i: int,
)
    requires
        is_sound(x.shape),
        is_sound(indices.shape),
        0 <= axis < x.dims().len(),
        x.dims().len() + indices.dims().len() <= usize::MAX,
        sizes(x)[axis] <= 0x100_0000,
        x.dims().len() > 1 ==> slice_size(x.dims().remove(axis)) is Some && slice_size(
            x.dims().remove(axis),
        )->0 <= 0x7fff_ffff,
        keeps_whole(m),
        lead.len() == axis,
        has_index(indices, j),
        at(m, indices, j) == i as real,
        has_index(x, lead.push(found_at(i, sizes(x)[axis] as int)) + behind),
    ensures
        at(m, gather_tensor(x, indices, axis), lead + j + behind) == at(
            m,
            x,
            lead.push(found_at(i, sizes(x)[axis] as int)) + behind,
        ),
{
    let rank = x.dims().len();
    let size = sizes(x)[axis];
    assert(x.dims()[axis] is Known);
    let q = found_at(i, size as int);
    let rest = x.dims().remove(axis);
    let others = lead + behind;
    assert(sizes_of(rest) =~= sizes(x).remove(axis));
    lemma_front(m, x, axis, lead, q, behind);
    lemma_position_within(sizes_of(rest), others);
    lemma_gather_place(m, x, indices, axis, lead, j, behind);
    let t = gather_tensor(x, indices, axis);
    lemma_gather_tensor(x, indices, axis);
    let o = position_at(sizes_of(rest), others);
    let inner = product(sizes_of(rest)) as int;
    let p = position_at(sizes(indices), j);
    let s = p * inner + o;
    // What is found at the position.
    let adapted = normal_indices(indices, size);
    lemma_normal(m, indices, size, j, i);
    lemma_row_major_place(indices.dims(), j);
    let b = t.inputs[1];
    let flat = q * inner + o;
    if rank == 1 {
        assert(rest =~= Seq::empty());
        assert(others =~= Seq::empty());
        assert(inner == 1 && o == 0);
        assert(q * 1 == q && p * 1 == p);
        lemma_unary(m, adapted, Unary::Cast(DType::Int), j);
        assert(equals(q as real, q));
        lemma_position_within(sizes(indices), j);
        assert(sizes(b) =~= sizes(indices));
        lemma_stored(m, t, s, j, flat);
    } else {
        let width = slice_size(rest)->0;
        lemma_bounded_product(sizes_of(rest));
        lemma_flat(m, adapted, width, j, q, o);
        lemma_at_offset(sizes(indices), width, j, o);
        assert(sizes(b) =~= sizes(indices).push(width));
        lemma_stored(m, t, s, j.push(o), flat);
    }
}

/// The position of an element of a slice.
proof fn lemma_at_offset(lengths: Seq<usize>, width: usize, j: Seq<int>, o: int)
    requires
        within(lengths, j),
        0 <= o < width,
    ensures
        index_at(lengths.push(width), position_at(lengths, j) * width + o) == j.push(o),
{
    let single = seq![width];
    let one = seq![o];
    assert(j + one =~= j.push(o));
    assert(lengths + single =~= lengths.push(width));
    lemma_within_both(lengths, single, j, one);
    lemma_position_of_both(lengths, single, j, one);
    lemma_position_within(lengths + single, j + one);
    assert(single.drop_last() =~= Seq::empty());
    reveal_with_fuel(position_at, 2);
    reveal_with_fuel(product, 2);
    assert(0 * width == 0 && 1 * width == width);
}

/// Whether `axis` is the one that a Gather node names.
pub open spec fn gathers_along(node: NodeDef, rank: nat, axis: int) -> bool {
    &&& 0 <= axis < rank
    &&& node.int_attr("axis"@, 0) == axis || node.int_attr("axis"@, 0) == axis - rank
}

/// A Gather node whose elements or indices are not known is done. Its output has the
/// sizes of the data, with those of the indices in the place of the axis, and where the
/// indices have a number at an index, the output has there the numbers of the data in
/// that position along the axis. Negative numbers count from behind the last position.
pub proof fn law_gather_node(
    m: Numbers,
    node: NodeDef,
    before: State,
    after: State,
    result: Outcome,
    axis: int,
    lead: Seq<int>,
    j: Seq<int>,
    behind: Seq<int>,
    i: int,
)
    requires
        gather_step(node, before, after, result),
        node.input@.len() == 2,
        node.output@.len() > 0,
        before.env.contains_key(node.inp(0)),
        before.env.contains_key(node.inp(1)),
        !(before.known.contains_key(node.inp(0)) && before.known.contains_key(node.inp(1))),
        is_sound(before.env[node.inp(0)].shape),
        is_sound(before.env[node.inp(1)].shape),
        gathers_along(node, before.env[node.inp(0)].dims().len(), axis),
        before.env[node.inp(0)].dims().len() + before.env[node.inp(1)].dims().len() <= usize::MAX,
        sizes(before.env[node.inp(0)])[axis] <= 0x100_0000,
        before.env[node.inp(0)].dims().len() > 1 ==> product(
            sizes(before.env[node.inp(0)]).remove(axis),
        ) <= 0x7fff_ffff,
        keeps_whole(m),
        lead.len() == axis,
        has_index(before.env[node.inp(1)], j),
        at(m, before.env[node.inp(1)], j) == i as real,
        has_index(
            before.env[node.inp(0)],
            lead.push(found_at(i, sizes(before.env[node.inp(0)])[axis] as int)) + behind,
        ),
    ensures
        result is Done,
        ({
            let x = before.env[node.inp(0)];
            let t = after.env[node.out(0)];
            let size = sizes(x)[axis] as int;
            &&& t.dims() == x.dims().subrange(0, axis) + before.env[node.inp(1)].dims()
                + x.dims().subrange(axis + 1, x.dims().len() as int)
            &&& at(m, t, lead + j + behind) == at(m, x, lead.push(found_at(i, size)) + behind)
        }),
{
    let x = before.env[node.inp(0)];
    let indices = before.env[node.inp(1)];
    let dims = x.dims();
    let rank = dims.len();
    assert(dims[axis] is Known);
    let q = found_at(i, sizes(x)[axis] as int);
    let rest = dims.remove(axis);
    assert(sizes_of(rest) =~= sizes(x).remove(axis));
    assert(all_known(rest)) by {
        assert forall|k: int| 0 <= k < rest.len() implies (#[trigger] rest[k]) is Known by {
            if k < axis {
                assert(dims[k] is Known);
            } else {
                assert(dims[k + 1] is Known);
            }
        }
    }
    lemma_front(m, x, axis, lead, q, behind);
    lemma_position_within(sizes_of(rest), lead + behind);
    if rank > 1 {
        lemma_product_is_bounded(sizes_of(rest));
    }
    assert(gather_axis(node, rank) == axis);
    law_gather_dims(x, indices, axis);
    lemma_gathered(m, x, indices, axis, lead, j, behind, i);
}

/// A Gather node whose data and indices are known is done. The elements of its output
/// are known and its data, and those at an index of the indices are the elements of the
/// data in the position that the number there stands for: the one that is as many whole
/// lengths of the axis away from it as it takes to be a position on the axis.
pub proof fn law_known_gather_node(
    node: NodeDef,
    before: State,
    after: State,
    result: Outcome,
    axis: int,
    lead: Seq<int>,
    j: Seq<int>,
    behind: Seq<int>,
    q: int,
    turns: int,
)
    requires
        gather_step(node, before, after, result),
        node.input@.len() == 2,
        node.output@.len() > 0,
        before.env.contains_key(node.inp(0)),
        before.env.contains_key(node.inp(1)),
        before.known.contains_key(node.inp(0)),
        before.known.contains_key(node.inp(1)),
        gathers_along(node, before.env[node.inp(0)].dims().len(), axis),
        before.known[node.inp(0)].len() == product(sizes(before.env[node.inp(0)])),
        before.known[node.inp(1)].len() == product(sizes(before.env[node.inp(1)])),
        product(
            sizes(before.env[node.inp(0)]).subrange(0, axis) + sizes(before.env[node.inp(1)])
                + sizes(before.env[node.inp(0)]).subrange(
                axis + 1,
                before.env[node.inp(0)].dims().len() as int,
            ),
        ) <= usize::MAX,
        lead.len() == axis,
        has_index(before.env[node.inp(1)], j),
        has_index(before.env[node.inp(0)], lead.push(q) + behind),
        as_i64(before.known[node.inp(1)][position_at(sizes(before.env[node.inp(1)]), j)]) == q
            + turns * sizes(before.env[node.inp(0)])[axis],
    ensures
        result is Done,
        ({
            let x = sizes(before.env[node.inp(0)]);
            let lengths = x.subrange(0, axis) + sizes(before.env[node.inp(1)]) + x.subrange(
                axis + 1,
                x.len() as int,
            );
            let v = after.known[node.out(0)];
            &&& after.env[node.out(0)].dims() == known_dims(
                if lengths.len() == 0 {
                    seq![1usize]
                } else {
                    lengths
                },
            )
            &&& after.weights == before.weights.push((node.out(0), v))
            &&& v.len() == product(lengths)
            &&& v[position_at(lengths, lead + j + behind)] == before.known[node.inp(0)][position_at(
                x,
                lead.push(q) + behind,
            )]
        }),
{
    let x = sizes(before.env[node.inp(0)]);
    let p = sizes(before.env[node.inp(1)]);
    let rank = x.len() as int;
    let a = x.subrange(0, axis);
    let b = x.subrange(axis + 1, rank);
    let one = seq![x[axis]];
    let n = x[axis] as int;
    let elements = before.known[node.inp(0)];
    let indices = before.known[node.inp(1)];
    let index = lead.push(q) + behind;
    assert(within(a, lead)) by {
        assert forall|k: int| 0 <= k < a.len() implies 0 <= #[trigger] lead[k] < a[k] by {
            assert(0 <= index[k] < x[k]);
        }
    }
    assert(within(b, behind)) by {
        assert forall|k: int| 0 <= k < b.len() implies 0 <= #[trigger] behind[k] < b[k] by {
            assert(0 <= index[axis + 1 + k] < x[axis + 1 + k]);
        }
    }
    assert(0 <= index[axis] < x[axis]);
    lemma_position_within(a, lead);
    lemma_position_within(p, j);
    lemma_position_within(b, behind);
    let outer = product(a) as int;
    let count = product(p) as int;
    let inner = product(b) as int;
    // The positions, taken apart.
    lemma_product_of_both(a + p, b);
    lemma_product_of_both(a, p);
    lemma_position_of_both(a + p, b, lead + j, behind);
    lemma_position_of_both(a, p, lead, j);
    let head = seq![q];
    assert(a + one + b =~= x);
    assert(lead + head + behind =~= index);
    lemma_position_of_both(a + one, b, lead + head, behind);
    lemma_position_of_both(a, one, lead, head);
    lemma_product_of_both(a + one, b);
    lemma_product_of_both(a, one);
    assert(one.drop_last() =~= Seq::empty());
    reveal_with_fuel(position_at, 2);
    reveal_with_fuel(product, 2);
    assert(0 * n == 0 && 1 * n == n);
    assert(product(one) == n);
    assert(position_at(one, head) == q);
    assert(outer_size(x, axis) == outer && inner_size(x, axis) == inner);
    let all = outer * count * inner;
    assert(all > 0) by (nonlinear_arith)
        requires
            all == outer * count * inner,
            outer > 0,
            count > 0,
            inner > 0,
    ;
    lemma_product_is_bounded(a + p + b);
    assert(gather_axis(node, rank as nat) == axis);
    assert(can_gather(elements, x, axis, indices, all as nat)) by {
        assert forall|r: int| 0 <= r < found_size(x, axis, indices) implies #[trigger]
        source_position(x, axis, indices, r) < elements.len() by {
            let row = r / inner;
            let rest = r % inner;
            lemma_fundamental_div_mod(r, inner);
            lemma_mod_bound(r, inner);
            assert(0 <= row < outer * count) by (nonlinear_arith)
                requires
                    r == inner * row + rest,
                    0 <= rest < inner,
                    0 <= r < outer * count * inner,
            ;
            let first = row / count;
            lemma_fundamental_div_mod(row, count);
            lemma_mod_bound(row, count);
            assert(0 <= first < outer) by (nonlinear_arith)
                requires
                    row == count * first + row % count,
                    0 <= row % count < count,
                    0 <= row < outer * count,
            ;
            let place = as_i64(indices[row % count]) as int;
            let found = normal_index(place, n);
            lemma_mod_bound(place, n);
            assert((first * n + found) * inner + rest < outer * n * inner) by (nonlinear_arith)
                requires
                    0 <= first < outer,
                    0 <= found < n,
                    0 <= rest < inner,
            ;
        }
    }
    law_gathered_element(
        elements,
        x,
        axis,
        indices,
        all as nat,
        position_at(a, lead),
        position_at(p, j),
        position_at(b, behind),
    );
    let number = as_i64(indices[position_at(p, j)]) as int;
    lemma_fundamental_div_mod_converse(number, n, turns, q);
    assert(gather_sizes(x, p, axis) == a + p + b);
    assert(lead + j + behind =~= (lead + j) + behind);
}

} // verus!

//! The numbers that tensors hold.
//!
//! A tensor stands for an operation on other tensors. This module says which number
//! it has at each index, in exact arithmetic: what each operation computes from the
//! numbers of its inputs, and how the shape of a tensor reads what is stored.

#[allow(unused_imports)]
use crate::bits::{
    lemma_top_bit, nearest, of_int, rounded, top_bit, NEG_ONE, NEG_TWO, ONE, TWO, ZERO,
};
#[allow(unused_imports)]
use crate::graph::{Binary, DType, Operation, Reduction, Tensor, Unary};
#[allow(unused_imports)]
use crate::reading::{index_at, lemma_position_within, position_at, within};
#[allow(unused_imports)]
use crate::shape::{all_known, can_broadcast, is_permutation, row_major, sizes_of, Dim, Shape};
#[allow(unused_imports)]
use vstd::arithmetic::power2::{
    lemma2_to64, lemma2_to64_rest, lemma_pow2_adds, lemma_pow2_pos, lemma_pow2_strictly_increases,
    pow2,
};
use vstd::prelude::*;

verus! {

/// The number with the given bits, if it is finite, in units of the least positive one,
/// which is 1 / 2^149.
pub open spec fn scaled(b: u32) -> int {
    let e = (b % 0x8000_0000) / 0x80_0000;
    let f = b % 0x80_0000;
    let magnitude: int = if e == 0 {
        f as int
    } else {
        (f + 0x80_0000) * pow2((e - 1) as nat)
    };
    if b < 0x8000_0000 {
        magnitude
    } else {
        -magnitude
    }
}

/// The number with the given bits, if it is finite.
pub open spec fn number(b: u32) -> real {
    scaled(b) as real / pow2(149) as real
}

/// The numbers that are given, and the functions that have no exact arithmetic.
pub struct Numbers {
    /// The number that is given under a name, by its place in the data.
    pub given: spec_fn(Seq<char>, int) -> real,
    pub exp2: spec_fn(real) -> real,
    pub sqrt: spec_fn(real) -> real,
    pub sin: spec_fn(real) -> real,
    pub cos: spec_fn(real) -> real,
    pub rem: spec_fn(real, real) -> real,
    pub pow: spec_fn(real, real) -> real,
    pub cast: spec_fn(DType, real) -> real,
}

/// 1 if something holds, and else 0.
pub open spec fn truth(holds: bool) -> real {
    if holds {
        1real
    } else {
        0real
    }
}

/// The sum of some numbers.
pub open spec fn total(v: Seq<real>) -> real
    decreases v.len(),
{
    if v.len() == 0 {
        0real
    } else {
        total(v.drop_last()) + v.last()
    }
}

/// The greatest of some numbers.
pub open spec fn greatest(v: Seq<real>) -> real
    decreases v.len(),
{
    if v.len() <= 1 {
        v[0]
    } else {
        let before = greatest(v.drop_last());
        if before < v.last() {
            v.last()
        } else {
            before
        }
    }
}

/// An operation on one number.
pub open spec fn of_one(m: Numbers, op: Unary, x: real) -> real {
    match op {
        Unary::Sqrt => (m.sqrt)(x),
        Unary::Exp2 => (m.exp2)(x),
        Unary::Sin => (m.sin)(x),
        Unary::Cos => (m.cos)(x),
        Unary::Abs => if x < 0real {
            0real - x
        } else {
            x
        },
        Unary::Recip => 1real / x,
        Unary::Cast(dtype) => (m.cast)(dtype, x),
    }
}

/// An operation on two numbers.
pub open spec fn of_two(m: Numbers, op: Binary, x: real, y: real) -> real {
    match op {
        Binary::Add => x + y,
        Binary::Mul => x * y,
        Binary::Rem => (m.rem)(x, y),
        Binary::Pow => (m.pow)(x, y),
        Binary::Eq => truth(x == y),
        Binary::Lt => truth(x < y),
        Binary::IntAdd => x + y,
        Binary::IntMul => x * y,
    }
}

/// The axis that is stored in place `k`.
pub open spec fn axis_in(shape: Shape, k: int) -> int {
    choose|a: int| 0 <= a < shape.places.len() && #[trigger] shape.places[a] == Some(k as usize)
}

/// Whether an axis is stored in place `k`.
pub open spec fn has_axis(shape: Shape, k: int) -> bool {
    exists|a: int| 0 <= a < shape.places.len() && #[trigger] shape.places[a] == Some(k as usize)
}

/// The size of the axis that is stored in place `k`; 1 if there is none.
pub open spec fn size_in(shape: Shape, k: int) -> int {
    if has_axis(shape, k) {
        shape.dims[axis_in(shape, k)]->Known_0 as int
    } else {
        1
    }
}

/// The index along the axis that is stored in place `k`; 0 if there is none.
pub open spec fn index_in(shape: Shape, index: Seq<int>, k: int) -> int {
    if has_axis(shape, k) {
        index[axis_in(shape, k)]
    } else {
        0
    }
}

/// Where an element is stored, as far as the axes in the first `n` places say.
pub open spec fn place_below(shape: Shape, index: Seq<int>, n: nat) -> int
    decreases n,
{
    if n == 0 {
        0
    } else {
        place_below(shape, index, (n - 1) as nat) * size_in(shape, n - 1) + index_in(
            shape,
            index,
            n - 1,
        )
    }
}

/// Where the element at an index is stored: the axes stand in the order of their
/// places, and repeated axes do not count.
pub open spec fn place(shape: Shape, index: Seq<int>) -> int {
    place_below(shape, index, (usize::MAX + 1) as nat)
}

/// Whether no two axes are stored in the same place.
pub open spec fn is_sound(shape: Shape) -> bool {
    &&& shape.wf()
    &&& shape.dims.len() <= usize::MAX
    &&& forall|a: int, b: int|
        0 <= a < shape.places.len() && 0 <= b < shape.places.len() && (
        #[trigger] shape.places[a]) is Some && shape.places[a] == #[trigger] shape.places[b] ==> a
            == b
}

/// The sizes of a tensor.
pub open spec fn sizes(t: Tensor) -> Seq<usize> {
    sizes_of(t.dims())
}

/// Whether a number is a whole number.
pub open spec fn equals(x: real, i: int) -> bool {
    x == i as real
}

/// The whole number that a number is.
pub open spec fn whole(x: real) -> int {
    choose|i: int| equals(x, i)
}

/// The number that the node of a tensor stores in a place.
pub open spec fn stored(m: Numbers, t: Tensor, s: int) -> real
    decreases t, 0int,
{
    match t.op {
        Operation::Load(name) => (m.given)(name, s),
        Operation::Constant(bits) => number(bits),
        Operation::Integer(value) => value as real,
        Operation::Arange(_) => s as real,
        Operation::Triangle(upper, size, diagonal) => {
            let distance = s % size as int - s / size as int;
            truth(
                if upper {
                    distance >= diagonal
                } else {
                    distance <= diagonal
                },
            )
        },
        Operation::Unary(op) => if t.inputs.len() == 1 {
            let a = t.inputs[0];
            of_one(m, op, stored(m, a, place(a.shape, index_at(sizes(a), s))))
        } else {
            0real
        },
        Operation::Binary(op) => if t.inputs.len() == 2 {
            let a = t.inputs[0];
            let b = t.inputs[1];
            of_two(
                m,
                op,
                stored(m, a, place(a.shape, index_at(sizes(a), s))),
                stored(m, b, place(b.shape, index_at(sizes(b), s))),
            )
        } else {
            0real
        },
        Operation::Reduce(op, axis) => if t.inputs.len() == 1 {
            let a = t.inputs[0];
            let along = row(m, a, index_at(sizes(a).remove(axis as int), s), axis as int);
            match op {
                Reduction::Max => greatest(along),
                Reduction::Sum => total(along),
            }
        } else {
            0real
        },
        Operation::Gather => if t.inputs.len() == 2 {
            let a = t.inputs[0];
            let b = t.inputs[1];
            let at = whole(stored(m, b, place(b.shape, index_at(sizes(b), s))));
            stored(m, a, place(a.shape, index_at(sizes(a), at)))
        } else {
            0real
        },
        Operation::Slice(ranges) => if t.inputs.len() == 1 {
            let a = t.inputs[0];
            let widths = Seq::new(
                ranges.len(),
                |i: int| (ranges[i].1->Known_0 - ranges[i].0->Known_0) as usize,
            );
            let at = index_at(widths, s);
            stored(
                m,
                a,
                place(a.shape, Seq::new(at.len(), |i: int| at[i] + ranges[i].0->Known_0)),
            )
        } else {
            0real
        },
        Operation::Concat(axis) => if t.inputs.len() == 2 {
            let a = t.inputs[0];
            let b = t.inputs[1];
            let k = axis as int;
            let first = sizes(a)[k] as int;
            let both = sizes(a).update(k, (first + sizes(b)[k]) as usize);
            let at = index_at(both, s);
            if at[k] < first {
                stored(m, a, place(a.shape, at))
            } else {
                stored(m, b, place(b.shape, at.update(k, at[k] - first)))
            }
        } else {
            0real
        },
    }
}

/// The numbers of a tensor along an axis, at an index along the other ones.
pub open spec fn row(m: Numbers, t: Tensor, index: Seq<int>, axis: int) -> Seq<real>
    decreases t, 1int,
{
    Seq::new(sizes(t)[axis] as nat, |k: int| stored(m, t, place(t.shape, index.insert(axis, k))))
}

/// The number that a tensor has at an index.
pub open spec fn at(m: Numbers, t: Tensor, index: Seq<int>) -> real {
    stored(m, t, place(t.shape, index))
}

/// Whether an index is one of a tensor, whose sizes are all known.
pub open spec fn has_index(t: Tensor, index: Seq<int>) -> bool {
    &&& all_known(t.dims())
    &&& within(sizes(t), index)
}

/// Shapes that have, in each place, axes of the same size with the same index, store
/// an element in the same place.
pub proof fn lemma_same_place(a: Shape, i: Seq<int>, b: Shape, j: Seq<int>, n: nat)
    requires
        forall|k: int|
            0 <= k < n ==> #[trigger] size_in(a, k) == size_in(b, k) && index_in(a, i, k)
                == index_in(b, j, k),
    ensures
        place_below(a, i, n) == place_below(b, j, n),
    decreases n,
{
    if n > 0 {
        lemma_same_place(a, i, b, j, (n - 1) as nat);
        assert(size_in(a, n - 1) == size_in(b, n - 1));
    }
}

/// The axis that is stored in the place of an axis.
proof fn lemma_axis_in(shape: Shape, a: int)
    requires
        is_sound(shape),
        0 <= a < shape.places.len(),
        shape.places[a] is Some,
    ensures
        has_axis(shape, shape.places[a]->0 as int),
        axis_in(shape, shape.places[a]->0 as int) == a,
{
    let k = shape.places[a]->0 as int;
    assert(shape.places[a] == Some(k as usize));
    let found = axis_in(shape, k);
    assert(0 <= found < shape.places.len() && shape.places[found] == Some(k as usize));
}

/// What reads a size and an index in a place is one axis.
pub proof fn lemma_in_place(shape: Shape, index: Seq<int>, k: int, a: int)
    requires
        is_sound(shape),
        0 <= k <= usize::MAX,
        0 <= a < shape.places.len(),
        shape.places[a] == Some(k as usize),
    ensures
        has_axis(shape, k),
        size_in(shape, k) == shape.dims[a]->Known_0,
        index_in(shape, index, k) == index[a],
{
    lemma_axis_in(shape, a);
}

proof fn lemma_place_beyond(shape: Shape, index: Seq<int>, n: nat, more: nat)
    requires
        n <= more <= usize::MAX + 1,
        forall|a: int|
            0 <= a < shape.places.len() && (#[trigger] shape.places[a]) is Some
                ==> shape.places[a]->0 < n,
    ensures
        place_below(shape, index, more) == place_below(shape, index, n),
    decreases more,
{
    if n < more {
        lemma_place_beyond(shape, index, n, (more - 1) as nat);
        let k = more - 1;
        if has_axis(shape, k) {
            let a = axis_in(shape, k);
            assert(0 <= a < shape.places.len() && shape.places[a] == Some(k as usize));
        }
        assert(place_below(shape, index, k as nat) * 1 == place_below(shape, index, k as nat));
    }
}

proof fn lemma_row_major_below(dims: Seq<Dim>, index: Seq<int>, n: nat)
    requires
        n <= dims.len() <= usize::MAX,
        index.len() == dims.len(),
    ensures
        place_below(row_major(dims), index, n) == position_at(
            sizes_of(dims).subrange(0, n as int),
            index.subrange(0, n as int),
        ),
    decreases n,
{
    let shape = row_major(dims);
    if n > 0 {
        lemma_row_major_below(dims, index, (n - 1) as nat);
        let s = sizes_of(dims).subrange(0, n as int);
        let i = index.subrange(0, n as int);
        assert(s.drop_last() =~= sizes_of(dims).subrange(0, n - 1));
        assert(i.drop_last() =~= index.subrange(0, n - 1));
        assert(shape.places[n - 1] == Some((n - 1) as usize));
        lemma_in_place(shape, index, n - 1, n - 1);
    }
}

/// A row-major shape stores the elements in the order of their positions.
pub proof fn lemma_row_major_place(dims: Seq<Dim>, index: Seq<int>)
    requires
        dims.len() <= usize::MAX,
        index.len() == dims.len(),
    ensures
        is_sound(row_major(dims)),
        place(row_major(dims), index) == position_at(sizes_of(dims), index),
{
    let n = dims.len();
    lemma_place_beyond(row_major(dims), index, n, (usize::MAX + 1) as nat);
    lemma_row_major_below(dims, index, n);
    assert(sizes_of(dims).subrange(0, n as int) =~= sizes_of(dims));
    assert(index.subrange(0, n as int) =~= index);
}

/// A tensor that was made has at an index what its node stores in that position.
pub proof fn lemma_made(m: Numbers, t: Tensor, index: Seq<int>)
    requires
        t.shape == row_major(t.dims()),
        t.dims().len() <= usize::MAX,
        has_index(t, index),
    ensures
        at(m, t, index) == stored(m, t, position_at(sizes(t), index)),
        index_at(sizes(t), position_at(sizes(t), index)) == index,
{
    lemma_row_major_place(t.dims(), index);
    lemma_position_within(sizes(t), index);
}

/// An operation on each number.
pub proof fn lemma_unary(m: Numbers, x: Tensor, op: Unary, index: Seq<int>)
    requires
        x.dims().len() <= usize::MAX,
        has_index(x, index),
    ensures
        at(m, x.unary(op), index) == of_one(m, op, at(m, x, index)),
{
    lemma_made(m, x.unary(op), index);
}

/// An operation on the numbers of two tensors at the same index.
pub proof fn lemma_binary(m: Numbers, x: Tensor, op: Binary, y: Tensor, index: Seq<int>)
    requires
        x.dims().len() <= usize::MAX,
        x.dims() == y.dims(),
        has_index(x, index),
    ensures
        at(m, x.binary(op, y), index) == of_two(m, op, at(m, x, index), at(m, y, index)),
{
    lemma_made(m, x.binary(op, y), index);
}

/// The numbers of a tensor along an axis.
pub open spec fn along(m: Numbers, t: Tensor, index: Seq<int>, axis: int) -> Seq<real> {
    Seq::new(sizes(t)[axis] as nat, |k: int| at(m, t, index.insert(axis, k)))
}

/// The sum, or the greatest, of the numbers along an axis.
pub proof fn lemma_reduce(m: Numbers, x: Tensor, op: Reduction, axis: usize, index: Seq<int>)
    requires
        x.dims().len() <= usize::MAX,
        axis < x.dims().len(),
        all_known(x.dims()),
        within(sizes(x).remove(axis as int), index),
    ensures
        has_index(x.reduce(op, axis), index),
        at(m, x.reduce(op, axis), index) == match op {
            Reduction::Sum => total(along(m, x, index, axis as int)),
            Reduction::Max => greatest(along(m, x, index, axis as int)),
        },
{
    let t = x.reduce(op, axis);
    assert(sizes(t) =~= sizes(x).remove(axis as int));
    lemma_made(m, t, index);
    assert(row(m, x, index, axis as int) =~= along(m, x, index, axis as int));
}

/// A tensor whose axis `i` is axis `order[i]` of another has, at an index in that
/// order, the number of the other at the index.
pub proof fn lemma_permuted(m: Numbers, x: Tensor, order: Seq<usize>, index: Seq<int>)
    requires
        is_sound(x.shape),
        is_permutation(order, x.dims().len()),
        index.len() == x.dims().len(),
    ensures
        is_sound(x.permuted(order).shape),
        at(m, x.permuted(order), Seq::new(order.len(), |i: int| index[order[i] as int])) == at(
            m,
            x,
            index,
        ),
{
    let a = x.shape;
    let b = a.permuted(order);
    let moved = Seq::new(order.len(), |i: int| index[order[i] as int]);
    assert forall|i: int, j: int|
        0 <= i < b.places.len() && 0 <= j < b.places.len() && (#[trigger] b.places[i]) is Some
            && b.places[i] == #[trigger] b.places[j] implies i == j by {
        assert(a.places[order[i] as int] == a.places[order[j] as int]);
        assert(order[i] == order[j]);
    }
    assert forall|k: int| 0 <= k < usize::MAX + 1 implies #[trigger] size_in(b, k) == size_in(a, k)
        && index_in(b, moved, k) == index_in(a, index, k) by {
        if has_axis(a, k) {
            let axis = axis_in(a, k);
            assert(0 <= axis < a.places.len() && a.places[axis] == Some(k as usize));
            lemma_covers(order, x.dims().len(), axis);
            let i = choose|i: int| 0 <= i < order.len() && #[trigger] order[i] == axis;
            assert(b.places[i] == Some(k as usize));
            lemma_in_place(a, index, k, axis);
            lemma_in_place(b, moved, k, i);
        } else if has_axis(b, k) {
            let i = axis_in(b, k);
            assert(0 <= i < b.places.len() && b.places[i] == Some(k as usize));
            assert(a.places[order[i] as int] == Some(k as usize));
        }
    }
    lemma_same_place(b, moved, a, index, (usize::MAX + 1) as nat);
}

/// A permutation names every axis.
pub proof fn lemma_covers(order: Seq<usize>, rank: nat, axis: int)
    requires
        is_permutation(order, rank),
        0 <= axis < rank,
    ensures
        exists|i: int| 0 <= i < order.len() && #[trigger] order[i] == axis,
    decreases rank,
{
    if rank > 0 {
        // The place of the last axis, and the order without it.
        let last = rank - 1;
        if exists|i: int| 0 <= i < order.len() && #[trigger] order[i] == last {
            let at = choose|i: int| 0 <= i < order.len() && #[trigger] order[i] == last;
            let rest = order.remove(at);
            assert forall|i: int| 0 <= i < rest.len() implies #[trigger] rest[i] < rank - 1 by {
                let j = if i < at {
                    i
                } else {
                    i + 1
                };
                assert(rest[i] == order[j]);
                assert(order[j] < rank);
                assert(order[j] != order[at]);
            }
            assert(rest.no_duplicates()) by {
                assert forall|i: int, j: int|
                    0 <= i < rest.len() && 0 <= j < rest.len() && i != j implies rest[i]
                    != rest[j] by {
                    let k = if i < at {
                        i
                    } else {
                        i + 1
                    };
                    let l = if j < at {
                        j
                    } else {
                        j + 1
                    };
                    assert(order[k] != order[l]);
                }
            }
            if axis == last {
                assert(order[at] == axis);
            } else {
                lemma_covers(rest, (rank - 1) as nat, axis);
                let i = choose|i: int| 0 <= i < rest.len() && #[trigger] rest[i] == axis;
                let j = if i < at {
                    i
                } else {
                    i + 1
                };
                assert(order[j] == axis);
            }
        } else {
            // All would be among fewer axes than they are.
            let rest = order.drop_last();
            assert forall|i: int| 0 <= i < order.len() implies #[trigger] order[i] < rank - 1 by {
                assert(order[i] != last);
            }
            assert(is_permutation(rest, (rank - 1) as nat)) by {
                assert forall|i: int| 0 <= i < rest.len() implies #[trigger] rest[i] < rank - 1 by {
                    assert(order[i] < rank - 1);
                }
                assert forall|i: int, j: int|
                    0 <= i < rest.len() && 0 <= j < rest.len() && i != j implies rest[i]
                    != rest[j] by {
                    assert(order[i] != order[j]);
                }
            }
            let other = order[rank - 1];
            assert(other < rank - 1);
            lemma_covers(rest, (rank - 1) as nat, other as int);
            let i = choose|i: int| 0 <= i < rest.len() && #[trigger] rest[i] == other;
            assert(rest[i] == order[i]);
            assert(order[i] == order[rank - 1]);
            assert(false);
        }
    }
}

/// A tensor that is repeated along a new axis has the same number at each index
/// along it.
pub proof fn lemma_expanded(m: Numbers, x: Tensor, axis: int, dim: Dim, index: Seq<int>, k: int)
    requires
        is_sound(x.shape),
        x.dims().len() < usize::MAX,
        0 <= axis <= x.dims().len(),
        index.len() == x.dims().len(),
    ensures
        is_sound(x.expanded(axis, dim).shape),
        at(m, x.expanded(axis, dim), index.insert(axis, k)) == at(m, x, index),
{
    let a = x.shape;
    let b = a.expanded(axis, dim);
    let wide = index.insert(axis, k);
    assert forall|i: int, j: int|
        0 <= i < b.places.len() && 0 <= j < b.places.len() && (#[trigger] b.places[i]) is Some
            && b.places[i] == #[trigger] b.places[j] implies i == j by {
        let i2 = if i < axis {
            i
        } else {
            i - 1
        };
        let j2 = if j < axis {
            j
        } else {
            j - 1
        };
        assert(b.places[i] == a.places[i2] && b.places[j] == a.places[j2]);
    }
    assert forall|p: int| 0 <= p < usize::MAX + 1 implies #[trigger] size_in(b, p) == size_in(a, p)
        && index_in(b, wide, p) == index_in(a, index, p) by {
        if has_axis(a, p) {
            let i = axis_in(a, p);
            assert(0 <= i < a.places.len() && a.places[i] == Some(p as usize));
            let j = if i < axis {
                i
            } else {
                i + 1
            };
            assert(b.places[j] == Some(p as usize));
            lemma_in_place(a, index, p, i);
            lemma_in_place(b, wide, p, j);
        } else if has_axis(b, p) {
            let j = axis_in(b, p);
            assert(0 <= j < b.places.len() && b.places[j] == Some(p as usize));
            let i = if j < axis {
                j
            } else {
                j - 1
            };
            assert(a.places[i] == Some(p as usize));
        }
    }
    lemma_same_place(b, wide, a, index, (usize::MAX + 1) as nat);
}

/// A tensor without an axis of size 1 has the numbers that it had there.
pub proof fn lemma_squeezed(m: Numbers, x: Tensor, axis: int, index: Seq<int>)
    requires
        is_sound(x.shape),
        0 <= axis < x.dims().len(),
        x.dims()[axis] == Dim::Known(1),
        index.len() == x.dims().len() - 1,
    ensures
        is_sound(x.squeezed(axis).shape),
        at(m, x.squeezed(axis), index) == at(m, x, index.insert(axis, 0)),
{
    let a = x.shape;
    let b = a.without(axis);
    let wide = index.insert(axis, 0);
    assert forall|i: int, j: int|
        0 <= i < b.places.len() && 0 <= j < b.places.len() && (#[trigger] b.places[i]) is Some
            && b.places[i] == #[trigger] b.places[j] implies i == j by {
        let i2 = if i < axis {
            i
        } else {
            i + 1
        };
        let j2 = if j < axis {
            j
        } else {
            j + 1
        };
        assert(b.places[i] == a.places[i2] && b.places[j] == a.places[j2]);
    }
    assert forall|p: int| 0 <= p < usize::MAX + 1 implies #[trigger] size_in(a, p) == size_in(b, p)
        && index_in(a, wide, p) == index_in(b, index, p) by {
        if has_axis(b, p) {
            let j = axis_in(b, p);
            assert(0 <= j < b.places.len() && b.places[j] == Some(p as usize));
            let i = if j < axis {
                j
            } else {
                j + 1
            };
            assert(a.places[i] == Some(p as usize));
            lemma_in_place(b, index, p, j);
            lemma_in_place(a, wide, p, i);
        } else if has_axis(a, p) {
            let i = axis_in(a, p);
            assert(0 <= i < a.places.len() && a.places[i] == Some(p as usize));
            if i != axis {
                let j = if i < axis {
                    i
                } else {
                    i - 1
                };
                assert(b.places[j] == Some(p as usize));
            }
            lemma_in_place(a, wide, p, i);
        }
    }
    lemma_same_place(a, wide, b, index, (usize::MAX + 1) as nat);
}

/// The index that a tensor with the dimensions `dims` is read at, where it is
/// repeated into sizes by the rules of numpy: its axes are the last ones, and an
/// axis of size 1 is read at 0.
pub open spec fn aligned_index(dims: Seq<Dim>, index: Seq<int>) -> Seq<int> {
    let lead = index.len() - dims.len();
    Seq::new(
        dims.len(),
        |i: int|
            if dims[i] == Dim::Known(1) {
                0
            } else {
                index[i + lead]
            },
    )
}

/// A tensor that is repeated into sizes by the rules of numpy.
pub proof fn lemma_broadcast(m: Numbers, x: Tensor, target: Seq<usize>, index: Seq<int>)
    requires
        is_sound(x.shape),
        target.len() <= usize::MAX,
        can_broadcast(x.dims(), target),
        within(target, index),
    ensures
        is_sound(x.broadcast(target).shape),
        at(m, x.broadcast(target), index) == at(m, x, aligned_index(x.dims(), index)),
        within(sizes(x), aligned_index(x.dims(), index)),
{
    let a = x.shape;
    let b = a.broadcast(target);
    let lead = target.len() - a.dims.len();
    let from = aligned_index(x.dims(), index);
    assert forall|i: int, j: int|
        0 <= i < b.places.len() && 0 <= j < b.places.len() && (#[trigger] b.places[i]) is Some
            && b.places[i] == #[trigger] b.places[j] implies i == j by {
        assert(b.places[i] == a.places[i - lead] && b.places[j] == a.places[j - lead]);
    }
    assert forall|p: int| 0 <= p < usize::MAX + 1 implies #[trigger] size_in(b, p) == size_in(a, p)
        && index_in(b, index, p) == index_in(a, from, p) by {
        if has_axis(a, p) {
            let i = axis_in(a, p);
            assert(0 <= i < a.places.len() && a.places[i] == Some(p as usize));
            lemma_in_place(a, from, p, i);
            let j = i + lead;
            assert(a.dims[i] == Dim::Known(target[j]) || a.dims[i] == Dim::Known(1));
            assert(0 <= index[j] < target[j]);
            if a.dims[i] == Dim::Known(target[j]) {
                assert(b.places[j] == Some(p as usize));
                lemma_in_place(b, index, p, j);
            } else if has_axis(b, p) {
                let k = axis_in(b, p);
                assert(0 <= k < b.places.len() && b.places[k] == Some(p as usize));
                assert(a.places[k - lead] == Some(p as usize));
                assert(k - lead == i);
            }
        } else if has_axis(b, p) {
            let k = axis_in(b, p);
            assert(0 <= k < b.places.len() && b.places[k] == Some(p as usize));
            assert(a.places[k - lead] == Some(p as usize));
        }
    }
    lemma_same_place(b, index, a, from, (usize::MAX + 1) as nat);
    assert forall|i: int| 0 <= i < sizes(x).len() implies 0 <= #[trigger] from[i] < sizes(x)[i] by {
        assert(a.dims[i] == Dim::Known(target[i + lead]) || a.dims[i] == Dim::Known(1));
        assert(0 <= index[i + lead] < target[i + lead]);
    }
}

/// The part of a tensor from a start up to an end on each axis.
pub proof fn lemma_slice(m: Numbers, x: Tensor, ranges: Seq<(Dim, Dim)>, index: Seq<int>)
    requires
        ranges.len() <= usize::MAX,
        index.len() == ranges.len(),
        forall|i: int|
            0 <= i < ranges.len() ==> {
                &&& (#[trigger] ranges[i]).0 is Known
                &&& ranges[i].1 is Known
                &&& 0 <= index[i] < ranges[i].1->Known_0 - ranges[i].0->Known_0
            },
    ensures
        has_index(x.slice(ranges), index),
        at(m, x.slice(ranges), index) == at(
            m,
            x,
            Seq::new(ranges.len(), |i: int| index[i] + ranges[i].0->Known_0),
        ),
{
    let t = x.slice(ranges);
    let widths = Seq::new(
        ranges.len(),
        |i: int| (ranges[i].1->Known_0 - ranges[i].0->Known_0) as usize,
    );
    assert(sizes(t) =~= widths) by {
        assert forall|i: int| 0 <= i < ranges.len() implies sizes(t)[i] == widths[i] by {
            assert(ranges[i].0 is Known);
        }
    }
    assert(has_index(t, index)) by {
        assert forall|i: int| 0 <= i < t.dims().len() implies (#[trigger] t.dims()[i]) is Known by {
            assert(ranges[i].0 is Known);
        }
        assert forall|i: int| 0 <= i < sizes(t).len() implies 0 <= #[trigger] index[i] < sizes(
            t,
        )[i] by {
            assert(ranges[i].0 is Known);
        }
    }
    lemma_made(m, t, index);
    assert(Seq::new(index.len(), |i: int| index[i] + ranges[i].0->Known_0) =~= Seq::new(
        ranges.len(),
        |i: int| index[i] + ranges[i].0->Known_0,
    ));
}

/// Two tensors one after the other along an axis.
pub proof fn lemma_concat(m: Numbers, x: Tensor, y: Tensor, axis: usize, index: Seq<int>)
    requires
        x.dims().len() <= usize::MAX,
        axis < x.dims().len(),
        x.dims().len() == y.dims().len(),
        all_known(x.dims()),
        y.dims()[axis as int] is Known,
        sizes(x)[axis as int] + sizes(y)[axis as int] <= usize::MAX,
        within(
            sizes(x).update(
                axis as int,
                (sizes(x)[axis as int] + sizes(y)[axis as int]) as usize,
            ),
            index,
        ),
    ensures
        has_index(x.concat(y, axis), index),
        sizes(x.concat(y, axis)) == sizes(x).update(
            axis as int,
            (sizes(x)[axis as int] + sizes(y)[axis as int]) as usize,
        ),
        at(m, x.concat(y, axis), index) == if index[axis as int] < sizes(x)[axis as int] {
            at(m, x, index)
        } else {
            at(m, y, index.update(axis as int, index[axis as int] - sizes(x)[axis as int]))
        },
{
    let t = x.concat(y, axis);
    let both = sizes(x).update(
        axis as int,
        (sizes(x)[axis as int] + sizes(y)[axis as int]) as usize,
    );
    assert(x.dims()[axis as int] is Known);
    assert(sizes(t) =~= both);
    assert forall|i: int| 0 <= i < t.dims().len() implies (#[trigger] t.dims()[i]) is Known by {
        assert(x.dims()[i] is Known);
    }
    lemma_made(m, t, index);
}

/// A whole number is the one with the bits that are as many units.
pub proof fn lemma_number(b: u32, v: int)
    requires
        scaled(b) == v * pow2(149),
    ensures
        number(b) == v as real,
{
    lemma_pow2_pos(149);
    let u = pow2(149);
    let x = v as real;
    let y = u as real;
    let z = (v * u) as real;
    assert(z == x * y) by (nonlinear_arith)
        requires
            z == (v * u) as real,
            x == v as real,
            y == u as real,
    ;
    assert(x * y / y == x) by (nonlinear_arith)
        requires
            y > 0real,
    ;
}

/// The bits of 0, 1, -1, 2 and -2.
pub proof fn lemma_numbers()
    ensures
        number(ZERO) == 0real,
        number(ONE) == 1real,
        number(NEG_ONE) == 0real - 1real,
        number(TWO) == 2real,
        number(NEG_TWO) == 0real - 2real,
{
    lemma2_to64();
    lemma2_to64_rest();
    lemma_pow2_adds(23, 126);
    lemma_pow2_adds(23, 127);
    lemma_pow2_adds(1, 149);
    assert(0 * pow2(149) == 0) by (nonlinear_arith);
    lemma_number(ZERO, 0);
    lemma_number(ONE, 1);
    lemma_number(NEG_ONE, -1);
    lemma_number(TWO, 2);
    lemma_number(NEG_TWO, -2);
}

/// The bits that stand for a whole number: exactly, if it has at most 24 bits, and else
/// for the nearest number that does, with zeros behind them.
pub proof fn lemma_nearest(n: nat)
    requires
        0 < n < 0x1_0000_0000_0000_0000,
    ensures
        nearest(n) < 0x7f80_0000,
        top_bit(n) <= 63,
        top_bit(n) <= 23 ==> scaled(nearest(n) as u32) == n * pow2(149),
        top_bit(n) > 23 ==> {
            let q = rounded(n, pow2((top_bit(n) - 23) as nat));
            &&& scaled(nearest(n) as u32) == q * pow2((126 + top_bit(n)) as nat)
            &&& nearest(n) % 2 == q % 2
        },
{
    let t = top_bit(n);
    lemma2_to64();
    lemma2_to64_rest();
    lemma_top_bit(n);
    if t > 63 {
        lemma_pow2_strictly_increases(63, t);
        lemma_pow2_adds(1, 63);
        if t > 64 {
            lemma_pow2_strictly_increases(64, t);
        }
    }
    let bits = nearest(n);
    if t <= 23 {
        let p = pow2((23 - t) as nat);
        lemma_pow2_adds(t, (23 - t) as nat);
        lemma_pow2_adds(t + 1, (23 - t) as nat);
        lemma_pow2_pos((23 - t) as nat);
        assert(0x80_0000 <= n * p < 0x100_0000) by (nonlinear_arith)
            requires
                pow2(t) <= n < pow2(t + 1),
                pow2(t) * p == 0x80_0000,
                pow2(t + 1) * p == 0x100_0000,
                p > 0,
        ;
        assert(bits / 0x80_0000 == 127 + t);
        assert(bits % 0x80_0000 == n * p - 0x80_0000);
        let z = pow2((126 + t) as nat);
        lemma_pow2_adds((23 - t) as nat, (126 + t) as nat);
        assert((n * p) * z == n * (p * z)) by (nonlinear_arith);
    } else {
        let unit = pow2((t - 23) as nat);
        lemma_pow2_adds(23, (t - 23) as nat);
        lemma_pow2_adds(24, (t - 23) as nat);
        lemma_pow2_pos((t - 23) as nat);
        let q = rounded(n, unit);
        assert(0x80_0000 <= n / unit < 0x100_0000) by (nonlinear_arith)
            requires
                0x80_0000 * unit <= n < 0x100_0000 * unit,
                unit > 0,
        ;
        assert(0x80_0000 <= q <= 0x100_0000);
        let z = pow2((126 + t) as nat);
        if q < 0x100_0000 {
            assert(bits / 0x80_0000 == 127 + t);
            assert(bits % 0x80_0000 == q - 0x80_0000);
        } else {
            assert(bits / 0x80_0000 == 128 + t);
            assert(bits % 0x80_0000 == 0);
            lemma_pow2_adds(1, (126 + t) as nat);
            assert(0x80_0000 * (2 * z) == 0x100_0000 * z) by (nonlinear_arith);
        }
    }
}

/// The bits with a sign stand for the negative number.
pub proof fn lemma_signed(b: u32)
    requires
        b < 0x8000_0000,
    ensures
        scaled((b + 0x8000_0000) as u32) == -scaled(b),
{
    let c = (b + 0x8000_0000) as u32;
    assert(c % 0x8000_0000 == b && c % 0x80_0000 == b % 0x80_0000);
}

/// A whole number of at most 24 bits is the number with its bits.
pub proof fn lemma_number_of_int(v: int)
    requires
        -0x100_0000 <= v <= 0x100_0000,
    ensures
        number(of_int(v)) == v as real,
{
    let n: nat = if v < 0 {
        (-v) as nat
    } else {
        v as nat
    };
    lemma2_to64();
    lemma2_to64_rest();
    let u = pow2(149);
    if n == 0 {
        lemma_numbers();
    } else {
        lemma_top_bit(n);
        lemma_nearest(n);
        let t = top_bit(n);
        if t > 24 {
            lemma_pow2_strictly_increases(24, t);
        }
        if t == 24 {
            assert(n == 0x100_0000);
            assert(rounded(n, 2) == 0x80_0000);
            lemma_pow2_adds(1, 149);
            assert(0x80_0000 * (2 * u) == n * u) by (nonlinear_arith)
                requires
                    n == 0x100_0000,
            ;
        }
        if v < 0 {
            lemma_signed(nearest(n) as u32);
            assert(-(n * u) == v * u) by (nonlinear_arith)
                requires
                    v == -n,
            ;
        }
        lemma_number(of_int(v), v);
    }
}

} // verus!

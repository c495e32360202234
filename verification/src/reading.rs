//! Positions of elements in tensors, and the whole numbers that tensors have there.
//!
//! A position counts the elements of a tensor in the order in which they are read.

#[allow(unused_imports)]
use crate::bits::as_i64;
#[allow(unused_imports)]
use crate::compose::led_by;
#[allow(unused_imports)]
use crate::graph::{Binary, Operation, Tensor, Unary};
#[allow(unused_imports)]
use crate::shape::{product, read_position, Dim, Shape};
#[allow(unused_imports)]
use vstd::arithmetic::div_mod::{
    lemma_fundamental_div_mod, lemma_fundamental_div_mod_converse, lemma_mod_bound,
};
use vstd::prelude::*;

verus! {

/// The index of position `p` along each axis.
pub open spec fn index_at(sizes: Seq<usize>, p: int) -> Seq<int>
    decreases sizes.len(),
{
    if sizes.len() == 0 {
        Seq::empty()
    } else {
        index_at(sizes.drop_last(), p / sizes.last() as int).push(p % sizes.last() as int)
    }
}

/// The position of an index.
pub open spec fn position_at(sizes: Seq<usize>, index: Seq<int>) -> int
    decreases sizes.len(),
{
    if sizes.len() == 0 {
        0
    } else {
        position_at(sizes.drop_last(), index.drop_last()) * sizes.last() + index.last()
    }
}

/// Whether an index is one of a tensor with these sizes.
pub open spec fn within(sizes: Seq<usize>, index: Seq<int>) -> bool {
    &&& index.len() == sizes.len()
    &&& forall|i: int| 0 <= i < sizes.len() ==> 0 <= #[trigger] index[i] < sizes[i]
}

/// The sizes of a tensor whose axis `i` is axis `order[i]` of one with these sizes.
pub open spec fn ordered_sizes(sizes: Seq<usize>, order: Seq<usize>) -> Seq<usize> {
    Seq::new(order.len(), |i: int| sizes[order[i] as int])
}

/// Where an axis stands in an order.
pub open spec fn place_in(order: Seq<usize>, axis: int) -> int {
    choose|i: int| 0 <= i < order.len() && #[trigger] order[i] == axis
}

/// The position, in a tensor with these sizes, of the element that the tensor whose
/// axis `i` is its axis `order[i]` has at position `p`.
pub open spec fn viewed(sizes: Seq<usize>, order: Seq<usize>, p: int) -> int {
    let index = index_at(ordered_sizes(sizes, order), p);
    position_at(sizes, Seq::new(sizes.len(), |axis: int| index[place_in(order, axis)]))
}

/// The order of axes that puts `v` axes before the `u` axes that stand before them,
/// and leaves the last `w` where they are.
pub open spec fn blocks_exchanged(u: nat, v: nat, w: nat) -> Seq<usize> {
    Seq::new(
        u + v + w,
        |i: int|
            if i < v {
                (u + i) as usize
            } else if i < v + u {
                (i - v) as usize
            } else {
                i as usize
            },
    )
}

/// The position of an index, and the index of that position.
pub proof fn lemma_position_within(sizes: Seq<usize>, index: Seq<int>)
    requires
        within(sizes, index),
    ensures
        0 <= position_at(sizes, index) < product(sizes),
        index_at(sizes, position_at(sizes, index)) == index,
    decreases sizes.len(),
{
    if sizes.len() > 0 {
        let rest = sizes.drop_last();
        let start = index.drop_last();
        assert forall|i: int| 0 <= i < rest.len() implies 0 <= #[trigger] start[i] < rest[i] by {
            assert(0 <= index[i] < sizes[i]);
        }
        lemma_position_within(rest, start);
        let q = position_at(rest, start);
        let z = sizes.last() as int;
        let k = index[sizes.len() - 1];
        let count = product(rest) as int;
        assert(0 <= k < z);
        assert(0 <= q * z + k < count * z) by (nonlinear_arith)
            requires
                0 <= q < count,
                0 <= k < z,
        ;
        lemma_fundamental_div_mod_converse(q * z + k, z, q, k);
        assert(start.push(k) =~= index);
    } else {
        assert(index =~= Seq::empty());
    }
}

/// The index of a position, and the position of that index.
pub proof fn lemma_index_within(sizes: Seq<usize>, p: int)
    requires
        0 <= p < product(sizes),
    ensures
        within(sizes, index_at(sizes, p)),
        position_at(sizes, index_at(sizes, p)) == p,
    decreases sizes.len(),
{
    if sizes.len() > 0 {
        let rest = sizes.drop_last();
        let z = sizes.last() as int;
        let count = product(rest) as int;
        assert(z > 0) by (nonlinear_arith)
            requires
                0 <= p < count * z,
                z >= 0,
        ;
        lemma_fundamental_div_mod(p, z);
        lemma_mod_bound(p, z);
        let q = p / z;
        assert(0 <= q < count) by (nonlinear_arith)
            requires
                p == z * q + p % z,
                0 <= p % z < z,
                0 <= p < count * z,
        ;
        lemma_index_within(rest, q);
        let index = index_at(sizes, p);
        assert(index.drop_last() =~= index_at(rest, q));
        assert forall|i: int| 0 <= i < sizes.len() implies 0 <= #[trigger] index[i] < sizes[i] by {
            if i < rest.len() {
                assert(index[i] == index_at(rest, q)[i]);
                assert(rest[i] == sizes[i]);
            }
        }
        assert(q * z == z * q) by (nonlinear_arith);
    }
}

/// The position of an index along two blocks of axes.
pub proof fn lemma_position_of_both(a: Seq<usize>, b: Seq<usize>, i: Seq<int>, j: Seq<int>)
    requires
        i.len() == a.len(),
        j.len() == b.len(),
    ensures
        position_at(a + b, i + j) == position_at(a, i) * product(b) + position_at(b, j),
    decreases b.len(),
{
    if b.len() == 0 {
        assert(a + b =~= a);
        assert(i + j =~= i);
        assert(product(b) == 1);
        assert(position_at(a, i) * 1 == position_at(a, i));
    } else {
        let c = b.drop_last();
        let k = j.drop_last();
        lemma_position_of_both(a, c, i, k);
        assert((a + b).drop_last() =~= a + c);
        assert((i + j).drop_last() =~= i + k);
        let x = position_at(a, i);
        let y = position_at(c, k);
        let z = b.last() as int;
        let n = product(c) as int;
        assert((x * n + y) * z + j.last() == x * (n * z) + (y * z + j.last())) by (nonlinear_arith);
    }
}

/// An index along two blocks of axes.
pub proof fn lemma_within_both(a: Seq<usize>, b: Seq<usize>, i: Seq<int>, j: Seq<int>)
    requires
        within(a, i),
        within(b, j),
    ensures
        within(a + b, i + j),
{
    let index = i + j;
    assert forall|k: int| 0 <= k < (a + b).len() implies 0 <= #[trigger] index[k] < (a + b)[k] by {
        if k < a.len() {
            assert(0 <= i[k] < a[k]);
        } else {
            assert(0 <= j[k - a.len()] < b[k - a.len()]);
        }
    }
}

/// The element at positions `u`, `v` and `w` of three blocks of axes stands at the
/// positions `v`, `u` and `w` where the first two are exchanged.
pub proof fn lemma_blocks_exchanged(
    us: Seq<usize>,
    vs: Seq<usize>,
    ws: Seq<usize>,
    u: int,
    v: int,
    w: int,
)
    requires
        us.len() + vs.len() + ws.len() <= usize::MAX,
        0 <= u < product(us),
        0 <= v < product(vs),
        0 <= w < product(ws),
    ensures
        viewed(
            us + vs + ws,
            blocks_exchanged(us.len(), vs.len(), ws.len()),
            (v * product(us) + u) * product(ws) + w,
        ) == (u * product(vs) + v) * product(ws) + w,
{
    let order = blocks_exchanged(us.len(), vs.len(), ws.len());
    let sizes = us + vs + ws;
    lemma_index_within(us, u);
    lemma_index_within(vs, v);
    lemma_index_within(ws, w);
    let i = index_at(us, u);
    let j = index_at(vs, v);
    let k = index_at(ws, w);
    lemma_within_both(vs, us, j, i);
    lemma_within_both(vs + us, ws, j + i, k);
    lemma_position_of_both(vs, us, j, i);
    lemma_position_of_both(vs + us, ws, j + i, k);
    let p = (v * product(us) + u) * product(ws) + w;
    assert(position_at(vs + us + ws, j + i + k) == p);
    lemma_position_within(vs + us + ws, j + i + k);
    assert(ordered_sizes(sizes, order) =~= vs + us + ws);
    let index = index_at(ordered_sizes(sizes, order), p);
    assert(index == j + i + k);
    let back = Seq::new(sizes.len(), |axis: int| index[place_in(order, axis)]);
    assert forall|axis: int| 0 <= axis < sizes.len() implies #[trigger] back[axis] == (i + j
        + k)[axis] by {
        let at = if axis < us.len() {
            vs.len() + axis
        } else if axis < us.len() + vs.len() {
            axis - us.len()
        } else {
            axis
        };
        assert(order[at] == axis);
        let found = place_in(order, axis);
        assert(0 <= found < order.len() && order[found] == axis);
        assert(found == at);
    }
    assert(back =~= i + j + k);
    lemma_position_of_both(us, vs, i, j);
    lemma_position_of_both(us + vs, ws, i + j, k);
}

/// Whether the stored axes of a shape stand in the order in which they are stored.
pub open spec fn reads_forward(shape: Shape) -> bool {
    forall|i: int, j: int|
        0 <= i < j < shape.places.len() && (#[trigger] shape.places[i]) is Some && (
        #[trigger] shape.places[j]) is Some ==> shape.places[i]->0 < shape.places[j]->0
}

/// Whether `value`, which gives the whole number that a tensor has at a position,
/// gives one tensor what its operation computes there in whole numbers.
pub open spec fn computed_at(value: spec_fn(Tensor, int) -> int, t: Tensor, p: int) -> bool {
    let at = read_position(t.shape, p);
    match t.op {
        Operation::Constant(bits) => value(t, p) == as_i64(bits),
        Operation::Integer(number) => value(t, p) == number,
        Operation::Arange(_) => reads_forward(t.shape) ==> value(t, p) == at,
        Operation::Unary(Unary::Cast(_)) => reads_forward(t.shape) && t.inputs.len() == 1
            ==> value(t, p) == value(t.inputs[0], at),
        Operation::Binary(op) => reads_forward(t.shape) && t.inputs.len() == 2 ==> {
            let a = value(t.inputs[0], at);
            let b = value(t.inputs[1], at);
            match op {
                Binary::Add => value(t, p) == a + b,
                Binary::IntAdd => value(t, p) == a + b,
                Binary::Mul => value(t, p) == a * b,
                Binary::IntMul => value(t, p) == a * b,
                Binary::Lt => value(t, p) == if a < b {
                    1int
                } else {
                    0
                },
                _ => true,
            }
        },
        _ => true,
    }
}

/// Whether `value` gives every tensor what its operation computes in whole numbers.
pub open spec fn computes(value: spec_fn(Tensor, int) -> int) -> bool {
    forall|t: Tensor, p: int| #[trigger] computed_at(value, t, p)
}

/// The whole number that a tensor has at a position, computed from those that other
/// tensors are given.
pub open spec fn whole_number(given: spec_fn(Tensor, int) -> int, t: Tensor, p: int) -> int
    decreases t,
{
    let at = read_position(t.shape, p);
    match t.op {
        Operation::Constant(bits) => as_i64(bits) as int,
        Operation::Integer(number) => number as int,
        Operation::Arange(_) => at,
        Operation::Unary(Unary::Cast(_)) => if t.inputs.len() == 1 {
            whole_number(given, t.inputs[0], at)
        } else {
            given(t, p)
        },
        Operation::Binary(op) => if t.inputs.len() == 2 {
            let a = whole_number(given, t.inputs[0], at);
            let b = whole_number(given, t.inputs[1], at);
            match op {
                Binary::Add => a + b,
                Binary::IntAdd => a + b,
                Binary::Mul => a * b,
                Binary::IntMul => a * b,
                Binary::Lt => if a < b {
                    1
                } else {
                    0
                },
                _ => given(t, p),
            }
        } else {
            given(t, p)
        },
        _ => given(t, p),
    }
}

/// Whatever the other tensors are given, there are whole numbers that are computed
/// from them.
pub proof fn law_whole_numbers_are_computed(given: spec_fn(Tensor, int) -> int)
    ensures
        computes(|t: Tensor, p: int| whole_number(given, t, p)),
{
    let value = |t: Tensor, p: int| whole_number(given, t, p);
    assert forall|t: Tensor, p: int| #[trigger] computed_at(value, t, p) by {
        reveal_with_fuel(whole_number, 2);
    }
}

/// The dimensions and places of a shape that is repeated along dimensions before
/// its own.
pub proof fn lemma_led_by(shape: Shape, dims: Seq<Dim>, count: nat)
    requires
        shape.wf(),
        count <= dims.len(),
    ensures
        led_by(shape, dims, count).dims == dims.subrange(0, count as int) + shape.dims,
        led_by(shape, dims, count).places == Seq::new(count, |i: int| None::<usize>) + shape.places,
    decreases count,
{
    if count == 0 {
        assert(dims.subrange(0, 0) + shape.dims =~= shape.dims);
        assert(Seq::new(0, |i: int| None::<usize>) + shape.places =~= shape.places);
    } else {
        let m = (count - 1) as nat;
        let next = shape.expanded(0, dims[count - 1]);
        lemma_led_by(next, dims, m);
        assert(dims.subrange(0, m as int) + next.dims =~= dims.subrange(0, count as int)
            + shape.dims);
        assert(Seq::new(m, |i: int| None::<usize>) + next.places =~= Seq::new(
            count,
            |i: int| None::<usize>,
        ) + shape.places);
    }
}

/// A shape that is repeated along all of its axes reads one element.
pub proof fn lemma_repeated_reads_one(shape: Shape, p: int)
    requires
        shape.wf(),
        forall|i: int| 0 <= i < shape.places.len() ==> (#[trigger] shape.places[i]) is None,
    ensures
        read_position(shape, p) == 0,
    decreases shape.dims.len(),
{
    if shape.dims.len() > 0 {
        let rest = Shape { dims: shape.dims.drop_last(), places: shape.places.drop_last() };
        assert(shape.places[shape.places.len() - 1] is None);
        assert forall|i: int| 0 <= i < rest.places.len() implies (
        #[trigger] rest.places[i]) is None by {
            assert(shape.places[i] is None);
        }
        lemma_repeated_reads_one(rest, p / shape.dims.last()->Known_0 as int);
    }
}

} // verus!

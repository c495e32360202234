//! Choices between tensors, repetitions, triangles and casts.

#[allow(unused_imports)]
use crate::bits::{
    as_i32, as_i64, as_usize, clamped_to_billion, infinite, nonzero, of_int, ONE, ZERO,
};
#[allow(unused_imports)]
use crate::compose::filled;
#[allow(unused_imports)]
use crate::fold::selected;
#[allow(unused_imports)]
use crate::graph::{scalar, Binary, DType, Unary};
#[allow(unused_imports)]
use crate::laws::curves::{gives_added, gives_data, takes_one};
#[allow(unused_imports)]
use crate::laws::pairs::{all_known_of, joins, lemma_joins, lemma_spread_values, size_on};
#[allow(unused_imports)]
use crate::laws::products::lemma_led;
#[allow(unused_imports)]
use crate::ops::constant::sizes_from;
#[allow(unused_imports)]
use crate::ops::layout::{cast_step, cast_type};
#[allow(unused_imports)]
use crate::ops::matrix::{triangle_mask, trilu_step};
#[allow(unused_imports)]
use crate::ops::select::{
    expand_sizes, expand_step, must_clamp, operand, operand_data, spread_input, where_sizes,
    where_step, where_whole,
};
#[allow(unused_imports)]
use crate::proto::NodeDef;
#[allow(unused_imports)]
use crate::reading::{lemma_position_of_both, lemma_position_within, position_at, within};
#[allow(unused_imports)]
use crate::shape::{
    all_known, bounded_product, can_broadcast, known_dims, lemma_bounded_product, product, sizes_of,
    Dim,
};
#[allow(unused_imports)]
use crate::state::{Outcome, State};
#[allow(unused_imports)]
use crate::values::{
    aligned_index, at, has_index, is_sound, lemma_binary, lemma_broadcast, lemma_numbers,
    lemma_row_major_place, lemma_unary, number, sizes, Numbers,
};
#[allow(unused_imports)]
use vstd::arithmetic::div_mod::lemma_fundamental_div_mod_converse;
use vstd::prelude::*;

verus! {

/// Whether a Where node has three inputs, which are tensors that are repeated into some
/// sizes, the first two into `both` on the way.
pub open spec fn takes_three(
    node: NodeDef,
    before: State,
    both: Seq<usize>,
    lengths: Seq<usize>,
) -> bool {
    &&& node.input@.len() == 3
    &&& node.output@.len() > 0
    &&& forall|i: int|
        0 <= i < 3 ==> before.env.contains_key(#[trigger] node.inp(i)) && is_sound(
            before.env[node.inp(i)].shape,
        )
    &&& joins(before.env[node.inp(0)].dims(), before.env[node.inp(1)].dims(), both)
    &&& joins(known_dims(both), before.env[node.inp(2)].dims(), lengths)
}

/// What can be repeated into sizes, and these into others, can be repeated into those.
proof fn lemma_broadcast_through(dims: Seq<Dim>, both: Seq<usize>, lengths: Seq<usize>)
    requires
        can_broadcast(dims, both),
        can_broadcast(known_dims(both), lengths),
    ensures
        can_broadcast(dims, lengths),
{
    assert forall|j: int| 0 <= j < dims.len() implies {
        ||| #[trigger] dims[j] == Dim::Known(1)
        ||| dims[j] == Dim::Known(lengths[lengths.len() - dims.len() + j])
    } by {
        let k = both.len() - dims.len() + j;
        assert(dims[j] == Dim::Known(1) || dims[j] == Dim::Known(both[k]));
        let wide = known_dims(both);
        assert(wide[k] == Dim::Known(1) || wide[k] == Dim::Known(
            lengths[lengths.len() - both.len() + k],
        ));
    }
}

/// The number that an operand of a Where node has at an index: its own, or the known one
/// moved to a billion at most, if one of its known elements is infinite.
pub open spec fn operand_value(
    m: Numbers,
    node: NodeDef,
    before: State,
    i: int,
    index: Seq<int>,
) -> real {
    let x = before.env[node.inp(i)];
    let there = aligned_index(x.dims(), index);
    if before.known.contains_key(node.inp(i)) && (exists|k: int|
        0 <= k < before.known[node.inp(i)].len() && infinite(
            #[trigger] before.known[node.inp(i)][k],
        )) {
        number(clamped_to_billion(before.known[node.inp(i)][position_at(sizes(x), there)]))
    } else {
        at(m, x, there)
    }
}

proof fn lemma_operand(
    m: Numbers,
    node: NodeDef,
    before: State,
    i: int,
    end: Seq<char>,
    lengths: Seq<usize>,
    index: Seq<int>,
)
    requires
        is_sound(before.env[node.inp(i)].shape),
        all_known(before.env[node.inp(i)].dims()),
        lengths.len() <= usize::MAX,
        can_broadcast(before.env[node.inp(i)].dims(), lengths),
        within(lengths, index),
        must_clamp(node, i, before) ==> all_known_of(node, i, before) && gives_data(
            m,
            operand_data(node, i, end, before),
        ),
    ensures
        at(m, operand(node, i, end, before).broadcast(lengths), index) == operand_value(
            m,
            node,
            before,
            i,
            index,
        ),
{
    let x = before.env[node.inp(i)];
    let there = aligned_index(x.dims(), index);
    let t = operand(node, i, end, before);
    lemma_broadcast(m, x, lengths, index);
    if must_clamp(node, i, before) {
        lemma_row_major_place(x.dims(), there);
        lemma_broadcast(m, t, lengths, index);
        let data = operand_data(node, i, end, before);
        let p = position_at(sizes(x), there);
        lemma_position_within(sizes(x), there);
        lemma_bounded_product(sizes(x));
        assert(data[0].1[p] == clamped_to_billion(before.known[node.inp(i)][p]));
    }
}

/// A Where node whose inputs are not all known is done, and its output has, at each index
/// of the joint sizes, the number of the second input where the first has 1, and that
/// of the third where it has 0.
pub proof fn law_where_node(
    m: Numbers,
    node: NodeDef,
    before: State,
    after: State,
    result: Outcome,
    both: Seq<usize>,
    lengths: Seq<usize>,
    index: Seq<int>,
)
    requires
        where_step(node, before, after, result),
        takes_three(node, before, both, lengths),
        !(before.known.contains_key(node.inp(0)) && before.known.contains_key(node.inp(1))
            && before.known.contains_key(node.inp(2))),
        before.known.contains_key(node.inp(1)) ==> all_known_of(node, 1, before),
        before.known.contains_key(node.inp(2)) ==> all_known_of(node, 2, before),
        within(lengths, index),
        gives_added(m, before, after),
    ensures
        result is Done,
        ({
            let t = after.env[node.out(0)];
            let c = before.env[node.inp(0)];
            let chosen = at(m, c, aligned_index(c.dims(), index));
            &&& t.dims() == known_dims(lengths)
            &&& chosen == 1real ==> at(m, t, index) == operand_value(m, node, before, 1, index)
            &&& chosen == 0real ==> at(m, t, index) == operand_value(m, node, before, 2, index)
        }),
{
    let c = before.env[node.inp(0)];
    lemma_three(node, before, both, lengths);
    let dx = operand_data(node, 1, "_x_clamped"@, before);
    let dy = operand_data(node, 2, "_y_clamped"@, before);
    let added = after.weights.skip(before.weights.len() as int);
    assert(added =~= dx + dy);
    assert(gives_data(m, dx)) by {
        assert forall|i: int, p: int|
            #![trigger dx[i].1[p]]
            0 <= i < dx.len() && 0 <= p < dx[i].1.len() implies (m.given)(dx[i].0, p) == number(
            dx[i].1[p],
        ) by {
            assert(added[i].1[p] == dx[i].1[p]);
        }
    }
    assert(gives_data(m, dy)) by {
        assert forall|i: int, p: int|
            #![trigger dy[i].1[p]]
            0 <= i < dy.len() && 0 <= p < dy[i].1.len() implies (m.given)(dy[i].0, p) == number(
            dy[i].1[p],
        ) by {
            assert(added[dx.len() + i].1[p] == dy[i].1[p]);
        }
    }
    let px = operand(node, 1, "_x_clamped"@, before).broadcast(lengths);
    let py = operand(node, 2, "_y_clamped"@, before).broadcast(lengths);
    let pc = c.broadcast(lengths);
    lemma_operand(m, node, before, 1, "_x_clamped"@, lengths, index);
    lemma_operand(m, node, before, 2, "_y_clamped"@, lengths, index);
    lemma_broadcast(m, c, lengths, index);
    assert(sizes(pc) =~= lengths);
    assert(has_index(pc, index));
    // condition * x + (1 - condition) * y
    lemma_numbers();
    let none = Seq::<int>::empty();
    lemma_row_major_place(Seq::empty(), none);
    assert(index + none =~= index);
    let minus = filled(scalar(crate::bits::NEG_ONE), pc.dims());
    lemma_led(m, scalar(crate::bits::NEG_ONE), pc.dims(), index, none);
    assert(minus.dims() =~= pc.dims());
    lemma_binary(m, pc, Binary::Mul, minus, index);
    let negative = pc.negative();
    let ones = filled(scalar(ONE), pc.dims());
    lemma_led(m, scalar(ONE), pc.dims(), index, none);
    assert(ones.dims() =~= pc.dims());
    lemma_binary(m, ones, Binary::Add, negative, index);
    let opposite = ones.binary(Binary::Add, negative);
    lemma_binary(m, pc, Binary::Mul, px, index);
    lemma_binary(m, opposite, Binary::Mul, py, index);
    lemma_binary(
        m,
        pc.binary(Binary::Mul, px),
        Binary::Add,
        opposite.binary(Binary::Mul, py),
        index,
    );
    let v = at(m, c, aligned_index(c.dims(), index));
    let p = operand_value(m, node, before, 1, index);
    let q = operand_value(m, node, before, 2, index);
    if v == 1real {
        assert(1real * p + (1real + 1real * (0real - 1real)) * q == p) by (nonlinear_arith);
    }
    if v == 0real {
        assert(0real * p + (1real + 0real * (0real - 1real)) * q == q) by (nonlinear_arith);
    }
}

/// The inputs of a Where node have joint sizes, into which each can be repeated.
pub proof fn lemma_three(node: NodeDef, before: State, both: Seq<usize>, lengths: Seq<usize>)
    requires
        takes_three(node, before, both, lengths),
    ensures
        before.env.contains_key(node.inp(0)),
        before.env.contains_key(node.inp(1)),
        before.env.contains_key(node.inp(2)),
        is_sound(before.env[node.inp(0)].shape),
        is_sound(before.env[node.inp(1)].shape),
        is_sound(before.env[node.inp(2)].shape),
        all_known(before.env[node.inp(0)].dims()),
        all_known(before.env[node.inp(1)].dims()),
        all_known(before.env[node.inp(2)].dims()),
        where_sizes(node, before) == Some(lengths),
        lengths.len() <= usize::MAX,
        can_broadcast(before.env[node.inp(0)].dims(), lengths),
        can_broadcast(before.env[node.inp(1)].dims(), lengths),
        can_broadcast(before.env[node.inp(2)].dims(), lengths),
{
    let c = before.env[node.inp(0)].dims();
    let x = before.env[node.inp(1)].dims();
    let y = before.env[node.inp(2)].dims();
    assert(before.env.contains_key(node.inp(0)));
    assert(before.env.contains_key(node.inp(1)));
    assert(before.env.contains_key(node.inp(2)));
    lemma_joins(c, x, both);
    lemma_joins(known_dims(both), y, lengths);
    lemma_broadcast_through(c, both, lengths);
    lemma_broadcast_through(x, both, lengths);
}

/// Where three lists are equally long, each selected element is at its own position.
proof fn lemma_selected(c: Seq<u32>, x: Seq<u32>, y: Seq<u32>, p: int)
    requires
        c.len() == x.len() == y.len(),
        0 <= p < c.len(),
    ensures
        selected(c, x, y).len() == c.len(),
        selected(c, x, y)[p] == if c[p] % 0x8000_0000 != 0 {
            x[p]
        } else {
            y[p]
        },
{
    assert(nonzero(c[p]) == (c[p] % 0x8000_0000 != 0));
}

/// A Where node whose inputs are all known is done. The elements of its output are known
/// and its data, and each is that of the second input at the same index where that of
/// the first is not 0, and that of the third where it is.
pub proof fn law_known_where_node(
    node: NodeDef,
    before: State,
    after: State,
    result: Outcome,
    both: Seq<usize>,
    lengths: Seq<usize>,
    index: Seq<int>,
)
    requires
        where_step(node, before, after, result),
        takes_three(node, before, both, lengths),
        all_known_of(node, 0, before),
        all_known_of(node, 1, before),
        all_known_of(node, 2, before),
        bounded_product(lengths) is Some,
        within(lengths, index),
    ensures
        result is Done,
        ({
            let c = before.env[node.inp(0)].dims();
            let x = before.env[node.inp(1)].dims();
            let y = before.env[node.inp(2)].dims();
            let v = after.known[node.out(0)];
            let chosen =
                before.known[node.inp(0)][position_at(sizes_of(c), aligned_index(c, index))];
            &&& after.env[node.out(0)].dims() == known_dims(lengths)
            &&& after.weights == before.weights.push((node.out(0), v))
            &&& v.len() == product(lengths)
            &&& v[position_at(lengths, index)] == if chosen % 0x8000_0000 != 0 {
                before.known[node.inp(1)][position_at(sizes_of(x), aligned_index(x, index))]
            } else {
                before.known[node.inp(2)][position_at(sizes_of(y), aligned_index(y, index))]
            }
        }),
{
    let c = before.env[node.inp(0)].dims();
    let x = before.env[node.inp(1)].dims();
    let y = before.env[node.inp(2)].dims();
    lemma_three(node, before, both, lengths);
    assert(where_sizes(node, before) == Some(lengths));
    lemma_spread_values(before.known[node.inp(0)], c, lengths, index);
    lemma_spread_values(before.known[node.inp(1)], x, lengths, index);
    lemma_spread_values(before.known[node.inp(2)], y, lengths, index);
    assert(where_whole(node, before));
    lemma_selected(
        spread_input(node, before, 0),
        spread_input(node, before, 1),
        spread_input(node, before, 2),
        position_at(lengths, index),
    );
}

/// An Expand node whose second input is known is done, if each axis of the input,
/// matched from the last one backwards, has the size 1 or at least the one that is
/// asked for. Its output has on each axis the greater one of the two sizes, and at each
/// index the number of the input there; and so have its known elements.
pub proof fn law_expand_node(
    m: Numbers,
    node: NodeDef,
    before: State,
    after: State,
    result: Outcome,
    lengths: Seq<usize>,
    index: Seq<int>,
)
    requires
        expand_step(node, before, after, result),
        node.input@.len() == 2,
        node.output@.len() > 0,
        before.env.contains_key(node.inp(0)),
        before.known.contains_key(node.inp(1)),
        is_sound(before.env[node.inp(0)].shape),
        all_known(before.env[node.inp(0)].dims()),
        before.known.contains_key(node.inp(0)) ==> all_known_of(node, 0, before)
            && bounded_product(lengths) is Some,
        ({
            let dims = before.env[node.inp(0)].dims();
            let asked = before.known[node.inp(1)];
            &&& dims.len() <= lengths.len() <= usize::MAX
            &&& lengths.len() == asked.len()
            &&& forall|i: int|
                0 <= i < lengths.len() ==> {
                    let own = size_on(dims, lengths.len() as int, i);
                    let size = as_usize(asked[i]);
                    &&& #[trigger] lengths[i] == if own >= size {
                        own
                    } else {
                        size as int
                    }
                    &&& own == 1 || own == lengths[i]
                }
        }),
        within(lengths, index),
    ensures
        result is Done,
        ({
            let x = before.env[node.inp(0)];
            let t = after.env[node.out(0)];
            let there = aligned_index(x.dims(), index);
            &&& t.dims() == known_dims(lengths)
            &&& at(m, t, index) == at(m, x, there)
            &&& before.known.contains_key(node.inp(0)) ==> {
                &&& after.known[node.out(0)].len() == product(lengths)
                &&& after.known[node.out(0)][position_at(lengths, index)]
                    == before.known[node.inp(0)][position_at(sizes(x), there)]
            }
        }),
{
    let x = before.env[node.inp(0)];
    let dims = x.dims();
    let asked = sizes_from(before.known[node.inp(1)]);
    let rank = lengths.len() as int;
    let lead = rank - dims.len();
    assert(expand_sizes(dims, asked) =~= lengths) by {
        assert forall|i: int| 0 <= i < rank implies expand_sizes(dims, asked)[i] == lengths[i] by {
            assert(lengths[i] >= 0);
            if i >= lead {
                assert(dims[i - lead] is Known);
            }
        }
    }
    assert(can_broadcast(dims, lengths)) by {
        assert forall|j: int| 0 <= j < dims.len() implies {
            ||| #[trigger] dims[j] == Dim::Known(1)
            ||| dims[j] == Dim::Known(lengths[rank - dims.len() + j])
        } by {
            assert(dims[j] is Known);
            assert(lengths[lead + j] >= 0);
        }
    }
    lemma_broadcast(m, x, lengths, index);
    if before.known.contains_key(node.inp(0)) {
        lemma_spread_values(before.known[node.inp(0)], dims, lengths, index);
    }
}

/// Whether a Trilu node keeps the element in a row and a column: in the upper triangle,
/// those on the diagonal that lies `k` places to the right of the main one and to the
/// right of it, and else those on it and to its left.
pub open spec fn is_kept(node: NodeDef, before: State, row: int, column: int) -> bool {
    let k = if node.has_input(1) {
        as_i32(before.known[node.inp(1)][0]) as int
    } else {
        0
    };
    if node.int_attr("upper"@, 1) == 1 {
        column - row >= k
    } else {
        column - row <= k
    }
}

/// Whether a Trilu node has an input with matrices, and the diagonal, if it is given, is
/// known.
pub open spec fn takes_matrices(node: NodeDef, before: State) -> bool {
    &&& node.input@.len() > 0
    &&& node.output@.len() > 0
    &&& before.env.contains_key(node.inp(0))
    &&& is_sound(before.env[node.inp(0)].shape)
    &&& all_known(before.env[node.inp(0)].dims())
    &&& before.env[node.inp(0)].dims().len() >= 2
    &&& node.has_input(1) ==> before.known.contains_key(node.inp(1))
        && before.known[node.inp(1)].len() > 0
}

/// A Trilu node of square matrices that are not known is done, and its output has the
/// number of the input in each row and column that it keeps, and 0 in the others.
pub proof fn law_trilu_node(
    m: Numbers,
    node: NodeDef,
    before: State,
    after: State,
    result: Outcome,
    index: Seq<int>,
)
    requires
        trilu_step(node, before, after, result),
        takes_matrices(node, before),
        !before.known.contains_key(node.inp(0)),
        ({
            let dims = before.env[node.inp(0)].dims();
            dims[dims.len() - 2] == dims[dims.len() - 1]
        }),
        has_index(before.env[node.inp(0)], index),
    ensures
        result is Done,
        ({
            let x = before.env[node.inp(0)];
            let t = after.env[node.out(0)];
            let rank = index.len();
            &&& t.dims() == x.dims()
            &&& at(m, t, index) == if is_kept(node, before, index[rank - 2], index[rank - 1]) {
                at(m, x, index)
            } else {
                0real
            }
        }),
{
    let x = before.env[node.inp(0)];
    let dims = x.dims();
    let rank = dims.len();
    let upper = node.int_attr("upper"@, 1) == 1;
    let k: i32 = if node.has_input(1) {
        as_i32(before.known[node.inp(1)][0])
    } else {
        0
    };
    assert(dims[rank - 2] is Known && dims[rank - 1] is Known);
    let n = sizes(x)[rank - 2];
    let mask = triangle_mask(upper, n, k);
    let lengths = sizes(x);
    assert(can_broadcast(mask.dims(), lengths)) by {
        assert forall|j: int| 0 <= j < mask.dims().len() implies {
            ||| #[trigger] mask.dims()[j] == Dim::Known(1)
            ||| mask.dims()[j] == Dim::Known(lengths[lengths.len() - mask.dims().len() + j])
        } by {}
    }
    let row = index[rank - 2];
    let column = index[rank - 1];
    assert(0 <= row < lengths[rank - 2] && 0 <= column < lengths[rank - 1]);
    let there = aligned_index(mask.dims(), index);
    lemma_row_major_place(mask.dims(), there);
    lemma_broadcast(m, mask, lengths, index);
    let spread = mask.broadcast(lengths);
    assert(spread.dims() =~= dims) by {
        assert forall|i: int| 0 <= i < rank implies spread.dims()[i] == dims[i] by {
            assert(dims[i] is Known);
        }
    }
    // The mask has its element in the same row and column.
    assert(there =~= seq![row, column]);
    let s = sizes(mask);
    assert(s =~= seq![n, n]);
    assert(s.drop_last() =~= seq![n]);
    assert(s.drop_last().drop_last() =~= Seq::empty());
    assert(there.drop_last() =~= seq![row]);
    reveal_with_fuel(position_at, 3);
    assert(0 * n == 0);
    let p = row * n + column;
    assert(position_at(s, there) == p);
    lemma_fundamental_div_mod_converse(p, n as int, row, column);
    lemma_binary(m, x, Binary::Mul, spread, index);
    let v = at(m, x, index);
    assert(v * 1real == v && v * 0real == 0real) by (nonlinear_arith);
}

/// A Trilu node of known matrices is done. The elements of its output are known and its
/// data, and are those of the input in each row and column that it keeps, and 0 in the
/// others.
pub proof fn law_known_trilu_node(
    node: NodeDef,
    before: State,
    after: State,
    result: Outcome,
    index: Seq<int>,
)
    requires
        trilu_step(node, before, after, result),
        takes_matrices(node, before),
        all_known_of(node, 0, before),
        has_index(before.env[node.inp(0)], index),
        ({
            let lengths = sizes(before.env[node.inp(0)]);
            let rank = lengths.len();
            lengths[rank - 2] <= i32::MAX && lengths[rank - 1] <= i32::MAX && lengths[rank - 2]
                * lengths[rank - 1] <= usize::MAX
        }),
    ensures
        result is Done,
        ({
            let lengths = sizes(before.env[node.inp(0)]);
            let rank = lengths.len();
            let p = position_at(lengths, index);
            let v = after.known[node.out(0)];
            &&& after.env[node.out(0)].dims() == before.env[node.inp(0)].dims()
            &&& after.weights == before.weights.push((node.out(0), v))
            &&& v.len() == before.known[node.inp(0)].len()
            &&& v[p] == if is_kept(node, before, index[rank - 2], index[rank - 1]) {
                before.known[node.inp(0)][p]
            } else {
                ZERO
            }
        }),
{
    let x = before.env[node.inp(0)];
    let dims = x.dims();
    let lengths = sizes(x);
    let rank = lengths.len() as int;
    let rows = lengths[rank - 2] as int;
    let cols = lengths[rank - 1] as int;
    let row = index[rank - 2];
    let col = index[rank - 1];
    assert(dims[rank - 2] is Known && dims[rank - 1] is Known);
    assert(0 <= row < lengths[rank - 2] && 0 <= col < lengths[rank - 1]);
    let v = before.known[node.inp(0)];
    lemma_bounded_product(lengths);
    lemma_position_within(lengths, index);
    let head = lengths.subrange(0, rank - 2);
    let tail = seq![lengths[rank - 2], lengths[rank - 1]];
    let i = index.subrange(0, rank - 2);
    let j = seq![row, col];
    assert(head + tail =~= lengths);
    assert(i + j =~= index);
    lemma_position_of_both(head, tail, i, j);
    crate::shape::lemma_product_of_both(head, tail);
    assert(tail.drop_last() =~= seq![lengths[rank - 2]]);
    assert(tail.drop_last().drop_last() =~= Seq::empty());
    assert(j.drop_last() =~= seq![row]);
    reveal_with_fuel(position_at, 3);
    reveal_with_fuel(product, 3);
    assert(0 * rows == 0 && 1 * rows == rows);
    let size = rows * cols;
    assert(product(tail) == size);
    let q = position_at(head, i);
    let inside = row * cols + col;
    assert(position_at(tail, j) == inside);
    let p = q * size + inside;
    assert(0 <= inside < size) by (nonlinear_arith)
        requires
            inside == row * cols + col,
            0 <= row < rows,
            0 <= col < cols,
            size == rows * cols,
    ;
    lemma_fundamental_div_mod_converse(p, size, q, inside);
    lemma_fundamental_div_mod_converse(inside, cols, row, col);
    let count = product(head) as int;
    lemma_fundamental_div_mod_converse(count * size, size, count, 0);
    assert(v.len() == count * size);
    assert(known_dims(lengths) =~= dims) by {
        assert forall|a: int| 0 <= a < rank implies known_dims(lengths)[a] == dims[a] by {
            assert(dims[a] is Known);
        }
    }
}

/// A Cast node is done, and its output has each number cast to the type that its code
/// means. Known elements become 1 or 0 as truth values, lose their fraction as whole
/// numbers, and stay as they are otherwise.
pub proof fn law_cast_node(
    m: Numbers,
    node: NodeDef,
    before: State,
    after: State,
    result: Outcome,
    index: Seq<int>,
    p: int,
)
    requires
        cast_step(node, before, after, result),
        takes_one(node, before),
        has_index(before.env[node.inp(0)], index),
        before.known.contains_key(node.inp(0)) ==> 0 <= p < before.known[node.inp(0)].len(),
    ensures
        result is Done,
        ({
            let x = before.env[node.inp(0)];
            let t = after.env[node.out(0)];
            let code = node.int_attr("to"@, 1);
            &&& t.dims() == x.dims()
            &&& at(m, t, index) == (m.cast)(
                if code == 10 {
                    DType::F16
                } else if code == 16 {
                    DType::Bf16
                } else if code == 6 || code == 7 {
                    DType::Int
                } else {
                    DType::F32
                },
                at(m, x, index),
            )
            &&& before.known.contains_key(node.inp(0)) ==> {
                let a = before.known[node.inp(0)];
                let r = after.known[node.out(0)];
                &&& r.len() == a.len()
                &&& r[p] == if code == 9 {
                    if a[p] % 0x8000_0000 != 0 {
                        ONE
                    } else {
                        ZERO
                    }
                } else if code == 6 || code == 7 {
                    of_int(as_i64(a[p]) as int)
                } else {
                    a[p]
                }
            }
        }),
{
    let x = before.env[node.inp(0)];
    let code = node.int_attr("to"@, 1);
    lemma_unary(m, x, Unary::Cast(cast_type(code)), index);
    if before.known.contains_key(node.inp(0)) {
        let a = before.known[node.inp(0)];
        assert(nonzero(a[p]) == (a[p] % 0x8000_0000 != 0));
    }
}

} // verus!

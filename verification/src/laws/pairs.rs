//! Operations on the numbers of tensors that are repeated by the rules of numpy.

#[allow(unused_imports)]
use crate::bits::{less, nan, negated, same, unsigned, NEG_ONE, ONE, ZERO, FloatMath};
#[allow(unused_imports)]
use crate::compose::filled;
#[allow(unused_imports)]
use crate::fold::{spread_position, spread_values, Mapping, Pairing};
#[allow(unused_imports)]
use crate::graph::{load, scalar, Binary, Tensor, Unary};
#[allow(unused_imports)]
use crate::laws::curves::takes_one;
#[allow(unused_imports)]
use crate::laws::products::lemma_led;
#[allow(unused_imports)]
use crate::ops::elementwise::{
    both_known, combined, div_step, fold_step, pair_step, recip_name, unary_step,
};
#[allow(unused_imports)]
use crate::proto::NodeDef;
#[allow(unused_imports)]
use crate::reading::{lemma_position_within, position_at, within};
#[allow(unused_imports)]
use crate::shape::{
    all_known, bounded_product, broadcast_sizes, can_broadcast, compatible, joint_sizes, known_dims,
    law_joint_sizes_fit, product, sizes_of, Dim,
};
#[allow(unused_imports)]
use crate::state::{Outcome, State};
#[allow(unused_imports)]
use crate::values::{
    aligned_index, at, has_index, is_sound, lemma_binary, lemma_broadcast, lemma_numbers,
    lemma_row_major_place, lemma_unary, sizes, truth, Numbers,
};
#[allow(unused_imports)]
use vstd::arithmetic::div_mod::lemma_fundamental_div_mod_converse;
use vstd::prelude::*;

verus! {

/// The size that dimensions have on axis `i` of `rank` axes, of which they are the last
/// ones; 1 on those before.
pub open spec fn size_on(dims: Seq<Dim>, rank: int, i: int) -> int {
    if i < rank - dims.len() {
        1
    } else {
        dims[i - (rank - dims.len())]->Known_0 as int
    }
}

/// Whether tensors with these dimensions are both repeated into some sizes: there are as
/// many as the longer of them has, and on each axis, matched from the last one
/// backwards, a tensor has the size or 1, and one of them has the size.
pub open spec fn joins(a: Seq<Dim>, b: Seq<Dim>, lengths: Seq<usize>) -> bool {
    &&& all_known(a)
    &&& all_known(b)
    &&& lengths.len() == if a.len() >= b.len() {
        a.len()
    } else {
        b.len()
    }
    &&& lengths.len() <= usize::MAX
    &&& forall|i: int|
        0 <= i < lengths.len() ==> {
            let x = size_on(a, lengths.len() as int, i);
            let y = size_on(b, lengths.len() as int, i);
            ||| x == #[trigger] lengths[i] && y == lengths[i]
            ||| x == 1 && y == lengths[i]
            ||| x == lengths[i] && y == 1
        }
}

proof fn lemma_size_on(dims: Seq<Dim>, rank: int, i: int)
    requires
        all_known(dims),
        dims.len() <= rank,
        0 <= i < rank,
    ensures
        crate::shape::aligned(sizes_of(dims), rank, i) == size_on(dims, rank, i),
{
    if i >= rank - dims.len() {
        assert(dims[i - (rank - dims.len())] is Known);
    }
}

/// The joint sizes of two tensors.
pub proof fn lemma_joins(a: Seq<Dim>, b: Seq<Dim>, lengths: Seq<usize>)
    requires
        joins(a, b, lengths),
    ensures
        broadcast_sizes(a, b) == Some(lengths),
        can_broadcast(a, lengths),
        can_broadcast(b, lengths),
{
    let x = sizes_of(a);
    let y = sizes_of(b);
    let rank = lengths.len() as int;
    assert(compatible(x, y)) by {
        assert forall|i: int|
            #![trigger crate::shape::aligned(x, rank, i)]
            0 <= i < rank implies {
            let p = crate::shape::aligned(x, rank, i);
            let q = crate::shape::aligned(y, rank, i);
            p == q || p == 1 || q == 1
        } by {
            lemma_size_on(a, rank, i);
            lemma_size_on(b, rank, i);
            assert(lengths[i] >= 0);
        }
    }
    assert(joint_sizes(x, y) =~= lengths) by {
        assert forall|i: int| 0 <= i < rank implies joint_sizes(x, y)[i] == lengths[i] by {
            lemma_size_on(a, rank, i);
            lemma_size_on(b, rank, i);
            assert(lengths[i] >= 0);
        }
    }
    law_joint_sizes_fit(a, b);
}

/// The number that an operation gives for two numbers.
pub open spec fn pair_value(m: Numbers, op: Pairing, x: real, y: real) -> real {
    match op {
        Pairing::Add => x + y,
        Pairing::Mul => x * y,
        Pairing::Div => x / y,
        Pairing::Rem => (m.rem)(x, y),
        Pairing::Pow => (m.pow)(x, y),
        Pairing::Equal => truth(x == y),
        Pairing::AtMost => truth(x <= y),
    }
}

/// Whether some bits are a result of an operation on two numbers that are given as
/// bits.
pub open spec fn is_result<M: FloatMath>(math: M, op: Pairing, a: u32, b: u32, r: u32) -> bool {
    match op {
        Pairing::Add => call_ensures(M::add, (&math, a, b), r),
        Pairing::Mul => exists|p: u32| #[trigger]
            call_ensures(M::mul, (&math, a, b), p) && r == if nan(p) {
                ZERO
            } else {
                p
            },
        Pairing::Div => call_ensures(M::div, (&math, a, b), r),
        Pairing::Rem => call_ensures(M::rem, (&math, a, b), r),
        Pairing::Pow => call_ensures(M::pow, (&math, a, b), r),
        Pairing::Equal => r == if same(a, b) {
            ONE
        } else {
            ZERO
        },
        Pairing::AtMost => r == if less(a, b) || same(a, b) {
            ONE
        } else {
            ZERO
        },
    }
}

/// An operation on two tensors that are repeated into joint sizes.
proof fn lemma_combined(
    m: Numbers,
    op: Pairing,
    a: Tensor,
    b: Tensor,
    lengths: Seq<usize>,
    index: Seq<int>,
)
    requires
        is_sound(a.shape),
        is_sound(b.shape),
        lengths.len() <= usize::MAX,
        can_broadcast(a.dims(), lengths),
        can_broadcast(b.dims(), lengths),
        within(lengths, index),
        op == Pairing::Div ==> at(m, b, aligned_index(b.dims(), index)) != 0real,
    ensures
        combined(op, a, b, lengths).dims() == known_dims(lengths),
        at(m, combined(op, a, b, lengths), index) == pair_value(
            m,
            op,
            at(m, a, aligned_index(a.dims(), index)),
            at(m, b, aligned_index(b.dims(), index)),
        ),
{
    let x = a.broadcast(lengths);
    let y = b.broadcast(lengths);
    lemma_broadcast(m, a, lengths, index);
    lemma_broadcast(m, b, lengths, index);
    assert(sizes(x) =~= lengths);
    assert(has_index(x, index));
    let v = at(m, a, aligned_index(a.dims(), index));
    let w = at(m, b, aligned_index(b.dims(), index));
    match op {
        Pairing::Add => lemma_binary(m, x, Binary::Add, y, index),
        Pairing::Mul => lemma_binary(m, x, Binary::Mul, y, index),
        Pairing::Div => {
            lemma_unary(m, y, Unary::Recip, index);
            lemma_binary(m, x, Binary::Mul, y.unary(Unary::Recip), index);
            assert(v * (1real / w) == v / w) by (nonlinear_arith)
                requires
                    w != 0real,
            ;
        },
        Pairing::Rem => lemma_binary(m, x, Binary::Rem, y, index),
        Pairing::Pow => lemma_binary(m, x, Binary::Pow, y, index),
        Pairing::Equal => lemma_binary(m, x, Binary::Eq, y, index),
        Pairing::AtMost => {
            lemma_binary(m, x, Binary::Lt, y, index);
            lemma_binary(m, x, Binary::Eq, y, index);
            lemma_binary(
                m,
                x.binary(Binary::Lt, y),
                Binary::Add,
                x.binary(Binary::Eq, y),
                index,
            );
        },
    }
}

/// Where an element is found that is repeated into sizes.
proof fn lemma_spread_position(from: Seq<usize>, to: Seq<usize>, index: Seq<int>)
    requires
        can_broadcast(known_dims(from), to),
        within(to, index),
    ensures
        spread_position(from, to, position_at(to, index)) == position_at(
            from,
            aligned_index(known_dims(from), index),
        ),
    decreases to.len(),
{
    let dims = known_dims(from);
    let there = aligned_index(dims, index);
    if to.len() > 0 && from.len() > 0 {
        let short = index.drop_last();
        let z = to.last() as int;
        let n = to.len() - 1;
        let k = from.len() - 1;
        assert(within(to.drop_last(), short)) by {
            assert forall|i: int| 0 <= i < n implies 0 <= #[trigger] short[i]
                < to.drop_last()[i] by {
                assert(0 <= index[i] < to[i]);
            }
        }
        assert(can_broadcast(known_dims(from.drop_last()), to.drop_last())) by {
            let lead = to.len() - from.len();
            assert forall|j: int| 0 <= j < from.drop_last().len() implies {
                ||| #[trigger] known_dims(from.drop_last())[j] == Dim::Known(
                    to.drop_last()[j + (to.drop_last().len() - from.drop_last().len())],
                )
                ||| known_dims(from.drop_last())[j] == Dim::Known(1)
            } by {
                assert(dims[j] == Dim::Known(to[j + lead]) || dims[j] == Dim::Known(1));
            }
        }
        lemma_spread_position(from.drop_last(), to.drop_last(), short);
        let q = position_at(to.drop_last(), short);
        assert(0 <= index[n] < to[n]);
        lemma_fundamental_div_mod_converse(q * z + index[n], z, q, index[n]);
        assert(there.drop_last() =~= aligned_index(known_dims(from.drop_last()), short));
        assert(there.last() == if from[k] == 1 {
            0
        } else {
            index[n]
        });
    } else if from.len() == 0 {
        assert(there =~= Seq::empty());
    }
}

/// A list that is repeated into sizes has, at an index, its own element there.
pub proof fn lemma_spread_values(v: Seq<u32>, from: Seq<Dim>, to: Seq<usize>, index: Seq<int>)
    requires
        all_known(from),
        can_broadcast(from, to),
        within(to, index),
    ensures
        spread_values(v, sizes_of(from), to).len() == product(to),
        0 <= position_at(to, index) < product(to),
        spread_values(v, sizes_of(from), to)[position_at(to, index)] == v[position_at(
            sizes_of(from),
            aligned_index(from, index),
        )],
{
    assert(known_dims(sizes_of(from)) =~= from) by {
        assert forall|i: int| 0 <= i < from.len() implies known_dims(sizes_of(from))[i]
            == from[i] by {
            assert(from[i] is Known);
        }
    }
    lemma_position_within(to, index);
    lemma_spread_position(sizes_of(from), to, index);
}

/// Whether a node has two inputs, which are tensors that are repeated into some sizes.
pub open spec fn takes_two(node: NodeDef, before: State, lengths: Seq<usize>) -> bool {
    &&& node.input@.len() == 2
    &&& node.output@.len() > 0
    &&& before.env.contains_key(node.inp(0))
    &&& before.env.contains_key(node.inp(1))
    &&& is_sound(before.env[node.inp(0)].shape)
    &&& is_sound(before.env[node.inp(1)].shape)
    &&& joins(before.env[node.inp(0)].dims(), before.env[node.inp(1)].dims(), lengths)
}

/// Whether an input has as many known elements as its sizes say.
pub open spec fn all_known_of(node: NodeDef, i: int, before: State) -> bool {
    &&& before.known.contains_key(node.inp(i))
    &&& before.known[node.inp(i)].len() <= usize::MAX
    &&& bounded_product(sizes(before.env[node.inp(i)])) == Some(
        before.known[node.inp(i)].len() as usize,
    )
}

/// Whether the known elements of an output are results of an operation on those of
/// both inputs, at the index that each is repeated from.
pub open spec fn gives_results<M: FloatMath>(
    math: M,
    op: Pairing,
    node: NodeDef,
    before: State,
    after: State,
    lengths: Seq<usize>,
    index: Seq<int>,
) -> bool {
    let a = before.env[node.inp(0)].dims();
    let b = before.env[node.inp(1)].dims();
    let v = after.known[node.out(0)];
    &&& after.known.contains_key(node.out(0))
    &&& v.len() == product(lengths)
    &&& is_result(
        math,
        op,
        before.known[node.inp(0)][position_at(sizes_of(a), aligned_index(a, index))],
        before.known[node.inp(1)][position_at(sizes_of(b), aligned_index(b, index))],
        v[position_at(lengths, index)],
    )
}

proof fn lemma_folded<M: FloatMath>(
    math: M,
    op: Pairing,
    node: NodeDef,
    before: State,
    after: State,
    lengths: Seq<usize>,
    index: Seq<int>,
)
    requires
        takes_two(node, before, lengths),
        all_known_of(node, 0, before),
        all_known_of(node, 1, before),
        bounded_product(lengths) is Some,
        within(lengths, index),
        after.known.contains_key(node.out(0)),
        crate::ops::elementwise::folds_to(math, node, op, before, after.known[node.out(0)]),
    ensures
        gives_results(math, op, node, before, after, lengths, index),
{
    let a = before.env[node.inp(0)].dims();
    let b = before.env[node.inp(1)].dims();
    lemma_joins(a, b, lengths);
    lemma_spread_values(before.known[node.inp(0)], a, lengths, index);
    lemma_spread_values(before.known[node.inp(1)], b, lengths, index);
    let n = product(lengths) as int;
    let p = position_at(lengths, index);
    let out = after.known[node.out(0)];
    assert(p % n == p) by {
        lemma_fundamental_div_mod_converse(p, n, 0, p);
    }
    assert(out[p] == out[p]);
}

/// A node that adds or multiplies two tensors of which one is not known is done, and
/// its output has, at each index of the joint sizes, the sum or the product of the
/// numbers that each has there.
pub proof fn law_sum_or_product_node<M: FloatMath>(
    m: Numbers,
    math: M,
    node: NodeDef,
    prefix: Seq<char>,
    op: Pairing,
    before: State,
    after: State,
    result: Outcome,
    lengths: Seq<usize>,
    index: Seq<int>,
)
    requires
        fold_step(math, node, prefix, op, before, after, result),
        op == Pairing::Add || op == Pairing::Mul,
        takes_two(node, before, lengths),
        !(before.known.contains_key(node.inp(0)) && before.known.contains_key(node.inp(1))),
        within(lengths, index),
    ensures
        result is Done,
        ({
            let a = before.env[node.inp(0)];
            let b = before.env[node.inp(1)];
            let t = after.env[node.out(0)];
            &&& t.dims() == known_dims(lengths)
            &&& at(m, t, index) == pair_value(
                m,
                op,
                at(m, a, aligned_index(a.dims(), index)),
                at(m, b, aligned_index(b.dims(), index)),
            )
        }),
{
    let a = before.env[node.inp(0)];
    let b = before.env[node.inp(1)];
    lemma_joins(a.dims(), b.dims(), lengths);
    lemma_combined(m, op, a, b, lengths, index);
}

/// A node that adds or multiplies two tensors whose elements are known is done, and
/// those of its output are known and its data: the results of the operation on the
/// elements that each has at the same index.
pub proof fn law_known_sum_or_product_node<M: FloatMath>(
    math: M,
    node: NodeDef,
    prefix: Seq<char>,
    op: Pairing,
    before: State,
    after: State,
    result: Outcome,
    lengths: Seq<usize>,
    index: Seq<int>,
)
    requires
        fold_step(math, node, prefix, op, before, after, result),
        takes_two(node, before, lengths),
        all_known_of(node, 0, before),
        all_known_of(node, 1, before),
        bounded_product(lengths) is Some,
        within(lengths, index),
    ensures
        result is Done,
        after.env[node.out(0)].dims() == known_dims(lengths),
        gives_results(math, op, node, before, after, lengths, index),
        after.weights == before.weights.push((node.out(0), after.known[node.out(0)])),
{
    lemma_joins(before.env[node.inp(0)].dims(), before.env[node.inp(1)].dims(), lengths);
    assert(after.known.contains_key(node.out(0)));
    lemma_folded(math, op, node, before, after, lengths, index);
}

/// A node that compares two tensors, or takes a remainder or a power, is done, and its
/// output has, at each index of the joint sizes, the result for the numbers that each
/// has there. If the elements of both are known, so are those of the output.
pub proof fn law_pair_node<M: FloatMath>(
    m: Numbers,
    math: M,
    node: NodeDef,
    first: Seq<char>,
    second: Seq<char>,
    op: Pairing,
    before: State,
    after: State,
    result: Outcome,
    lengths: Seq<usize>,
    index: Seq<int>,
)
    requires
        pair_step(math, node, first, second, op, before, after, result),
        op != Pairing::Div,
        takes_two(node, before, lengths),
        ({
            ||| !(before.known.contains_key(node.inp(0)) && before.known.contains_key(node.inp(1)))
            ||| all_known_of(node, 0, before) && all_known_of(node, 1, before) && bounded_product(
                lengths,
            ) is Some
        }),
        within(lengths, index),
    ensures
        result is Done,
        ({
            let a = before.env[node.inp(0)];
            let b = before.env[node.inp(1)];
            let t = after.env[node.out(0)];
            &&& t.dims() == known_dims(lengths)
            &&& at(m, t, index) == pair_value(
                m,
                op,
                at(m, a, aligned_index(a.dims(), index)),
                at(m, b, aligned_index(b.dims(), index)),
            )
        }),
        before.known.contains_key(node.inp(0)) && before.known.contains_key(node.inp(1))
            ==> gives_results(math, op, node, before, after, lengths, index),
{
    let a = before.env[node.inp(0)];
    let b = before.env[node.inp(1)];
    lemma_joins(a.dims(), b.dims(), lengths);
    lemma_combined(m, op, a, b, lengths, index);
    if both_known(node, before) {
        assert(after.known.contains_key(node.out(0)));
        lemma_folded(math, op, node, before, after, lengths, index);
    }
}

/// A Div node is done. Its output has, at each index of the joint sizes, the quotient of
/// the numbers that each input has there, or the product with what is given under the
/// name of the reciprocals, if the divisor is known; its data are the reciprocals, if
/// they are not there yet. If both inputs are known, so are the quotients.
pub proof fn law_div_node<M: FloatMath>(
    m: Numbers,
    math: M,
    node: NodeDef,
    before: State,
    after: State,
    result: Outcome,
    lengths: Seq<usize>,
    index: Seq<int>,
)
    requires
        div_step(math, node, before, after, result),
        takes_two(node, before, lengths),
        within(lengths, index),
        before.known.contains_key(node.inp(1)) ==> !before.env.contains_key(
            node.inp(1) + "_recip"@,
        ),
        before.known.contains_key(node.inp(0)) && before.known.contains_key(node.inp(1))
            ==> all_known_of(node, 0, before) && all_known_of(node, 1, before) && bounded_product(
            lengths,
        ) is Some,
        !before.known.contains_key(node.inp(1)) ==> at(
            m,
            before.env[node.inp(1)],
            aligned_index(before.env[node.inp(1)].dims(), index),
        ) != 0real,
    ensures
        result is Done,
        after.env[node.out(0)].dims() == known_dims(lengths),
        ({
            let a = before.env[node.inp(0)];
            let b = before.env[node.inp(1)];
            let t = after.env[node.out(0)];
            let x = at(m, a, aligned_index(a.dims(), index));
            let place = position_at(sizes(b), aligned_index(b.dims(), index));
            if !before.known.contains_key(node.inp(1)) {
                at(m, t, index) == x / at(m, b, aligned_index(b.dims(), index))
            } else if before.known.contains_key(node.inp(0)) {
                gives_results(math, Pairing::Div, node, before, after, lengths, index)
            } else {
                let added = after.weights.last();
                &&& at(m, t, index) == x * (m.given)(node.inp(1) + "_recip"@, place)
                &&& after.weights == before.weights.push(added)
                &&& added.0 == node.inp(1) + "_recip"@
                &&& added.1.len() == before.known[node.inp(1)].len()
                &&& 0 <= place < added.1.len() ==> call_ensures(
                    M::div,
                    (&math, ONE, before.known[node.inp(1)][place]),
                    added.1[place],
                )
            }
        }),
{
    let a = before.env[node.inp(0)];
    let b = before.env[node.inp(1)];
    lemma_joins(a.dims(), b.dims(), lengths);
    if both_known(node, before) {
        assert(after.known.contains_key(node.out(0)));
        lemma_folded(math, Pairing::Div, node, before, after, lengths, index);
    } else if before.known.contains_key(node.inp(1)) {
        let name = recip_name(node.inp(1));
        let r = load(name, b.dims());
        lemma_broadcast(m, b, lengths, index);
        let there = aligned_index(b.dims(), index);
        lemma_row_major_place(b.dims(), there);
        lemma_combined(m, Pairing::Mul, a, r, lengths, index);
        let added = after.weights.last();
        let place = position_at(sizes(b), there);
        if 0 <= place < added.1.len() {
            assert(added.1[place] == added.1[place]);
        }
    } else {
        lemma_combined(m, Pairing::Div, a, b, lengths, index);
    }
}

/// A node that takes the square root, the sine, the cosine, the negative or the absolute
/// value of each number is done, and so is its output at each index. If the elements of
/// the input are known, so are those of the output.
pub proof fn law_map_node<M: FloatMath>(
    m: Numbers,
    math: M,
    node: NodeDef,
    prefix: Seq<char>,
    op: Mapping,
    before: State,
    after: State,
    result: Outcome,
    index: Seq<int>,
    p: int,
)
    requires
        unary_step(math, node, prefix, op, before, after, result),
        takes_one(node, before),
        has_index(before.env[node.inp(0)], index),
        before.known.contains_key(node.inp(0)) ==> 0 <= p < before.known[node.inp(0)].len(),
    ensures
        result is Done,
        ({
            let x = before.env[node.inp(0)];
            let t = after.env[node.out(0)];
            let v = at(m, x, index);
            &&& t.dims() == x.dims()
            &&& at(m, t, index) == match op {
                Mapping::Sqrt => (m.sqrt)(v),
                Mapping::Sin => (m.sin)(v),
                Mapping::Cos => (m.cos)(v),
                Mapping::Neg => 0real - v,
                Mapping::Abs => if v >= 0real {
                    v
                } else {
                    0real - v
                },
            }
        }),
        before.known.contains_key(node.inp(0)) ==> {
            let a = before.known[node.inp(0)];
            let r = after.known[node.out(0)];
            &&& r.len() == a.len()
            &&& match op {
                Mapping::Sqrt => call_ensures(M::sqrt, (&math, a[p]), r[p]),
                Mapping::Sin => call_ensures(M::sin, (&math, a[p]), r[p]),
                Mapping::Cos => call_ensures(M::cos, (&math, a[p]), r[p]),
                Mapping::Neg => r[p] == negated(a[p]),
                Mapping::Abs => r[p] == unsigned(a[p]),
            }
        },
{
    let x = before.env[node.inp(0)];
    match op {
        Mapping::Sqrt => lemma_unary(m, x, Unary::Sqrt, index),
        Mapping::Sin => lemma_unary(m, x, Unary::Sin, index),
        Mapping::Cos => lemma_unary(m, x, Unary::Cos, index),
        Mapping::Abs => lemma_unary(m, x, Unary::Abs, index),
        Mapping::Neg => {
            let minus = filled(scalar(NEG_ONE), x.dims());
            lemma_numbers();
            lemma_row_major_place(Seq::empty(), Seq::empty());
            lemma_led(m, scalar(NEG_ONE), x.dims(), index, Seq::empty());
            assert(minus.dims() =~= x.dims());
            assert(index + Seq::<int>::empty() =~= index);
            lemma_binary(m, x, Binary::Mul, minus, index);
            let v = at(m, x, index);
            assert(v * (0real - 1real) == 0real - v) by (nonlinear_arith);
        },
    }
    if before.known.contains_key(node.inp(0)) {
        let r = after.known[node.out(0)];
        assert(r[p] == r[p]);
    }
}

} // verus!

//! Known elements that are not as many as the sizes of their tensors say: they are
//! taken one by one, in the order in which they stand.

#[allow(unused_imports)]
use crate::bits::FloatMath;
#[allow(unused_imports)]
use crate::fold::{cycled, pairwise, selected, Pairing};
#[allow(unused_imports)]
use crate::laws::choices::{lemma_three, takes_three};
#[allow(unused_imports)]
use crate::laws::pairs::{all_known_of, is_result, lemma_joins, takes_two};
#[allow(unused_imports)]
use crate::ops::elementwise::{both_whole, fold_step, pair_step};
#[allow(unused_imports)]
use crate::ops::pieces::{
    can_join, concat_axis, concat_folds, concat_step, inputs_known, is_whole, joined_values,
};
#[allow(unused_imports)]
use crate::ops::select::{where_step, where_whole};
#[allow(unused_imports)]
use crate::proto::NodeDef;
#[allow(unused_imports)]
use crate::shape::{all_known, known_dims, Dim};
#[allow(unused_imports)]
use crate::state::{Outcome, State};
#[allow(unused_imports)]
use vstd::arithmetic::div_mod::lemma_fundamental_div_mod_converse;
use vstd::prelude::*;

verus! {

/// Two lists of which none is empty are paired from the beginning, up to the end of the
/// longer one, and the shorter one starts over as often as it has to.
pub proof fn law_lists_are_paired<M: FloatMath>(
    math: M,
    op: Pairing,
    a: Seq<u32>,
    b: Seq<u32>,
    out: Seq<u32>,
    i: int,
    x: int,
    y: int,
    s: int,
    t: int,
)
    requires
        pairwise(math, op, a, b, out),
        0 <= x < a.len(),
        0 <= y < b.len(),
        i == s * a.len() + x,
        i == t * b.len() + y,
        0 <= i < out.len(),
    ensures
        out.len() == if a.len() >= b.len() {
            a.len()
        } else {
            b.len()
        },
        is_result(math, op, a[x], b[y], out[i]),
{
    lemma_fundamental_div_mod_converse(i, a.len() as int, s, x);
    lemma_fundamental_div_mod_converse(i, b.len() as int, t, y);
    assert(out[i] >= 0);
}

/// A node on two tensors of which one has another number of known elements than its
/// sizes say is done if both have some, and its known elements are the results for the
/// lists of both.
pub proof fn law_pair_node_of_lists<M: FloatMath>(
    math: M,
    node: NodeDef,
    first: Seq<char>,
    second: Seq<char>,
    op: Pairing,
    before: State,
    after: State,
    result: Outcome,
    lengths: Seq<usize>,
    i: int,
    x: int,
    y: int,
    s: int,
    t: int,
)
    requires
        pair_step(math, node, first, second, op, before, after, result) || fold_step(
            math,
            node,
            first,
            op,
            before,
            after,
            result,
        ),
        takes_two(node, before, lengths),
        before.known.contains_key(node.inp(0)),
        before.known.contains_key(node.inp(1)),
        before.known[node.inp(0)].len() <= usize::MAX,
        before.known[node.inp(1)].len() <= usize::MAX,
        !(all_known_of(node, 0, before) && all_known_of(node, 1, before)),
        ({
            let a = before.known[node.inp(0)].len();
            let b = before.known[node.inp(1)].len();
            &&& 0 <= x < a
            &&& 0 <= y < b
            &&& i == s * a + x
            &&& i == t * b + y
            &&& 0 <= i < a || 0 <= i < b
        }),
    ensures
        result is Done,
        ({
            let a = before.known[node.inp(0)];
            let b = before.known[node.inp(1)];
            let v = after.known[node.out(0)];
            &&& after.known.contains_key(node.out(0))
            &&& v.len() == if a.len() >= b.len() {
                a.len()
            } else {
                b.len()
            }
            &&& is_result(math, op, a[x], b[y], v[i])
        }),
{
    lemma_joins(before.env[node.inp(0)].dims(), before.env[node.inp(1)].dims(), lengths);
    assert(!both_whole(node, before));
    assert(result is Done);
    law_lists_are_paired(
        math,
        op,
        before.known[node.inp(0)],
        before.known[node.inp(1)],
        after.known[node.out(0)],
        i,
        x,
        y,
        s,
        t,
    );
}

/// A list that starts over when it ends has the same element in each turn.
pub proof fn law_list_starts_over(a: Seq<u32>, len: nat, i: int, x: int, turns: int)
    requires
        0 <= x < a.len(),
        i == turns * a.len() + x,
        0 <= i < len,
    ensures
        cycled(a, len).len() == len,
        cycled(a, len)[i] == a[x],
{
    lemma_fundamental_div_mod_converse(i, a.len() as int, turns, x);
}

/// The element of a list in a position; one element stands for all of them.
pub open spec fn element_at(v: Seq<u32>, i: int) -> u32 {
    if v.len() == 1 {
        v[0]
    } else {
        v[i]
    }
}

/// A Where node of which one input has another number of known elements than its sizes
/// say is done if all have as many, or one, and its known elements are those of the
/// second input where those of the first are not 0, and else those of the third.
pub proof fn law_where_node_of_lists(
    node: NodeDef,
    before: State,
    after: State,
    result: Outcome,
    both: Seq<usize>,
    lengths: Seq<usize>,
    len: nat,
    i: int,
)
    requires
        where_step(node, before, after, result),
        takes_three(node, before, both, lengths),
        forall|k: int|
            0 <= k < 3 ==> before.known.contains_key(#[trigger] node.inp(k))
                && before.known[node.inp(k)].len() <= usize::MAX && (before.known[node.inp(k)].len()
                == 1 || before.known[node.inp(k)].len() == len),
        exists|k: int| 0 <= k < 3 && before.known[#[trigger] node.inp(k)].len() == len,
        !(all_known_of(node, 0, before) && all_known_of(node, 1, before) && all_known_of(
            node,
            2,
            before,
        )),
        0 <= i < len,
    ensures
        result is Done,
        ({
            let v = after.known[node.out(0)];
            &&& after.known.contains_key(node.out(0))
            &&& v.len() == len
            &&& v[i] == if element_at(before.known[node.inp(0)], i) % 0x8000_0000 != 0 {
                element_at(before.known[node.inp(1)], i)
            } else {
                element_at(before.known[node.inp(2)], i)
            }
        }),
{
    lemma_three(node, before, both, lengths);
    let c = before.known[node.inp(0)];
    let x = before.known[node.inp(1)];
    let y = before.known[node.inp(2)];
    assert(before.known.contains_key(node.inp(0)));
    assert(before.known.contains_key(node.inp(1)));
    assert(before.known.contains_key(node.inp(2)));
    assert(!where_whole(node, before));
    let k = choose|k: int| 0 <= k < 3 && before.known[#[trigger] node.inp(k)].len() == len;
    assert(k == 0 || k == 1 || k == 2);
    assert(selected(c, x, y).len() == len);
    let first = element_at(c, i);
    assert(crate::bits::nonzero(first) == (first % 0x8000_0000 != 0));
}

/// How many known elements the first `n` inputs have.
pub open spec fn count_before(node: NodeDef, before: State, n: nat) -> nat
    decreases n,
{
    if n == 0 {
        0
    } else {
        count_before(node, before, (n - 1) as nat) + before.known[node.inp(n - 1)].len()
    }
}

proof fn lemma_joined(node: NodeDef, before: State, n: nat, j: int, p: int)
    requires
        0 <= j < n,
        0 <= p < before.known[node.inp(j)].len(),
    ensures
        joined_values(node, before, n).len() == count_before(node, before, n),
        count_before(node, before, j as nat) + before.known[node.inp(j)].len() <= count_before(
            node,
            before,
            n,
        ),
        joined_values(node, before, n)[count_before(node, before, j as nat) + p]
            == before.known[node.inp(j)][p],
    decreases n,
{
    if j < n - 1 {
        lemma_joined(node, before, (n - 1) as nat, j, p);
    } else {
        lemma_joined_count(node, before, (n - 1) as nat);
    }
}

proof fn lemma_joined_count(node: NodeDef, before: State, n: nat)
    ensures
        joined_values(node, before, n).len() == count_before(node, before, n),
    decreases n,
{
    if n > 0 {
        lemma_joined_count(node, before, (n - 1) as nat);
    }
}

proof fn lemma_all_whole(node: NodeDef, before: State, axis: int, n: nat, j: int)
    requires
        can_join(node, before, axis, n),
        0 <= j < n,
    ensures
        is_whole(node, before, j),
    decreases n,
{
    if n > 1 && j < n - 1 {
        lemma_all_whole(node, before, axis, (n - 1) as nat, j);
    }
}

/// A Concat node whose inputs are all known, one of them not with as many elements as its
/// sizes say, is done. Its output is a vector of the elements of all inputs, one after
/// the other, which are known and its data.
pub proof fn law_concat_node_of_lists(
    node: NodeDef,
    before: State,
    after: State,
    result: Outcome,
    odd: int,
    j: int,
    p: int,
)
    requires
        concat_step(node, before, after, result),
        node.output@.len() > 0,
        forall|k: int|
            0 <= k < node.input@.len() ==> before.known.contains_key(#[trigger] node.inp(k)),
        0 <= odd < node.input@.len(),
        before.known[node.inp(odd)].len() <= usize::MAX,
        !(all_known(before.env[node.inp(odd)].dims()) && all_known_of(node, odd, before)),
        0 <= j < node.input@.len(),
        0 <= p < before.known[node.inp(j)].len(),
        count_before(node, before, node.input@.len()) <= usize::MAX,
    ensures
        result is Done,
        ({
            let v = after.known[node.out(0)];
            let count = count_before(node, before, node.input@.len());
            &&& after.env[node.out(0)].dims() == seq![Dim::Known(count as usize)]
            &&& after.weights == before.weights.push((node.out(0), v))
            &&& after.known.contains_key(node.out(0))
            &&& v.len() == count
            &&& v[count_before(node, before, j as nat) + p] == before.known[node.inp(j)][p]
        }),
{
    let count = node.input@.len();
    let axis = concat_axis(node, before);
    if can_join(node, before, axis, count) {
        lemma_all_whole(node, before, axis, count, odd);
    }
    assert(inputs_known(node, before));
    assert(!concat_folds(node, before));
    lemma_joined(node, before, count, j, p);
    let all = count_before(node, before, count);
    assert(known_dims(seq![all as usize]) =~= seq![Dim::Known(all as usize)]);
}

} // verus!

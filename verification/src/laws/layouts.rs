//! Tensors with other axes, and with the same numbers.

#[allow(unused_imports)]
use crate::bits::{as_i64, of_int, ONE};
#[allow(unused_imports)]
use crate::graph::{scalar, Binary, Tensor};
#[allow(unused_imports)]
use crate::laws::curves::takes_one;
#[allow(unused_imports)]
use crate::laws::means::{kept, stand_for};
#[allow(unused_imports)]
use crate::ops::axes::{counted, counted_all, in_order, law_in_order, whole_numbers};
#[allow(unused_imports)]
use crate::ops::layout::{
    can_reshape, can_squeeze, can_unsqueeze, contiguous, dropout_step, given_product, given_size,
    identity_step, reshape_sizes, reshape_step, shape_step, squeeze_axes, squeeze_step, squeezed,
    transpose_order, transpose_step, unit_axes, unsqueeze_axes, unsqueeze_step, unsqueezed,
};
#[allow(unused_imports)]
use crate::ops::normalize::given_axes;
#[allow(unused_imports)]
use crate::proto::NodeDef;
#[allow(unused_imports)]
use crate::reading::{lemma_position_within, position_at, within};
#[allow(unused_imports)]
use crate::shape::{
    bounded_product, is_permutation, known_dims, lemma_bounded_product, product, sizes_of, Dim,
    Shape,
};
#[allow(unused_imports)]
use crate::state::{Outcome, State};
#[allow(unused_imports)]
use crate::values::{
    at, axis_in, has_axis, has_index, is_sound, lemma_binary, lemma_broadcast, lemma_expanded,
    lemma_in_place, lemma_made, lemma_numbers, lemma_permuted, lemma_row_major_place,
    lemma_squeezed, place, place_below, sizes, Numbers,
};
use vstd::prelude::*;

verus! {

/// Whether the elements that are known of an output are those of the input.
pub open spec fn passes_known(node: NodeDef, before: State, after: State) -> bool {
    before.known.contains_key(node.inp(0)) ==> after.known.contains_key(node.out(0))
        && after.known[node.out(0)] == before.known[node.inp(0)]
}

/// An Identity node is done, and its output is the input, with its known elements.
pub proof fn law_identity_node(node: NodeDef, before: State, after: State, result: Outcome)
    requires
        identity_step(node, before, after, result),
        takes_one(node, before),
        node.output@.len() == 1,
    ensures
        result is Done,
        after.env[node.out(0)] == before.env[node.inp(0)],
        passes_known(node, before, after),
{
}

/// A Dropout node is done, and its output is the input, with its known elements.
pub proof fn law_dropout_node(node: NodeDef, before: State, after: State, result: Outcome)
    requires
        dropout_step(node, before, after, result),
        node.input@.len() > 0,
        node.output@.len() > 0,
        before.env.contains_key(node.inp(0)),
    ensures
        result is Done,
        after.env[node.out(0)] == before.env[node.inp(0)],
        passes_known(node, before, after),
{
}

/// A Shape node is done, and its output is a vector of as many elements as the input
/// has axes. They are known and its data, and each is the size of that axis.
pub proof fn law_shape_node(
    node: NodeDef,
    before: State,
    after: State,
    result: Outcome,
    axis: int,
)
    requires
        shape_step(node, before, after, result),
        takes_one(node, before),
        0 <= axis < before.env[node.inp(0)].dims().len(),
    ensures
        result is Done,
        ({
            let dims = before.env[node.inp(0)].dims();
            let v = after.known[node.out(0)];
            &&& after.env[node.out(0)].dims() == seq![Dim::Known(dims.len() as usize)]
            &&& after.weights == before.weights.push((node.out(0), v))
            &&& v.len() == dims.len()
            &&& v[axis] == of_int(dims[axis]->Known_0 as int)
        }),
{
    let dims = before.env[node.inp(0)].dims();
    assert(known_dims(seq![dims.len() as usize]) =~= seq![Dim::Known(dims.len() as usize)]);
}

/// A Transpose node is done, and axis `i` of its output is axis `order[i]` of the input,
/// with the same numbers. The order is the one that the node gives, or else the
/// reversed one.
pub proof fn law_transpose_node(
    m: Numbers,
    node: NodeDef,
    before: State,
    after: State,
    result: Outcome,
    order: Seq<usize>,
    index: Seq<int>,
)
    requires
        transpose_step(node, before, after, result),
        takes_one(node, before),
        is_permutation(order, before.env[node.inp(0)].dims().len()),
        forall|i: int|
            0 <= i < order.len() ==> match node.attr("perm"@) {
                Some(a) => a.ints@.len() == order.len() && a.ints@[i] == #[trigger] order[i],
                None => order[i] == order.len() - 1 - i,
            },
        order.len() == 0 ==> (node.attr("perm"@) matches Some(a) ==> a.ints@.len() == 0),
        has_index(before.env[node.inp(0)], index),
    ensures
        result is Done,
        ({
            let x = before.env[node.inp(0)];
            let t = after.env[node.out(0)];
            let moved = Seq::new(order.len(), |i: int| index[order[i] as int]);
            &&& t.dims() == Seq::new(order.len(), |i: int| x.dims()[order[i] as int])
            &&& at(m, t, moved) == at(m, x, index)
        }),
        after.known == before.known,
{
    let x = before.env[node.inp(0)];
    let rank = x.dims().len();
    match node.attr("perm"@) {
        Some(a) => {
            let ints = a.ints@;
            if rank > 0 {
                assert(order[0] >= 0);
            }
            assert forall|i: int| 0 <= i < rank implies 0 <= #[trigger] ints[i] < rank by {
                assert(order[i] < rank);
            }
            assert forall|i: int, j: int|
                0 <= i < ints.len() && 0 <= j < ints.len() && i != j implies ints[i]
                != ints[j] by {
                assert(order[i] != order[j]);
            }
            assert(transpose_order(node, rank) =~= order) by {
                assert forall|i: int| 0 <= i < rank implies transpose_order(node, rank)[i]
                    == order[i] by {
                    assert(order[i] < rank);
                }
            }
        },
        None => {
            assert(transpose_order(node, rank) =~= order);
        },
    }
    lemma_permuted(m, x, order, index);
}

/// What is kept depends only on which axes there are.
proof fn lemma_kept_same<T>(v: Seq<T>, a: Seq<usize>, b: Seq<usize>, n: int)
    requires
        0 <= n <= v.len(),
        forall|x: usize| a.contains(x) == b.contains(x),
    ensures
        kept(v, a, n) == kept(v, b, n),
    decreases v.len() - n,
{
    if n < v.len() {
        lemma_kept_same(v, a, b, n + 1);
    }
}

proof fn lemma_kept_all<T>(v: Seq<T>, axes: Seq<usize>, n: int)
    requires
        0 <= n <= v.len() <= usize::MAX,
        forall|i: int| 0 <= i < axes.len() ==> #[trigger] axes[i] < n,
    ensures
        kept(v, axes, n) == v.subrange(n, v.len() as int),
    decreases v.len() - n,
{
    if n < v.len() {
        lemma_kept_all(v, axes, n + 1);
        assert(!axes.contains(n as usize));
        assert(seq![v[n]] + v.subrange(n + 1, v.len() as int) =~= v.subrange(n, v.len() as int));
    }
}

/// The last axis can be taken off first.
proof fn lemma_kept_without_last<T>(v: Seq<T>, axes: Seq<usize>, last: usize, n: int)
    requires
        0 <= n <= last < v.len() <= usize::MAX,
        forall|i: int| 0 <= i < axes.len() ==> #[trigger] axes[i] < last,
    ensures
        kept(v, axes.push(last), n) == kept(v.remove(last as int), axes, n),
    decreases last - n,
{
    let less = v.remove(last as int);
    let more = axes.push(last);
    if n < last {
        lemma_kept_without_last(v, axes, last, n + 1);
        assert(more.contains(n as usize) == axes.contains(n as usize)) by {
            if axes.contains(n as usize) {
                let i = choose|i: int| 0 <= i < axes.len() && axes[i] == n as usize;
                assert(more[i] == n as usize);
            }
            if more.contains(n as usize) {
                let i = choose|i: int| 0 <= i < more.len() && more[i] == n as usize;
                assert(axes[i] == n as usize);
            }
        }
        assert(less[n] == v[n]);
    } else {
        assert(more[axes.len() as int] == last);
        assert(more.contains(n as usize));
        assert forall|i: int| 0 <= i < more.len() implies #[trigger] more[i] < n + 1 by {
            if i < axes.len() {
                assert(axes[i] < last);
            }
        }
        lemma_kept_all(v, more, n + 1);
        lemma_kept_all(less, axes, n);
        assert(v.subrange(n + 1, v.len() as int) =~= less.subrange(n, less.len() as int));
    }
}

/// Axes of which each comes after a smaller one.
pub open spec fn climbing(axes: Seq<usize>) -> bool {
    forall|i: int, j: int| 0 <= i < j < axes.len() ==> axes[i] < axes[j]
}

proof fn lemma_climb(axes: Seq<usize>, i: int, j: int)
    requires
        climbing(axes),
        0 <= i <= j < axes.len(),
    ensures
        axes[i] + (j - i) <= axes[j],
    decreases j - i,
{
    if i < j {
        lemma_climb(axes, i, j - 1);
    }
}

/// Axes in ascending order are the same ones, and if none is there twice, each comes
/// after a smaller one.
proof fn lemma_sorted(axes: Seq<usize>)
    requires
        axes.no_duplicates(),
    ensures
        climbing(in_order(axes)),
        in_order(axes).len() == axes.len(),
        forall|x: usize| in_order(axes).contains(x) == axes.contains(x),
{
    broadcast use vstd::seq_lib::group_to_multiset_ensures;

    law_in_order(axes);
    let sorted = in_order(axes);
    assert forall|x: usize| sorted.contains(x) == axes.contains(x) by {
        assert(sorted.to_multiset().count(x) == axes.to_multiset().count(x));
    }
    axes.lemma_multiset_has_no_duplicates();
    sorted.lemma_multiset_has_no_duplicates_conv();
    assert forall|i: int, j: int| 0 <= i < j < sorted.len() implies sorted[i] < sorted[j] by {
        assert(sorted[i] <= sorted[j]);
        assert(sorted[i] != sorted[j]);
    }
}

proof fn lemma_unsqueezed(m: Numbers, x: Tensor, axes: Seq<usize>, n: nat, full: Seq<int>)
    requires
        is_sound(x.shape),
        n <= axes.len(),
        climbing(axes),
        can_unsqueeze(x.shape, axes),
        x.dims().len() + n <= usize::MAX,
        full.len() == x.dims().len() + n,
    ensures
        ({
            let t = Tensor { shape: unsqueezed(x.shape, axes, n), ..x };
            let some = axes.subrange(0, n as int);
            &&& is_sound(t.shape)
            &&& t.dims().len() == full.len()
            &&& at(m, t, full) == at(m, x, kept(full, some, 0))
            &&& kept(t.dims(), some, 0) == x.dims()
            &&& forall|i: int|
                0 <= i < n ==> #[trigger] axes[i] < t.dims().len() && t.dims()[axes[i] as int]
                    == Dim::Known(1)
        }),
    decreases n,
{
    let t = Tensor { shape: unsqueezed(x.shape, axes, n), ..x };
    let some = axes.subrange(0, n as int);
    if n == 0 {
        assert(some =~= Seq::empty());
        lemma_kept_all(full, some, 0);
        lemma_kept_all(x.dims(), some, 0);
        assert(full.subrange(0, full.len() as int) =~= full);
        assert(x.dims().subrange(0, x.dims().len() as int) =~= x.dims());
    } else {
        let k = (n - 1) as nat;
        let last = axes[n - 1];
        assert(last <= x.dims().len() + (n - 1));
        let fewer = axes.subrange(0, k as int);
        let less = full.remove(last as int);
        let y = Tensor { shape: unsqueezed(x.shape, axes, k), ..x };
        lemma_unsqueezed(m, x, axes, k, less);
        lemma_expanded(m, y, last as int, Dim::Known(1), less, full[last as int]);
        assert(less.insert(last as int, full[last as int]) =~= full);
        assert(fewer.push(last) =~= some);
        assert forall|i: int| 0 <= i < fewer.len() implies #[trigger] fewer[i] < last by {
            assert(axes[i] < axes[n - 1]);
        }
        lemma_kept_without_last(full, fewer, last, 0);
        lemma_kept_without_last(t.dims(), fewer, last, 0);
        assert(t.dims().remove(last as int) =~= y.dims());
        assert forall|i: int| 0 <= i < n implies #[trigger] axes[i] < t.dims().len()
            && t.dims()[axes[i] as int] == Dim::Known(1) by {
            if i < n - 1 {
                assert(axes[i] < axes[n - 1]);
                assert(y.dims()[axes[i] as int] == Dim::Known(1));
            }
        }
    }
}

/// An Unsqueeze node whose axes are known is done. Its output has the size 1 on these,
/// on the others the sizes of the input in their order, and at an index the number of
/// the input at what is left of the index without these axes. The numbers of the axes
/// may count from behind the last axis of the output.
pub proof fn law_unsqueeze_node(
    m: Numbers,
    node: NodeDef,
    before: State,
    after: State,
    result: Outcome,
    axes: Seq<usize>,
    full: Seq<int>,
)
    requires
        unsqueeze_step(node, before, after, result),
        node.input@.len() == 2,
        node.output@.len() > 0,
        before.env.contains_key(node.inp(0)),
        is_sound(before.env[node.inp(0)].shape),
        before.known.contains_key(node.inp(1)),
        before.env[node.inp(0)].dims().len() + axes.len() <= usize::MAX,
        axes.no_duplicates(),
        stand_for(
            Seq::new(
                before.known[node.inp(1)].len(),
                |i: int| as_i64(before.known[node.inp(1)][i]),
            ),
            axes,
            before.env[node.inp(0)].dims().len() + axes.len(),
        ),
        full.len() == before.env[node.inp(0)].dims().len() + axes.len(),
    ensures
        result is Done,
        ({
            let x = before.env[node.inp(0)];
            let t = after.env[node.out(0)];
            &&& t.dims().len() == x.dims().len() + axes.len()
            &&& forall|i: int|
                0 <= i < axes.len() ==> t.dims()[#[trigger] axes[i] as int] == Dim::Known(1)
            &&& kept(t.dims(), axes, 0) == x.dims()
            &&& at(m, t, full) == at(m, x, kept(full, axes, 0))
        }),
        passes_known(node, before, after),
{
    let x = before.env[node.inp(0)];
    let n = axes.len();
    let rank = x.dims().len() + n;
    let given = whole_numbers(before.known[node.inp(1)]);
    assert(given.len() == n);
    assert forall|i: int| 0 <= i < given.len() implies 0 <= #[trigger] counted(given[i], rank)
        < rank by {
        assert(axes[i] < rank);
    }
    assert(counted_all(given, rank) =~= axes) by {
        assert forall|i: int| 0 <= i < n implies counted_all(given, rank)[i] == axes[i] by {
            assert(axes[i] < rank);
        }
    }
    lemma_sorted(axes);
    let sorted = in_order(axes);
    assert(unsqueeze_axes(node, before) == sorted);
    assert forall|i: int| 0 <= i < sorted.len() implies #[trigger] sorted[i] < rank by {
        assert(sorted.contains(sorted[i]));
        assert(axes.contains(sorted[i]));
    }
    assert(can_unsqueeze(x.shape, sorted)) by {
        assert forall|i: int| 0 <= i < sorted.len() implies #[trigger] sorted[i] <= x.dims().len()
            + i by {
            lemma_climb(sorted, i, sorted.len() - 1);
            assert(sorted[sorted.len() - 1] < rank);
        }
    }
    lemma_unsqueezed(m, x, sorted, n, full);
    assert(sorted.subrange(0, n as int) =~= sorted);
    let t = after.env[node.out(0)];
    lemma_kept_same(t.dims(), axes, sorted, 0);
    lemma_kept_same(full, axes, sorted, 0);
    assert forall|i: int| 0 <= i < axes.len() implies t.dims()[#[trigger] axes[i] as int]
        == Dim::Known(1) by {
        assert(axes.contains(axes[i]));
        assert(sorted.contains(axes[i]));
        let j = choose|j: int| 0 <= j < sorted.len() && sorted[j] == axes[i];
        assert(t.dims()[sorted[j] as int] == Dim::Known(1));
    }
}

proof fn lemma_squeezed_all(m: Numbers, x: Tensor, axes: Seq<usize>, n: nat, full: Seq<int>)
    requires
        is_sound(x.shape),
        n <= axes.len(),
        climbing(axes),
        forall|i: int|
            0 <= i < n ==> #[trigger] axes[i] < x.dims().len() && x.dims()[axes[i] as int]
                == Dim::Known(1) && full[axes[i] as int] == 0,
        full.len() == x.dims().len(),
    ensures
        can_squeeze(x.shape, axes, n),
        ({
            let t = Tensor { shape: squeezed(x.shape, axes, n), ..x };
            let some = axes.subrange(0, n as int);
            &&& is_sound(t.shape)
            &&& t.dims() == kept(x.dims(), some, 0)
            &&& at(m, t, kept(full, some, 0)) == at(m, x, full)
        }),
    decreases n,
{
    let some = axes.subrange(0, n as int);
    if n == 0 {
        assert(some =~= Seq::empty());
        lemma_kept_all(full, some, 0);
        lemma_kept_all(x.dims(), some, 0);
        assert(full.subrange(0, full.len() as int) =~= full);
        assert(x.dims().subrange(0, x.dims().len() as int) =~= x.dims());
    } else {
        let k = (n - 1) as nat;
        let last = axes[n - 1];
        let fewer = axes.subrange(0, k as int);
        let less = full.remove(last as int);
        let y = x.squeezed(last as int);
        lemma_squeezed(m, x, last as int, less);
        assert(less.insert(last as int, 0) =~= full);
        assert forall|i: int| 0 <= i < k implies #[trigger] axes[i] < y.dims().len()
            && y.dims()[axes[i] as int] == Dim::Known(1) && less[axes[i] as int] == 0 by {
            assert(axes[i] < axes[n - 1]);
        }
        lemma_squeezed_all(m, y, axes, k, less);
        assert(fewer.push(last) =~= some);
        assert forall|i: int| 0 <= i < fewer.len() implies #[trigger] fewer[i] < last by {
            assert(axes[i] < axes[n - 1]);
        }
        lemma_kept_without_last(full, fewer, last, 0);
        lemma_kept_without_last(x.dims(), fewer, last, 0);
    }
}

proof fn lemma_unit_axes(dims: Seq<Dim>, n: nat)
    requires
        n <= dims.len() <= usize::MAX,
    ensures
        unit_axes(dims, n).no_duplicates(),
        forall|x: usize|
            unit_axes(dims, n).contains(x) == (x < n && dims[x as int] == Dim::Known(1)),
    decreases n,
{
    let axes = unit_axes(dims, n);
    if n > 0 {
        let k = (n - 1) as nat;
        let fewer = unit_axes(dims, k);
        lemma_unit_axes(dims, k);
        if dims[n - 1] == Dim::Known(1) {
            assert(!fewer.contains(k as usize));
            assert forall|x: usize| axes.contains(x) == (x < n && dims[x as int] == Dim::Known(
                1,
            )) by {
                if fewer.contains(x) {
                    let i = choose|i: int| 0 <= i < fewer.len() && fewer[i] == x;
                    assert(axes[i] == x);
                }
                assert(axes[fewer.len() as int] == k as usize);
                if axes.contains(x) && x != k {
                    let i = choose|i: int| 0 <= i < axes.len() && axes[i] == x;
                    assert(fewer[i] == x);
                }
            }
            assert forall|i: int, j: int|
                0 <= i < axes.len() && 0 <= j < axes.len() && i != j implies axes[i] != axes[j] by {
                if i < fewer.len() && j < fewer.len() {
                    assert(fewer[i] != fewer[j]);
                } else if i < fewer.len() {
                    assert(fewer.contains(fewer[i]));
                } else {
                    assert(fewer.contains(fewer[j]));
                }
            }
        }
    }
}

/// Whether `axes` are those that a Squeeze node takes off: the ones that it gives in its
/// second input, or else in an attribute, or else all that have the size 1.
pub open spec fn takes_off(node: NodeDef, before: State, axes: Seq<usize>) -> bool {
    let dims = before.env[node.inp(0)].dims();
    if node.has_input(1) {
        &&& before.known.contains_key(node.inp(1))
        &&& stand_for(
            Seq::new(
                before.known[node.inp(1)].len(),
                |i: int| as_i64(before.known[node.inp(1)][i]),
            ),
            axes,
            dims.len(),
        )
    } else if node.attr("axes"@) is Some {
        stand_for(node.attr("axes"@)->0.ints@, axes, dims.len())
    } else {
        forall|a: usize|
            #[trigger] axes.contains(a) == (a < dims.len() && dims[a as int] == Dim::Known(1))
    }
}

/// A Squeeze node whose axes have the size 1 is done. Its output has the other axes in
/// their order, and at what is left of an index without those taken off the number of
/// the input at the index.
pub proof fn law_squeeze_node(
    m: Numbers,
    node: NodeDef,
    before: State,
    after: State,
    result: Outcome,
    axes: Seq<usize>,
    full: Seq<int>,
)
    requires
        squeeze_step(node, before, after, result),
        node.input@.len() > 0,
        node.output@.len() > 0,
        before.env.contains_key(node.inp(0)),
        is_sound(before.env[node.inp(0)].shape),
        takes_off(node, before, axes),
        axes.no_duplicates(),
        forall|i: int|
            0 <= i < axes.len() ==> before.env[node.inp(0)].dims()[#[trigger] axes[i] as int]
                == Dim::Known(1),
        has_index(before.env[node.inp(0)], full),
    ensures
        result is Done,
        ({
            let x = before.env[node.inp(0)];
            let t = after.env[node.out(0)];
            &&& t.dims() == kept(x.dims(), axes, 0)
            &&& at(m, t, kept(full, axes, 0)) == at(m, x, full)
        }),
        passes_known(node, before, after),
{
    let x = before.env[node.inp(0)];
    let rank = x.dims().len();
    let used = match given_axes(node, before) {
        Some(given) => counted_all(given, rank),
        None => unit_axes(x.dims(), rank),
    };
    match given_axes(node, before) {
        Some(given) => {
            assert forall|i: int| 0 <= i < given.len() implies 0 <= #[trigger] counted(
                given[i],
                rank,
            ) < rank by {
                assert(axes[i] < rank);
            }
            assert(used =~= axes) by {
                assert forall|i: int| 0 <= i < given.len() implies used[i] == axes[i] by {
                    assert(axes[i] < rank);
                }
            }
        },
        None => {
            lemma_unit_axes(x.dims(), rank);
        },
    }
    lemma_sorted(used);
    let sorted = in_order(used);
    assert(squeeze_axes(node, before) == sorted);
    assert forall|i: int| 0 <= i < sorted.len() implies #[trigger] sorted[i] < rank
        && x.dims()[sorted[i] as int] == Dim::Known(1) && full[sorted[i] as int] == 0 by {
        assert(sorted.contains(sorted[i]));
        assert(used.contains(sorted[i]));
        assert(axes.contains(sorted[i]));
        let j = choose|j: int| 0 <= j < axes.len() && axes[j] == sorted[i];
        assert(x.dims()[axes[j] as int] == Dim::Known(1));
        if given_axes(node, before) is Some {
            assert(axes[j] < rank);
        }
        assert(0 <= full[sorted[i] as int] < sizes(x)[sorted[i] as int]);
    }
    lemma_squeezed_all(m, x, sorted, sorted.len(), full);
    assert(sorted.subrange(0, sorted.len() as int) =~= sorted);
    assert forall|a: usize| axes.contains(a) == sorted.contains(a) by {
        assert(sorted.contains(a) == used.contains(a));
    }
    lemma_kept_same(x.dims(), axes, sorted, 0);
    lemma_kept_same(full, axes, sorted, 0);
}

proof fn lemma_contiguous_below(shape: Shape, index: Seq<int>, k: nat, n: int)
    requires
        is_sound(shape),
        shape.contiguous(),
        k <= usize::MAX + 1,
        index.len() == shape.dims.len(),
        0 <= n <= shape.dims.len(),
        forall|i: int| 0 <= i < n ==> (#[trigger] shape.places[i])->0 < k,
        forall|i: int| n <= i < shape.dims.len() ==> (#[trigger] shape.places[i])->0 >= k,
    ensures
        place_below(shape, index, k) == position_at(
            sizes_of(shape.dims).subrange(0, n),
            index.subrange(0, n),
        ),
    decreases k,
{
    if k == 0 {
        if n > 0 {
            assert(shape.places[0]->0 < 0);
        }
    } else {
        let below = (k - 1) as nat;
        if n > 0 && shape.places[n - 1]->0 == k - 1 {
            assert forall|i: int| 0 <= i < n - 1 implies (#[trigger] shape.places[i])->0
                < below by {
                assert(shape.places[i]->0 < shape.places[n - 1]->0);
            }
            assert forall|i: int| n - 1 <= i < shape.dims.len() implies (
            #[trigger] shape.places[i])->0 >= below by {}
            lemma_contiguous_below(shape, index, below, n - 1);
            assert(shape.places[n - 1] is Some);
            lemma_in_place(shape, index, k - 1, n - 1);
            let s = sizes_of(shape.dims).subrange(0, n);
            let i = index.subrange(0, n);
            assert(s.drop_last() =~= sizes_of(shape.dims).subrange(0, n - 1));
            assert(i.drop_last() =~= index.subrange(0, n - 1));
        } else {
            assert forall|i: int| 0 <= i < n implies (#[trigger] shape.places[i])->0 < below by {
                if i < n - 1 {
                    assert(shape.places[i]->0 < shape.places[n - 1]->0);
                }
            }
            assert(!has_axis(shape, k - 1)) by {
                if has_axis(shape, k - 1) {
                    let a = axis_in(shape, k - 1);
                    assert(0 <= a < shape.places.len() && shape.places[a] == Some(
                        (k - 1) as usize,
                    ));
                }
            }
            lemma_contiguous_below(shape, index, below, n);
            assert(place_below(shape, index, below) * 1 == place_below(shape, index, below));
        }
    }
}

/// A tensor whose elements are stored in the order of its axes has at an index what is
/// stored in that position.
pub proof fn lemma_contiguous_place(shape: Shape, index: Seq<int>)
    requires
        is_sound(shape),
        shape.contiguous(),
        index.len() == shape.dims.len(),
    ensures
        place(shape, index) == position_at(sizes_of(shape.dims), index),
{
    lemma_contiguous_below(shape, index, (usize::MAX + 1) as nat, shape.dims.len() as int);
    let n = shape.dims.len() as int;
    assert(sizes_of(shape.dims).subrange(0, n) =~= sizes_of(shape.dims));
    assert(index.subrange(0, n) =~= index);
}

/// Whether a Reshape node asks for some sizes: 0 stands for the size that the input has
/// on the axis, and at most one -1 for what is left.
pub open spec fn asks_for(own: Seq<usize>, numbers: Seq<i64>, lengths: Seq<usize>) -> bool {
    &&& numbers.len() == lengths.len() <= usize::MAX
    &&& product(lengths) == product(own)
    &&& forall|i: int|
        0 <= i < lengths.len() ==> {
            ||| #[trigger] numbers[i] == -1
            ||| numbers[i] == 0 && i < own.len() && lengths[i] == own[i]
            ||| numbers[i] > 0 && lengths[i] == numbers[i]
        }
    &&& forall|i: int, j: int|
        0 <= i < lengths.len() && 0 <= j < lengths.len() && #[trigger] numbers[i] == -1
            && #[trigger] numbers[j] == -1 ==> i == j
}

proof fn lemma_given(own: Seq<usize>, numbers: Seq<i64>, lengths: Seq<usize>, n: nat, k: int)
    requires
        asks_for(own, numbers, lengths),
        n <= lengths.len(),
        forall|i: int| 0 <= i < lengths.len() ==> #[trigger] lengths[i] > 0,
        forall|i: int| 0 <= i < lengths.len() && #[trigger] numbers[i] == -1 ==> i == k,
        0 <= k < lengths.len() ==> numbers[k] == -1,
    ensures
        product(lengths.subrange(0, n as int)) == given_product(own, numbers, n) * if 0 <= k < n {
            lengths[k] as nat
        } else {
            1
        },
    decreases n,
{
    let head = lengths.subrange(0, n as int);
    if n > 0 {
        let p = (n - 1) as nat;
        lemma_given(own, numbers, lengths, p, k);
        assert(head.drop_last() =~= lengths.subrange(0, p as int));
        assert(lengths[n - 1] > 0);
        assert(numbers[n - 1] == -1 || numbers[n - 1] >= 0);
        let g = given_product(own, numbers, p);
        let last = lengths[n - 1] as nat;
        if k == n - 1 {
            assert(g * 1 == g);
        } else {
            assert(given_size(own, numbers, n - 1) == last);
            let f = if 0 <= k < p {
                lengths[k] as nat
            } else {
                1
            };
            assert((g * f) * last == (g * last) * f) by (nonlinear_arith);
        }
    }
}

proof fn lemma_positive(lengths: Seq<usize>, index: Seq<int>)
    requires
        within(lengths, index),
    ensures
        forall|i: int| 0 <= i < lengths.len() ==> #[trigger] lengths[i] > 0,
{
    assert forall|i: int| 0 <= i < lengths.len() implies #[trigger] lengths[i] > 0 by {
        assert(0 <= index[i] < lengths[i]);
    }
}

/// A Reshape node whose second input is known is done, and its output has the sizes that
/// are asked for, and at each index the number of the input that has the same position
/// in the order of the axes; its known elements stay in their order.
pub proof fn law_reshape_node(
    m: Numbers,
    node: NodeDef,
    before: State,
    after: State,
    result: Outcome,
    lengths: Seq<usize>,
    index: Seq<int>,
    from: Seq<int>,
)
    requires
        reshape_step(node, before, after, result),
        node.input@.len() == 2,
        node.output@.len() > 0,
        before.env.contains_key(node.inp(0)),
        before.known.contains_key(node.inp(1)),
        is_sound(before.env[node.inp(0)].shape),
        has_index(before.env[node.inp(0)], from),
        bounded_product(sizes(before.env[node.inp(0)])) is Some,
        product(sizes(before.env[node.inp(0)])) <= i64::MAX,
        asks_for(
            sizes(before.env[node.inp(0)]),
            Seq::new(
                before.known[node.inp(1)].len(),
                |i: int| as_i64(before.known[node.inp(1)][i]),
            ),
            lengths,
        ),
        within(lengths, index),
        position_at(lengths, index) == position_at(sizes(before.env[node.inp(0)]), from),
    ensures
        result is Done,
        after.env[node.out(0)].dims() == known_dims(lengths),
        at(m, after.env[node.out(0)], index) == at(m, before.env[node.inp(0)], from),
        passes_known(node, before, after),
{
    let x = before.env[node.inp(0)];
    let own = sizes(x);
    let target = whole_numbers(before.known[node.inp(1)]);
    assert(target =~= Seq::new(
        before.known[node.inp(1)].len(),
        |i: int| as_i64(before.known[node.inp(1)][i]),
    ));
    let n = lengths.len();
    let k = if exists|i: int| 0 <= i < n && #[trigger] target[i] == -1 {
        choose|i: int| 0 <= i < n && #[trigger] target[i] == -1
    } else {
        -1
    };
    lemma_positive(lengths, index);
    lemma_given(own, target, lengths, n, k);
    assert(lengths.subrange(0, n as int) =~= lengths);
    lemma_bounded_product(own);
    let g = given_product(own, target, n);
    let f: nat = if 0 <= k < n {
        lengths[k] as nat
    } else {
        1
    };
    assert(f > 0);
    lemma_position_within(lengths, index);
    assert(product(own) == g * f);
    assert(0 < g <= g * f && (g * f) / g == f) by (nonlinear_arith)
        requires
            f > 0,
            g * f > 0,
    ;
    assert(can_reshape(own, target)) by {
        assert forall|i: int| 0 <= i < target.len() && #[trigger] target[i] == 0 implies i
            < own.len() by {}
    }
    assert(reshape_sizes(own, target, product(own)) =~= lengths) by {
        assert forall|i: int| 0 <= i < n implies reshape_sizes(own, target, product(own))[i]
            == lengths[i] by {
            assert(target[i] == -1 || target[i] >= 0);
            if target[i] == -1 {
                assert(i == k);
            }
        }
    }
    let t = after.env[node.out(0)];
    let c = contiguous(x);
    lemma_row_major_place(known_dims(lengths), index);
    assert(sizes_of(known_dims(lengths)) =~= lengths);
    if x.shape.contiguous() {
        lemma_contiguous_place(x.shape, from);
    } else {
        let ones = scalar(ONE).broadcast(own);
        let none = Seq::<int>::empty();
        lemma_row_major_place(Seq::empty(), none);
        lemma_broadcast(m, scalar(ONE), own, from);
        assert(ones.dims() =~= x.dims()) by {
            assert forall|i: int| 0 <= i < x.dims().len() implies ones.dims()[i] == x.dims()[i] by {
                assert(x.dims()[i] is Known);
            }
        }
        lemma_numbers();
        lemma_binary(m, x, Binary::Mul, ones, from);
        lemma_made(m, c, from);
        let v = at(m, x, from);
        assert(v * 1real == v) by (nonlinear_arith);
    }
}

} // verus!

//! Means along axes, and the normalization of layers.

#[allow(unused_imports)]
use crate::bits::{as_i64, NEG_ONE};
#[allow(unused_imports)]
use crate::compose::{count_along, filled, led, lemma_summed_dims, size_scalar};
#[allow(unused_imports)]
use crate::graph::{dims_without, Binary, Reduction, Tensor, Unary};
#[allow(unused_imports)]
use crate::laws::curves::{gives_added, lemma_spread};
#[allow(unused_imports)]
use crate::laws::products::lemma_led;
#[allow(unused_imports)]
use crate::ops::activation::{plus, spread, times};
#[allow(unused_imports)]
use crate::ops::axes::{axis_range, counted, counted_all};
#[allow(unused_imports)]
use crate::ops::normalize::{
    centered, given_axes, inverse_deviation, layer_norm_formula, layer_norm_numbers,
    layer_norm_step, mean_axes, normalized, ones_on, reduce_mean_step, restored, restored_from,
    EPSILON,
};
#[allow(unused_imports)]
use crate::proto::NodeDef;
#[allow(unused_imports)]
use crate::reading::within;
#[allow(unused_imports)]
use crate::shape::{all_known, sizes_of, Dim};
#[allow(unused_imports)]
use crate::state::{number_data, with_numbers, Outcome, State};
#[allow(unused_imports)]
use crate::values::{
    along, at, has_index, is_sound, lemma_binary, lemma_expanded, lemma_number_of_int,
    lemma_numbers, lemma_reduce, lemma_row_major_place, lemma_unary, number, sizes, total, Numbers,
};
use vstd::prelude::*;

verus! {

/// What is left of a list from place `n` on without the places in `axes`.
pub open spec fn kept<T>(v: Seq<T>, axes: Seq<usize>, n: int) -> Seq<T>
    decreases v.len() - n,
{
    if n < 0 || n >= v.len() {
        Seq::empty()
    } else if axes.contains(n as usize) {
        kept(v, axes, n + 1)
    } else {
        seq![v[n]] + kept(v, axes, n + 1)
    }
}

/// The sum of the values of `f` at all indices that differ from `index` at most along
/// those axes from `n` on that are in `axes`.
pub open spec fn total_over(
    f: spec_fn(Seq<int>) -> real,
    lengths: Seq<usize>,
    axes: Seq<usize>,
    index: Seq<int>,
    n: int,
) -> real
    decreases lengths.len() - n, 1int,
{
    if n < 0 || n >= lengths.len() {
        f(index)
    } else if axes.contains(n as usize) {
        total(terms(f, lengths, axes, index, n))
    } else {
        total_over(f, lengths, axes, index, n + 1)
    }
}

/// The values that are added up along axis `n`.
pub open spec fn terms(
    f: spec_fn(Seq<int>) -> real,
    lengths: Seq<usize>,
    axes: Seq<usize>,
    index: Seq<int>,
    n: int,
) -> Seq<real>
    decreases lengths.len() - n, 0int,
{
    if 0 <= n < lengths.len() {
        Seq::new(
            lengths[n] as nat,
            |k: int| total_over(f, lengths, axes, index.update(n, k), n + 1),
        )
    } else {
        Seq::empty()
    }
}

/// How many elements there are along those of the first `n` axes that are in `axes`.
pub open spec fn count_over(lengths: Seq<usize>, axes: Seq<usize>, n: nat) -> real
    decreases n,
{
    if n == 0 {
        1real
    } else if axes.contains((n - 1) as usize) {
        count_over(lengths, axes, (n - 1) as nat) * (lengths[n - 1] as real)
    } else {
        count_over(lengths, axes, (n - 1) as nat)
    }
}

/// The mean of the values of `f` at all indices that differ from `index` at most along
/// the axes `axes`.
pub open spec fn mean_over(
    f: spec_fn(Seq<int>) -> real,
    lengths: Seq<usize>,
    axes: Seq<usize>,
    index: Seq<int>,
) -> real {
    total_over(f, lengths, axes, index, 0) / count_over(lengths, axes, lengths.len())
}

/// Whether two indices are the same but along some axes.
pub open spec fn same_off(axes: Seq<usize>, i: Seq<int>, j: Seq<int>) -> bool {
    &&& i.len() == j.len()
    &&& forall|a: int|
        0 <= a < i.len() && !axes.contains(a as usize) ==> #[trigger] i[a] == j[a]
}

/// Functions that are the same where they are added up have the same sum.
proof fn lemma_same_over(
    f: spec_fn(Seq<int>) -> real,
    g: spec_fn(Seq<int>) -> real,
    lengths: Seq<usize>,
    axes: Seq<usize>,
    base: Seq<int>,
    i: Seq<int>,
    j: Seq<int>,
    n: int,
)
    requires
        0 <= n <= lengths.len(),
        lengths.len() <= usize::MAX,
        i.len() == lengths.len(),
        j.len() == lengths.len(),
        base.len() == lengths.len(),
        forall|a: int| 0 <= a < n ==> #[trigger] i[a] == j[a],
        same_off(axes, base, i),
        same_off(axes, base, j),
        forall|a: int|
            0 <= a < lengths.len() && (a < n || !axes.contains(a as usize)) ==> 0
                <= #[trigger] i[a] < lengths[a],
        forall|other: Seq<int>|
            within(lengths, other) && same_off(axes, base, other) ==> #[trigger] f(other) == g(
                other,
            ),
    ensures
        total_over(f, lengths, axes, i, n) == total_over(g, lengths, axes, j, n),
    decreases lengths.len() - n,
{
    if n == lengths.len() {
        assert(i =~= j);
        assert(within(lengths, i));
        assert(f(i) == g(i));
    } else if axes.contains(n as usize) {
        let a = terms(f, lengths, axes, i, n);
        let b = terms(g, lengths, axes, j, n);
        assert forall|k: int| 0 <= k < a.len() implies a[k] == b[k] by {
            let p = i.update(n, k);
            let q = j.update(n, k);
            assert(same_off(axes, base, p)) by {
                assert forall|c: int| 0 <= c < base.len() && !axes.contains(c as usize) implies
                    #[trigger] base[c] == p[c] by {
                    assert(base[c] == i[c]);
                }
            }
            assert(same_off(axes, base, q)) by {
                assert forall|c: int| 0 <= c < base.len() && !axes.contains(c as usize) implies
                    #[trigger] base[c] == q[c] by {
                    assert(base[c] == j[c]);
                }
            }
            assert forall|c: int| 0 <= c < n + 1 implies #[trigger] p[c] == q[c] by {
                if c < n {
                    assert(i[c] == j[c]);
                }
            }
            assert forall|c: int|
                0 <= c < lengths.len() && (c < n + 1 || !axes.contains(c as usize)) implies 0
                <= #[trigger] p[c] < lengths[c] by {
                if c != n {
                    assert(0 <= i[c] < lengths[c]);
                }
            }
            lemma_same_over(f, g, lengths, axes, base, p, q, n + 1);
        }
        assert(a =~= b);
    } else {
        assert(base[n] == i[n] && base[n] == j[n]);
        assert(0 <= i[n] < lengths[n]);
        lemma_same_over(f, g, lengths, axes, base, i, j, n + 1);
    }
}

/// The dimensions of a sum along axes.
proof fn lemma_kept_dims(t: Tensor, axes: Seq<usize>, n: nat)
    requires
        n <= t.dims().len() <= usize::MAX,
    ensures
        t.summed(axes, n).dims() == t.dims().subrange(0, n as int) + kept(t.dims(), axes, n as int),
    decreases t.dims().len() - n,
{
    let dims = t.dims();
    if n == dims.len() {
        assert(dims.subrange(0, n as int) + kept(dims, axes, n as int) =~= dims);
    } else {
        lemma_kept_dims(t, axes, n + 1);
        let later = t.summed(axes, n + 1).dims();
        let start = dims.subrange(0, n as int);
        assert(dims.subrange(0, (n + 1) as int) =~= start.push(dims[n as int]));
        if axes.contains(n as usize) {
            assert(later.remove(n as int) =~= start + kept(dims, axes, n as int));
        } else {
            assert(later =~= start + kept(dims, axes, n as int));
        }
    }
}

/// What is left of sizes and an index without some axes.
proof fn lemma_kept_within(lengths: Seq<usize>, index: Seq<int>, axes: Seq<usize>, n: int)
    requires
        0 <= n <= lengths.len(),
        lengths.len() <= usize::MAX,
        index.len() == lengths.len(),
        forall|a: int|
            n <= a < lengths.len() && !axes.contains(a as usize) ==> 0 <= #[trigger] index[a]
                < lengths[a],
    ensures
        within(kept(lengths, axes, n), kept(index, axes, n)),
    decreases lengths.len() - n,
{
    if n < lengths.len() {
        lemma_kept_within(lengths, index, axes, n + 1);
        let s = kept(lengths, axes, n + 1);
        let k = kept(index, axes, n + 1);
        if !axes.contains(n as usize) {
            assert(0 <= index[n] < lengths[n]);
            let ss = seq![lengths[n]] + s;
            let kk = seq![index[n]] + k;
            assert forall|i: int| 0 <= i < ss.len() implies 0 <= #[trigger] kk[i] < ss[i] by {
                if i > 0 {
                    assert(0 <= k[i - 1] < s[i - 1]);
                }
            }
        }
    }
}

proof fn lemma_kept_sizes(dims: Seq<Dim>, axes: Seq<usize>, n: int)
    requires
        0 <= n <= dims.len(),
        all_known(dims),
    ensures
        sizes_of(kept(dims, axes, n)) == kept(sizes_of(dims), axes, n),
        all_known(kept(dims, axes, n)),
    decreases dims.len() - n,
{
    if n < dims.len() {
        lemma_kept_sizes(dims, axes, n + 1);
        assert(dims[n] is Known);
        if !axes.contains(n as usize) {
            let rest = kept(dims, axes, n + 1);
            let all = seq![dims[n]] + rest;
            assert(sizes_of(all) =~= seq![sizes_of(dims)[n]] + sizes_of(rest));
            assert forall|i: int| 0 <= i < all.len() implies (#[trigger] all[i]) is Known by {
                if i > 0 {
                    assert(rest[i - 1] is Known);
                }
            }
        } else {
            assert(sizes_of(kept(dims, axes, n)) =~= kept(sizes_of(dims), axes, n));
        }
    } else {
        assert(sizes_of(kept(dims, axes, n)) =~= kept(sizes_of(dims), axes, n));
    }
}

/// The sum along axes.
proof fn lemma_summed(m: Numbers, x: Tensor, axes: Seq<usize>, index: Seq<int>, n: nat)
    requires
        n <= x.dims().len() <= usize::MAX,
        all_known(x.dims()),
        index.len() == x.dims().len(),
        forall|a: int|
            0 <= a < x.dims().len() && (a < n || !axes.contains(a as usize)) ==> 0
                <= #[trigger] index[a] < sizes(x)[a],
    ensures
        ({
            let left = index.subrange(0, n as int) + kept(index, axes, n as int);
            &&& has_index(x.summed(axes, n), left)
            &&& at(m, x.summed(axes, n), left) == total_over(
                |i: Seq<int>| at(m, x, i),
                sizes(x),
                axes,
                index,
                n as int,
            )
        }),
    decreases x.dims().len() - n,
{
    let f = |i: Seq<int>| at(m, x, i);
    let dims = x.dims();
    let left = index.subrange(0, n as int) + kept(index, axes, n as int);
    let t = x.summed(axes, n);
    lemma_kept_dims(x, axes, n);
    lemma_kept_sizes(dims, axes, n as int);
    lemma_kept_within(sizes(x), index, axes, n as int);
    assert(has_index(t, left)) by {
        let rest = kept(dims, axes, n as int);
        assert(sizes(t) =~= sizes(x).subrange(0, n as int) + kept(sizes(x), axes, n as int)) by {
            assert(sizes_of(dims.subrange(0, n as int) + rest) =~= sizes(x).subrange(0, n as int)
                + sizes_of(rest));
        }
        assert forall|i: int| 0 <= i < t.dims().len() implies (#[trigger] t.dims()[i]) is Known by {
            if i < n {
                assert(dims[i] is Known);
            } else {
                assert(rest[i - n] is Known);
            }
        }
        let k = kept(index, axes, n as int);
        let s = kept(sizes(x), axes, n as int);
        assert forall|i: int| 0 <= i < sizes(t).len() implies 0 <= #[trigger] left[i] < sizes(
            t,
        )[i] by {
            if i < n {
                assert(0 <= index[i] < sizes(x)[i]);
            } else {
                assert(0 <= k[i - n] < s[i - n]);
            }
        }
    }
    if n == dims.len() {
        assert(left =~= index);
    } else if axes.contains(n as usize) {
        let later = x.summed(axes, n + 1);
        lemma_kept_dims(x, axes, n + 1);
        assert(later.dims().len() > n);
        assert(later.dims()[n as int] == dims[n as int]);
        assert(all_known(later.dims())) by {
            lemma_kept_sizes(dims, axes, (n + 1) as int);
            let rest = kept(dims, axes, (n + 1) as int);
            assert forall|i: int| 0 <= i < later.dims().len() implies (
            #[trigger] later.dims()[i]) is Known by {
                if i <= n {
                    assert(dims[i] is Known);
                } else {
                    assert(rest[i - n - 1] is Known);
                }
            }
        }
        assert(sizes(later).remove(n as int) =~= sizes(t));
        lemma_kept_length(dims, axes, (n + 1) as int);
        lemma_reduce(m, later, Reduction::Sum, n as usize, left);
        let found = along(m, later, left, n as int);
        let wanted = terms(f, sizes(x), axes, index, n as int);
        assert(sizes(later)[n as int] == sizes(x)[n as int]);
        assert forall|k: int| 0 <= k < wanted.len() implies found[k] == wanted[k] by {
            let next = index.update(n as int, k);
            assert forall|a: int|
                0 <= a < dims.len() && (a < n + 1 || !axes.contains(a as usize)) implies 0
                <= #[trigger] next[a] < sizes(x)[a] by {
                if a != n {
                    assert(0 <= index[a] < sizes(x)[a]);
                }
            }
            lemma_summed(m, x, axes, next, n + 1);
            lemma_kept_update(index, axes, n as int, k, (n + 1) as int);
            assert(left.insert(n as int, k) =~= next.subrange(0, (n + 1) as int) + kept(
                next,
                axes,
                (n + 1) as int,
            ));
        }
        assert(found =~= wanted);
    } else {
        lemma_summed(m, x, axes, index, n + 1);
        assert(index.subrange(0, (n + 1) as int) + kept(index, axes, (n + 1) as int) =~= left);
    }
}

proof fn lemma_kept_update(index: Seq<int>, axes: Seq<usize>, a: int, k: int, n: int)
    requires
        0 <= a < n,
        n <= index.len(),
    ensures
        kept(index.update(a, k), axes, n) == kept(index, axes, n),
    decreases index.len() - n,
{
    if n < index.len() {
        lemma_kept_update(index, axes, a, k, n + 1);
    }
}

/// The number of elements along axes.
proof fn lemma_count(m: Numbers, dims: Seq<Dim>, axes: Seq<usize>, n: nat)
    requires
        n <= dims.len() <= usize::MAX,
        all_known(dims),
        forall|a: int|
            0 <= a < dims.len() && axes.contains(a as usize) ==> (#[trigger] dims[a])->Known_0
                <= 0x100_0000,
    ensures
        count_along(dims, axes, n).dims().len() == 0,
        at(m, count_along(dims, axes, n), Seq::empty()) == count_over(sizes_of(dims), axes, n),
    decreases n,
{
    let none = Seq::<int>::empty();
    lemma_numbers();
    if n > 0 {
        lemma_count(m, dims, axes, (n - 1) as nat);
        if axes.contains((n - 1) as usize) {
            assert(dims[n - 1] is Known);
            assert(dims[n - 1]->Known_0 <= 0x100_0000);
            lemma_number_of_int(dims[n - 1]->Known_0 as int);
            let before = count_along(dims, axes, (n - 1) as nat);
            let size = size_scalar(dims[n - 1]);
            assert(before.dims() =~= size.dims());
            assert(has_index(before, none));
            lemma_binary(m, before, Binary::Mul, size, none);
        }
    }
}

/// The mean along axes.
pub proof fn lemma_mean(m: Numbers, x: Tensor, axes: Seq<usize>, index: Seq<int>)
    requires
        x.dims().len() <= usize::MAX,
        all_known(x.dims()),
        index.len() == x.dims().len(),
        forall|a: int|
            0 <= a < x.dims().len() && !axes.contains(a as usize) ==> 0 <= #[trigger] index[a]
                < sizes(x)[a],
        forall|a: int|
            0 <= a < x.dims().len() && axes.contains(a as usize) ==> 0 < (
            #[trigger] x.dims()[a])->Known_0 <= 0x100_0000,
    ensures
        x.mean(axes).dims() == kept(x.dims(), axes, 0),
        has_index(x.mean(axes), kept(index, axes, 0)),
        is_sound(x.mean(axes).shape),
        at(m, x.mean(axes), kept(index, axes, 0)) == mean_over(
            |i: Seq<int>| at(m, x, i),
            sizes(x),
            axes,
            index,
        ),
{
    let dims = x.dims();
    let t = x.mean(axes);
    let sum = x.summed(axes, 0);
    let left = kept(index, axes, 0);
    lemma_summed(m, x, axes, index, 0);
    assert(index.subrange(0, 0) + left =~= left);
    lemma_kept_dims(x, axes, 0);
    assert(dims.subrange(0, 0) + kept(dims, axes, 0) =~= kept(dims, axes, 0));
    lemma_summed_dims(x, axes, 0);
    assert(dims.subrange(0, 0) =~= Seq::empty());
    assert(dims_without(dims, axes) == kept(dims, axes, 0)) by {
        assert(sum.dims().skip(0) =~= sum.dims());
        assert(Seq::<Dim>::empty() + sum.dims() =~= sum.dims());
    }
    let count = count_along(dims, axes, dims.len());
    assert forall|a: int| 0 <= a < dims.len() && axes.contains(a as usize) implies (
    #[trigger] dims[a])->Known_0 <= 0x100_0000 by {
        assert(0 < dims[a]->Known_0 <= 0x100_0000);
    }
    lemma_count(m, dims, axes, dims.len());
    let none = Seq::<int>::empty();
    assert(has_index(count, none));
    lemma_unary(m, count, Unary::Recip, none);
    let share = count.unary(Unary::Recip);
    lemma_row_major_place(share.dims(), none);
    lemma_kept_length(index, axes, 0);
    lemma_kept_lengths(dims, index, axes, 0);
    lemma_led(m, share, sum.dims(), left, none);
    let spread = filled(share, sum.dims());
    assert(spread.dims() =~= sum.dims());
    assert(left + none =~= left);
    assert(t == sum.binary(Binary::Mul, spread));
    assert(sum.dims().len() <= usize::MAX) by {
        lemma_kept_length(dims, axes, 0);
    }
    lemma_binary(m, sum, Binary::Mul, spread, left);
    lemma_row_major_place(t.dims(), left);
    let v = at(m, sum, left);
    let c = count_over(sizes(x), axes, dims.len());
    lemma_count_positive(dims, axes, dims.len());
    assert(v * (1real / c) == v / c) by (nonlinear_arith)
        requires
            c > 0real,
    ;
}

proof fn lemma_kept_length<T>(v: Seq<T>, axes: Seq<usize>, n: int)
    requires
        0 <= n <= v.len(),
    ensures
        kept(v, axes, n).len() <= v.len() - n,
    decreases v.len() - n,
{
    if n < v.len() {
        lemma_kept_length(v, axes, n + 1);
    }
}

proof fn lemma_count_positive(dims: Seq<Dim>, axes: Seq<usize>, n: nat)
    requires
        n <= dims.len(),
        forall|a: int|
            0 <= a < dims.len() && axes.contains(a as usize) ==> 0 < (
            #[trigger] dims[a])->Known_0 <= 0x100_0000,
    ensures
        count_over(sizes_of(dims), axes, n) > 0real,
    decreases n,
{
    if n > 0 {
        lemma_count_positive(dims, axes, (n - 1) as nat);
        if axes.contains((n - 1) as usize) {
            assert(0 < dims[n - 1]->Known_0 <= 0x100_0000);
            let c = count_over(sizes_of(dims), axes, (n - 1) as nat);
            let s = dims[n - 1]->Known_0 as real;
            assert(c * s > 0real) by (nonlinear_arith)
                requires
                    c > 0real,
                    s > 0real,
            ;
        }
    }
}

/// A tensor with axes put back that it has lost.
proof fn lemma_restored(
    m: Numbers,
    t: Tensor,
    dims: Seq<Dim>,
    axes: Seq<usize>,
    index: Seq<int>,
    from: int,
)
    requires
        is_sound(t.shape),
        0 <= from <= dims.len(),
        dims.len() <= usize::MAX,
        index.len() == dims.len(),
        t.dims() == dims.subrange(0, from) + kept(dims, axes, from),
    ensures
        ({
            let r = Tensor { shape: restored_from(t.shape, dims, axes, from), ..t };
            &&& is_sound(r.shape)
            &&& r.dims() == dims
            &&& at(m, r, index) == at(m, t, index.subrange(0, from) + kept(index, axes, from))
        }),
    decreases dims.len() - from,
{
    let left = index.subrange(0, from) + kept(index, axes, from);
    if from == dims.len() {
        assert(left =~= index);
        assert(t.dims() =~= dims);
    } else if axes.contains(from as usize) {
        lemma_kept_length(dims, axes, from + 1);
        lemma_kept_lengths(dims, index, axes, from + 1);
        let next = t.expanded(from, dims[from]);
        let short = index.subrange(0, from) + kept(index, axes, from + 1);
        lemma_expanded(m, t, from, dims[from], short, index[from]);
        assert(next.dims() =~= dims.subrange(0, from + 1) + kept(dims, axes, from + 1));
        lemma_restored(m, next, dims, axes, index, from + 1);
        assert(short.insert(from, index[from]) =~= index.subrange(0, from + 1) + kept(
            index,
            axes,
            from + 1,
        ));
    } else {
        assert(t.dims() =~= dims.subrange(0, from + 1) + kept(dims, axes, from + 1));
        lemma_restored(m, t, dims, axes, index, from + 1);
        assert(left =~= index.subrange(0, from + 1) + kept(index, axes, from + 1));
    }
}

proof fn lemma_kept_lengths<S, T>(v: Seq<S>, w: Seq<T>, axes: Seq<usize>, n: int)
    requires
        v.len() == w.len(),
        0 <= n <= v.len(),
    ensures
        kept(v, axes, n).len() == kept(w, axes, n).len(),
    decreases v.len() - n,
{
    if n < v.len() {
        lemma_kept_lengths(v, w, axes, n + 1);
    }
}

/// Whether `axes` are those that some numbers stand for, counted from either end.
pub open spec fn stand_for(numbers: Seq<i64>, axes: Seq<usize>, rank: nat) -> bool {
    &&& numbers.len() == axes.len()
    &&& forall|i: int|
        0 <= i < axes.len() ==> (#[trigger] axes[i]) < rank && (numbers[i] == axes[i] || numbers[i]
            == axes[i] - rank)
}

/// Whether `axes` are those that a node gives in its second input, or else in an
/// attribute; all of them, if it gives none.
pub open spec fn gives_axes(node: NodeDef, before: State, axes: Seq<usize>, rank: nat) -> bool {
    if node.has_input(1) {
        &&& before.known.contains_key(node.inp(1))
        &&& stand_for(
            Seq::new(
                before.known[node.inp(1)].len(),
                |i: int| as_i64(before.known[node.inp(1)][i]),
            ),
            axes,
            rank,
        )
    } else if node.attr("axes"@) is Some {
        stand_for(node.attr("axes"@)->0.ints@, axes, rank)
    } else {
        axes == Seq::new(rank, |i: int| i as usize)
    }
}

/// A ReduceMean node is done, and its output has, at what is left of an index without
/// the axes, the mean of the numbers of the input along the axes. If the axes are kept,
/// they have the size 1.
pub proof fn law_reduce_mean_node(
    m: Numbers,
    node: NodeDef,
    before: State,
    after: State,
    result: Outcome,
    axes: Seq<usize>,
    index: Seq<int>,
)
    requires
        reduce_mean_step(node, before, after, result),
        node.input@.len() > 0,
        node.output@.len() > 0,
        before.env.contains_key(node.inp(0)),
        before.env[node.inp(0)].dims().len() <= usize::MAX,
        all_known(before.env[node.inp(0)].dims()),
        gives_axes(node, before, axes, before.env[node.inp(0)].dims().len()),
        axes.no_duplicates(),
        has_index(before.env[node.inp(0)], index),
        forall|a: int|
            0 <= a < index.len() && axes.contains(a as usize) ==> (
            #[trigger] before.env[node.inp(0)].dims()[a])->Known_0 <= 0x100_0000,
    ensures
        result is Done,
        ({
            let x = before.env[node.inp(0)];
            let t = after.env[node.out(0)];
            let mean = mean_over(|i: Seq<int>| at(m, x, i), sizes(x), axes, index);
            if node.int_attr("keepdims"@, 1) != 0 {
                &&& t.dims() == Seq::new(
                    x.dims().len(),
                    |a: int|
                        if axes.contains(a as usize) {
                            Dim::Known(1)
                        } else {
                            x.dims()[a]
                        },
                )
                &&& at(m, t, index) == mean
            } else {
                &&& t.dims() == kept(x.dims(), axes, 0)
                &&& at(m, t, kept(index, axes, 0)) == mean
            }
        }),
{
    let x = before.env[node.inp(0)];
    let rank = x.dims().len();
    let t = after.env[node.out(0)];
    match given_axes(node, before) {
        Some(given) => {
            assert forall|i: int| 0 <= i < given.len() implies 0 <= #[trigger] counted(
                given[i],
                rank,
            ) < rank by {
                assert(axes[i] < rank);
            }
            assert(counted_all(given, rank) =~= axes) by {
                assert forall|i: int| 0 <= i < given.len() implies counted_all(given, rank)[i]
                    == axes[i] by {
                    assert(axes[i] < rank);
                }
            }
        },
        None => {
            assert(axis_range(0, rank as usize) =~= axes);
        },
    }
    assert(mean_axes(node, before) == axes);
    assert forall|a: int| 0 <= a < rank && axes.contains(a as usize) implies 0 < (
    #[trigger] x.dims()[a])->Known_0 <= 0x100_0000 by {
        assert(0 <= index[a] < sizes(x)[a]);
    }
    lemma_mean(m, x, axes, index);
    if node.int_attr("keepdims"@, 1) != 0 {
        let ones = ones_on(x.dims(), axes);
        lemma_kept_ones(x.dims(), axes, 0);
        assert(ones.subrange(0, 0) + kept(ones, axes, 0) =~= kept(ones, axes, 0));
        lemma_restored(m, x.mean(axes), ones, axes, index, 0);
        assert(index.subrange(0, 0) + kept(index, axes, 0) =~= kept(index, axes, 0));
    }
}

proof fn lemma_kept_ones(dims: Seq<Dim>, axes: Seq<usize>, n: int)
    requires
        0 <= n <= dims.len(),
    ensures
        kept(ones_on(dims, axes), axes, n) == kept(dims, axes, n),
    decreases dims.len() - n,
{
    if n < dims.len() {
        lemma_kept_ones(dims, axes, n + 1);
    }
}

/// The axes from one on.
pub open spec fn last_axes(axis: int, rank: nat) -> Seq<usize> {
    Seq::new((rank - axis) as nat, |i: int| (axis + i) as usize)
}

/// What is left without the last axes.
proof fn lemma_kept_first<T>(v: Seq<T>, axis: int, n: int)
    requires
        0 <= axis <= v.len() <= usize::MAX,
        0 <= n <= v.len(),
    ensures
        kept(v, last_axes(axis, v.len()), n) == if n < axis {
            v.subrange(n, axis)
        } else {
            Seq::empty()
        },
    decreases v.len() - n,
{
    let axes = last_axes(axis, v.len());
    if n < v.len() {
        lemma_kept_first(v, axis, n + 1);
        if n >= axis {
            assert(axes[n - axis] == n);
            assert(axes.contains(n as usize));
        } else {
            assert(!axes.contains(n as usize)) by {
                assert forall|i: int| 0 <= i < axes.len() implies axes[i] != n by {}
            }
            if n + 1 < axis {
                assert(seq![v[n]] + v.subrange(n + 1, axis) =~= v.subrange(n, axis));
            } else {
                assert(seq![v[n]] + Seq::<T>::empty() =~= v.subrange(n, axis));
            }
        }
    }
}

/// The mean of the numbers of a tensor along the axes from `axis` on.
pub open spec fn layer_mean(m: Numbers, x: Tensor, axis: int, index: Seq<int>) -> real {
    mean_over(|i: Seq<int>| at(m, x, i), sizes(x), last_axes(axis, x.dims().len()), index)
}

/// The variance of the numbers of a tensor along the axes from `axis` on: the mean of
/// the squares of their distances from their mean.
pub open spec fn layer_variance(m: Numbers, x: Tensor, axis: int, index: Seq<int>) -> real {
    let mean = layer_mean(m, x, axis, index);
    mean_over(
        |i: Seq<int>| (at(m, x, i) - mean) * (at(m, x, i) - mean),
        sizes(x),
        last_axes(axis, x.dims().len()),
        index,
    )
}

/// Whether a tensor can be normalized along the axes from `axis` on in exact
/// arithmetic.
pub open spec fn has_layers(x: Tensor, axis: int) -> bool {
    &&& is_sound(x.shape)
    &&& all_known(x.dims())
    &&& 0 <= axis < x.dims().len() < usize::MAX
    &&& forall|a: int| axis <= a < x.dims().len() ==> (#[trigger] x.dims()[a])->Known_0
        <= 0x100_0000
}

/// The mean along the last axes at the first part of an index, and put back along them.
proof fn lemma_layer_mean(m: Numbers, x: Tensor, axis: usize, index: Seq<int>)
    requires
        has_layers(x, axis as int),
        has_index(x, index),
    ensures
        ({
            let axes = axis_range(axis, x.dims().len() as usize);
            let mean = x.mean(axes);
            &&& axes == last_axes(axis as int, x.dims().len())
            &&& mean.dims() == x.dims().subrange(0, axis as int)
            &&& is_sound(mean.shape)
            &&& has_index(mean, index.subrange(0, axis as int))
            &&& at(m, mean, index.subrange(0, axis as int)) == layer_mean(
                m,
                x,
                axis as int,
                index,
            )
        }),
{
    let rank = x.dims().len();
    let axes = axis_range(axis, rank as usize);
    assert(axes =~= last_axes(axis as int, rank));
    assert forall|a: int| 0 <= a < rank && axes.contains(a as usize) implies 0 < (
    #[trigger] x.dims()[a])->Known_0 <= 0x100_0000 by {
        assert(0 <= index[a] < sizes(x)[a]);
    }
    assert forall|a: int| 0 <= a < rank && !axes.contains(a as usize) implies 0
        <= #[trigger] index[a] < sizes(x)[a] by {}
    lemma_mean(m, x, axes, index);
    lemma_kept_first(x.dims(), axis as int, 0);
    lemma_kept_first(index, axis as int, 0);
    if axis == 0 {
        assert(x.dims().subrange(0, 0) =~= Seq::empty());
        assert(index.subrange(0, 0) =~= Seq::empty());
    }
}

/// What lost the last axes and got them back, has along them what it had.
proof fn lemma_layer_restored(
    m: Numbers,
    t: Tensor,
    dims: Seq<Dim>,
    axis: usize,
    index: Seq<int>,
)
    requires
        is_sound(t.shape),
        axis < dims.len() < usize::MAX,
        t.dims() == dims.subrange(0, axis as int),
        index.len() == dims.len(),
    ensures
        ({
            let r = restored(t, dims, axis_range(axis, dims.len() as usize));
            &&& r.dims() == dims
            &&& at(m, r, index) == at(m, t, index.subrange(0, axis as int))
        }),
{
    let axes = axis_range(axis, dims.len() as usize);
    assert(axes =~= last_axes(axis as int, dims.len()));
    lemma_kept_first(dims, axis as int, 0);
    lemma_kept_first(index, axis as int, 0);
    if axis == 0 {
        assert(dims.subrange(0, 0) =~= Seq::empty());
        assert(index.subrange(0, 0) =~= Seq::empty());
    }
    assert(dims.subrange(0, 0) + kept(dims, axes, 0) =~= t.dims());
    lemma_restored(m, t, dims, axes, index, 0);
    assert(index.subrange(0, 0) + kept(index, axes, 0) =~= index.subrange(0, axis as int));
}

/// A tensor without its mean.
proof fn lemma_centered(m: Numbers, x: Tensor, out: Seq<char>, axis: usize, index: Seq<int>)
    requires
        has_layers(x, axis as int),
        has_index(x, index),
        (m.given)(out + "_neg_one"@, 0) == number(NEG_ONE),
    ensures
        centered(x, out, axis).dims() == x.dims(),
        at(m, centered(x, out, axis), index) == at(m, x, index) - layer_mean(
            m,
            x,
            axis as int,
            index,
        ),
{
    let axes = axis_range(axis, x.dims().len() as usize);
    lemma_numbers();
    lemma_layer_mean(m, x, axis, index);
    let mean = x.mean(axes);
    lemma_layer_restored(m, mean, x.dims(), axis, index);
    let back = restored(mean, x.dims(), axes);
    let neg_one = spread(x, out, "_neg_one"@);
    lemma_spread(m, x, out, "_neg_one"@, index);
    lemma_binary(m, back, Binary::Mul, neg_one, index);
    lemma_binary(m, x, Binary::Add, times(back, neg_one), index);
    let g = layer_mean(m, x, axis as int, index);
    assert(g * (0real - 1real) == 0real - g) by (nonlinear_arith);
}

/// Indices with the same first part have the same mean.
proof fn lemma_same_layer(m: Numbers, x: Tensor, axis: int, i: Seq<int>, j: Seq<int>)
    requires
        has_layers(x, axis),
        has_index(x, i),
        has_index(x, j),
        same_off(last_axes(axis, x.dims().len()), i, j),
    ensures
        layer_mean(m, x, axis, i) == layer_mean(m, x, axis, j),
{
    let f = |k: Seq<int>| at(m, x, k);
    let axes = last_axes(axis, x.dims().len());
    lemma_same_over(f, f, sizes(x), axes, i, i, j, 0);
}

/// The reciprocal of the standard deviation, at the first part of an index.
proof fn lemma_inverse_deviation(
    m: Numbers,
    x: Tensor,
    out: Seq<char>,
    axis: usize,
    epsilon: u32,
    index: Seq<int>,
)
    requires
        has_layers(x, axis as int),
        has_index(x, index),
        (m.given)(out + "_neg_one"@, 0) == number(NEG_ONE),
        (m.given)(out + "_epsilon"@, 0) == number(epsilon),
    ensures
        ({
            let t = inverse_deviation(centered(x, out, axis), out, axis);
            &&& t.dims() == x.dims().subrange(0, axis as int)
            &&& is_sound(t.shape)
            &&& at(m, t, index.subrange(0, axis as int)) == 1real / (m.sqrt)(
                layer_variance(m, x, axis as int, index) + number(epsilon),
            )
        }),
{
    let c = centered(x, out, axis);
    let a = axis as int;
    let rank = x.dims().len();
    let axes = axis_range(axis, rank as usize);
    lemma_centered(m, x, out, axis, index);
    lemma_row_major_place(c.dims(), index);
    let square = times(c, c);
    lemma_row_major_place(square.dims(), index);
    assert(has_layers(square, a)) by {
        assert forall|k: int| a <= k < rank implies (#[trigger] square.dims()[k])->Known_0
            <= 0x100_0000 by {
            assert(x.dims()[k]->Known_0 <= 0x100_0000);
        }
    }
    assert(has_index(square, index));
    lemma_layer_mean(m, square, axis, index);
    // The squares are those of the distances from one mean.
    let mean = layer_mean(m, x, a, index);
    let f = |i: Seq<int>| at(m, square, i);
    let g = |i: Seq<int>| (at(m, x, i) - mean) * (at(m, x, i) - mean);
    assert forall|other: Seq<int>|
        within(sizes(x), other) && same_off(axes, index, other) implies #[trigger] f(other) == g(
        other,
    ) by {
        lemma_centered(m, x, out, axis, other);
        lemma_binary(m, c, Binary::Mul, c, other);
        lemma_same_layer(m, x, a, index, other);
    }
    lemma_same_over(f, g, sizes(x), axes, index, index, index, 0);
    assert(sizes(square) == sizes(x));
    let variance = square.mean(axes);
    let lead = index.subrange(0, a);
    let shift = spread(variance, out, "_epsilon"@);
    lemma_spread(m, variance, out, "_epsilon"@, lead);
    lemma_binary(m, variance, Binary::Add, shift, lead);
    let sum = plus(variance, shift);
    lemma_unary(m, sum, Unary::Sqrt, lead);
    lemma_unary(m, sum.unary(Unary::Sqrt), Unary::Recip, lead);
    lemma_row_major_place(variance.dims(), lead);
}

/// A LayerNormalization node, whose scale and bias have the sizes of the axes from
/// `axis` on, is done, and its output has at each index
/// `(x - mean) / sqrt(variance + epsilon) * scale + bias`, where mean and variance are
/// those along these axes, and scale and bias are read at the last part of the index.
pub proof fn law_layer_norm_node(
    m: Numbers,
    node: NodeDef,
    before: State,
    after: State,
    result: Outcome,
    axis: int,
    index: Seq<int>,
)
    requires
        layer_norm_step(node, before, after, result),
        node.input@.len() >= 2,
        node.output@.len() > 0,
        before.env.contains_key(node.inp(0)),
        before.env.contains_key(node.inp(1)),
        has_layers(before.env[node.inp(0)], axis),
        has_index(before.env[node.inp(0)], index),
        ({
            let x = before.env[node.inp(0)];
            let rank = x.dims().len();
            let given = node.int_attr("axis"@, (-1) as i64);
            let part = x.dims().subrange(axis, rank as int);
            &&& given == axis || given == axis - rank
            &&& before.env[node.inp(1)].dims() == part
            &&& is_sound(before.env[node.inp(1)].shape)
            &&& node.has_input(2) ==> {
                &&& before.env.contains_key(node.inp(2))
                &&& node.inp(2) != node.out(0) + "_neg_one"@
                &&& node.inp(2) != node.out(0) + "_epsilon"@
                &&& before.env[node.inp(2)].dims() == part
                &&& is_sound(before.env[node.inp(2)].shape)
            }
            &&& (m.sqrt)(
                layer_variance(m, x, axis, index) + number(
                    node.float_attr("epsilon"@, EPSILON),
                ),
            ) != 0real
        }),
        gives_added(m, before, after),
    ensures
        result is Done,
        ({
            let x = before.env[node.inp(0)];
            let t = after.env[node.out(0)];
            let epsilon = number(node.float_attr("epsilon"@, EPSILON));
            let last = index.subrange(axis, index.len() as int);
            let unit = (at(m, x, index) - layer_mean(m, x, axis, index)) / (m.sqrt)(
                layer_variance(m, x, axis, index) + epsilon,
            );
            let scaled = unit * at(m, before.env[node.inp(1)], last);
            &&& t.dims() == x.dims()
            &&& at(m, t, index) == if node.has_input(2) {
                scaled + at(m, before.env[node.inp(2)], last)
            } else {
                scaled
            }
        }),
{
    let x = before.env[node.inp(0)];
    let out = node.out(0);
    let rank = x.dims().len();
    let at_axis = axis as usize;
    let eps = node.float_attr("epsilon"@, EPSILON);
    let numbers = layer_norm_numbers(node);
    let named = with_numbers(before.env, out, numbers);
    let last = index.subrange(axis, rank as int);
    let lead = index.subrange(0, axis);
    reveal_with_fuel(with_numbers, 3);
    assert(numbers.drop_last() =~= seq![("_neg_one"@, NEG_ONE)]);
    assert(numbers.drop_last().drop_last() =~= Seq::empty());
    if node.has_input(2) {
        assert(named.contains_key(node.inp(2)));
        assert(named[node.inp(2)] == before.env[node.inp(2)]);
    }
    assert(result is Done);
    let added = after.weights.skip(before.weights.len() as int);
    assert(added =~= number_data(out, numbers));
    assert(added[0].1[0] == NEG_ONE);
    assert(added[1].1[0] == eps);
    let c = centered(x, out, at_axis);
    lemma_centered(m, x, out, at_axis, index);
    let inverse = inverse_deviation(c, out, at_axis);
    lemma_inverse_deviation(m, x, out, at_axis, eps, index);
    lemma_layer_restored(m, inverse, x.dims(), at_axis, index);
    let back = restored(inverse, x.dims(), axis_range(at_axis, rank as usize));
    lemma_binary(m, c, Binary::Mul, back, index);
    let unit = normalized(x, out, at_axis);
    let scale = before.env[node.inp(1)];
    assert(lead + last =~= index);
    assert(x.dims().subrange(0, axis) + x.dims().subrange(axis, rank as int) =~= x.dims());
    lemma_led(m, scale, x.dims(), lead, last);
    let wide = led(scale, x.dims(), axis as nat);
    lemma_binary(m, unit, Binary::Mul, wide, index);
    let formula = layer_norm_formula(x, scale, out, at_axis);
    if node.has_input(2) {
        let bias = before.env[node.inp(2)];
        lemma_led(m, bias, x.dims(), lead, last);
        lemma_binary(m, formula, Binary::Add, led(bias, x.dims(), axis as nat), index);
    }
    let d = at(m, x, index) - layer_mean(m, x, axis, index);
    let s = (m.sqrt)(layer_variance(m, x, axis, index) + number(eps));
    assert(d * (1real / s) == d / s) by (nonlinear_arith)
        requires
            s != 0real,
    ;
}

} // verus!

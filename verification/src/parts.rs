//! Lists that are parted along an axis, and put together again.

#[allow(unused_imports)]
use crate::fold::{cut_source, cut_values, joined_along, joined_sizes, lemma_parted_product};
#[allow(unused_imports)]
use crate::ops::pieces::sum_of;
#[allow(unused_imports)]
use crate::shape::product;
#[allow(unused_imports)]
use vstd::arithmetic::div_mod::{
    lemma_fundamental_div_mod, lemma_fundamental_div_mod_converse, lemma_mod_bound,
};
use vstd::prelude::*;

verus! {

/// Where a part starts that is cut along one axis only.
pub open spec fn starts_along(rank: nat, axis: int, start: usize) -> Seq<usize> {
    Seq::new(
        rank,
        |k: int|
            if k == axis {
                start
            } else {
                0
            },
    )
}

/// The elements of a list with the sizes `sizes` that lie from `start` on along an
/// axis, as far as `width`.
pub open spec fn part_along(
    v: Seq<u32>,
    sizes: Seq<usize>,
    axis: int,
    start: usize,
    width: usize,
) -> Seq<u32> {
    cut_values(v, sizes, starts_along(sizes.len(), axis, start), sizes.update(axis, width))
}

/// The first `n` parts of a list, as long as `parts` says, put one after the other
/// along the axis that they were cut along.
pub open spec fn parts_along(
    v: Seq<u32>,
    sizes: Seq<usize>,
    axis: int,
    parts: Seq<usize>,
    n: nat,
) -> Seq<u32>
    decreases n,
{
    if n <= 1 {
        part_along(v, sizes, axis, 0, parts[0])
    } else {
        let m = (n - 1) as nat;
        let start = sum_of(parts, m) as usize;
        joined_along(
            parts_along(v, sizes, axis, parts, m),
            sizes.update(axis, start),
            part_along(v, sizes, axis, start, parts[n - 1]),
            sizes.update(axis, parts[n - 1]),
            axis,
        )
    }
}

/// A part that is the whole has its elements in their places.
proof fn lemma_uncut(sizes: Seq<usize>, starts: Seq<usize>, p: int)
    requires
        starts.len() == sizes.len(),
        forall|i: int| 0 <= i < starts.len() ==> #[trigger] starts[i] == 0,
        0 <= p < product(sizes),
    ensures
        cut_source(sizes, starts, sizes, p) == p,
    decreases sizes.len(),
{
    if sizes.len() > 0 {
        let z = sizes.last() as int;
        let outer = product(sizes.drop_last()) as int;
        assert(z > 0) by (nonlinear_arith)
            requires
                0 <= p < outer * z,
                z >= 0,
        ;
        lemma_fundamental_div_mod(p, z);
        lemma_mod_bound(p, z);
        let q = p / z;
        assert(0 <= q < outer) by (nonlinear_arith)
            requires
                p == z * q + p % z,
                0 <= p % z < z,
                0 <= p < outer * z,
        ;
        lemma_uncut(sizes.drop_last(), starts.drop_last(), q);
        assert(starts.last() == 0);
        assert(q * z == z * q) by (nonlinear_arith);
    }
}

/// The place of an element of a part that is cut along one axis.
proof fn lemma_cut_along(
    sizes: Seq<usize>,
    axis: int,
    start: usize,
    width: usize,
    before: int,
    i: int,
    behind: int,
)
    requires
        0 <= axis < sizes.len(),
        start + width <= sizes[axis],
        0 <= before < product(sizes.subrange(0, axis)),
        0 <= i < width,
        0 <= behind < product(sizes.subrange(axis + 1, sizes.len() as int)),
    ensures
        ({
            let inner = product(sizes.subrange(axis + 1, sizes.len() as int));
            cut_source(
                sizes,
                starts_along(sizes.len(), axis, start),
                sizes.update(axis, width),
                (before * width + i) * inner + behind,
            ) == (before * sizes[axis] + start + i) * inner + behind
        }),
    decreases sizes.len(),
{
    let rank = sizes.len();
    let starts = starts_along(rank, axis, start);
    let widths = sizes.update(axis, width);
    let inner = product(sizes.subrange(axis + 1, rank as int)) as int;
    let p = (before * width + i) * inner + behind;
    let shorter = sizes.drop_last();
    if axis == rank - 1 {
        assert(sizes.subrange(axis + 1, rank as int) =~= Seq::empty());
        assert(inner == 1 && behind == 0);
        let row = before * width + i;
        let at = before * sizes[axis] + start + i;
        assert(row * inner == row && at * inner == at) by (nonlinear_arith)
            requires
                inner == 1,
        ;
        lemma_fundamental_div_mod_converse(p, width as int, before, i);
        assert(widths.drop_last() =~= shorter);
        assert(sizes.subrange(0, axis) =~= shorter);
        lemma_uncut(shorter, starts.drop_last(), before);
    } else {
        let z = sizes.last() as int;
        let tail = shorter.subrange(axis + 1, rank - 1);
        let less = product(tail) as int;
        assert(sizes.subrange(axis + 1, rank as int).drop_last() =~= tail);
        assert(inner == less * z);
        assert(z > 0) by (nonlinear_arith)
            requires
                0 <= behind < less * z,
                z >= 0,
        ;
        let h = behind / z;
        let k = behind % z;
        lemma_fundamental_div_mod(behind, z);
        lemma_mod_bound(behind, z);
        assert(0 <= h < less) by (nonlinear_arith)
            requires
                behind == z * h + k,
                0 <= k < z,
                0 <= behind < less * z,
        ;
        let row = before * width + i;
        let q = row * less + h;
        assert(p == q * z + k) by (nonlinear_arith)
            requires
                p == row * (less * z) + behind,
                behind == z * h + k,
                q == row * less + h,
        ;
        lemma_fundamental_div_mod_converse(p, z, q, k);
        assert(shorter.subrange(0, axis) =~= sizes.subrange(0, axis));
        lemma_cut_along(shorter, axis, start, width, before, i, h);
        assert(starts.drop_last() =~= starts_along((rank - 1) as nat, axis, start));
        assert(widths.drop_last() =~= shorter.update(axis, width));
        let at = before * sizes[axis] + start + i;
        assert((at * less + h) * z + k == at * inner + behind) by (nonlinear_arith)
            requires
                inner == less * z,
                behind == z * h + k,
        ;
    }
}

/// Two parts that follow each other along an axis, put one after the other, are
/// one part.
proof fn lemma_two_parts(v: Seq<u32>, sizes: Seq<usize>, axis: int, s: usize, t: usize)
    requires
        0 <= axis < sizes.len(),
        s + t <= sizes[axis],
    ensures
        joined_along(
            part_along(v, sizes, axis, 0, s),
            sizes.update(axis, s),
            part_along(v, sizes, axis, s, t),
            sizes.update(axis, t),
            axis,
        ) == part_along(v, sizes, axis, 0, (s + t) as usize),
{
    let rank = sizes.len() as int;
    let a = part_along(v, sizes, axis, 0, s);
    let b = part_along(v, sizes, axis, s, t);
    let both = part_along(v, sizes, axis, 0, (s + t) as usize);
    let a_sizes = sizes.update(axis, s);
    let b_sizes = sizes.update(axis, t);
    let joint = sizes.update(axis, (s + t) as usize);
    let inner = product(sizes.subrange(axis + 1, rank)) as int;
    let outer = product(sizes.subrange(0, axis)) as int;
    assert(joined_sizes(a_sizes, b_sizes, axis) =~= joint);
    assert(a_sizes.subrange(axis + 1, rank) =~= sizes.subrange(axis + 1, rank));
    assert(b_sizes.subrange(axis + 1, rank) =~= sizes.subrange(axis + 1, rank));
    assert(joint.subrange(axis + 1, rank) =~= sizes.subrange(axis + 1, rank));
    assert(a_sizes.subrange(0, axis) =~= sizes.subrange(0, axis));
    assert(b_sizes.subrange(0, axis) =~= sizes.subrange(0, axis));
    assert(joint.subrange(0, axis) =~= sizes.subrange(0, axis));
    lemma_parted_product(a_sizes, axis);
    lemma_parted_product(b_sizes, axis);
    lemma_parted_product(joint, axis);
    let x = s * inner;
    let y = t * inner;
    let w = (s + t) * inner;
    assert(w == x + y) by (nonlinear_arith)
        requires
            x == s * inner,
            y == t * inner,
            w == (s + t) * inner,
    ;
    let whole = joined_along(a, a_sizes, b, b_sizes, axis);
    assert forall|p: int| 0 <= p < product(joint) implies whole[p] == both[p] by {
        assert(w > 0 && inner > 0) by (nonlinear_arith)
            requires
                0 <= p < outer * w,
                w == (s + t) * inner,
                s >= 0,
                t >= 0,
                outer >= 0,
                inner >= 0,
        ;
        let o = p / w;
        let r = p % w;
        lemma_fundamental_div_mod(p, w);
        lemma_mod_bound(p, w);
        assert(0 <= o < outer) by (nonlinear_arith)
            requires
                p == w * o + r,
                0 <= r < w,
                0 <= p < outer * w,
        ;
        let i = r / inner;
        let h = r % inner;
        lemma_fundamental_div_mod(r, inner);
        lemma_mod_bound(r, inner);
        assert(0 <= i < s + t) by (nonlinear_arith)
            requires
                r == inner * i + h,
                0 <= h < inner,
                0 <= r < (s + t) * inner,
        ;
        assert(p == (o * (s + t) + i) * inner + h) by (nonlinear_arith)
            requires
                p == w * o + r,
                w == (s + t) * inner,
                r == inner * i + h,
        ;
        lemma_cut_along(sizes, axis, 0, (s + t) as usize, o, i, h);
        let at = (o * sizes[axis] + i) * inner + h;
        assert(both[p] == v[at]);
        if r < x {
            assert(i < s) by (nonlinear_arith)
                requires
                    r == inner * i + h,
                    0 <= h < inner,
                    r < s * inner,
            ;
            let place = o * x + r;
            assert(place == (o * s + i) * inner + h && 0 <= place < outer * x) by (nonlinear_arith)
                requires
                    place == o * x + r,
                    x == s * inner,
                    r == inner * i + h,
                    0 <= r < x,
                    0 <= o < outer,
            ;
            lemma_cut_along(sizes, axis, 0, s, o, i, h);
            assert(a[place] == v[at]);
        } else {
            let j = i - s;
            assert(0 <= j < t) by (nonlinear_arith)
                requires
                    r == inner * i + h,
                    0 <= h < inner,
                    r >= s * inner,
                    j == i - s,
                    i < s + t,
            ;
            let rest = r - x;
            let place = o * y + rest;
            assert(place == (o * t + j) * inner + h && 0 <= place < outer * y) by (nonlinear_arith)
                requires
                    place == o * y + rest,
                    rest == r - x,
                    x == s * inner,
                    y == t * inner,
                    r == inner * i + h,
                    j == i - s,
                    0 <= rest < y,
                    0 <= o < outer,
            ;
            lemma_cut_along(sizes, axis, s, t, o, j, h);
            assert(b[place] == v[at]);
        }
    }
    assert(whole =~= both);
}

proof fn lemma_parts_along(v: Seq<u32>, sizes: Seq<usize>, axis: int, parts: Seq<usize>, n: nat)
    requires
        0 <= axis < sizes.len(),
        1 <= n <= parts.len(),
        sum_of(parts, n) <= sizes[axis],
    ensures
        parts_along(v, sizes, axis, parts, n) == part_along(
            v,
            sizes,
            axis,
            0,
            sum_of(parts, n) as usize,
        ),
    decreases n,
{
    if n > 1 {
        let m = (n - 1) as nat;
        lemma_parts_along(v, sizes, axis, parts, m);
        lemma_two_parts(v, sizes, axis, sum_of(parts, m) as usize, parts[n - 1]);
    } else {
        assert(sum_of(parts, 1) == sum_of(parts, 0) + parts[0]);
    }
}

/// A list with any sizes that is parted along an axis, and whose parts are put one
/// after the other along it, is the list.
pub proof fn law_parts_along_make_the_whole(
    v: Seq<u32>,
    sizes: Seq<usize>,
    axis: int,
    parts: Seq<usize>,
)
    requires
        0 <= axis < sizes.len(),
        v.len() == product(sizes),
        parts.len() > 0,
        sum_of(parts, parts.len()) == sizes[axis],
    ensures
        parts_along(v, sizes, axis, parts, parts.len()) == v,
{
    lemma_parts_along(v, sizes, axis, parts, parts.len());
    let starts = starts_along(sizes.len(), axis, 0);
    assert(sizes.update(axis, sizes[axis]) =~= sizes);
    let whole = part_along(v, sizes, axis, 0, sizes[axis]);
    assert forall|p: int| 0 <= p < v.len() implies whole[p] == v[p] by {
        lemma_uncut(sizes, starts, p);
    }
    assert(whole =~= v);
}

} // verus!

//! Axes that are counted from the first one, or with negative numbers from
//! behind the last one.

use crate::bits::to_i64;
#[allow(unused_imports)]
use crate::bits::as_i64;
use vstd::prelude::*;

verus! {

/// The axis that a number stands for among `rank` axes.
pub open spec fn counted(axis: i64, rank: nat) -> int {
    if axis < 0 {
        rank + axis
    } else {
        axis as int
    }
}

/// The axis that a number stands for, if it is one of the first `limit`.
pub fn count_axis(axis: i64, rank: usize, limit: usize) -> (found: Option<usize>)
    ensures
        match found {
            Some(a) => a == counted(axis, rank as nat) && a < limit,
            None => !(0 <= counted(axis, rank as nat) < limit),
        },
{
    if axis < 0 {
        let back: u64 = if axis == i64::MIN {
            0x8000_0000_0000_0000
        } else {
            (-axis) as u64
        };
        if back <= rank as u64 {
            let at: usize = rank - back as usize;
            if at < limit {
                return Some(at);
            }
        }
        None
    } else if (axis as u64) < limit as u64 {
        Some(axis as usize)
    } else {
        None
    }
}

/// The axes that some numbers stand for among `rank` axes.
pub open spec fn counted_all(axes: Seq<i64>, rank: nat) -> Seq<usize> {
    Seq::new(axes.len(), |i: int| counted(axes[i], rank) as usize)
}

/// Whether all of some numbers stand for one of `rank` axes.
pub open spec fn all_in_rank(axes: Seq<i64>, rank: nat) -> bool {
    forall|i: int| 0 <= i < axes.len() ==> 0 <= #[trigger] counted(axes[i], rank) < rank
}

/// The axes that some numbers stand for, if each is one of `rank` axes.
pub fn count_axes(axes: &Vec<i64>, rank: usize) -> (found: Option<Vec<usize>>)
    ensures
        match found {
            Some(a) => all_in_rank(axes@, rank as nat) && a@ == counted_all(axes@, rank as nat),
            None => !all_in_rank(axes@, rank as nat),
        },
{
    let mut found: Vec<usize> = Vec::new();
    let mut i: usize = 0;
    while i < axes.len()
        invariant
            i <= axes.len(),
            found@.len() == i,
            forall|k: int|
                0 <= k < i ==> 0 <= #[trigger] counted(axes@[k], rank as nat) < rank && found@[k]
                    == counted(axes@[k], rank as nat),
        decreases axes.len() - i,
    {
        match count_axis(axes[i], rank, rank) {
            Some(a) => {
                found.push(a);
            },
            None => {
                assert(!(0 <= counted(axes@[i as int], rank as nat) < rank));
                return None;
            },
        }
        i = i + 1;
    }
    assert(found@ =~= counted_all(axes@, rank as nat));
    Some(found)
}

/// The whole numbers nearest to 0 of some known values.
pub open spec fn whole_numbers(values: Seq<u32>) -> Seq<i64> {
    Seq::new(values.len(), |i: int| as_i64(values[i]))
}

/// The whole numbers nearest to 0 of some known values.
pub fn to_whole_numbers(values: &Vec<u32>) -> (numbers: Vec<i64>)
    ensures
        numbers@ == whole_numbers(values@),
{
    let mut numbers: Vec<i64> = Vec::new();
    let mut i: usize = 0;
    while i < values.len()
        invariant
            i <= values.len(),
            numbers@.len() == i,
            forall|k: int| 0 <= k < i ==> #[trigger] numbers@[k] == as_i64(values@[k]),
        decreases values.len() - i,
    {
        numbers.push(to_i64(values[i]));
        i = i + 1;
    }
    assert(numbers@ =~= whole_numbers(values@));
    numbers
}

/// A copy of some whole numbers.
pub fn copy_numbers(numbers: &Vec<i64>) -> (copy: Vec<i64>)
    ensures
        copy@ == numbers@,
{
    let mut copy: Vec<i64> = Vec::new();
    let mut i: usize = 0;
    while i < numbers.len()
        invariant
            i <= numbers.len(),
            copy@ == numbers@.subrange(0, i as int),
        decreases numbers.len() - i,
    {
        copy.push(numbers[i]);
        i = i + 1;
    }
    copy
}

/// The axes from `from` up to `to`.
pub open spec fn axis_range(from: usize, to: usize) -> Seq<usize> {
    if from <= to {
        Seq::new((to - from) as nat, |i: int| (from + i) as usize)
    } else {
        Seq::empty()
    }
}

/// The axes from `from` up to `to`.
pub fn range_of_axes(from: usize, to: usize) -> (axes: Vec<usize>)
    ensures
        axes@ == axis_range(from, to),
{
    let mut axes: Vec<usize> = Vec::new();
    let mut i: usize = from;
    while i < to
        invariant
            from <= i,
            from <= to ==> i <= to,
            from > to ==> i == from,
            axes@.len() == i - from,
            forall|k: int| 0 <= k < axes@.len() ==> #[trigger] axes@[k] == from + k,
        decreases to - i,
    {
        axes.push(i);
        i = i + 1;
    }
    assert(axes@ =~= axis_range(from, to));
    axes
}

/// The axes in ascending order with one more put into its place.
pub open spec fn placed(sorted: Seq<usize>, axis: usize) -> Seq<usize>
    decreases sorted.len(),
{
    if sorted.len() == 0 || sorted.last() <= axis {
        sorted.push(axis)
    } else {
        placed(sorted.drop_last(), axis).push(sorted.last())
    }
}

/// The axes in ascending order.
pub open spec fn in_order(axes: Seq<usize>) -> Seq<usize>
    decreases axes.len(),
{
    if axes.len() == 0 {
        Seq::empty()
    } else {
        placed(in_order(axes.drop_last()), axes.last())
    }
}

/// Whether no axis comes after a greater one.
pub open spec fn ascending(axes: Seq<usize>) -> bool {
    forall|i: int, j: int| 0 <= i < j < axes.len() ==> axes[i] <= axes[j]
}

proof fn lemma_placed(sorted: Seq<usize>, axis: usize)
    requires
        ascending(sorted),
    ensures
        ascending(placed(sorted, axis)),
        placed(sorted, axis).to_multiset() == sorted.to_multiset().insert(axis),
        placed(sorted, axis).len() == sorted.len() + 1,
        forall|i: int|
            0 <= i < placed(sorted, axis).len() ==> #[trigger] placed(sorted, axis)[i] <= axis || (
            sorted.len() > 0 && placed(sorted, axis)[i] <= sorted.last()),
    decreases sorted.len(),
{
    broadcast use vstd::seq_lib::group_to_multiset_ensures;

    if sorted.len() == 0 || sorted.last() <= axis {
    } else {
        let rest = sorted.drop_last();
        lemma_placed(rest, axis);
        assert(sorted =~= rest.push(sorted.last()));
        assert(forall|i: int| 0 <= i < rest.len() ==> rest[i] <= sorted.last());
        assert(placed(sorted, axis).to_multiset() =~= sorted.to_multiset().insert(axis));
    }
}

/// Axes in ascending order are the same axes, as often as before, and no axis
/// comes after a greater one.
pub proof fn law_in_order(axes: Seq<usize>)
    ensures
        ascending(in_order(axes)),
        in_order(axes).to_multiset() == axes.to_multiset(),
        in_order(axes).len() == axes.len(),
    decreases axes.len(),
{
    broadcast use vstd::seq_lib::group_to_multiset_ensures;

    if axes.len() > 0 {
        law_in_order(axes.drop_last());
        lemma_placed(in_order(axes.drop_last()), axes.last());
        assert(axes =~= axes.drop_last().push(axes.last()));
    } else {
        assert(axes =~= Seq::empty());
    }
}

/// Puts one more axis into its place.
fn place(sorted: Vec<usize>, axis: usize) -> (out: Vec<usize>)
    ensures
        out@ == placed(sorted@, axis),
    decreases sorted@.len(),
{
    let mut out = sorted;
    if out.len() == 0 || out[out.len() - 1] <= axis {
        out.push(axis);
        return out;
    }
    let last: usize = out[out.len() - 1];
    let _ = out.pop();
    let mut out = place(out, axis);
    out.push(last);
    out
}

/// The axes in ascending order.
pub fn sort_axes(axes: &Vec<usize>) -> (sorted: Vec<usize>)
    ensures
        sorted@ == in_order(axes@),
{
    let mut sorted: Vec<usize> = Vec::new();
    let mut i: usize = 0;
    while i < axes.len()
        invariant
            i <= axes.len(),
            sorted@ == in_order(axes@.subrange(0, i as int)),
        decreases axes.len() - i,
    {
        assert(axes@.subrange(0, i + 1).drop_last() =~= axes@.subrange(0, i as int));
        sorted = place(sorted, axes[i]);
        i = i + 1;
    }
    assert(axes@.subrange(0, i as int) =~= axes@);
    sorted
}

} // verus!

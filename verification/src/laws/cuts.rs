//! Parts of tensors, and tensors one after the other.

#[allow(unused_imports)]
use crate::bits::{as_i64, as_usize};
#[allow(unused_imports)]
use crate::fold::{cut_source, joined_along, joined_sizes, lemma_part_is_smaller};
#[allow(unused_imports)]
use crate::graph::{can_concat, range_size, ranges_ordered};
#[allow(unused_imports)]
use crate::laws::means::stand_for;
#[allow(unused_imports)]
use crate::ops::pieces::{
    can_join, can_split_known, chain_outcome, chained, chained_values, chunk, concat_axis,
    concat_folds, concat_step, cut_position, cuts_of, even_sizes, inputs_known, is_whole,
    lemma_split_tensors, lemma_sum_grows, range_starts, range_widths, slice_ranges, slice_step,
    sliced_values, split_axis, split_known, split_ranges, split_sizes, split_step, sum_of, Cuts,
};
#[allow(unused_imports)]
use crate::proto::NodeDef;
#[allow(unused_imports)]
use crate::reading::{lemma_position_of_both, lemma_position_within, position_at, within};
#[allow(unused_imports)]
use crate::shape::{all_known, bounded_product, known_dims, lemma_bounded_product, product, Dim};
#[allow(unused_imports)]
use crate::state::{Outcome, State};
#[allow(unused_imports)]
use crate::values::{at, is_sound, lemma_concat, lemma_slice, sizes, Numbers};
#[allow(unused_imports)]
use vstd::arithmetic::div_mod::lemma_fundamental_div_mod_converse;
use vstd::prelude::*;

verus! {

/// The position that a start or an end of a part means, on an axis of a size: a
/// negative number counts from the end, and what lies beyond an end of the axis is
/// moved to it.
pub open spec fn cut_at(number: i64, size: usize) -> int {
    let from_start = if number >= 0 {
        number as int
    } else {
        number + size
    };
    if from_start < 0 {
        0
    } else if from_start > size {
        size as int
    } else {
        from_start
    }
}

/// The whole numbers that are known of an input.
pub open spec fn numbers_at(node: NodeDef, i: int, before: State) -> Seq<i64> {
    Seq::new(before.known[node.inp(i)].len(), |k: int| as_i64(before.known[node.inp(i)][k]))
}

/// Whether a Slice node can be imported that cuts the axes `axes`, each once, from a
/// start up to an end behind it, in steps of 1.
pub open spec fn cuts_axes(node: NodeDef, before: State, axes: Seq<usize>) -> bool {
    let x = before.env[node.inp(0)];
    let rank = x.dims().len();
    let starts = numbers_at(node, 1, before);
    let ends = numbers_at(node, 2, before);
    &&& node.input@.len() >= 3
    &&& node.output@.len() > 0
    &&& before.env.contains_key(node.inp(0))
    &&& is_sound(x.shape)
    &&& rank <= i64::MAX
    &&& all_known(x.dims())
    &&& before.known.contains_key(node.inp(1))
    &&& before.known.contains_key(node.inp(2))
    &&& if node.has_input(3) {
        before.known.contains_key(node.inp(3)) && stand_for(
            numbers_at(node, 3, before),
            axes,
            rank,
        )
    } else {
        starts.len() <= rank && axes == Seq::new(starts.len(), |i: int| i as usize)
    }
    &&& node.has_input(4) ==> {
        &&& before.known.contains_key(node.inp(4))
        &&& numbers_at(node, 4, before).len() >= axes.len()
        &&& forall|i: int| 0 <= i < axes.len() ==> #[trigger] numbers_at(node, 4, before)[i] == 1
    }
    &&& axes.no_duplicates()
    &&& axes.len() <= starts.len()
    &&& axes.len() <= ends.len()
    &&& forall|i: int|
        0 <= i < axes.len() ==> {
            let size = sizes(x)[(#[trigger] axes[i]) as int];
            size <= i32::MAX && cut_at(starts[i], size) <= cut_at(ends[i], size)
        }
}

/// Whether `from` is the index of the input that belongs to an index of the part that
/// a Slice node cuts out: along each axis that is cut it lies behind the start that is
/// given for it, and along the others it is the same.
pub open spec fn comes_from(
    node: NodeDef,
    before: State,
    axes: Seq<usize>,
    index: Seq<int>,
    from: Seq<int>,
) -> bool {
    let lengths = sizes(before.env[node.inp(0)]);
    let starts = numbers_at(node, 1, before);
    let ends = numbers_at(node, 2, before);
    &&& index.len() == lengths.len()
    &&& from.len() == lengths.len()
    &&& forall|i: int|
        0 <= i < axes.len() ==> {
            let a = (#[trigger] axes[i]) as int;
            let start = cut_at(starts[i], lengths[a]);
            &&& 0 <= index[a] < cut_at(ends[i], lengths[a]) - start
            &&& from[a] == index[a] + start
        }
    &&& forall|a: int|
        0 <= a < lengths.len() && !axes.contains(a as usize) ==> 0 <= #[trigger] index[a]
            < lengths[a] && from[a] == index[a]
}

/// The parts that cuts of different axes leave.
proof fn lemma_ranges(cuts: Cuts, dims: Seq<Dim>, axes: Seq<usize>, n: nat)
    requires
        n <= axes.len(),
        dims.len() <= usize::MAX,
        stand_for(cuts.axes, axes, dims.len()),
        axes.no_duplicates(),
    ensures
        cuts.ranges(dims, n).len() == dims.len(),
        forall|i: int|
            0 <= i < n ==> cuts.ranges(dims, n)[(#[trigger] axes[i]) as int] == cuts.range(dims, i),
        forall|a: int|
            0 <= a < dims.len() && !axes.contains(a as usize) ==> #[trigger] cuts.ranges(
                dims,
                n,
            )[a] == (Dim::Known(0), dims[a]),
    decreases n,
{
    if n > 0 {
        lemma_ranges(cuts, dims, axes, (n - 1) as nat);
        assert(axes[n - 1] < dims.len());
        assert(cuts.axis(dims.len(), n - 1) == axes[n - 1]);
        assert(axes.contains(axes[n - 1]));
        let before = cuts.ranges(dims, (n - 1) as nat);
        assert forall|i: int| 0 <= i < n implies cuts.ranges(dims, n)[(
        #[trigger] axes[i]) as int] == cuts.range(dims, i) by {
            if i < n - 1 {
                assert(axes[i] != axes[n - 1]);
                assert(before[axes[i] as int] == cuts.range(dims, i));
            }
        }
    }
}

proof fn lemma_cuts_done(node: NodeDef, before: State, axes: Seq<usize>, i: int)
    requires
        cuts_axes(node, before, axes),
        0 <= i <= axes.len(),
        cuts_of(node, before).axes.len() == axes.len(),
        stand_for(cuts_of(node, before).axes, axes, before.env[node.inp(0)].dims().len()),
    ensures
        cuts_of(node, before).outcome(before.env[node.inp(0)].dims(), i) is Done,
    decreases axes.len() - i,
{
    let cuts = cuts_of(node, before);
    let dims = before.env[node.inp(0)].dims();
    if i < axes.len() {
        lemma_cuts_done(node, before, axes, i + 1);
        let a = axes[i] as int;
        assert(axes[i] < dims.len());
        assert(cuts.axis(dims.len(), i) == a);
        assert(dims[a] is Known);
        assert(sizes(before.env[node.inp(0)])[axes[i] as int] <= i32::MAX);
        assert(cuts.starts =~= numbers_at(node, 1, before));
        assert(cuts.ends =~= numbers_at(node, 2, before));
        if node.has_input(4) {
            assert(cuts.steps =~= numbers_at(node, 4, before));
            assert(numbers_at(node, 4, before)[i] == 1);
        }
    }
}

/// Where an element of a part is found.
proof fn lemma_cut_source(
    lengths: Seq<usize>,
    starts: Seq<usize>,
    widths: Seq<usize>,
    index: Seq<int>,
)
    requires
        starts.len() == lengths.len(),
        widths.len() == lengths.len(),
        within(widths, index),
    ensures
        cut_source(lengths, starts, widths, position_at(widths, index)) == position_at(
            lengths,
            Seq::new(lengths.len(), |i: int| index[i] + starts[i]),
        ),
    decreases lengths.len(),
{
    let from = Seq::new(lengths.len(), |i: int| index[i] + starts[i]);
    if lengths.len() > 0 {
        let n = lengths.len() - 1;
        let short = index.drop_last();
        assert(within(widths.drop_last(), short)) by {
            assert forall|i: int| 0 <= i < n implies 0 <= #[trigger] short[i]
                < widths.drop_last()[i] by {
                assert(0 <= index[i] < widths[i]);
            }
        }
        lemma_cut_source(lengths.drop_last(), starts.drop_last(), widths.drop_last(), short);
        assert(from.drop_last() =~= Seq::new(
            n as nat,
            |i: int| short[i] + starts.drop_last()[i],
        ));
        let q = position_at(widths.drop_last(), short);
        let w = widths.last() as int;
        assert(0 <= index[n] < widths[n]);
        lemma_fundamental_div_mod_converse(q * w + index[n], w, q, index[n]);
    }
}

/// What is known of the parts of a Slice node.
proof fn lemma_slice_ranges(node: NodeDef, before: State, axes: Seq<usize>)
    requires
        cuts_axes(node, before, axes),
    ensures
        ({
            let x = before.env[node.inp(0)];
            let ranges = slice_ranges(node, before);
            let cuts = cuts_of(node, before);
            let starts = numbers_at(node, 1, before);
            let ends = numbers_at(node, 2, before);
            &&& cuts.outcome(x.dims(), 0) is Done
            &&& cuts.axes.len() == axes.len()
            &&& ranges.len() == x.dims().len()
            &&& ranges_ordered(ranges)
            &&& forall|i: int|
                0 <= i < axes.len() ==> {
                    let a = (#[trigger] axes[i]) as int;
                    ranges[a] == (
                        Dim::Known(cut_at(starts[i], sizes(x)[a]) as usize),
                        Dim::Known(cut_at(ends[i], sizes(x)[a]) as usize),
                    )
                }
            &&& forall|a: int|
                0 <= a < x.dims().len() && !axes.contains(a as usize) ==> #[trigger] ranges[a] == (
                    Dim::Known(0),
                    x.dims()[a],
                )
        }),
{
    let x = before.env[node.inp(0)];
    let dims = x.dims();
    let ranges = slice_ranges(node, before);
    let cuts = cuts_of(node, before);
    let starts = numbers_at(node, 1, before);
    let ends = numbers_at(node, 2, before);
    assert(cuts.starts =~= starts);
    assert(cuts.ends =~= ends);
    if node.has_input(3) {
        assert(cuts.axes =~= numbers_at(node, 3, before));
    } else {
        assert forall|i: int| 0 <= i < axes.len() implies (#[trigger] axes[i]) < dims.len() && (
        cuts.axes[i] == axes[i] || cuts.axes[i] == axes[i] - dims.len()) by {}
    }
    lemma_ranges(cuts, dims, axes, axes.len());
    lemma_cuts_done(node, before, axes, 0);
    assert forall|i: int| 0 <= i < axes.len() implies {
        let a = (#[trigger] axes[i]) as int;
        ranges[a] == (
            Dim::Known(cut_at(starts[i], sizes(x)[a]) as usize),
            Dim::Known(cut_at(ends[i], sizes(x)[a]) as usize),
        )
    } by {
        let a = axes[i] as int;
        assert(axes[i] < dims.len());
        assert(cuts.axis(dims.len(), i) == a);
        assert(cut_position(starts[i], sizes(x)[a] as int) == cut_at(starts[i], sizes(x)[a]));
        assert(cut_position(ends[i], sizes(x)[a] as int) == cut_at(ends[i], sizes(x)[a]));
    }
    assert forall|a: int|
        0 <= a < ranges.len() && (#[trigger] ranges[a]).0 is Known
            && ranges[a].1 is Known implies ranges[a].0->Known_0 <= ranges[a].1->Known_0 by {
        if axes.contains(a as usize) {
            let i = choose|i: int| 0 <= i < axes.len() && axes[i] == a as usize;
            assert(cut_at(starts[i], sizes(x)[axes[i] as int]) <= cut_at(
                ends[i],
                sizes(x)[axes[i] as int],
            ));
        } else {
            assert(ranges[a] == (Dim::Known(0), dims[a]));
        }
    }
}

/// A Slice node that cuts each of some axes from a start up to an end is done. Its
/// output has along each of them the size from the start to the end that are given for
/// it, and along the others that of the input; and it has at each index the number of
/// the input that lies behind it by the starts. If the elements of the input are known,
/// those of the output are known instead, and are found in the same places.
pub proof fn law_slice_node(
    m: Numbers,
    node: NodeDef,
    before: State,
    after: State,
    result: Outcome,
    axes: Seq<usize>,
    index: Seq<int>,
    from: Seq<int>,
)
    requires
        slice_step(node, before, after, result),
        cuts_axes(node, before, axes),
        comes_from(node, before, axes, index, from),
        before.known.contains_key(node.inp(0)) ==> bounded_product(
            sizes(before.env[node.inp(0)]),
        ) == Some(before.known[node.inp(0)].len() as usize) && before.known[node.inp(0)].len()
            <= usize::MAX,
    ensures
        result is Done,
        ({
            let x = before.env[node.inp(0)];
            let t = after.env[node.out(0)];
            let starts = numbers_at(node, 1, before);
            let ends = numbers_at(node, 2, before);
            &&& t.dims().len() == x.dims().len()
            &&& forall|i: int|
                0 <= i < axes.len() ==> {
                    let a = (#[trigger] axes[i]) as int;
                    t.dims()[a] == Dim::Known(
                        (cut_at(ends[i], sizes(x)[a]) - cut_at(starts[i], sizes(x)[a])) as usize,
                    )
                }
            &&& forall|a: int|
                0 <= a < x.dims().len() && !axes.contains(a as usize) ==> #[trigger] t.dims()[a]
                    == x.dims()[a]
            &&& if before.known.contains_key(node.inp(0)) {
                &&& after.known.contains_key(node.out(0))
                &&& after.known[node.out(0)].len() == product(sizes(t))
                &&& after.known[node.out(0)][position_at(sizes(t), index)]
                    == before.known[node.inp(0)][position_at(sizes(x), from)]
                &&& after.weights == before.weights.push(
                    (node.out(0), after.known[node.out(0)]),
                )
            } else {
                at(m, t, index) == at(m, x, from)
            }
        }),
{
    let x = before.env[node.inp(0)];
    let dims = x.dims();
    let ranges = slice_ranges(node, before);
    lemma_slice_ranges(node, before, axes);
    let starts = range_starts(ranges);
    let widths = range_widths(ranges);
    let t = after.env[node.out(0)];
    assert forall|a: int| 0 <= a < ranges.len() implies {
        &&& (#[trigger] ranges[a]).0 is Known
        &&& ranges[a].1 is Known
        &&& ranges[a].0->Known_0 + widths[a] == ranges[a].1->Known_0 <= sizes(x)[a]
        &&& 0 <= index[a] < widths[a]
        &&& from[a] == index[a] + ranges[a].0->Known_0
    } by {
        assert(dims[a] is Known);
        if axes.contains(a as usize) {
            let i = choose|i: int| 0 <= i < axes.len() && axes[i] == a as usize;
            assert(axes[i] as int == a);
        } else {
            assert(ranges[a] == (Dim::Known(0), dims[a]));
            assert(0 <= index[a] < sizes(x)[a]);
        }
    }
    assert(within(widths, index)) by {
        assert forall|a: int| 0 <= a < widths.len() implies 0 <= #[trigger] index[a]
            < widths[a] by {
            assert(ranges[a].0 is Known);
        }
    }
    assert(from =~= Seq::new(ranges.len(), |a: int| index[a] + ranges[a].0->Known_0));
    if before.known.contains_key(node.inp(0)) {
        lemma_position_within(widths, index);
        lemma_bounded_product(sizes(x));
        lemma_cut_source(sizes(x), starts, widths, index);
        assert(from =~= Seq::new(sizes(x).len(), |a: int| index[a] + starts[a]));
        let cut = sliced_values(node, before);
        assert(cut.len() == product(widths));
        assert(sizes(t) =~= widths);
        assert forall|a: int| 0 <= a < ranges.len() implies t.dims()[a] == range_size(
            #[trigger] ranges[a],
        ) by {
            assert(ranges[a].0 is Known);
        }
    } else {
        lemma_slice(m, x, ranges, index);
    }
    assert forall|i: int| 0 <= i < axes.len() implies {
        let a = (#[trigger] axes[i]) as int;
        t.dims()[a] == Dim::Known(
            (cut_at(numbers_at(node, 2, before)[i], sizes(x)[a]) - cut_at(
                numbers_at(node, 1, before)[i],
                sizes(x)[a],
            )) as usize,
        )
    } by {
        assert(axes[i] < dims.len());
        assert(ranges[axes[i] as int].0 is Known);
    }
    assert forall|a: int| 0 <= a < dims.len() && !axes.contains(a as usize) implies
        #[trigger] t.dims()[a] == dims[a] by {
        assert(ranges[a] == (Dim::Known(0), dims[a]));
        assert(dims[a] is Known);
    }
}

/// Whether `parts` are the sizes of the parts that a Split node makes of an axis: those
/// that are known of its second input, or else so many as there are outputs, or as the
/// attribute says, all as long as the axis divided by their number, rounded up, but
/// for the last ones, which get what is left.
pub open spec fn makes_parts(node: NodeDef, before: State, size: usize, parts: Seq<usize>) -> bool {
    if node.has_input(1) {
        &&& before.known.contains_key(node.inp(1))
        &&& parts == Seq::new(
            before.known[node.inp(1)].len(),
            |i: int| as_usize(before.known[node.inp(1)][i]),
        )
    } else {
        let count = node.int_attr("num_outputs"@, node.output@.len() as i64);
        let each = (size + count - 1) / count as int;
        &&& 0 < count <= usize::MAX
        &&& parts.len() == count
        &&& forall|i: int|
            0 <= i < count ==> #[trigger] parts[i] == if size - i * each >= each {
                each
            } else if size - i * each > 0 {
                size - i * each
            } else {
                0
            }
    }
}

/// The parts are those that the node makes.
pub proof fn lemma_makes_parts(node: NodeDef, before: State, size: usize, parts: Seq<usize>)
    requires
        makes_parts(node, before, size, parts),
        before.env[node.inp(0)].dims()[split_axis(node, before)] == Dim::Known(size),
    ensures
        split_sizes(node, before) == parts,
{
    if node.has_input(1) {
        assert(split_sizes(node, before) =~= parts);
    } else {
        let count = node.int_attr("num_outputs"@, node.output@.len() as i64) as int;
        let each = (size + count - 1) / count;
        let found = even_sizes(size, count as usize);
        assert(0 <= each) by (nonlinear_arith)
            requires
                each == (size + count - 1) / count,
                count > 0,
                size >= 0,
        ;
        assert(chunk(size, count as usize) == each);
        assert forall|i: int| 0 <= i < count implies found[i] == parts[i] by {
            let s = size as int;
            assert((i + 1) * each == i * each + each) by (nonlinear_arith);
            assert(0 <= i * each) by (nonlinear_arith)
                requires
                    i >= 0,
                    each >= 0,
            ;
            assert(parts[i] == if s - i * each >= each {
                each
            } else if s - i * each > 0 {
                s - i * each
            } else {
                0
            });
        }
        assert(found =~= parts);
    }
}

proof fn lemma_can_split_known(node: NodeDef, before: State, parts: Seq<usize>, n: nat)
    requires
        n <= parts.len(),
        before.env[node.inp(0)].dims().len() == 1,
        before.known.contains_key(node.inp(0)) ==> sum_of(parts, parts.len())
            <= before.known[node.inp(0)].len(),
        forall|j: int| 0 <= j < parts.len() ==> #[trigger] node.out(j) != node.inp(0),
    ensures
        can_split_known(node, before, parts, n),
        split_known(node, before, parts, n).contains_key(node.inp(0)) == before.known.contains_key(
            node.inp(0),
        ),
        before.known.contains_key(node.inp(0)) ==> split_known(node, before, parts, n)[node.inp(0)]
            == before.known[node.inp(0)],
    decreases n,
{
    if n > 0 {
        lemma_can_split_known(node, before, parts, (n - 1) as nat);
        lemma_sum_grows(parts, n, parts.len());
        assert(node.out(n - 1) != node.inp(0));
    }
}

proof fn lemma_not_split_known(node: NodeDef, before: State, parts: Seq<usize>, n: nat)
    requires
        before.env[node.inp(0)].dims().len() != 1,
    ensures
        can_split_known(node, before, parts, n),
    decreases n,
{
    if n > 0 {
        lemma_not_split_known(node, before, parts, (n - 1) as nat);
    }
}

proof fn lemma_part_known(node: NodeDef, before: State, parts: Seq<usize>, n: nat, i: int)
    requires
        0 <= i < n <= parts.len(),
        before.env[node.inp(0)].dims().len() == 1,
        before.known.contains_key(node.inp(0)),
        sum_of(parts, parts.len()) <= before.known[node.inp(0)].len(),
        forall|j: int| 0 <= j < parts.len() ==> #[trigger] node.out(j) != node.inp(0),
        forall|j: int, k: int|
            0 <= j < k < parts.len() ==> #[trigger] node.out(j) != #[trigger] node.out(k),
    ensures
        split_known(node, before, parts, n).contains_key(node.out(i)),
        split_known(node, before, parts, n)[node.out(i)] == before.known[node.inp(0)].subrange(
            sum_of(parts, i as nat) as int,
            sum_of(parts, (i + 1) as nat) as int,
        ),
    decreases n,
{
    lemma_can_split_known(node, before, parts, (n - 1) as nat);
    if i < n - 1 {
        lemma_part_known(node, before, parts, (n - 1) as nat, i);
        assert(node.out(i) != node.out(n - 1));
    }
}

/// How much of an axis the first `n` parts take.
pub open spec fn taken_by(parts: Seq<usize>, n: nat) -> nat
    decreases n,
{
    if n == 0 {
        0
    } else {
        parts[n - 1] as nat + taken_by(parts, (n - 1) as nat)
    }
}

/// The parts take what their sizes add up to.
pub proof fn lemma_taken_by(parts: Seq<usize>, n: nat)
    ensures
        taken_by(parts, n) == sum_of(parts, n),
    decreases n,
{
    if n > 0 {
        lemma_taken_by(parts, (n - 1) as nat);
    }
}

/// A Split node whose parts make up the axis is done. Each output has the size of its
/// part along the axis, and has at each index the number of the input that lies behind
/// it by the sizes of the parts before. If the input is a vector whose elements are
/// known, those of the parts are known, too.
pub proof fn law_split_node(
    m: Numbers,
    node: NodeDef,
    before: State,
    after: State,
    result: Outcome,
    axis: int,
    parts: Seq<usize>,
    i: int,
    index: Seq<int>,
)
    requires
        split_step(node, before, after, result),
        node.input@.len() > 0,
        before.env.contains_key(node.inp(0)),
        is_sound(before.env[node.inp(0)].shape),
        all_known(before.env[node.inp(0)].dims()),
        ({
            let x = before.env[node.inp(0)];
            let rank = x.dims().len();
            let given = node.int_attr("axis"@, 0);
            let size = sizes(x)[axis];
            &&& 0 <= axis < rank
            &&& given == axis || given == axis - rank
            &&& size <= i32::MAX
            &&& makes_parts(node, before, size, parts)
            &&& taken_by(parts, parts.len()) == size
            &&& index.len() == rank
            &&& 0 <= i < parts.len()
            &&& 0 <= index[axis] < parts[i]
            &&& forall|a: int|
                0 <= a < rank && a != axis ==> 0 <= #[trigger] index[a] < sizes(x)[a]
            &&& rank == 1 && before.known.contains_key(node.inp(0))
                ==> before.known[node.inp(0)].len() == size
        }),
        parts.len() <= node.output@.len(),
        forall|j: int| 0 <= j < parts.len() ==> #[trigger] node.out(j) != node.inp(0),
        forall|j: int, k: int|
            0 <= j < k < parts.len() ==> #[trigger] node.out(j) != #[trigger] node.out(k),
    ensures
        result is Done,
        ({
            let x = before.env[node.inp(0)];
            let t = after.env[node.out(i)];
            let offset = taken_by(parts, i as nat);
            &&& t.dims() == x.dims().update(axis, Dim::Known(parts[i]))
            &&& at(m, t, index) == at(m, x, index.update(axis, index[axis] + offset))
            &&& x.dims().len() == 1 && before.known.contains_key(node.inp(0)) ==> {
                &&& after.known.contains_key(node.out(i))
                &&& after.known[node.out(i)].len() == parts[i]
                &&& after.known[node.out(i)][index[axis]]
                    == before.known[node.inp(0)][index[axis] + offset]
            }
        }),
{
    let x = before.env[node.inp(0)];
    let dims = x.dims();
    let size = sizes(x)[axis];
    assert(dims[axis] is Known);
    lemma_makes_parts(node, before, size, parts);
    lemma_taken_by(parts, parts.len());
    lemma_taken_by(parts, i as nat);
    if dims.len() == 1 {
        lemma_can_split_known(node, before, parts, parts.len());
        if before.known.contains_key(node.inp(0)) {
            lemma_part_known(node, before, parts, parts.len(), i);
        }
    } else {
        lemma_not_split_known(node, before, parts, parts.len());
    }
    assert(!node.has_input(1) ==> 0 < parts.len());
    assert(result is Done);
    lemma_split_tensors(node, before, axis, parts, parts.len(), i);
    lemma_sum_grows(parts, (i + 1) as nat, parts.len());
    lemma_sum_grows(parts, i as nat, (i + 1) as nat);
    let offset = sum_of(parts, i as nat) as int;
    assert(sum_of(parts, (i + 1) as nat) == offset + parts[i]);
    let ranges = split_ranges(dims, axis, parts, i);
    assert forall|a: int| 0 <= a < ranges.len() implies {
        &&& (#[trigger] ranges[a]).0 is Known
        &&& ranges[a].1 is Known
        &&& 0 <= index[a] < ranges[a].1->Known_0 - ranges[a].0->Known_0
    } by {
        assert(dims[a] is Known);
        if a != axis {
            assert(0 <= index[a] < sizes(x)[a]);
        }
    }
    lemma_slice(m, x, ranges, index);
    assert(Seq::new(ranges.len(), |a: int| index[a] + ranges[a].0->Known_0) =~= index.update(
        axis,
        index[axis] + offset,
    ));
    let t = after.env[node.out(i)];
    assert(t.dims() =~= dims.update(axis, Dim::Known(parts[i]))) by {
        assert forall|a: int| 0 <= a < dims.len() implies t.dims()[a] == dims.update(
            axis,
            Dim::Known(parts[i]),
        )[a] by {
            assert(dims[a] is Known);
        }
    }
}

/// The sum of the sizes of the first `n` inputs along an axis.
pub open spec fn length_of(node: NodeDef, before: State, axis: int, n: nat) -> nat
    decreases n,
{
    if n == 0 {
        0
    } else {
        length_of(node, before, axis, (n - 1) as nat) + sizes(
            before.env[node.inp(n - 1)],
        )[axis] as nat
    }
}

/// Whether the inputs of a Concat node can be put one after the other along an axis:
/// their sizes are the same along the other ones.
pub open spec fn can_follow(node: NodeDef, before: State, axis: int) -> bool {
    let rank = before.env[node.inp(0)].dims().len();
    let given = node.int_attr("axis"@, 0);
    &&& node.input@.len() > 0
    &&& node.output@.len() > 0
    &&& 0 <= axis < rank <= usize::MAX
    &&& given == axis || given == axis - rank
    &&& length_of(node, before, axis, node.input@.len()) <= usize::MAX
    &&& forall|j: int|
        0 <= j < node.input@.len() ==> {
            let t = before.env[#[trigger] node.inp(j)];
            &&& before.env.contains_key(node.inp(j))
            &&& t.dims().len() == rank
            &&& all_known(t.dims())
            &&& forall|a: int|
                0 <= a < rank && a != axis ==> #[trigger] t.dims()[a]
                    == before.env[node.inp(0)].dims()[a]
        }
}

/// The sizes of the first `n` inputs one after the other.
pub open spec fn sizes_together(node: NodeDef, before: State, axis: int, n: nat) -> Seq<usize> {
    sizes(before.env[node.inp(0)]).update(axis, length_of(node, before, axis, n) as usize)
}

proof fn lemma_length_grows(node: NodeDef, before: State, axis: int, n: nat, more: nat)
    requires
        n <= more,
    ensures
        length_of(node, before, axis, n) <= length_of(node, before, axis, more),
    decreases more,
{
    if n < more {
        lemma_length_grows(node, before, axis, n, (more - 1) as nat);
    }
}

/// The first inputs one after the other.
proof fn lemma_chained(node: NodeDef, before: State, axis: int, n: nat)
    requires
        can_follow(node, before, axis),
        1 <= n <= node.input@.len(),
    ensures
        chain_outcome(node, before, axis, n) is Done,
        all_known(chained(node, before, axis, n).dims()),
        sizes(chained(node, before, axis, n)) == sizes_together(node, before, axis, n),
    decreases n,
{
    let x = before.env[node.inp(0)];
    assert(before.env.contains_key(node.inp(0)));
    assert(before.env.contains_key(node.inp(n - 1)));
    if n == 1 {
        assert(chain_outcome(node, before, axis, 0) is Done);
        assert(length_of(node, before, axis, 1) == length_of(node, before, axis, 0) + sizes(
            x,
        )[axis]);
        assert(sizes(x) =~= sizes_together(node, before, axis, 1));
    } else {
        let m = (n - 1) as nat;
        lemma_chained(node, before, axis, m);
        let so_far = chained(node, before, axis, m);
        let next = before.env[node.inp(n - 1)];
        lemma_length_grows(node, before, axis, n, node.input@.len());
        assert(so_far.dims() =~= known_dims(sizes(so_far))) by {
            assert forall|a: int| 0 <= a < so_far.dims().len() implies so_far.dims()[a]
                == known_dims(sizes(so_far))[a] by {
                assert(so_far.dims()[a] is Known);
            }
        }
        assert(next.dims()[axis] is Known);
        assert forall|a: int| 0 <= a < so_far.dims().len() && a != axis implies
            #[trigger] so_far.dims()[a] == next.dims()[a] by {
            assert(x.dims()[a] is Known);
            assert(next.dims()[a] == x.dims()[a]);
        }
        assert(so_far.dims().len() == next.dims().len());
        assert(can_concat(so_far.dims(), next.dims(), axis));
        let both = so_far.concat(next, axis as usize);
        assert(sizes(both) =~= sizes_together(node, before, axis, n));
        assert forall|a: int| 0 <= a < both.dims().len() implies (
        #[trigger] both.dims()[a]) is Known by {
            assert(so_far.dims()[a] is Known);
        }
    }
}

/// The numbers of the first inputs one after the other.
proof fn lemma_chained_at(
    m: Numbers,
    node: NodeDef,
    before: State,
    axis: int,
    n: nat,
    j: int,
    index: Seq<int>,
)
    requires
        can_follow(node, before, axis),
        0 <= j < n <= node.input@.len(),
        within(sizes_together(node, before, axis, n), index),
        length_of(node, before, axis, j as nat) <= index[axis] < length_of(
            node,
            before,
            axis,
            (j + 1) as nat,
        ),
    ensures
        at(m, chained(node, before, axis, n), index) == at(
            m,
            before.env[node.inp(j)],
            index.update(axis, index[axis] - length_of(node, before, axis, j as nat)),
        ),
    decreases n,
{
    if n == 1 {
        assert(index.update(axis, index[axis] - 0) =~= index);
    } else {
        let k = (n - 1) as nat;
        lemma_chained(node, before, axis, k);
        lemma_chained(node, before, axis, n);
        lemma_length_grows(node, before, axis, n, node.input@.len());
        lemma_length_grows(node, before, axis, (j + 1) as nat, n);
        let so_far = chained(node, before, axis, k);
        let next = before.env[node.inp(n - 1)];
        assert(before.env.contains_key(node.inp(n - 1)));
        assert(next.dims()[axis] is Known);
        assert(sizes(so_far).update(
            axis,
            (sizes(so_far)[axis] + sizes(next)[axis]) as usize,
        ) =~= sizes_together(node, before, axis, n));
        lemma_concat(m, so_far, next, axis as usize, index);
        if j < n - 1 {
            lemma_length_grows(node, before, axis, (j + 1) as nat, k);
            assert(within(sizes_together(node, before, axis, k), index)) by {
                let s = sizes_together(node, before, axis, k);
                assert forall|a: int| 0 <= a < s.len() implies 0 <= #[trigger] index[a] < s[a] by {
                    assert(0 <= index[a] < sizes_together(node, before, axis, n)[a]);
                }
            }
            lemma_chained_at(m, node, before, axis, k, j, index);
        }
    }
}

/// A Concat node of inputs whose elements are not all known is done. Its output has
/// along the axis the sum of their sizes, and has at each index the number of the input
/// in whose part the index lies, behind those of the inputs before it.
pub proof fn law_concat_node(
    m: Numbers,
    node: NodeDef,
    before: State,
    after: State,
    result: Outcome,
    axis: int,
    j: int,
    index: Seq<int>,
)
    requires
        concat_step(node, before, after, result),
        can_follow(node, before, axis),
        !inputs_known(node, before),
        0 <= j < node.input@.len(),
        within(sizes_together(node, before, axis, node.input@.len()), index),
        length_of(node, before, axis, j as nat) <= index[axis] < length_of(
            node,
            before,
            axis,
            (j + 1) as nat,
        ),
    ensures
        result is Done,
        after.env[node.out(0)].dims() == known_dims(
            sizes_together(node, before, axis, node.input@.len()),
        ),
        at(m, after.env[node.out(0)], index) == at(
            m,
            before.env[node.inp(j)],
            index.update(axis, index[axis] - length_of(node, before, axis, j as nat)),
        ),
{
    let n = node.input@.len();
    lemma_chained(node, before, axis, n);
    lemma_chained_at(m, node, before, axis, n, j, index);
    let t = after.env[node.out(0)];
    assert(t.dims() =~= known_dims(sizes(t))) by {
        assert forall|a: int| 0 <= a < t.dims().len() implies t.dims()[a] == known_dims(
            sizes(t),
        )[a] by {
            assert(t.dims()[a] is Known);
        }
    }
}

/// Lists one after the other along an axis.
proof fn lemma_joined_along(
    a: Seq<u32>,
    sa: Seq<usize>,
    b: Seq<u32>,
    sb: Seq<usize>,
    axis: int,
    index: Seq<int>,
)
    requires
        0 <= axis < sa.len(),
        sa.len() == sb.len(),
        forall|i: int| 0 <= i < sa.len() && i != axis ==> sa[i] == sb[i],
        sa[axis] + sb[axis] <= usize::MAX,
        within(joined_sizes(sa, sb, axis), index),
    ensures
        joined_along(a, sa, b, sb, axis)[position_at(joined_sizes(sa, sb, axis), index)]
            == if index[axis] < sa[axis] {
            a[position_at(sa, index)]
        } else {
            b[position_at(sb, index.update(axis, index[axis] - sa[axis]))]
        },
{
    let rank = sa.len() as int;
    let both = joined_sizes(sa, sb, axis);
    let head = sa.subrange(0, axis);
    let tail = sa.subrange(axis + 1, rank);
    let ia = index.subrange(0, axis);
    let ib = index.subrange(axis + 1, rank);
    let k = index[axis];
    let inner = product(tail) as int;
    let x = sa[axis] as int;
    let y = sb[axis] as int;
    lemma_position_within(both, index);
    assert(0 <= k < both[axis]);
    assert(within(tail, ib)) by {
        assert forall|i: int| 0 <= i < tail.len() implies 0 <= #[trigger] ib[i] < tail[i] by {
            assert(0 <= index[i + axis + 1] < both[i + axis + 1]);
        }
    }
    lemma_position_within(tail, ib);
    let pa = position_at(head, ia);
    let pb = position_at(tail, ib);
    lemma_parted_position(both, axis, index);
    lemma_parted_position(sa, axis, index);
    let moved = index.update(axis, k - x);
    lemma_parted_position(sb, axis, moved);
    assert(both.subrange(0, axis) =~= head && both.subrange(axis + 1, rank) =~= tail);
    assert(sb.subrange(0, axis) =~= head && sb.subrange(axis + 1, rank) =~= tail);
    assert(moved.subrange(0, axis) =~= ia && moved.subrange(axis + 1, rank) =~= ib);
    let w = x + y;
    let p = position_at(both, index);
    assert(p == (pa * w + k) * inner + pb);
    let each = w * inner;
    let rest = k * inner + pb;
    assert(p == pa * each + rest && 0 <= rest < each && x * inner + y * inner == each)
        by (nonlinear_arith)
        requires
            p == (pa * w + k) * inner + pb,
            each == w * inner,
            w == x + y,
            rest == k * inner + pb,
            0 <= k < w,
            0 <= pb < inner,
    ;
    lemma_fundamental_div_mod_converse(p, each, pa, rest);
    if k < x {
        assert(rest < x * inner && pa * (x * inner) + rest == (pa * x + k) * inner + pb)
            by (nonlinear_arith)
            requires
                rest == k * inner + pb,
                0 <= k < x,
                0 <= pb < inner,
        ;
    } else {
        assert(rest >= x * inner && pa * (y * inner) + (rest - x * inner) == (pa * y + (k - x))
            * inner + pb) by (nonlinear_arith)
            requires
                rest == k * inner + pb,
                k >= x,
                0 <= pb < inner,
        ;
    }
}

/// The position of an index, parted at an axis.
proof fn lemma_parted_position(lengths: Seq<usize>, axis: int, index: Seq<int>)
    requires
        0 <= axis < lengths.len(),
        index.len() == lengths.len(),
    ensures
        ({
            let tail = lengths.subrange(axis + 1, lengths.len() as int);
            position_at(lengths, index) == (position_at(
                lengths.subrange(0, axis),
                index.subrange(0, axis),
            ) * lengths[axis] + index[axis]) * product(tail) + position_at(
                tail,
                index.subrange(axis + 1, lengths.len() as int),
            )
        }),
{
    let rank = lengths.len() as int;
    let head = lengths.subrange(0, axis + 1);
    let tail = lengths.subrange(axis + 1, rank);
    let i = index.subrange(0, axis + 1);
    let j = index.subrange(axis + 1, rank);
    assert(head + tail =~= lengths);
    assert(i + j =~= index);
    lemma_position_of_both(head, tail, i, j);
    assert(head.drop_last() =~= lengths.subrange(0, axis));
    assert(i.drop_last() =~= index.subrange(0, axis));
}

/// Whether all inputs of a Concat node have as many known elements as their sizes say,
/// and all of them together are representable.
pub open spec fn all_whole(node: NodeDef, before: State, axis: int) -> bool {
    let n = node.input@.len();
    &&& bounded_product(sizes_together(node, before, axis, n)) is Some
    &&& forall|j: int|
        0 <= j < n ==> {
            &&& before.known.contains_key(#[trigger] node.inp(j))
            &&& before.known[node.inp(j)].len() <= usize::MAX
            &&& bounded_product(sizes(before.env[node.inp(j)])) == Some(
                before.known[node.inp(j)].len() as usize,
            )
        }
}

proof fn lemma_chained_values(node: NodeDef, before: State, axis: int, n: nat)
    requires
        can_follow(node, before, axis),
        all_whole(node, before, axis),
        1 <= n <= node.input@.len(),
    ensures
        can_join(node, before, axis, n),
        chained_values(node, before, axis, n).len() == product(
            sizes_together(node, before, axis, n),
        ),
    decreases n,
{
    let last = before.env[node.inp(n - 1)];
    assert(before.env.contains_key(node.inp(n - 1)));
    assert(before.known.contains_key(node.inp(n - 1)));
    assert(is_whole(node, before, n - 1));
    lemma_chained(node, before, axis, n);
    if n == 1 {
        lemma_bounded_product(sizes(last));
        assert(length_of(node, before, axis, 1) == length_of(node, before, axis, 0) + sizes(
            last,
        )[axis]);
        assert(sizes(last) =~= sizes_together(node, before, axis, 1));
    } else {
        let k = (n - 1) as nat;
        lemma_chained_values(node, before, axis, k);
        lemma_chained(node, before, axis, k);
        let all = node.input@.len();
        lemma_length_grows(node, before, axis, n, all);
        let s = sizes_together(node, before, axis, n);
        let whole = sizes_together(node, before, axis, all);
        assert forall|i: int| 0 <= i < whole.len() implies #[trigger] s[i] <= whole[i] by {}
        lemma_part_is_smaller(whole, s);
        assert(joined_sizes(sizes_together(node, before, axis, k), sizes(last), axis) =~= s);
    }
}

proof fn lemma_chained_known(
    node: NodeDef,
    before: State,
    axis: int,
    n: nat,
    j: int,
    index: Seq<int>,
)
    requires
        can_follow(node, before, axis),
        all_whole(node, before, axis),
        0 <= j < n <= node.input@.len(),
        within(sizes_together(node, before, axis, n), index),
        length_of(node, before, axis, j as nat) <= index[axis] < length_of(
            node,
            before,
            axis,
            (j + 1) as nat,
        ),
    ensures
        chained_values(node, before, axis, n)[position_at(
            sizes_together(node, before, axis, n),
            index,
        )] == before.known[node.inp(j)][position_at(
            sizes(before.env[node.inp(j)]),
            index.update(axis, index[axis] - length_of(node, before, axis, j as nat)),
        )],
    decreases n,
{
    let x = before.env[node.inp(0)];
    if n == 1 {
        assert(index.update(axis, index[axis] - 0) =~= index);
        assert(length_of(node, before, axis, 1) == length_of(node, before, axis, 0) + sizes(
            x,
        )[axis]);
        assert(sizes(x) =~= sizes_together(node, before, axis, 1));
    } else {
        let k = (n - 1) as nat;
        lemma_chained(node, before, axis, k);
        lemma_length_grows(node, before, axis, n, node.input@.len());
        let last = before.env[node.inp(n - 1)];
        assert(before.env.contains_key(node.inp(n - 1)));
        let sa = sizes_together(node, before, axis, k);
        let sb = sizes(last);
        assert(joined_sizes(sa, sb, axis) =~= sizes_together(node, before, axis, n));
        assert forall|i: int| 0 <= i < sa.len() && i != axis implies sa[i] == sb[i] by {
            assert(last.dims()[i] == x.dims()[i]);
        }
        lemma_joined_along(
            chained_values(node, before, axis, k),
            sa,
            before.known[node.inp(n - 1)],
            sb,
            axis,
            index,
        );
        if j < n - 1 {
            lemma_length_grows(node, before, axis, (j + 1) as nat, k);
            assert(within(sa, index)) by {
                assert forall|a: int| 0 <= a < sa.len() implies 0 <= #[trigger] index[a]
                    < sa[a] by {
                    assert(0 <= index[a] < sizes_together(node, before, axis, n)[a]);
                }
            }
            lemma_chained_known(node, before, axis, k, j, index);
        }
    }
}

/// A Concat node of inputs whose elements are all known is done. The elements of its
/// output are known, and each is that of the input in whose part its index lies.
pub proof fn law_known_concat_node(
    node: NodeDef,
    before: State,
    after: State,
    result: Outcome,
    axis: int,
    j: int,
    index: Seq<int>,
)
    requires
        concat_step(node, before, after, result),
        can_follow(node, before, axis),
        all_whole(node, before, axis),
        0 <= j < node.input@.len(),
        within(sizes_together(node, before, axis, node.input@.len()), index),
        length_of(node, before, axis, j as nat) <= index[axis] < length_of(
            node,
            before,
            axis,
            (j + 1) as nat,
        ),
    ensures
        result is Done,
        ({
            let together = sizes_together(node, before, axis, node.input@.len());
            let out = node.out(0);
            &&& after.env[out].dims() == known_dims(together)
            &&& after.known[out].len() == product(together)
            &&& after.known[out][position_at(together, index)]
                == before.known[node.inp(j)][position_at(
                sizes(before.env[node.inp(j)]),
                index.update(axis, index[axis] - length_of(node, before, axis, j as nat)),
            )]
            &&& after.weights == before.weights.push((out, after.known[out]))
        }),
{
    let n = node.input@.len();
    lemma_chained(node, before, axis, n);
    lemma_chained_values(node, before, axis, n);
    lemma_position_within(sizes_together(node, before, axis, n), index);
    lemma_chained_known(node, before, axis, n, j, index);
    assert(before.env.contains_key(node.inp(0)));
    assert(concat_axis(node, before) == axis);
    assert(concat_folds(node, before));
}

} // verus!

//! The graph of a model as a graph of `luminal`.
//!
//! Each node becomes one operator of `luminal`. Operators that only run over the
//! stored elements get them in order, by means of a `Contiguous` operator before
//! them. What `luminal` has no operator for becomes a `Function`, which is given
//! its name here, and what it computes where the graph is run.

use crate::bits::from_bool;
#[allow(unused_imports)]
use crate::bits::indicator;
use crate::graph::{Binary, ComputeGraph, DType, GraphTensor, Node, Op, Reduction, Unary};
#[allow(unused_imports)]
use crate::graph::{Handle, Operation};
use crate::names::{join, size_to_decimal, to_decimal};
#[allow(unused_imports)]
use crate::names::decimal;
use crate::shape::{copy_dims, Dim, Tracker};
#[allow(unused_imports)]
use crate::shape::{is_permutation, row_major, Shape};
use luminal::op;
use luminal::graph::NodeIndex;
use vstd::pervasive::unreached;
use vstd::prelude::*;

verus! {

/// Operators of `luminal` with one input.
#[derive(Clone, Copy, PartialEq, Eq, Debug, Structural)]
pub enum Single {
    Contiguous,
    Sqrt,
    Exp2,
    Sin,
    Recip,
    SumReduce(usize),
    MaxReduce(usize),
}

/// Operators of `luminal` with two inputs.
#[derive(Clone, Copy, PartialEq, Eq, Debug, Structural)]
pub enum Double {
    Add,
    Mul,
    Mod,
    LessThan,
}

/// What a node of a graph of `luminal` computes.
#[verifier::ext_equal]
pub enum Kernel {
    One(Single),
    Two(Double),
    /// A function of this name.
    Function(Seq<char>),
}

/// The way in which a tracker of `luminal` reads stored elements: the sizes of
/// the stored axes and of the repeated ones, the axis of these that each axis
/// is, and which are repeated.
#[verifier::ext_equal]
pub struct Layout {
    pub dims: Seq<usize>,
    pub indexes: Seq<usize>,
    pub fake: Seq<bool>,
    /// For each axis, where the part that is read starts and ends.
    pub slices: Seq<(usize, usize)>,
    /// For each axis, how many zeros are read before and behind it.
    pub padding: Seq<(usize, usize)>,
}

/// A node of a graph of `luminal`: what it computes, and from what.
#[verifier::ext_equal]
pub struct Lowered {
    pub kernel: Kernel,
    pub inputs: Seq<(nat, Layout)>,
}

#[verifier::external_type_specification]
#[verifier::external_body]
pub struct ExGraph(luminal::graph::Graph);

#[verifier::external_type_specification]
#[verifier::external_body]
pub struct ExTracker(luminal::shape::ShapeTracker);

/// The dimensions, indexes and marks of repeated axes that a tracker holds, and
/// its slices and padding in the order of the axes.
pub uninterp spec fn layout_of(tracker: luminal::shape::ShapeTracker) -> Layout;

/// The nodes that a graph of `luminal` holds, by their index.
pub uninterp spec fn contents(graph: luminal::graph::Graph) -> Map<nat, Lowered>;

/// The greatest size that an expression of `luminal` holds, a 32-bit number.
pub const MAX_SIZE: usize = 0x7fff_ffff;

/// The greatest number of axes of a tracker.
pub const MAX_RANK: usize = 6;

/// Whether a graph has `count` nodes at most, each with few inputs.
pub open spec fn is_small(nodes: Map<nat, Lowered>, count: nat) -> bool {
    &&& nodes.dom().finite()
    &&& nodes.dom().len() <= count
    &&& forall|id: nat| #[trigger]
        nodes.contains_key(id) ==> id < 0x1_0000_0000 && nodes[id].inputs.len() <= 3
}

/// Whether a graph can take another node: it has fewer nodes than its indexes
/// can name by far, and each has few inputs.
pub open spec fn has_room(nodes: Map<nat, Lowered>) -> bool {
    is_small(nodes, 0x1000_0000)
}

/// The contents of a graph without nodes.
pub open spec fn no_nodes() -> Map<nat, Lowered> {
    Map::empty()
}

/// Calls `Graph::new` of `luminal`: a graph without nodes.
#[verifier::external_body]
fn new_graph() -> (created: luminal::graph::Graph)
    ensures
        contents(created) == no_nodes(),
{
    luminal::graph::Graph::new()
}

/// Every axis is read as a whole: the end is the greatest size.
pub open spec fn whole(rank: nat) -> Seq<(usize, usize)> {
    Seq::new(rank, |i: int| (0usize, MAX_SIZE))
}

/// No zeros are read before or behind any axis.
pub open spec fn unpadded(rank: nat) -> Seq<(usize, usize)> {
    Seq::new(rank, |i: int| (0usize, 0usize))
}

/// Calls `ShapeTracker::new` of `luminal`, which takes at most six dimensions,
/// and sets the public fields of the tracker that say which stored axis each
/// axis is and which are repeated. The tracker reads each axis as a whole,
/// without zeros around it.
#[verifier::external_body]
fn new_tracker(dims: &Vec<usize>, indexes: &Vec<usize>, fake: &Vec<bool>) -> (tracker:
    luminal::shape::ShapeTracker)
    requires
        dims@.len() <= MAX_RANK,
        indexes@.len() == dims@.len(),
        fake@.len() == dims@.len(),
        is_permutation(indexes@, dims@.len()),
        forall|i: int| 0 <= i < dims@.len() ==> #[trigger] dims@[i] <= MAX_SIZE,
    ensures
        layout_of(tracker) == (Layout {
            dims: dims@,
            indexes: indexes@,
            fake: fake@,
            slices: whole(dims@.len()),
            padding: unpadded(dims@.len()),
        }),
{
    let dims: Vec<_> = dims.iter().map(|size| (*size).into()).collect();
    let mut tracker = luminal::shape::ShapeTracker::new(&dims);
    tracker.indexes.copy_from_slice(indexes);
    tracker.fake.copy_from_slice(fake);
    tracker
}

/// Calls `ShapeTracker::slice` of `luminal`, which takes the greater start and
/// the smaller end of each axis, on a tracker that reads each axis as a whole.
#[verifier::external_body]
fn slice_tracker(tracker: luminal::shape::ShapeTracker, parts: &Vec<(usize, usize)>) -> (sliced:
    luminal::shape::ShapeTracker)
    requires
        parts@.len() == layout_of(tracker).dims.len(),
        is_permutation(layout_of(tracker).indexes, parts@.len()),
        layout_of(tracker).slices == whole(parts@.len()),
        forall|i: int|
            0 <= i < parts@.len() ==> #[trigger] parts@[i].0 <= MAX_SIZE && parts@[i].1 <= MAX_SIZE,
    ensures
        layout_of(sliced) == (Layout { slices: parts@, ..layout_of(tracker) }),
{
    let mut sliced = tracker;
    let parts: Vec<_> = parts.iter().map(|part| (part.0.into(), part.1.into())).collect();
    sliced.slice(&parts);
    sliced
}

/// Calls `ShapeTracker::pad` of `luminal`, which adds to the zeros before and
/// behind each axis, on a tracker that reads each axis as a whole, without zeros
/// around it.
#[verifier::external_body]
fn pad_tracker(tracker: luminal::shape::ShapeTracker, zeros: &Vec<(usize, usize)>) -> (padded:
    luminal::shape::ShapeTracker)
    requires
        zeros@.len() == layout_of(tracker).dims.len(),
        is_permutation(layout_of(tracker).indexes, zeros@.len()),
        layout_of(tracker).slices == whole(zeros@.len()),
        layout_of(tracker).padding == unpadded(zeros@.len()),
        forall|i: int|
            0 <= i < zeros@.len() ==> #[trigger] zeros@[i].0 <= MAX_SIZE && zeros@[i].1 <= MAX_SIZE,
    ensures
        layout_of(padded) == (Layout { padding: zeros@, ..layout_of(tracker) }),
{
    let mut padded = tracker;
    let zeros: Vec<_> = zeros.iter().map(|zero| (zero.0.into(), zero.1.into())).collect();
    padded.pad(&zeros);
    padded
}

/// Calls `Graph::add_op` of `luminal` with an operator of one input, and then
/// `input` and `finish` on what comes back: the graph has a new node, with an
/// index that it did not have.
#[verifier::external_body]
fn add_single(
    graph: &mut luminal::graph::Graph,
    kernel: Single,
    from: usize,
    tracker: luminal::shape::ShapeTracker,
) -> (id: usize)
    requires
        has_room(contents(*old(graph))),
        contents(*old(graph)).contains_key(from as nat),
    ensures
        !contents(*old(graph)).contains_key(id as nat),
        id < 0x1_0000_0000,
        contents(*final(graph)) == contents(*old(graph)).insert(
            id as nat,
            (Lowered { kernel: Kernel::One(kernel), inputs: seq![(from as nat, layout_of(tracker))] }),
        ),
{
    let new = match kernel {
        Single::Contiguous => graph.add_op(op::Contiguous),
        Single::Sqrt => graph.add_op(op::Sqrt),
        Single::Exp2 => graph.add_op(op::Exp2),
        Single::Sin => graph.add_op(op::Sin),
        Single::Recip => graph.add_op(op::Recip),
        Single::SumReduce(axis) => graph.add_op(op::SumReduce(axis)),
        Single::MaxReduce(axis) => graph.add_op(op::MaxReduce(axis)),
    };
    new.input(NodeIndex::new(from), 0, tracker).finish().index()
}

/// Calls `Graph::add_op` of `luminal` with an operator of two inputs, and then
/// `input` twice and `finish` on what comes back.
#[verifier::external_body]
fn add_double(
    graph: &mut luminal::graph::Graph,
    kernel: Double,
    from: (usize, usize),
    trackers: (luminal::shape::ShapeTracker, luminal::shape::ShapeTracker),
) -> (id: usize)
    requires
        has_room(contents(*old(graph))),
        contents(*old(graph)).contains_key(from.0 as nat),
        contents(*old(graph)).contains_key(from.1 as nat),
    ensures
        !contents(*old(graph)).contains_key(id as nat),
        id < 0x1_0000_0000,
        contents(*final(graph)) == contents(*old(graph)).insert(
            id as nat,
            (Lowered {
                kernel: Kernel::Two(kernel),
                inputs: seq![
                    (from.0 as nat, layout_of(trackers.0)),
                    (from.1 as nat, layout_of(trackers.1)),
                ],
            }),
        ),
{
    let new = match kernel {
        Double::Add => graph.add_op(op::Add),
        Double::Mul => graph.add_op(op::Mul),
        Double::Mod => graph.add_op(op::Mod),
        Double::LessThan => graph.add_op(op::LessThan),
    };
    let new = new.input(NodeIndex::new(from.0), 0, trackers.0);
    new.input(NodeIndex::new(from.1), 0, trackers.1).finish().index()
}

/// The nodes and layouts that go into a node.
pub open spec fn sources(inputs: Seq<(usize, luminal::shape::ShapeTracker)>) -> Seq<(nat, Layout)> {
    inputs.map_values(
        |input: (usize, luminal::shape::ShapeTracker)| (input.0 as nat, layout_of(input.1)),
    )
}

/// Calls `Graph::add_op` of `luminal` with a `Function` that has a name and
/// nothing to compute yet, and then `input` for each input and `finish` on what
/// comes back.
#[verifier::external_body]
fn add_function(
    graph: &mut luminal::graph::Graph,
    name: String,
    inputs: &Vec<(usize, luminal::shape::ShapeTracker)>,
) -> (id: usize)
    requires
        has_room(contents(*old(graph))),
        inputs@.len() <= 3,
        forall|i: int|
            0 <= i < inputs@.len() ==> contents(*old(graph)).contains_key(
                (#[trigger] inputs@[i]).0 as nat,
            ),
    ensures
        !contents(*old(graph)).contains_key(id as nat),
        id < 0x1_0000_0000,
        contents(*final(graph)) == contents(*old(graph)).insert(
            id as nat,
            (Lowered { kernel: Kernel::Function(name@), inputs: sources(inputs@) }),
        ),
{
    let empty = Box::new(|_: Vec<(op::InputTensor, luminal::shape::ShapeTracker)>| Vec::new());
    let new = graph.add_op(op::Function(name, empty));
    let connected = inputs.iter().fold(new, |new, (id, tracker)| {
        new.input(NodeIndex::new(*id), 0, *tracker)
    });
    connected.finish().index()
}

/// Whether axis `a` comes before axis `b` in memory; stored axes come before
/// repeated ones.
pub open spec fn precedes(places: Seq<Option<usize>>, a: int, b: int) -> bool {
    match (places[a], places[b]) {
        (Some(x), Some(y)) => x < y,
        (Some(_), None) => true,
        _ => false,
    }
}

/// Whether a layout reads stored elements in the way that a shape does.
pub open spec fn lays_out(shape: Shape, layout: Layout) -> bool {
    let rank = shape.dims.len();
    &&& layout.dims.len() == rank
    &&& layout.fake.len() == rank
    &&& is_permutation(layout.indexes, rank)
    &&& forall|a: int|
        0 <= a < rank ==> {
            &&& shape.dims[a] == Dim::Known(layout.dims[#[trigger] layout.indexes[a] as int])
            &&& layout.fake[layout.indexes[a] as int] == (shape.places[a] is None)
        }
    &&& forall|a: int, b: int|
        0 <= a < rank && 0 <= b < rank && #[trigger] precedes(shape.places, a, b)
            ==> layout.indexes[a] < layout.indexes[b]
}

/// Whether a shape has a layout: its sizes are known and small, and it has few
/// axes.
pub open spec fn can_lay_out(shape: Shape) -> bool {
    &&& shape.wf()
    &&& shape.dims.len() <= MAX_RANK
    &&& forall|a: int|
        0 <= a < shape.dims.len() ==> (#[trigger] shape.dims[a]) is Known && shape.dims[a]->Known_0
            <= MAX_SIZE
}

/// The axis of the stored and repeated ones that each of the axes is.
fn order_axes(places: &Vec<Option<usize>>) -> (indexes: Vec<usize>)
    ensures
        is_permutation(indexes@, places@.len()),
        forall|a: int, b: int|
            0 <= a < places@.len() && 0 <= b < places@.len() && #[trigger] precedes(places@, a, b)
                ==> indexes@[a] < indexes@[b],
{
    let mut indexes: Vec<usize> = Vec::new();
    let mut i: usize = 0;
    while i < places.len()
        invariant
            i <= places@.len(),
            is_permutation(indexes@, i as nat),
            forall|a: int, b: int|
                0 <= a < i && 0 <= b < i && #[trigger] precedes(places@, a, b) ==> indexes@[a]
                    < indexes@[b],
        decreases places.len() - i,
    {
        let mut at: usize = 0;
        let mut j: usize = 0;
        while j < i
            invariant
                j <= i < places@.len(),
                is_permutation(indexes@, i as nat),
                at <= i,
                forall|b: int|
                    0 <= b < j && !precedes(places@, i as int, b) ==> #[trigger] indexes@[b] < at,
                at > 0 ==> exists|b: int|
                    0 <= b < j && !precedes(places@, i as int, b) && #[trigger] indexes@[b] + 1
                        == at,
            decreases i - j,
        {
            let later = match (places[i], places[j]) {
                (Some(x), Some(y)) => x < y,
                (Some(_), None) => true,
                _ => false,
            };
            assert(later == precedes(places@, i as int, j as int));
            if !later && indexes[j] >= at {
                at = indexes[j] + 1;
                assert(indexes@[j as int] + 1 == at);
            }
            j = j + 1;
        }
        assert forall|b: int| 0 <= b < i && precedes(places@, i as int, b) implies at
            <= #[trigger] indexes@[b] by {
            if at > 0 {
                let c = choose|c: int|
                    0 <= c < i && !precedes(places@, i as int, c) && #[trigger] indexes@[c] + 1
                        == at;
                assert(precedes(places@, c, b));
            }
        }
        let ghost before = indexes@;
        let mut k: usize = 0;
        while k < i
            invariant
                k <= i,
                before.len() == i,
                indexes@.len() == i,
                i < places@.len(),
                forall|b: int| 0 <= b < i ==> #[trigger] before[b] < i,
                forall|b: int|
                    0 <= b < k ==> #[trigger] indexes@[b] == if before[b] >= at {
                        before[b] + 1
                    } else {
                        before[b] as int
                    },
                forall|b: int| k <= b < i ==> #[trigger] indexes@[b] == before[b],
            decreases i - k,
        {
            assert(indexes@[k as int] == before[k as int]);
            if indexes[k] >= at {
                let moved: usize = indexes[k] + 1;
                indexes.set(k, moved);
            }
            k = k + 1;
        }
        indexes.push(at);
        proof {
            assert forall|a: int, b: int|
                0 <= a <= i && 0 <= b <= i && #[trigger] precedes(
                    places@,
                    a,
                    b,
                ) implies indexes@[a] < indexes@[b] by {
                if a < i && b < i {
                    assert(before[a] < before[b]);
                } else if a < i {
                    assert(!precedes(places@, i as int, a));
                    assert(before[a] < at);
                } else if b < i {
                    assert(at <= before[b]);
                }
            }
            assert forall|a: int, b: int|
                0 <= a < indexes@.len() && 0 <= b < indexes@.len() && a != b implies indexes@[a]
                != indexes@[b] by {
                if a < i && b < i {
                    assert(before[a] != before[b]);
                }
            }
        }
        i = i + 1;
    }
    indexes
}

/// The layout that reads stored elements in the way that a shape does.
fn lay_out(shape: &Tracker) -> (tracker: Option<luminal::shape::ShapeTracker>)
    ensures
        match tracker {
            Some(t) => {
                &&& can_lay_out(shape@)
                &&& lays_out(shape@, layout_of(t))
                &&& layout_of(t).slices == whole(shape@.dims.len())
                &&& layout_of(t).padding == unpadded(shape@.dims.len())
            },
            None => !can_lay_out(shape@),
        },
{
    let rank: usize = shape.dims.len();
    if shape.places.len() != rank || rank > MAX_RANK {
        return None;
    }
    let indexes = order_axes(&shape.places);
    let mut dims: Vec<usize> = Vec::new();
    let mut fake: Vec<bool> = Vec::new();
    let mut i: usize = 0;
    while i < rank
        invariant
            i <= rank,
            dims@.len() == i,
            fake@.len() == i,
            forall|k: int| 0 <= k < i ==> #[trigger] dims@[k] == 0,
        decreases rank - i,
    {
        dims.push(0);
        fake.push(false);
        i = i + 1;
    }
    let mut a: usize = 0;
    while a < rank
        invariant
            a <= rank,
            rank == shape.dims@.len(),
            rank == shape.places@.len(),
            dims@.len() == rank,
            fake@.len() == rank,
            is_permutation(indexes@, rank as nat),
            forall|k: int| 0 <= k < rank ==> #[trigger] dims@[k] <= MAX_SIZE,
            forall|b: int|
                0 <= b < a ==> {
                    &&& shape.dims@[b] == Dim::Known(dims@[#[trigger] indexes@[b] as int])
                    &&& fake@[indexes@[b] as int] == (shape.places@[b] is None)
                },
            forall|b: int|
                0 <= b < a ==> (#[trigger] shape.dims@[b]) is Known && shape.dims@[b]->Known_0
                    <= MAX_SIZE,
        decreases rank - a,
    {
        match shape.dims[a] {
            Dim::Known(size) => {
                if size > MAX_SIZE {
                    assert(!(shape@.dims[a as int]->Known_0 <= MAX_SIZE));
                    return None;
                }
                let at: usize = indexes[a];
                let repeated = match shape.places[a] {
                    Some(_) => false,
                    None => true,
                };
                dims.set(at, size);
                fake.set(at, repeated);
            },
            Dim::Dynamic => {
                assert(!(shape@.dims[a as int] is Known));
                return None;
            },
        }
        a = a + 1;
    }
    Some(new_tracker(&dims, &indexes, &fake))
}

/// The name of a cast.
pub open spec fn cast_name(dtype: DType) -> Seq<char> {
    match dtype {
        DType::F32 => "Cast F32"@,
        DType::F16 => "Cast F16"@,
        DType::Bf16 => "Cast Bf16"@,
        DType::Int => "Cast Int"@,
    }
}

/// What a node becomes. The name of a function holds all that it depends on
/// besides its inputs.
pub open spec fn kernel_of(op: Operation) -> Kernel {
    match op {
        Operation::Load(name) => Kernel::Function(name + " Load"@),
        Operation::Constant(bits) => Kernel::Function("Constant "@ + decimal(bits as int)),
        Operation::Integer(value) => Kernel::Function("Integer "@ + decimal(value as int)),
        Operation::Arange(count) => Kernel::Function("Arange "@ + decimal(count as int)),
        Operation::Triangle(upper, size, diagonal) => Kernel::Function(
            (if upper {
                "Upper "@
            } else {
                "Lower "@
            }) + decimal(size as int) + " "@ + decimal(diagonal as int),
        ),
        Operation::Unary(Unary::Sqrt) => Kernel::One(Single::Sqrt),
        Operation::Unary(Unary::Exp2) => Kernel::One(Single::Exp2),
        Operation::Unary(Unary::Sin) => Kernel::One(Single::Sin),
        Operation::Unary(Unary::Recip) => Kernel::One(Single::Recip),
        Operation::Unary(Unary::Cos) => Kernel::Function("Cos"@),
        Operation::Unary(Unary::Abs) => Kernel::Function("Abs"@),
        Operation::Unary(Unary::Cast(dtype)) => Kernel::Function(cast_name(dtype)),
        Operation::Binary(Binary::Add) => Kernel::Two(Double::Add),
        Operation::Binary(Binary::Mul) => Kernel::Two(Double::Mul),
        Operation::Binary(Binary::Rem) => Kernel::Two(Double::Mod),
        Operation::Binary(Binary::Lt) => Kernel::Two(Double::LessThan),
        Operation::Binary(Binary::Pow) => Kernel::Function("Pow"@),
        Operation::Binary(Binary::Eq) => Kernel::Function("Eq"@),
        Operation::Binary(Binary::IntAdd) => Kernel::Function("IntAdd"@),
        Operation::Binary(Binary::IntMul) => Kernel::Function("IntMul"@),
        Operation::Reduce(Reduction::Max, axis) => Kernel::One(Single::MaxReduce(axis)),
        Operation::Reduce(Reduction::Sum, axis) => Kernel::One(Single::SumReduce(axis)),
        Operation::Gather => Kernel::Function("Gather"@),
        Operation::Slice(_) => Kernel::One(Single::Contiguous),
        Operation::Concat(_) => Kernel::Two(Double::Add),
    }
}

/// Whether a node needs the elements of its input `k` in the order in which they
/// are read: its operator runs over the stored elements, or it reads a part of
/// them or zeros around them. Operators that read by their trackers, and those
/// that take whole numbers, do not.
pub open spec fn needs_order(op: Operation, k: int) -> bool {
    match op {
        Operation::Slice(_) => true,
        Operation::Concat(_) => true,
        Operation::Gather => k == 0,
        Operation::Binary(Binary::IntAdd) => false,
        Operation::Binary(Binary::IntMul) => false,
        _ => match kernel_of(op) {
            Kernel::One(Single::Sqrt) => true,
            Kernel::One(Single::Exp2) => true,
            Kernel::One(Single::Sin) => true,
            Kernel::One(Single::Recip) => true,
            Kernel::Function(_) => true,
            _ => false,
        },
    }
}

/// The parts of the axes of its input that a node reads.
pub open spec fn slices_for(op: Operation, rank: nat) -> Seq<(usize, usize)> {
    match op {
        Operation::Slice(ranges) => Seq::new(
            ranges.len(),
            |i: int| (ranges[i].0->Known_0, ranges[i].1->Known_0),
        ),
        _ => whole(rank),
    }
}

/// The zeros that a node reads around the axes of its input `k`: of two tensors
/// that are put one after the other, each is read with zeros in the place of the
/// other, so that their sum is both.
pub open spec fn padding_for(op: Operation, inputs: Seq<GraphTensor>, k: int, rank: nat) -> Seq<
    (usize, usize),
> {
    match op {
        Operation::Concat(axis) => Seq::new(
            rank,
            |i: int|
                if i != axis {
                    (0usize, 0usize)
                } else if k == 0 {
                    (0usize, inputs[1]@.shape.dims[axis as int]->Known_0)
                } else {
                    (inputs[0]@.shape.dims[axis as int]->Known_0, 0usize)
                },
        ),
        _ => unpadded(rank),
    }
}

/// Whether an operator takes so many inputs.
pub open spec fn takes(kernel: Kernel, count: nat) -> bool {
    match kernel {
        Kernel::One(_) => count == 1,
        Kernel::Two(_) => count == 2,
        Kernel::Function(_) => count <= 3,
    }
}

/// Whether the parts of the axes that a node reads are known and small, or the
/// axis along which it puts tensors one after the other is one of both.
pub open spec fn has_parts(op: Operation, inputs: Seq<GraphTensor>) -> bool {
    match op {
        Operation::Slice(ranges) => {
            &&& ranges.len() == inputs[0]@.shape.dims.len()
            &&& forall|i: int|
                0 <= i < ranges.len() ==> {
                    &&& (#[trigger] ranges[i]).0 is Known
                    &&& ranges[i].1 is Known
                    &&& ranges[i].0->Known_0 <= MAX_SIZE
                    &&& ranges[i].1->Known_0 <= MAX_SIZE
                }
        },
        Operation::Concat(axis) => {
            &&& axis < inputs[0]@.shape.dims.len()
            &&& axis < inputs[1]@.shape.dims.len()
        },
        _ => true,
    }
}

/// Whether a node can be lowered: its inputs come before it, are as many as its
/// operator takes, and have a layout.
pub open spec fn can_lower_node(nodes: Seq<Node>, i: int) -> bool {
    let inputs = nodes[i].inputs@;
    &&& takes(kernel_of(nodes[i].op@), inputs.len())
    &&& forall|k: int|
        0 <= k < inputs.len() ==> (#[trigger] inputs[k])@.id < i && can_lay_out(inputs[k]@.shape)
    &&& has_parts(nodes[i].op@, inputs)
}

/// The greatest number of nodes of a graph that can be lowered.
pub const MAX_NODES: usize = 0x100_0000;

/// Whether the result of a tensor can be read from a graph with `count` nodes.
pub open spec fn can_read(tensor: Handle, count: nat) -> bool {
    tensor.id < count && can_lay_out(tensor.shape)
}

/// Whether a graph can be lowered.
pub open spec fn can_lower(graph: ComputeGraph) -> bool {
    &&& graph.nodes@.len() <= MAX_NODES
    &&& graph.outputs@.len() <= MAX_NODES
    &&& forall|i: int| 0 <= i < graph.nodes@.len() ==> #[trigger] can_lower_node(graph.nodes@, i)
    &&& forall|i: int|
        0 <= i < graph.outputs@.len() ==> can_read(
            (#[trigger] graph.outputs@[i])@,
            graph.nodes@.len(),
        )
}

/// Whether a layout reads each axis of a shape as a whole, without zeros around
/// it.
pub open spec fn plainly_lays_out(shape: Shape, layout: Layout) -> bool {
    &&& lays_out(shape, layout)
    &&& layout.slices == whole(shape.dims.len())
    &&& layout.padding == unpadded(shape.dims.len())
}

/// Whether an input of a lowered node reads a tensor: from the node that the
/// tensor's node became, or from a node that stores its elements in order.
pub open spec fn reads(
    nodes: Map<nat, Lowered>,
    input: (nat, Layout),
    tensor: Handle,
    ids: Seq<usize>,
    in_order: bool,
) -> bool {
    if in_order && !tensor.shape.contiguous() {
        &&& nodes.contains_key(input.0)
        &&& nodes[input.0].kernel == Kernel::One(Single::Contiguous)
        &&& nodes[input.0].inputs.len() == 1
        &&& nodes[input.0].inputs[0].0 == ids[tensor.id as int]
        &&& plainly_lays_out(tensor.shape, nodes[input.0].inputs[0].1)
        &&& lays_out(row_major(tensor.shape.dims), input.1)
    } else {
        &&& input.0 == ids[tensor.id as int]
        &&& lays_out(tensor.shape, input.1)
    }
}

/// Whether a node of a graph of `luminal` is what a node became.
pub open spec fn stands_for(nodes: Map<nat, Lowered>, id: nat, node: Node, ids: Seq<usize>) -> bool {
    &&& nodes.contains_key(id)
    &&& nodes[id].kernel == kernel_of(node.op@)
    &&& nodes[id].inputs.len() == node.inputs@.len()
    &&& forall|k: int|
        0 <= k < node.inputs@.len() ==> {
            let rank = node.inputs@[k]@.shape.dims.len();
            &&& reads(
                nodes,
                #[trigger] nodes[id].inputs[k],
                node.inputs@[k]@,
                ids,
                needs_order(node.op@, k),
            )
            &&& nodes[id].inputs[k].1.slices == slices_for(node.op@, rank)
            &&& nodes[id].inputs[k].1.padding == padding_for(node.op@, node.inputs@, k, rank)
        }
}

/// Whether a node stores the elements of a tensor in the order in which they are
/// read: the one that the tensor's node became, or one that puts them in order.
pub open spec fn stores(
    nodes: Map<nat, Lowered>,
    id: nat,
    tensor: Handle,
    ids: Seq<usize>,
) -> bool {
    if tensor.shape.contiguous() {
        id == ids[tensor.id as int]
    } else {
        &&& nodes.contains_key(id)
        &&& nodes[id].kernel == Kernel::One(Single::Contiguous)
        &&& nodes[id].inputs.len() == 1
        &&& nodes[id].inputs[0].0 == ids[tensor.id as int]
        &&& plainly_lays_out(tensor.shape, nodes[id].inputs[0].1)
    }
}

/// A graph of `luminal`, with the node that each node of a graph became, and the
/// nodes that store the results that are asked for.
pub struct LoweredGraph {
    pub graph: luminal::graph::Graph,
    pub ids: Vec<usize>,
    pub outputs: Vec<usize>,
}

/// Whether a graph of `luminal` is what a graph became: each node became one of
/// its own, and each result that is asked for is stored in order.
pub open spec fn is_lowered(graph: ComputeGraph, lowered: LoweredGraph) -> bool {
    &&& lowered.ids@.len() == graph.nodes@.len()
    &&& lowered.ids@.no_duplicates()
    &&& forall|i: int|
        0 <= i < graph.nodes@.len() ==> stands_for(
            contents(lowered.graph),
            lowered.ids@[i] as nat,
            #[trigger] graph.nodes@[i],
            lowered.ids@,
        )
    &&& lowered.outputs@.len() == graph.outputs@.len()
    &&& forall|i: int|
        0 <= i < graph.outputs@.len() ==> stores(
            contents(lowered.graph),
            lowered.outputs@[i] as nat,
            (#[trigger] graph.outputs@[i])@,
            lowered.ids@,
        )
}

/// What a node becomes.
pub enum Choice {
    One(Single),
    Two(Double),
    Function(String),
}

impl View for Choice {
    type V = Kernel;

    open spec fn view(&self) -> Kernel {
        match self {
            Choice::One(kernel) => Kernel::One(*kernel),
            Choice::Two(kernel) => Kernel::Two(*kernel),
            Choice::Function(name) => Kernel::Function(name@),
        }
    }
}

fn function(name: &str) -> (choice: Choice)
    ensures
        choice@ == Kernel::Function(name@),
{
    Choice::Function(String::from_str(name))
}

/// `name` followed by a number.
fn with_number(name: &str, number: String) -> (choice: Choice)
    ensures
        choice@ == Kernel::Function(name@ + number@),
{
    let mut label: String = String::from_str(name);
    label.append(number.as_str());
    Choice::Function(label)
}

/// What a node becomes.
fn choose_kernel(op: &Op) -> (choice: Choice)
    ensures
        choice@ == kernel_of(op@),
{
    match op {
        Op::Load(name) => {
            let label = join(name.as_str(), " Load", "");
            proof {
                reveal_strlit("");
                assert(label@ =~= name@ + " Load"@);
            }
            Choice::Function(label)
        },
        Op::Constant(bits) => with_number("Constant ", to_decimal(*bits as i64)),
        Op::Integer(value) => with_number("Integer ", to_decimal(*value)),
        Op::Arange(count) => with_number("Arange ", size_to_decimal(*count)),
        Op::Triangle(upper, size, diagonal) => {
            let mut label: String = String::from_str(if *upper {
                "Upper "
            } else {
                "Lower "
            });
            label.append(size_to_decimal(*size).as_str());
            label.append(" ");
            label.append(to_decimal(*diagonal as i64).as_str());
            Choice::Function(label)
        },
        Op::Unary(Unary::Sqrt) => Choice::One(Single::Sqrt),
        Op::Unary(Unary::Exp2) => Choice::One(Single::Exp2),
        Op::Unary(Unary::Sin) => Choice::One(Single::Sin),
        Op::Unary(Unary::Recip) => Choice::One(Single::Recip),
        Op::Unary(Unary::Cos) => function("Cos"),
        Op::Unary(Unary::Abs) => function("Abs"),
        Op::Unary(Unary::Cast(DType::F32)) => function("Cast F32"),
        Op::Unary(Unary::Cast(DType::F16)) => function("Cast F16"),
        Op::Unary(Unary::Cast(DType::Bf16)) => function("Cast Bf16"),
        Op::Unary(Unary::Cast(DType::Int)) => function("Cast Int"),
        Op::Binary(Binary::Add) => Choice::Two(Double::Add),
        Op::Binary(Binary::Mul) => Choice::Two(Double::Mul),
        Op::Binary(Binary::Rem) => Choice::Two(Double::Mod),
        Op::Binary(Binary::Lt) => Choice::Two(Double::LessThan),
        Op::Binary(Binary::Pow) => function("Pow"),
        Op::Binary(Binary::Eq) => function("Eq"),
        Op::Binary(Binary::IntAdd) => function("IntAdd"),
        Op::Binary(Binary::IntMul) => function("IntMul"),
        Op::Reduce(Reduction::Max, axis) => Choice::One(Single::MaxReduce(*axis)),
        Op::Reduce(Reduction::Sum, axis) => Choice::One(Single::SumReduce(*axis)),
        Op::Gather => function("Gather"),
        Op::Slice(_) => Choice::One(Single::Contiguous),
        Op::Concat(_) => Choice::Two(Double::Add),
    }
}

/// Whether a node needs the elements of its input `k` in the order in which they
/// are read.
fn wants_order(op: &Op, choice: &Choice, k: usize) -> (r: bool)
    requires
        choice@ == kernel_of(op@),
    ensures
        r == needs_order(op@, k as int),
{
    match op {
        Op::Slice(_) => true,
        Op::Concat(_) => true,
        Op::Gather => k == 0,
        Op::Binary(Binary::IntAdd) => false,
        Op::Binary(Binary::IntMul) => false,
        _ => match choice {
            Choice::One(Single::Sqrt) => true,
            Choice::One(Single::Exp2) => true,
            Choice::One(Single::Sin) => true,
            Choice::One(Single::Recip) => true,
            Choice::Function(_) => true,
            _ => false,
        },
    }
}

/// Whether an operator takes so many inputs.
fn accepts(choice: &Choice, count: usize) -> (r: bool)
    ensures
        r == takes(choice@, count as nat),
{
    match choice {
        Choice::One(_) => count == 1,
        Choice::Two(_) => count == 2,
        Choice::Function(_) => count <= 3,
    }
}

/// Whether the parts of the axes that a node reads are known and small, or the
/// axis along which it puts tensors one after the other is one of both.
fn knows_parts(node: &Node) -> (r: bool)
    requires
        takes(kernel_of(node.op@), node.inputs@.len()),
    ensures
        r == has_parts(node.op@, node.inputs@),
{
    match &node.op {
        Op::Slice(ranges) => {
            if ranges.len() != node.inputs[0].dims().len() {
                return false;
            }
            let mut i: usize = 0;
            while i < ranges.len()
                invariant
                    node.op == Op::Slice(*ranges),
                    i <= ranges@.len(),
                    forall|k: int|
                        0 <= k < i ==> {
                            &&& (#[trigger] ranges@[k]).0 is Known
                            &&& ranges@[k].1 is Known
                            &&& ranges@[k].0->Known_0 <= MAX_SIZE
                            &&& ranges@[k].1->Known_0 <= MAX_SIZE
                        },
                decreases ranges.len() - i,
            {
                let range = ranges[i];
                assert(range == ranges@[i as int]);
                match range {
                    (Dim::Known(start), Dim::Known(end)) => {
                        if start > MAX_SIZE || end > MAX_SIZE {
                            return false;
                        }
                    },
                    _ => {
                        return false;
                    },
                }
                i = i + 1;
            }
            true
        },
        Op::Concat(axis) => {
            *axis < node.inputs[0].dims().len() && *axis < node.inputs[1].dims().len()
        },
        _ => true,
    }
}

/// The size of an axis of known size.
fn size_at(tensor: &GraphTensor, axis: usize) -> (size: usize)
    requires
        axis < tensor@.shape.dims.len(),
        can_lay_out(tensor@.shape),
    ensures
        size == tensor@.shape.dims[axis as int]->Known_0,
        size <= MAX_SIZE,
{
    assert(tensor@.shape.dims[axis as int] is Known);
    match tensor.dims()[axis] {
        Dim::Known(size) => size,
        Dim::Dynamic => unreached(),
    }
}

/// The tracker with which a node reads its input `k`: only a part of it, or with
/// zeros around it, as the node asks for.
fn fit_tracker(node: &Node, k: usize, tracker: luminal::shape::ShapeTracker) -> (fitted:
    luminal::shape::ShapeTracker)
    requires
        takes(kernel_of(node.op@), node.inputs@.len()),
        k < node.inputs@.len(),
        forall|j: int|
            0 <= j < node.inputs@.len() ==> can_lay_out((#[trigger] node.inputs@[j])@.shape),
        has_parts(node.op@, node.inputs@),
        layout_of(tracker).dims.len() == node.inputs@[k as int]@.shape.dims.len(),
        is_permutation(
            layout_of(tracker).indexes,
            node.inputs@[k as int]@.shape.dims.len(),
        ),
        layout_of(tracker).slices == whole(node.inputs@[k as int]@.shape.dims.len()),
        layout_of(tracker).padding == unpadded(node.inputs@[k as int]@.shape.dims.len()),
    ensures
        ({
            let rank = node.inputs@[k as int]@.shape.dims.len();
            layout_of(fitted) == (Layout {
                slices: slices_for(node.op@, rank),
                padding: padding_for(node.op@, node.inputs@, k as int, rank),
                ..layout_of(tracker)
            })
        }),
{
    let ghost rank = node.inputs@[k as int]@.shape.dims.len();
    match &node.op {
        Op::Slice(ranges) => {
            let mut parts: Vec<(usize, usize)> = Vec::new();
            let mut i: usize = 0;
            while i < ranges.len()
                invariant
                    has_parts(node.op@, node.inputs@),
                    node.op == Op::Slice(*ranges),
                    i <= ranges@.len(),
                    parts@.len() == i,
                    forall|j: int|
                        0 <= j < i ==> {
                            &&& #[trigger] parts@[j] == slices_for(node.op@, rank)[j]
                            &&& parts@[j].0 <= MAX_SIZE
                            &&& parts@[j].1 <= MAX_SIZE
                        },
                decreases ranges.len() - i,
            {
                let range = ranges[i];
                assert(range == ranges@[i as int]);
                if let (Dim::Known(start), Dim::Known(end)) = range {
                    parts.push((start, end));
                }
                i = i + 1;
            }
            assert(parts@ =~= slices_for(node.op@, rank));
            slice_tracker(tracker, &parts)
        },
        Op::Concat(axis) => {
            assert(can_lay_out(node.inputs@[0]@.shape));
            assert(can_lay_out(node.inputs@[1]@.shape));
            let first: usize = size_at(&node.inputs[0], *axis);
            let second: usize = size_at(&node.inputs[1], *axis);
            let count: usize = node.inputs[k].dims().len();
            let mut zeros: Vec<(usize, usize)> = Vec::new();
            let mut i: usize = 0;
            while i < count
                invariant
                    i <= count,
                    count == rank,
                    k < 2,
                    node.op == Op::Concat(*axis),
                    first == node.inputs@[0]@.shape.dims[*axis as int]->Known_0,
                    second == node.inputs@[1]@.shape.dims[*axis as int]->Known_0,
                    first <= MAX_SIZE,
                    second <= MAX_SIZE,
                    zeros@.len() == i,
                    forall|j: int|
                        0 <= j < i ==> {
                            &&& #[trigger] zeros@[j] == padding_for(
                                node.op@,
                                node.inputs@,
                                k as int,
                                rank,
                            )[j]
                            &&& zeros@[j].0 <= MAX_SIZE
                            &&& zeros@[j].1 <= MAX_SIZE
                        },
                decreases count - i,
            {
                if i != *axis {
                    zeros.push((0, 0));
                } else if k == 0 {
                    zeros.push((0, second));
                } else {
                    zeros.push((first, 0));
                }
                i = i + 1;
            }
            assert(zeros@ =~= padding_for(node.op@, node.inputs@, k as int, rank));
            pad_tracker(tracker, &zeros)
        },
        _ => tracker,
    }
}

/// `b` has the nodes of `a`, as they are, and at most `more` others.
spec fn extends(a: Map<nat, Lowered>, b: Map<nat, Lowered>, more: nat) -> bool {
    &&& forall|id: nat| #[trigger] a.contains_key(id) ==> b.contains_key(id) && b[id] == a[id]
    &&& is_small(b, a.dom().len() + more)
}

/// What a node became, it stays when other nodes are added.
proof fn lemma_stands(
    a: Map<nat, Lowered>,
    b: Map<nat, Lowered>,
    more: nat,
    id: nat,
    node: Node,
    ids: Seq<usize>,
    more_ids: Seq<usize>,
)
    requires
        extends(a, b, more),
        stands_for(a, id, node, ids),
        ids.len() <= more_ids.len(),
        more_ids.subrange(0, ids.len() as int) == ids,
        forall|k: int| 0 <= k < node.inputs@.len() ==> (#[trigger] node.inputs@[k])@.id < ids.len(),
    ensures
        stands_for(b, id, node, more_ids),
{
    assert(b[id] == a[id]);
    assert forall|k: int| 0 <= k < node.inputs@.len() implies {
        let rank = node.inputs@[k]@.shape.dims.len();
        &&& reads(
            b,
            #[trigger] b[id].inputs[k],
            node.inputs@[k]@,
            more_ids,
            needs_order(node.op@, k),
        )
        &&& b[id].inputs[k].1.slices == slices_for(node.op@, rank)
        &&& b[id].inputs[k].1.padding == padding_for(node.op@, node.inputs@, k, rank)
    } by {
        assert(reads(a, a[id].inputs[k], node.inputs@[k]@, ids, needs_order(node.op@, k)));
        let at = node.inputs@[k]@.id as int;
        assert(more_ids[at] == more_ids.subrange(0, ids.len() as int)[at]);
    }
}

/// Adds what an input of a node is read from, and with what tracker.
fn add_input(
    graph: &mut luminal::graph::Graph,
    input: &GraphTensor,
    ids: &Vec<usize>,
    in_order: bool,
) -> (found: Option<(usize, luminal::shape::ShapeTracker)>)
    requires
        has_room(contents(*old(graph))),
        input@.id < ids@.len(),
        contents(*old(graph)).contains_key(ids@[input@.id as int] as nat),
    ensures
        match found {
            Some((from, tracker)) => {
                &&& can_lay_out(input@.shape)
                &&& extends(contents(*old(graph)), contents(*final(graph)), 1)
                &&& contents(*final(graph)).contains_key(from as nat)
                &&& reads(
                    contents(*final(graph)),
                    (from as nat, layout_of(tracker)),
                    input@,
                    ids@,
                    in_order,
                )
                &&& layout_of(tracker).slices == whole(input@.shape.dims.len())
                &&& layout_of(tracker).padding == unpadded(input@.shape.dims.len())
            },
            None => !can_lay_out(input@.shape),
        },
{
    let tracker = match lay_out(&input.shape) {
        Some(tracker) => tracker,
        None => {
            return None;
        },
    };
    if in_order && !input.shape.is_contiguous() {
        let from: usize = add_single(graph, Single::Contiguous, ids[input.id], tracker);
        let stored = Tracker::new(copy_dims(input.dims()));
        match lay_out(&stored) {
            Some(plain) => Some((from, plain)),
            None => None,
        }
    } else {
        Some((ids[input.id], tracker))
    }
}

/// Whether input `j` of a node is read from one of the nodes.
spec fn is_read(
    nodes: Map<nat, Lowered>,
    node: Node,
    j: int,
    input: (usize, luminal::shape::ShapeTracker),
    ids: Seq<usize>,
) -> bool {
    let rank = node.inputs@[j]@.shape.dims.len();
    let layout = layout_of(input.1);
    &&& nodes.contains_key(input.0 as nat)
    &&& reads(nodes, (input.0 as nat, layout), node.inputs@[j]@, ids, needs_order(node.op@, j))
    &&& layout.slices == slices_for(node.op@, rank)
    &&& layout.padding == padding_for(node.op@, node.inputs@, j, rank)
}

/// Whether all inputs of a node come before it and have a layout.
fn inputs_fit(node: &Node, i: usize) -> (r: bool)
    ensures
        r == forall|k: int|
            0 <= k < node.inputs@.len() ==> (#[trigger] node.inputs@[k])@.id < i && can_lay_out(
                node.inputs@[k]@.shape,
            ),
{
    let mut k: usize = 0;
    while k < node.inputs.len()
        invariant
            k <= node.inputs@.len(),
            forall|j: int|
                0 <= j < k ==> (#[trigger] node.inputs@[j])@.id < i && can_lay_out(
                    node.inputs@[j]@.shape,
                ),
        decreases node.inputs.len() - k,
    {
        if node.inputs[k].id >= i {
            assert(!(node.inputs@[k as int]@.id < i));
            return false;
        }
        if lay_out(&node.inputs[k].shape).is_none() {
            assert(!can_lay_out(node.inputs@[k as int]@.shape));
            return false;
        }
        k = k + 1;
    }
    true
}

/// Adds what a node becomes.
fn add_node(
    graph: &mut luminal::graph::Graph,
    nodes: &Vec<Node>,
    i: usize,
    ids: &Vec<usize>,
) -> (added: Option<usize>)
    requires
        is_small(contents(*old(graph)), 0xfff_fff0),
        i < nodes@.len(),
        ids@.len() == i,
        forall|k: int| 0 <= k < i ==> contents(*old(graph)).contains_key(#[trigger] ids@[k] as nat),
    ensures
        match added {
            Some(id) => {
                &&& can_lower_node(nodes@, i as int)
                &&& extends(contents(*old(graph)), contents(*final(graph)), 4)
                &&& !contents(*old(graph)).contains_key(id as nat)
                &&& stands_for(contents(*final(graph)), id as nat, nodes@[i as int], ids@)
            },
            None => !can_lower_node(nodes@, i as int),
        },
{
    let node = &nodes[i];
    let choice = choose_kernel(&node.op);
    if !accepts(&choice, node.inputs.len()) || !inputs_fit(node, i) || !knows_parts(node) {
        return None;
    }
    let ghost start = contents(*graph);
    let mut inputs: Vec<(usize, luminal::shape::ShapeTracker)> = Vec::new();
    let mut k: usize = 0;
    while k < node.inputs.len()
        invariant
            node == &nodes@[i as int],
            i < nodes@.len(),
            can_lower_node(nodes@, i as int),
            ids@.len() == i,
            node.inputs@.len() <= 3,
            choice@ == kernel_of(node.op@),
            is_small(start, 0xfff_fff0),
            forall|j: int| 0 <= j < i ==> start.contains_key(#[trigger] ids@[j] as nat),
            k <= node.inputs@.len(),
            extends(start, contents(*graph), k as nat),
            inputs@.len() == k,
            forall|j: int|
                0 <= j < k ==> is_read(contents(*graph), *node, j, #[trigger] inputs@[j], ids@),
        decreases node.inputs.len() - k,
    {
        let ghost before = contents(*graph);
        assert(node.inputs@[k as int]@.id < i && can_lay_out(node.inputs@[k as int]@.shape));
        assert(start.contains_key(ids@[node.inputs@[k as int].id as int] as nat));
        match add_input(graph, &node.inputs[k], ids, wants_order(&node.op, &choice, k)) {
            Some((from, tracker)) => {
                proof {
                    let after = contents(*graph);
                    assert forall|j: int| 0 <= j < k implies is_read(
                        after,
                        *node,
                        j,
                        #[trigger] inputs@[j],
                        ids@,
                    ) by {
                        assert(is_read(before, *node, j, inputs@[j], ids@));
                    }
                }
                inputs.push((from, fit_tracker(node, k, tracker)));
            },
            None => {
                return None;
            },
        }
        k = k + 1;
    }
    let ghost middle = contents(*graph);
    let ghost given = inputs@;
    let id: usize = match choice {
        Choice::One(kernel) => {
            assert(is_read(middle, *node, 0, given[0], ids@));
            let (from, tracker) = take_first(&mut inputs);
            add_single(graph, kernel, from, tracker)
        },
        Choice::Two(kernel) => {
            assert(is_read(middle, *node, 0, given[0], ids@));
            assert(is_read(middle, *node, 1, given[1], ids@));
            let (from0, tracker0) = take_first(&mut inputs);
            let (from1, tracker1) = take_first(&mut inputs);
            add_double(graph, kernel, (from0, from1), (tracker0, tracker1))
        },
        Choice::Function(name) => {
            assert forall|j: int| 0 <= j < inputs@.len() implies middle.contains_key(
                (#[trigger] inputs@[j]).0 as nat,
            ) by {
                assert(is_read(middle, *node, j, inputs@[j], ids@));
            }
            add_function(graph, name, &inputs)
        },
    };
    proof {
        let after = contents(*graph);
        assert(after[id as nat].inputs =~= sources(given));
        assert forall|j: int| 0 <= j < node.inputs@.len() implies {
            let rank = node.inputs@[j]@.shape.dims.len();
            &&& reads(
                after,
                #[trigger] after[id as nat].inputs[j],
                node.inputs@[j]@,
                ids@,
                needs_order(node.op@, j),
            )
            &&& after[id as nat].inputs[j].1.slices == slices_for(node.op@, rank)
            &&& after[id as nat].inputs[j].1.padding == padding_for(
                node.op@,
                node.inputs@,
                j,
                rank,
            )
        } by {
            assert(sources(given)[j] == (given[j].0 as nat, layout_of(given[j].1)));
            assert(is_read(middle, *node, j, given[j], ids@));
        }
        assert forall|other: nat| #[trigger] start.contains_key(other) implies after.contains_key(
            other,
        ) && after[other] == start[other] by {
            assert(middle.contains_key(other));
        }
    }
    Some(id)
}

/// Takes the first of some inputs.
fn take_first(inputs: &mut Vec<(usize, luminal::shape::ShapeTracker)>) -> (first: (
    usize,
    luminal::shape::ShapeTracker,
))
    requires
        old(inputs)@.len() > 0,
    ensures
        first == old(inputs)@[0],
        final(inputs)@ == old(inputs)@.subrange(1, old(inputs)@.len() as int),
{
    let first = inputs.remove(0);
    assert(inputs@ =~= old(inputs)@.subrange(1, old(inputs)@.len() as int));
    first
}

/// The graph of `luminal` that a graph becomes, if it can be lowered.
pub fn lower(graph: &ComputeGraph) -> (lowered: Option<LoweredGraph>)
    ensures
        match lowered {
            Some(l) => can_lower(*graph) && is_lowered(*graph, l),
            None => !can_lower(*graph),
        },
{
    if graph.nodes.len() > MAX_NODES || graph.outputs.len() > MAX_NODES {
        return None;
    }
    let mut target = new_graph();
    let mut ids: Vec<usize> = Vec::new();
    let mut i: usize = 0;
    while i < graph.nodes.len()
        invariant
            graph.nodes@.len() <= MAX_NODES,
            graph.outputs@.len() <= MAX_NODES,
            i <= graph.nodes@.len(),
            is_small(contents(target), (4 * i) as nat),
            ids@.len() == i,
            ids@.no_duplicates(),
            forall|k: int| 0 <= k < i ==> #[trigger] can_lower_node(graph.nodes@, k),
            forall|k: int|
                0 <= k < i ==> stands_for(
                    contents(target),
                    ids@[k] as nat,
                    #[trigger] graph.nodes@[k],
                    ids@,
                ),
        decreases graph.nodes.len() - i,
    {
        let ghost before = contents(target);
        let ghost ids_before = ids@;
        proof {
            assert forall|k: int| 0 <= k < i implies before.contains_key(
                #[trigger] ids@[k] as nat,
            ) by {
                assert(stands_for(before, ids@[k] as nat, graph.nodes@[k], ids@));
            }
        }
        match add_node(&mut target, &graph.nodes, i, &ids) {
            Some(id) => {
                ids.push(id);
                proof {
                    let after = contents(target);
                    assert(ids@.subrange(0, i as int) =~= ids_before);
                    assert forall|k: int| 0 <= k <= i implies stands_for(
                        after,
                        ids@[k] as nat,
                        #[trigger] graph.nodes@[k],
                        ids@,
                    ) by {
                        let node = graph.nodes@[k];
                        assert(can_lower_node(graph.nodes@, k));
                        if k < i {
                            lemma_stands(before, after, 4, ids@[k] as nat, node, ids_before, ids@);
                        } else {
                            lemma_stands(after, after, 0, id as nat, node, ids_before, ids@);
                        }
                    }
                    assert forall|a: int, b: int|
                        0 <= a < ids@.len() && 0 <= b < ids@.len() && a != b implies ids@[a]
                        != ids@[b] by {
                        if a < i && b < i {
                            assert(ids_before[a] != ids_before[b]);
                        } else if a < i {
                            assert(before.contains_key(ids_before[a] as nat));
                        } else {
                            assert(before.contains_key(ids_before[b] as nat));
                        }
                    }
                }
            },
            None => {
                return None;
            },
        }
        i = i + 1;
    }
    match add_outputs(&mut target, graph, &ids) {
        Some(outputs) => Some(LoweredGraph { graph: target, ids, outputs }),
        None => None,
    }
}

/// Adds what the results that are asked for are read from.
fn add_outputs(target: &mut luminal::graph::Graph, graph: &ComputeGraph, ids: &Vec<usize>) -> (added:
    Option<Vec<usize>>)
    requires
        graph.nodes@.len() <= MAX_NODES,
        graph.outputs@.len() <= MAX_NODES,
        is_small(contents(*old(target)), (4 * graph.nodes@.len()) as nat),
        ids@.len() == graph.nodes@.len(),
        forall|i: int| 0 <= i < graph.nodes@.len() ==> #[trigger] can_lower_node(graph.nodes@, i),
        forall|i: int|
            0 <= i < graph.nodes@.len() ==> stands_for(
                contents(*old(target)),
                ids@[i] as nat,
                #[trigger] graph.nodes@[i],
                ids@,
            ),
    ensures
        match added {
            Some(outputs) => {
                &&& outputs@.len() == graph.outputs@.len()
                &&& forall|i: int|
                    0 <= i < graph.nodes@.len() ==> stands_for(
                        contents(*final(target)),
                        ids@[i] as nat,
                        #[trigger] graph.nodes@[i],
                        ids@,
                    )
                &&& forall|i: int|
                    0 <= i < graph.outputs@.len() ==> can_read(
                        (#[trigger] graph.outputs@[i])@,
                        graph.nodes@.len(),
                    ) && stores(
                        contents(*final(target)),
                        outputs@[i] as nat,
                        graph.outputs@[i]@,
                        ids@,
                    )
            },
            None => exists|i: int|
                0 <= i < graph.outputs@.len() && !can_read(
                    (#[trigger] graph.outputs@[i])@,
                    graph.nodes@.len(),
                ),
        },
{
    let ghost start = contents(*target);
    let mut outputs: Vec<usize> = Vec::new();
    let mut i: usize = 0;
    while i < graph.outputs.len()
        invariant
            graph.nodes@.len() <= MAX_NODES,
            graph.outputs@.len() <= MAX_NODES,
            is_small(start, (4 * graph.nodes@.len()) as nat),
            ids@.len() == graph.nodes@.len(),
            forall|k: int|
                0 <= k < graph.nodes@.len() ==> stands_for(
                    start,
                    ids@[k] as nat,
                    #[trigger] graph.nodes@[k],
                    ids@,
                ),
            i <= graph.outputs@.len(),
            extends(start, contents(*target), i as nat),
            outputs@.len() == i,
            forall|k: int|
                0 <= k < i ==> can_read(
                    (#[trigger] graph.outputs@[k])@,
                    graph.nodes@.len(),
                ) && stores(
                    contents(*target),
                    outputs@[k] as nat,
                    graph.outputs@[k]@,
                    ids@,
                ),
        decreases graph.outputs.len() - i,
    {
        let output = &graph.outputs[i];
        if output.id >= ids.len() {
            assert(!can_read(graph.outputs@[i as int]@, graph.nodes@.len()));
            return None;
        }
        let ghost before = contents(*target);
        proof {
            let at = output@.id as int;
            assert(stands_for(start, ids@[at] as nat, graph.nodes@[at], ids@));
        }
        match add_input(target, output, ids, true) {
            Some((from, _)) => {
                outputs.push(from);
                proof {
                    let after = contents(*target);
                    assert forall|k: int| 0 <= k <= i implies can_read(
                        (#[trigger] graph.outputs@[k])@,
                        graph.nodes@.len(),
                    ) && stores(after, outputs@[k] as nat, graph.outputs@[k]@, ids@) by {
                        if k < i {
                            assert(stores(before, outputs@[k] as nat, graph.outputs@[k]@, ids@));
                        }
                    }
                }
            },
            None => {
                assert(!can_read(graph.outputs@[i as int]@, graph.nodes@.len()));
                return None;
            },
        }
        i = i + 1;
    }
    proof {
        let after = contents(*target);
        assert forall|k: int| 0 <= k < graph.nodes@.len() implies stands_for(
            after,
            ids@[k] as nat,
            #[trigger] graph.nodes@[k],
            ids@,
        ) by {
            assert(can_lower_node(graph.nodes@, k));
            assert(ids@.subrange(0, ids@.len() as int) =~= ids@);
            lemma_stands(start, after, i as nat, ids@[k] as nat, graph.nodes@[k], ids@, ids@);
        }
    }
    Some(outputs)
}

/// The numbers that a node stands for by itself, in the order in which they are
/// stored: a constant, or a matrix of ones and zeros.
pub open spec fn own_numbers(op: Operation) -> Option<Seq<u32>> {
    match op {
        Operation::Constant(bits) => Some(seq![bits]),
        Operation::Triangle(upper, size, diagonal) => if size * size <= usize::MAX {
            Some(
                Seq::new(
                    (size * size) as nat,
                    |p: int| indicator(in_triangle(upper, p / size as int, p % size as int, diagonal)),
                ),
            )
        } else {
            None
        },
        _ => None,
    }
}

/// Whether the element in a row and a column is on the side of a diagonal that
/// lies `diagonal` places to the right of the main one, or on it.
pub open spec fn in_triangle(upper: bool, row: int, column: int, diagonal: i32) -> bool {
    if upper {
        column - row >= diagonal
    } else {
        column - row <= diagonal
    }
}

/// The whole numbers that a node stands for by itself.
pub open spec fn own_wholes(op: Operation) -> Option<Seq<i64>> {
    match op {
        Operation::Integer(value) => Some(seq![value]),
        Operation::Arange(count) => if count <= i64::MAX {
            Some(Seq::new(count as nat, |i: int| i as i64))
        } else {
            None
        },
        _ => None,
    }
}

/// The ones and zeros of a triangle.
fn list_triangle(upper: bool, size: usize, diagonal: i32) -> (numbers: Vec<u32>)
    requires
        size * size <= usize::MAX,
    ensures
        Some(numbers@) == own_numbers(Operation::Triangle(upper, size, diagonal)),
{
    let mut numbers: Vec<u32> = Vec::new();
    let count: usize = size * size;
    let mut p: usize = 0;
    while p < count
        invariant
            count == size * size,
            p <= count,
            numbers@.len() == p,
            forall|i: int|
                0 <= i < p ==> #[trigger] numbers@[i] == indicator(
                    in_triangle(upper, i / size as int, i % size as int, diagonal),
                ),
        decreases count - p,
    {
        assert(size > 0) by (nonlinear_arith)
            requires
                count == size * size,
                count > 0,
        ;
        let distance: i128 = (p % size) as i128 - (p / size) as i128;
        let inside: bool = if upper {
            distance >= diagonal as i128
        } else {
            distance <= diagonal as i128
        };
        numbers.push(from_bool(inside));
        p = p + 1;
    }
    assert(numbers@ =~= own_numbers(Operation::Triangle(upper, size, diagonal))->0);
    numbers
}

/// The numbers that a node stands for by itself.
pub fn list_numbers(op: &Op) -> (numbers: Option<Vec<u32>>)
    ensures
        match numbers {
            Some(list) => own_numbers(op@) == Some(list@),
            None => own_numbers(op@) is None,
        },
{
    match op {
        Op::Constant(bits) => {
            let list: Vec<u32> = vec![*bits];
            assert(list@ =~= seq![*bits]);
            Some(list)
        },
        Op::Triangle(upper, size, diagonal) => match size.checked_mul(*size) {
            Some(_) => Some(list_triangle(*upper, *size, *diagonal)),
            None => None,
        },
        _ => None,
    }
}

/// The whole numbers that a node stands for by itself.
pub fn list_wholes(op: &Op) -> (wholes: Option<Vec<i64>>)
    ensures
        match wholes {
            Some(list) => own_wholes(op@) == Some(list@),
            None => own_wholes(op@) is None,
        },
{
    match op {
        Op::Integer(value) => {
            let list: Vec<i64> = vec![*value];
            assert(list@ =~= seq![*value]);
            Some(list)
        },
        Op::Arange(count) => {
            if *count as u64 > i64::MAX as u64 {
                return None;
            }
            let mut list: Vec<i64> = Vec::new();
            let mut i: usize = 0;
            while i < *count
                invariant
                    i <= *count <= i64::MAX,
                    list@.len() == i,
                    forall|k: int| 0 <= k < i ==> #[trigger] list@[k] == k,
                decreases *count - i,
            {
                list.push(i as i64);
                i = i + 1;
            }
            assert(list@ =~= Seq::new(*count as nat, |i: int| i as i64));
            Some(list)
        },
        _ => None,
    }
}

} // verus!

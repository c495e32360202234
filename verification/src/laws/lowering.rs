//! What a graph of `luminal` computes.
//!
//! A node of `luminal` stores numbers, and its operator says which, from those that the
//! nodes before it store. The graph that a graph became stores what its tensors have.

#[allow(unused_imports)]
use crate::graph::{
    computation, Binary, ComputeGraph, DType, Handle, Node, Operation, Tensor, Unary,
};
#[allow(unused_imports)]
use crate::laws::layouts::lemma_contiguous_place;
#[allow(unused_imports)]
use crate::lower::{
    can_lay_out, can_lower, can_lower_node, contents, is_lowered, lays_out, needs_order,
    own_numbers, own_wholes, plainly_lays_out, precedes, reads, stands_for, stores, Double, Kernel,
    Layout, Lowered, LoweredGraph, Single,
};
#[allow(unused_imports)]
use crate::names::decimal;
#[allow(unused_imports)]
use crate::reading::{index_at, lemma_index_within, lemma_position_within, position_at, within};
#[allow(unused_imports)]
use crate::shape::{product, row_major, sizes_of, Dim, Shape};
#[allow(unused_imports)]
use crate::values::{
    at, axis_in, greatest, has_axis, is_sound, lemma_in_place, lemma_numbers, lemma_row_major_place,
    number, place, place_below, row, sizes, stored, total, truth, whole, Numbers,
};
use vstd::prelude::*;

verus! {

/// The numbers that the nodes of a graph of `luminal` store, by their places.
pub struct Run {
    pub stored: spec_fn(nat, int) -> real,
}

/// The shape in which a layout reads what is stored.
pub open spec fn shape_of(layout: Layout) -> Shape {
    Shape {
        dims: Seq::new(
            layout.indexes.len(),
            |a: int| Dim::Known(layout.dims[layout.indexes[a] as int]),
        ),
        places: Seq::new(
            layout.indexes.len(),
            |a: int|
                if layout.fake[layout.indexes[a] as int] {
                    None
                } else {
                    Some(layout.indexes[a])
                },
        ),
    }
}

/// Where the part of an axis ends that a layout reads.
pub open spec fn part_end(layout: Layout, a: int) -> int {
    let size = layout.dims[layout.indexes[a] as int];
    if layout.slices[a].1 < size {
        layout.slices[a].1 as int
    } else {
        size as int
    }
}

/// The sizes that a layout has: those of the parts that it reads, with the zeros before
/// and behind them.
pub open spec fn read_sizes(layout: Layout) -> Seq<usize> {
    Seq::new(
        layout.indexes.len(),
        |a: int|
            (part_end(layout, a) - layout.slices[a].0 + layout.padding[a].0
                + layout.padding[a].1) as usize,
    )
}

/// Whether a layout reads what is stored at an index, and no zero.
pub open spec fn is_inside(layout: Layout, index: Seq<int>) -> bool {
    forall|a: int|
        0 <= a < layout.indexes.len() ==> layout.padding[a].0 <= #[trigger] index[a]
            < layout.padding[a].0 + part_end(layout, a) - layout.slices[a].0
}

/// The index among the stored axes that a layout reads for an index.
pub open spec fn moved(layout: Layout, index: Seq<int>) -> Seq<int> {
    Seq::new(
        layout.indexes.len(),
        |a: int| index[a] - layout.padding[a].0 + layout.slices[a].0,
    )
}

/// The number that an input has at an index.
pub open spec fn read(run: Run, input: (nat, Layout), index: Seq<int>) -> real {
    if is_inside(input.1, index) {
        (run.stored)(input.0, place(shape_of(input.1), moved(input.1, index)))
    } else {
        0real
    }
}

/// The number that an input has in a position.
pub open spec fn read_at(run: Run, input: (nat, Layout), s: int) -> real {
    read(run, input, index_at(read_sizes(input.1), s))
}

/// The numbers that an input has along an axis.
pub open spec fn read_row(run: Run, input: (nat, Layout), s: int, axis: int) -> Seq<real> {
    let lengths = read_sizes(input.1);
    let index = index_at(lengths.remove(axis), s);
    Seq::new(lengths[axis] as nat, |k: int| read(run, input, index.insert(axis, k)))
}

/// Whether a node with an operator of one input stores what this computes in a place.
/// Operators on single numbers take them as they are stored, without the layout.
pub open spec fn runs_single(
    m: Numbers,
    run: Run,
    kernel: Single,
    input: (nat, Layout),
    id: nat,
    s: int,
) -> bool {
    let x = (run.stored)(input.0, s);
    (run.stored)(id, s) == match kernel {
        Single::Contiguous => read_at(run, input, s),
        Single::Sqrt => (m.sqrt)(x),
        Single::Exp2 => (m.exp2)(x),
        Single::Sin => (m.sin)(x),
        Single::Recip => 1real / x,
        Single::SumReduce(axis) => total(read_row(run, input, s, axis as int)),
        Single::MaxReduce(axis) => greatest(read_row(run, input, s, axis as int)),
    }
}

/// Whether a node with an operator of two inputs stores what this computes in a place.
pub open spec fn runs_double(
    m: Numbers,
    run: Run,
    kernel: Double,
    inputs: Seq<(nat, Layout)>,
    id: nat,
    s: int,
) -> bool {
    let x = read_at(run, inputs[0], s);
    let y = read_at(run, inputs[1], s);
    (run.stored)(id, s) == match kernel {
        Double::Add => x + y,
        Double::Mul => x * y,
        Double::Mod => (m.rem)(x, y),
        Double::LessThan => truth(x < y),
    }
}

/// Whether a node with a function stores what the name of the function says.
pub open spec fn runs_function(
    m: Numbers,
    run: Run,
    name: Seq<char>,
    inputs: Seq<(nat, Layout)>,
    id: nat,
    s: int,
) -> bool {
    let v = (run.stored)(id, s);
    let x = (run.stored)(inputs[0].0, s);
    let y = (run.stored)(inputs[1].0, s);
    &&& forall|given: Seq<char>|
        name == #[trigger] (given + " Load"@) ==> v == (m.given)(given, s)
    &&& forall|bits: u32|
        name == #[trigger] ("Constant "@ + decimal(bits as int)) ==> v == number(bits)
    &&& forall|value: i64|
        name == #[trigger] ("Integer "@ + decimal(value as int)) ==> v == value as real
    &&& forall|count: usize|
        name == #[trigger] ("Arange "@ + decimal(count as int)) ==> v == s as real
    &&& forall|size: usize, k: i32|
        name == #[trigger] ("Upper "@ + decimal(size as int) + " "@ + decimal(k as int)) ==> v
            == truth(s % size as int - s / size as int >= k)
    &&& forall|size: usize, k: i32|
        name == #[trigger] ("Lower "@ + decimal(size as int) + " "@ + decimal(k as int)) ==> v
            == truth(s % size as int - s / size as int <= k)
    &&& name == "Cos"@ ==> v == (m.cos)(x)
    &&& name == "Abs"@ ==> v == if x < 0real {
        0real - x
    } else {
        x
    }
    &&& name == "Cast F32"@ ==> v == (m.cast)(DType::F32, x)
    &&& name == "Cast F16"@ ==> v == (m.cast)(DType::F16, x)
    &&& name == "Cast Bf16"@ ==> v == (m.cast)(DType::Bf16, x)
    &&& name == "Cast Int"@ ==> v == (m.cast)(DType::Int, x)
    &&& name == "Pow"@ ==> v == (m.pow)(x, y)
    &&& name == "Eq"@ ==> v == truth(x == y)
    &&& name == "IntAdd"@ ==> v == read_at(run, inputs[0], s) + read_at(run, inputs[1], s)
    &&& name == "IntMul"@ ==> v == read_at(run, inputs[0], s) * read_at(run, inputs[1], s)
    &&& name == "Gather"@ ==> v == (run.stored)(inputs[0].0, whole(read_at(run, inputs[1], s)))
}

/// Whether a node of a graph of `luminal` stores what its operator computes in a place.
pub open spec fn runs(m: Numbers, run: Run, nodes: Map<nat, Lowered>, id: nat, s: int) -> bool {
    match nodes[id].kernel {
        Kernel::One(kernel) => runs_single(m, run, kernel, nodes[id].inputs[0], id, s),
        Kernel::Two(kernel) => runs_double(m, run, kernel, nodes[id].inputs, id, s),
        Kernel::Function(name) => runs_function(m, run, name, nodes[id].inputs, id, s),
    }
}

/// Whether all nodes of a graph of `luminal` store what their operators compute.
pub open spec fn is_run(m: Numbers, run: Run, nodes: Map<nat, Lowered>) -> bool {
    forall|id: nat, s: int| nodes.contains_key(id) ==> #[trigger] runs(m, run, nodes, id, s)
}

/// How many numbers a node stores, if it has inputs, by the sizes of its result.
pub open spec fn node_sizes(node: Node) -> Seq<usize> {
    let a = sizes_of(node.inputs@[0]@.shape.dims);
    match node.op@ {
        Operation::Reduce(_, axis) => a.remove(axis as int),
        Operation::Gather => sizes_of(node.inputs@[1]@.shape.dims),
        Operation::Slice(ranges) => Seq::new(
            ranges.len(),
            |i: int| (ranges[i].1->Known_0 - ranges[i].0->Known_0) as usize,
        ),
        Operation::Concat(axis) => a.update(
            axis as int,
            (a[axis as int] + sizes_of(node.inputs@[1]@.shape.dims)[axis as int]) as usize,
        ),
        _ => a,
    }
}

/// Whether a node stores a number in a place.
pub open spec fn has_place(node: Node, s: int) -> bool {
    node.inputs@.len() > 0 ==> 0 <= s < product(node_sizes(node))
}

/// Whether the shape of a tensor reads only what its node stores.
pub open spec fn fits(nodes: Seq<Node>, tensor: Handle) -> bool {
    &&& is_sound(tensor.shape)
    &&& forall|index: Seq<int>|
        within(sizes_of(tensor.shape.dims), index) ==> has_place(
            nodes[tensor.id as int],
            #[trigger] place(tensor.shape, index),
        )
}

/// Whether a node has as many inputs as its operation takes, with the sizes that go
/// together.
pub open spec fn is_regular(node: Node) -> bool {
    let inputs = node.inputs@;
    let a = sizes_of(inputs[0]@.shape.dims);
    let b = sizes_of(inputs[1]@.shape.dims);
    match node.op@ {
        Operation::Unary(_) => inputs.len() == 1,
        Operation::Binary(_) => inputs.len() == 2 && a == b,
        Operation::Reduce(_, axis) => inputs.len() == 1 && axis < a.len(),
        Operation::Gather => inputs.len() == 2,
        Operation::Slice(ranges) => {
            &&& inputs.len() == 1
            &&& ranges.len() == a.len()
            &&& forall|i: int|
                0 <= i < ranges.len() ==> {
                    &&& (#[trigger] ranges[i]).0 is Known
                    &&& ranges[i].1 is Known
                    &&& ranges[i].0->Known_0 <= ranges[i].1->Known_0 <= a[i]
                }
        },
        Operation::Concat(axis) => {
            &&& inputs.len() == 2
            &&& a.len() == b.len()
            &&& axis < a.len()
            &&& forall|i: int| 0 <= i < a.len() && i != axis ==> #[trigger] a[i] == b[i]
        },
        _ => inputs.len() == 0,
    }
}

/// Whether all nodes of a graph are regular, and each reads only what the nodes before
/// it store, Gather nodes included.
pub open spec fn is_whole_graph(m: Numbers, graph: ComputeGraph) -> bool {
    &&& forall|i: int| 0 <= i < graph.nodes@.len() ==> is_regular(#[trigger] graph.nodes@[i])
    &&& forall|i: int, k: int|
        0 <= i < graph.nodes@.len() && 0 <= k < graph.nodes@[i].inputs@.len() ==> fits(
            graph.nodes@,
            (#[trigger] graph.nodes@[i].inputs@[k])@,
        )
    &&& forall|i: int, s: int|
        0 <= i < graph.nodes@.len() && graph.nodes@[i].op@ == Operation::Gather && has_place(
            graph.nodes@[i],
            s,
        ) ==> 0 <= #[trigger] sought(m, graph, i, s) < product(
            sizes_of(graph.nodes@[i].inputs@[0]@.shape.dims),
        )
}

/// The position that a Gather node takes a number from.
pub open spec fn sought(m: Numbers, graph: ComputeGraph, i: int, s: int) -> int {
    let b = graph.meaning(graph.nodes@[i].inputs@[1]@);
    whole(at(m, b, index_at(sizes(b), s)))
}

/// Shapes whose axes have the same sizes and are stored in the same order store an
/// element in the same place.
proof fn lemma_same_order(a: Shape, b: Shape, index: Seq<int>, j: nat, k: nat)
    requires
        is_sound(a),
        is_sound(b),
        a.dims == b.dims,
        j <= usize::MAX + 1,
        k <= usize::MAX + 1,
        forall|i: int|
            0 <= i < a.dims.len() ==> (#[trigger] a.places[i] is Some) == (b.places[i] is Some),
        forall|i: int, l: int|
            0 <= i < a.dims.len() && 0 <= l < a.dims.len() && a.places[i] is Some
                && a.places[l] is Some && (#[trigger] a.places[i])->0 < (
            #[trigger] a.places[l])->0 ==> b.places[i]->0 < b.places[l]->0,
        forall|i: int|
            0 <= i < a.dims.len() && (#[trigger] a.places[i]) is Some ==> (a.places[i]->0 < j) == (
            b.places[i]->0 < k),
    ensures
        place_below(a, index, j) == place_below(b, index, k),
    decreases j + k,
{
    if j > 0 && !has_axis(a, j - 1) {
        assert forall|i: int| 0 <= i < a.dims.len() && (#[trigger] a.places[i]) is Some implies (
        a.places[i]->0 < j - 1) == (b.places[i]->0 < k) by {
            if a.places[i]->0 == j - 1 {
                assert(a.places[i] == Some((j - 1) as usize));
            }
        }
        lemma_same_order(a, b, index, (j - 1) as nat, k);
        let p = place_below(a, index, (j - 1) as nat);
        assert(p * 1 == p);
    } else if k > 0 && !has_axis(b, k - 1) {
        assert forall|i: int| 0 <= i < a.dims.len() && (#[trigger] a.places[i]) is Some implies (
        a.places[i]->0 < j) == (b.places[i]->0 < k - 1) by {
            if b.places[i]->0 == k - 1 {
                assert(b.places[i] == Some((k - 1) as usize));
            }
        }
        lemma_same_order(a, b, index, j, (k - 1) as nat);
        let p = place_below(b, index, (k - 1) as nat);
        assert(p * 1 == p);
    } else if j == 0 {
        if k > 0 {
            let y = axis_in(b, k - 1);
            assert(0 <= y < b.places.len() && b.places[y] == Some((k - 1) as usize));
            assert(a.places[y] is Some);
            assert(a.places[y]->0 < j);
        }
    } else {
        let x = axis_in(a, j - 1);
        assert(0 <= x < a.places.len() && a.places[x] == Some((j - 1) as usize));
        assert(b.places[x]->0 < k);
        let y = axis_in(b, k - 1);
        assert(0 <= y < b.places.len() && b.places[y] == Some((k - 1) as usize));
        assert(a.places[y] is Some);
        assert(a.places[y]->0 < j);
        if x != y {
            assert(a.places[y] != a.places[x]);
            assert(a.places[y]->0 < a.places[x]->0);
            assert(b.places[y]->0 < b.places[x]->0);
        }
        lemma_in_place(a, index, j - 1, x);
        lemma_in_place(b, index, k - 1, y);
        assert forall|i: int| 0 <= i < a.dims.len() && (#[trigger] a.places[i]) is Some implies (
        a.places[i]->0 < j - 1) == (b.places[i]->0 < k - 1) by {
            if a.places[i]->0 == j - 1 {
                assert(a.places[i] == a.places[x]);
            }
            if b.places[i]->0 == k - 1 {
                assert(b.places[i] == b.places[y]);
            }
        }
        lemma_same_order(a, b, index, (j - 1) as nat, (k - 1) as nat);
    }
}

/// A layout that reads in the way that a shape does reads the same places.
proof fn lemma_laid_out(shape: Shape, layout: Layout, index: Seq<int>)
    requires
        is_sound(shape),
        lays_out(shape, layout),
    ensures
        is_sound(shape_of(layout)),
        shape_of(layout).dims == shape.dims,
        place(shape_of(layout), index) == place(shape, index),
{
    let b = shape_of(layout);
    let rank = shape.dims.len() as int;
    assert(b.dims =~= shape.dims) by {
        assert forall|a: int| 0 <= a < rank implies b.dims[a] == shape.dims[a] by {
            assert(layout.indexes[a] < rank);
        }
    }
    assert forall|i: int, j: int|
        0 <= i < b.places.len() && 0 <= j < b.places.len() && (#[trigger] b.places[i]) is Some
            && b.places[i] == #[trigger] b.places[j] implies i == j by {
        assert(layout.indexes[i] == layout.indexes[j]);
    }
    assert forall|i: int| 0 <= i < rank implies (#[trigger] shape.places[i] is Some) == (
    b.places[i] is Some) by {
        assert(layout.indexes[i] < rank);
    }
    assert forall|i: int, l: int|
        0 <= i < rank && 0 <= l < rank && shape.places[i] is Some && shape.places[l] is Some && (
        #[trigger] shape.places[i])->0 < (
        #[trigger] shape.places[l])->0 implies b.places[i]->0 < b.places[l]->0 by {
        assert(precedes(shape.places, i, l));
        assert(layout.indexes[i] < layout.indexes[l]);
        assert(b.places[i] is Some && b.places[l] is Some);
    }
    let all = (usize::MAX + 1) as nat;
    lemma_same_order(shape, b, index, all, all);
}

/// What a plain layout reads: each axis as a whole, with no zeros around it.
proof fn lemma_plain(run: Run, input: (nat, Layout), shape: Shape, index: Seq<int>)
    requires
        is_sound(shape),
        can_lay_out(shape),
        plainly_lays_out(shape, input.1),
        within(sizes_of(shape.dims), index),
    ensures
        read_sizes(input.1) == sizes_of(shape.dims),
        read(run, input, index) == (run.stored)(input.0, place(shape, index)),
{
    let layout = input.1;
    lemma_laid_out(shape, layout, index);
    let rank = shape.dims.len() as int;
    assert forall|a: int| 0 <= a < rank implies #[trigger] part_end(layout, a)
        == shape.dims[a]->Known_0 by {
        assert(shape.dims[a] is Known);
        assert(layout.indexes[a] < rank);
    }
    assert(read_sizes(layout) =~= sizes_of(shape.dims)) by {
        assert forall|a: int| 0 <= a < rank implies read_sizes(layout)[a] == sizes_of(
            shape.dims,
        )[a] by {
            assert(part_end(layout, a) == shape.dims[a]->Known_0);
        }
    }
    assert(is_inside(layout, index)) by {
        assert forall|a: int| 0 <= a < rank implies layout.padding[a].0 <= #[trigger] index[a]
            < layout.padding[a].0 + part_end(layout, a) - layout.slices[a].0 by {
            assert(0 <= index[a] < sizes_of(shape.dims)[a]);
            assert(part_end(layout, a) == shape.dims[a]->Known_0);
        }
    }
    assert(moved(layout, index) =~= index);
}

/// The tensor of a node, whatever shape it is read in.
pub open spec fn node_tensor(graph: ComputeGraph, i: int) -> Tensor {
    let c = computation(graph.nodes@, i);
    Tensor { op: c.op, inputs: c.inputs, shape: row_major(Seq::empty()) }
}

/// What is stored does not depend on the shape in which it is read.
proof fn lemma_any_shape(m: Numbers, t: Tensor, u: Tensor, s: int)
    requires
        t.op == u.op,
        t.inputs == u.inputs,
    ensures
        stored(m, t, s) == stored(m, u, s),
{
}

/// An input of a node reads, from the node that it is connected with, the numbers of
/// its tensor, by its layout, and if they are put in order for it, by their positions.
proof fn lemma_input(
    m: Numbers,
    run: Run,
    graph: ComputeGraph,
    lowered: LoweredGraph,
    i: int,
    k: int,
    index: Seq<int>,
)
    requires
        can_lower(graph),
        is_lowered(graph, lowered),
        is_run(m, run, contents(lowered.graph)),
        is_whole_graph(m, graph),
        0 <= i < graph.nodes@.len(),
        0 <= k < graph.nodes@[i].inputs@.len(),
        within(sizes_of(graph.nodes@[i].inputs@[k]@.shape.dims), index),
    ensures
        ({
            let input = contents(lowered.graph)[lowered.ids@[i] as nat].inputs[k];
            let a = graph.meaning(graph.nodes@[i].inputs@[k]@);
            let in_order = needs_order(graph.nodes@[i].op@, k);
            &&& shape_of(input.1).dims == a.dims()
            &&& (run.stored)(input.0, place(shape_of(input.1), index)) == at(m, a, index)
            &&& in_order ==> (run.stored)(input.0, position_at(sizes(a), index)) == at(m, a, index)
        }),
    decreases i, 0int,
{
    let nodes = contents(lowered.graph);
    let ids = lowered.ids@;
    let node = graph.nodes@[i];
    let tensor = node.inputs@[k]@;
    let input = nodes[ids[i] as nat].inputs[k];
    let a = graph.meaning(tensor);
    let shape = tensor.shape;
    assert(can_lower_node(graph.nodes@, i));
    assert(node.inputs@[k]@.id < i && can_lay_out(shape));
    assert(stands_for(nodes, ids[i] as nat, node, ids));
    assert(fits(graph.nodes@, tensor));
    let in_order = needs_order(node.op@, k);
    assert(reads(nodes, input, tensor, ids, in_order));
    let from = tensor.id as int;
    let p = place(shape, index);
    assert(has_place(graph.nodes@[from], p));
    lemma_node(m, run, graph, lowered, from, p);
    lemma_any_shape(m, node_tensor(graph, from), a, p);
    if in_order && !shape.contiguous() {
        let plain = row_major(shape.dims);
        lemma_row_major_place(shape.dims, index);
        lemma_laid_out(plain, input.1, index);
        let s = position_at(sizes(a), index);
        lemma_position_within(sizes(a), index);
        let c = nodes[input.0];
        lemma_plain(run, c.inputs[0], shape, index);
        assert(runs(m, run, nodes, input.0, s));
    } else {
        lemma_laid_out(shape, input.1, index);
        if in_order {
            lemma_contiguous_place(shape, index);
        }
    }
}

/// Where the layout of an input is plain, it reads the number of its tensor.
proof fn lemma_plain_input(
    m: Numbers,
    run: Run,
    graph: ComputeGraph,
    lowered: LoweredGraph,
    i: int,
    k: int,
    index: Seq<int>,
)
    requires
        can_lower(graph),
        is_lowered(graph, lowered),
        is_run(m, run, contents(lowered.graph)),
        is_whole_graph(m, graph),
        0 <= i < graph.nodes@.len(),
        0 <= k < graph.nodes@[i].inputs@.len(),
        !(graph.nodes@[i].op@ is Slice),
        !(graph.nodes@[i].op@ is Concat),
        within(sizes_of(graph.nodes@[i].inputs@[k]@.shape.dims), index),
    ensures
        ({
            let input = contents(lowered.graph)[lowered.ids@[i] as nat].inputs[k];
            let a = graph.meaning(graph.nodes@[i].inputs@[k]@);
            &&& read_sizes(input.1) == sizes(a)
            &&& read(run, input, index) == at(m, a, index)
        }),
    decreases i, 1int,
{
    lemma_input(m, run, graph, lowered, i, k, index);
    let nodes = contents(lowered.graph);
    let ids = lowered.ids@;
    let node = graph.nodes@[i];
    let tensor = node.inputs@[k]@;
    let input = nodes[ids[i] as nat].inputs[k];
    let layout = input.1;
    let dims = tensor.shape.dims;
    assert(can_lower_node(graph.nodes@, i));
    assert(node.inputs@[k]@.id < i && can_lay_out(tensor.shape));
    assert(stands_for(nodes, ids[i] as nat, node, ids));
    assert(reads(nodes, input, tensor, ids, needs_order(node.op@, k)));
    assert(shape_of(layout).dims == dims);
    let rank = dims.len() as int;
    assert(layout.indexes.len() == rank);
    assert forall|a: int| 0 <= a < rank implies #[trigger] part_end(layout, a)
        == dims[a]->Known_0 by {
        assert(dims[a] is Known);
        assert(shape_of(layout).dims[a] == dims[a]);
    }
    assert(read_sizes(layout) =~= sizes_of(dims)) by {
        assert forall|a: int| 0 <= a < rank implies read_sizes(layout)[a] == sizes_of(dims)[a] by {
            assert(part_end(layout, a) == dims[a]->Known_0);
        }
    }
    assert(is_inside(layout, index)) by {
        assert forall|a: int| 0 <= a < rank implies layout.padding[a].0 <= #[trigger] index[a]
            < layout.padding[a].0 + part_end(layout, a) - layout.slices[a].0 by {
            assert(0 <= index[a] < sizes_of(dims)[a]);
            assert(part_end(layout, a) == dims[a]->Known_0);
        }
    }
    assert(moved(layout, index) =~= index);
}

/// The node that a node became stores the numbers of the node.
proof fn lemma_node(
    m: Numbers,
    run: Run,
    graph: ComputeGraph,
    lowered: LoweredGraph,
    i: int,
    s: int,
)
    requires
        can_lower(graph),
        is_lowered(graph, lowered),
        is_run(m, run, contents(lowered.graph)),
        is_whole_graph(m, graph),
        0 <= i < graph.nodes@.len(),
        has_place(graph.nodes@[i], s),
    ensures
        (run.stored)(lowered.ids@[i] as nat, s) == stored(m, node_tensor(graph, i), s),
    decreases i, 3int,
{
    let nodes = contents(lowered.graph);
    let id = lowered.ids@[i] as nat;
    let node = graph.nodes@[i];
    assert(stands_for(nodes, id, node, lowered.ids@));
    assert(is_regular(node));
    assert(can_lower_node(graph.nodes@, i));
    assert(runs(m, run, nodes, id, s));
    let t = node_tensor(graph, i);
    assert forall|k: int| 0 <= k < node.inputs@.len() implies #[trigger] t.inputs[k]
        == graph.meaning(node.inputs@[k]@) by {
        assert(node.inputs@[k]@.id < i);
    }
    match node.op@ {
        Operation::Load(name) => {
            assert(nodes[id].kernel == Kernel::Function(name + " Load"@));
        },
        Operation::Constant(bits) => {
            assert(nodes[id].kernel == Kernel::Function("Constant "@ + decimal(bits as int)));
        },
        Operation::Integer(value) => {
            assert(nodes[id].kernel == Kernel::Function("Integer "@ + decimal(value as int)));
        },
        Operation::Arange(count) => {
            assert(nodes[id].kernel == Kernel::Function("Arange "@ + decimal(count as int)));
        },
        Operation::Triangle(upper, size, diagonal) => {
            if upper {
                assert(nodes[id].kernel == Kernel::Function(
                    "Upper "@ + decimal(size as int) + " "@ + decimal(diagonal as int),
                ));
            } else {
                assert(nodes[id].kernel == Kernel::Function(
                    "Lower "@ + decimal(size as int) + " "@ + decimal(diagonal as int),
                ));
            }
        },
        Operation::Reduce(op, axis) => {
            lemma_reduced(m, run, graph, lowered, i, s);
        },
        Operation::Slice(_) => {
            lemma_sliced(m, run, graph, lowered, i, s);
        },
        Operation::Concat(_) => {
            lemma_joined(m, run, graph, lowered, i, s);
        },
        Operation::Gather => {
            let b = t.inputs[1];
            let index = index_at(sizes(b), s);
            lemma_index_within(sizes(b), s);
            lemma_plain_input(m, run, graph, lowered, i, 1, index);
            let a = t.inputs[0];
            let p = sought(m, graph, i, s);
            assert(0 <= p < product(sizes(a)));
            lemma_index_within(sizes(a), p);
            lemma_input(m, run, graph, lowered, i, 0, index_at(sizes(a), p));
        },
        Operation::Unary(op) => {
            let a = t.inputs[0];
            let index = index_at(sizes(a), s);
            lemma_index_within(sizes(a), s);
            lemma_input(m, run, graph, lowered, i, 0, index);
            assert(needs_order(node.op@, 0));
        },
        Operation::Binary(op) => {
            let a = t.inputs[0];
            let b = t.inputs[1];
            let index = index_at(sizes(a), s);
            lemma_index_within(sizes(a), s);
            lemma_plain_input(m, run, graph, lowered, i, 0, index);
            lemma_plain_input(m, run, graph, lowered, i, 1, index);
            lemma_input(m, run, graph, lowered, i, 0, index);
            lemma_input(m, run, graph, lowered, i, 1, index);
        },
    }
}

proof fn lemma_reduced(
    m: Numbers,
    run: Run,
    graph: ComputeGraph,
    lowered: LoweredGraph,
    i: int,
    s: int,
)
    requires
        can_lower(graph),
        is_lowered(graph, lowered),
        is_run(m, run, contents(lowered.graph)),
        is_whole_graph(m, graph),
        0 <= i < graph.nodes@.len(),
        graph.nodes@[i].op@ is Reduce,
        has_place(graph.nodes@[i], s),
    ensures
        (run.stored)(lowered.ids@[i] as nat, s) == stored(m, node_tensor(graph, i), s),
    decreases i, 2int,
{
    let nodes = contents(lowered.graph);
    let id = lowered.ids@[i] as nat;
    let node = graph.nodes@[i];
    assert(stands_for(nodes, id, node, lowered.ids@));
    assert(is_regular(node));
    assert(can_lower_node(graph.nodes@, i));
    assert(runs(m, run, nodes, id, s));
    let t = node_tensor(graph, i);
    assert(node.inputs@[0]@.id < i);
    assert(t.inputs[0] == graph.meaning(node.inputs@[0]@));
    let a = t.inputs[0];
    let axis = node.op@->Reduce_1 as int;
    let input = nodes[id].inputs[0];
    let others = sizes(a).remove(axis);
    let index = index_at(others, s);
    lemma_index_within(others, s);
    assert forall|k: int| 0 <= k < sizes(a)[axis] implies within(
        sizes(a),
        #[trigger] index.insert(axis, k),
    ) by {
        let full = index.insert(axis, k);
        assert forall|x: int| 0 <= x < sizes(a).len() implies 0 <= #[trigger] full[x] < sizes(
            a,
        )[x] by {
            if x < axis {
                assert(0 <= index[x] < others[x]);
            } else if x > axis {
                assert(0 <= index[x - 1] < others[x - 1]);
            }
        }
    }
    assert(read_sizes(input.1) == sizes(a)) by {
        lemma_sizes(graph, lowered, i, 0);
    }
    assert(read_row(run, input, s, axis) =~= row(m, a, index, axis)) by {
        assert forall|k: int| 0 <= k < sizes(a)[axis] implies read_row(run, input, s, axis)[k]
            == row(m, a, index, axis)[k] by {
            assert(within(sizes(a), index.insert(axis, k)));
            lemma_plain_input(m, run, graph, lowered, i, 0, index.insert(axis, k));
        }
    }
}

/// A plain layout has the sizes of its tensor.
proof fn lemma_sizes(graph: ComputeGraph, lowered: LoweredGraph, i: int, k: int)
    requires
        can_lower(graph),
        is_lowered(graph, lowered),
        0 <= i < graph.nodes@.len(),
        0 <= k < graph.nodes@[i].inputs@.len(),
        !(graph.nodes@[i].op@ is Slice),
        !(graph.nodes@[i].op@ is Concat),
    ensures
        read_sizes(contents(lowered.graph)[lowered.ids@[i] as nat].inputs[k].1) == sizes_of(
            graph.nodes@[i].inputs@[k]@.shape.dims,
        ),
{
    let nodes = contents(lowered.graph);
    let ids = lowered.ids@;
    let node = graph.nodes@[i];
    let tensor = node.inputs@[k]@;
    let input = nodes[ids[i] as nat].inputs[k];
    let layout = input.1;
    let dims = tensor.shape.dims;
    assert(can_lower_node(graph.nodes@, i));
    assert(node.inputs@[k]@.id < i && can_lay_out(tensor.shape));
    assert(stands_for(nodes, ids[i] as nat, node, ids));
    assert(reads(nodes, input, tensor, ids, needs_order(node.op@, k)));
    let rank = dims.len() as int;
    assert(layout.indexes.len() == rank);
    assert(read_sizes(layout) =~= sizes_of(dims)) by {
        assert forall|a: int| 0 <= a < rank implies read_sizes(layout)[a] == sizes_of(dims)[a] by {
            assert(dims[a] is Known);
            assert(layout.indexes[a] < rank);
            assert(dims[a] == Dim::Known(layout.dims[layout.indexes[a] as int]));
        }
    }
}

proof fn lemma_sliced(
    m: Numbers,
    run: Run,
    graph: ComputeGraph,
    lowered: LoweredGraph,
    i: int,
    s: int,
)
    requires
        can_lower(graph),
        is_lowered(graph, lowered),
        is_run(m, run, contents(lowered.graph)),
        is_whole_graph(m, graph),
        0 <= i < graph.nodes@.len(),
        graph.nodes@[i].op@ is Slice,
        has_place(graph.nodes@[i], s),
    ensures
        (run.stored)(lowered.ids@[i] as nat, s) == stored(m, node_tensor(graph, i), s),
    decreases i, 2int,
{
    let nodes = contents(lowered.graph);
    let id = lowered.ids@[i] as nat;
    let node = graph.nodes@[i];
    assert(stands_for(nodes, id, node, lowered.ids@));
    assert(is_regular(node));
    assert(can_lower_node(graph.nodes@, i));
    assert(runs(m, run, nodes, id, s));
    let t = node_tensor(graph, i);
    assert(node.inputs@[0]@.id < i && can_lay_out(node.inputs@[0]@.shape));
    assert(t.inputs[0] == graph.meaning(node.inputs@[0]@));
    let a = t.inputs[0];
    let ranges = node.op@->Slice_0;
    let input = nodes[id].inputs[0];
    let layout = input.1;
    let widths = node_sizes(node);
    let index = index_at(widths, s);
    lemma_index_within(widths, s);
    let rank = ranges.len() as int;
    let inner = Seq::new(index.len(), |x: int| index[x] + ranges[x].0->Known_0);
    assert(reads(nodes, input, node.inputs@[0]@, lowered.ids@, needs_order(node.op@, 0)));
    assert(within(sizes(a), inner)) by {
        assert forall|x: int| 0 <= x < sizes(a).len() implies 0 <= #[trigger] inner[x] < sizes(
            a,
        )[x] by {
            assert(ranges[x].0 is Known);
            assert(0 <= index[x] < widths[x]);
        }
    }
    lemma_input(m, run, graph, lowered, i, 0, inner);
    assert(layout.indexes.len() == rank);
    assert forall|x: int| 0 <= x < rank implies #[trigger] part_end(layout, x)
        == ranges[x].1->Known_0 by {
        assert(a.dims()[x] is Known);
        assert(ranges[x].0 is Known);
        assert(shape_of(layout).dims[x] == a.dims()[x]);
    }
    assert(read_sizes(layout) =~= widths) by {
        assert forall|x: int| 0 <= x < rank implies read_sizes(layout)[x] == widths[x] by {
            assert(ranges[x].0 is Known);
            assert(part_end(layout, x) == ranges[x].1->Known_0);
        }
    }
    assert(is_inside(layout, index)) by {
        assert forall|x: int| 0 <= x < rank implies layout.padding[x].0 <= #[trigger] index[x]
            < layout.padding[x].0 + part_end(layout, x) - layout.slices[x].0 by {
            assert(ranges[x].0 is Known);
            assert(0 <= index[x] < widths[x]);
            assert(part_end(layout, x) == ranges[x].1->Known_0);
        }
    }
    assert(moved(layout, index) =~= inner);
}

proof fn lemma_joined(
    m: Numbers,
    run: Run,
    graph: ComputeGraph,
    lowered: LoweredGraph,
    i: int,
    s: int,
)
    requires
        can_lower(graph),
        is_lowered(graph, lowered),
        is_run(m, run, contents(lowered.graph)),
        is_whole_graph(m, graph),
        0 <= i < graph.nodes@.len(),
        graph.nodes@[i].op@ is Concat,
        has_place(graph.nodes@[i], s),
    ensures
        (run.stored)(lowered.ids@[i] as nat, s) == stored(m, node_tensor(graph, i), s),
    decreases i, 2int,
{
    let nodes = contents(lowered.graph);
    let id = lowered.ids@[i] as nat;
    let node = graph.nodes@[i];
    assert(stands_for(nodes, id, node, lowered.ids@));
    assert(is_regular(node));
    assert(can_lower_node(graph.nodes@, i));
    assert(runs(m, run, nodes, id, s));
    let t = node_tensor(graph, i);
    assert(node.inputs@[0]@.id < i && can_lay_out(node.inputs@[0]@.shape));
    assert(node.inputs@[1]@.id < i && can_lay_out(node.inputs@[1]@.shape));
    let a = t.inputs[0];
    let b = t.inputs[1];
    assert(a == graph.meaning(node.inputs@[0]@));
    assert(b == graph.meaning(node.inputs@[1]@));
    let axis = node.op@->Concat_0 as int;
    let first = sizes(a)[axis] as int;
    let second = sizes(b)[axis] as int;
    assert(a.dims()[axis] is Known && b.dims()[axis] is Known);
    let both = node_sizes(node);
    let index = index_at(both, s);
    lemma_index_within(both, s);
    assert(both[axis] == first + second);
    let x = nodes[id].inputs[0];
    let y = nodes[id].inputs[1];
    lemma_padded(graph, lowered, i, 0);
    lemma_padded(graph, lowered, i, 1);
    assert forall|k: int| 0 <= k < both.len() && k != axis implies 0 <= #[trigger] index[k]
        < sizes(a)[k] && index[k] < sizes(b)[k] by {
        assert(0 <= index[k] < both[k]);
        assert(sizes(a)[k] == sizes(b)[k]);
    }
    assert(0 <= index[axis] < both[axis]);
    if index[axis] < first {
        assert(within(sizes(a), index));
        lemma_input(m, run, graph, lowered, i, 0, index);
        assert(is_inside(x.1, index)) by {
            assert forall|k: int| 0 <= k < x.1.indexes.len() implies x.1.padding[k].0
                <= #[trigger] index[k] < x.1.padding[k].0 + part_end(x.1, k)
                - x.1.slices[k].0 by {
                assert(part_end(x.1, k) == sizes(a)[k]);
            }
        }
        assert(moved(x.1, index) =~= index);
        assert(!is_inside(y.1, index)) by {
            assert(y.1.padding[axis].0 == first);
            assert(index[axis] < y.1.padding[axis].0);
        }
        let v = at(m, a, index);
        assert(v + 0real == v);
    } else {
        let inner = index.update(axis, index[axis] - first);
        assert(within(sizes(b), inner)) by {
            assert forall|k: int| 0 <= k < sizes(b).len() implies 0 <= #[trigger] inner[k] < sizes(
                b,
            )[k] by {
                if k != axis {
                    assert(0 <= index[k] < sizes(a)[k]);
                }
            }
        }
        lemma_input(m, run, graph, lowered, i, 1, inner);
        assert(is_inside(y.1, index)) by {
            assert forall|k: int| 0 <= k < y.1.indexes.len() implies y.1.padding[k].0
                <= #[trigger] index[k] < y.1.padding[k].0 + part_end(y.1, k)
                - y.1.slices[k].0 by {
                assert(part_end(y.1, k) == sizes(b)[k]);
            }
        }
        assert(moved(y.1, index) =~= inner);
        assert(!is_inside(x.1, index)) by {
            assert(part_end(x.1, axis) == first);
            assert(x.1.padding[axis].0 == 0);
            assert(!(index[axis] < x.1.padding[axis].0 + part_end(x.1, axis)
                - x.1.slices[axis].0));
        }
        let v = at(m, b, inner);
        assert(0real + v == v);
    }
}

/// What the layouts of two tensors that are put one after the other read, and what
/// sizes they have with the zeros in the place of the other one.
proof fn lemma_padded(graph: ComputeGraph, lowered: LoweredGraph, i: int, k: int)
    requires
        can_lower(graph),
        is_lowered(graph, lowered),
        0 <= i < graph.nodes@.len(),
        0 <= k < 2,
        graph.nodes@[i].op@ is Concat,
        is_regular(graph.nodes@[i]),
    ensures
        ({
            let node = graph.nodes@[i];
            let layout = contents(lowered.graph)[lowered.ids@[i] as nat].inputs[k].1;
            let own = sizes_of(node.inputs@[k]@.shape.dims);
            &&& read_sizes(layout) == node_sizes(node)
            &&& layout.indexes.len() == own.len()
            &&& forall|x: int| 0 <= x < own.len() ==> #[trigger] part_end(layout, x) == own[x]
        }),
{
    let nodes = contents(lowered.graph);
    let ids = lowered.ids@;
    let node = graph.nodes@[i];
    let tensor = node.inputs@[k]@;
    let input = nodes[ids[i] as nat].inputs[k];
    let layout = input.1;
    let dims = tensor.shape.dims;
    let own = sizes_of(dims);
    assert(can_lower_node(graph.nodes@, i));
    assert(node.inputs@[0]@.id < i && can_lay_out(node.inputs@[0]@.shape));
    assert(node.inputs@[1]@.id < i && can_lay_out(node.inputs@[1]@.shape));
    assert(stands_for(nodes, ids[i] as nat, node, ids));
    assert(reads(nodes, input, tensor, ids, needs_order(node.op@, k)));
    let rank = dims.len() as int;
    assert(layout.indexes.len() == rank);
    assert forall|x: int| 0 <= x < rank implies #[trigger] part_end(layout, x) == own[x] by {
        assert(dims[x] is Known);
        assert(layout.indexes[x] < rank);
        assert(dims[x] == Dim::Known(layout.dims[layout.indexes[x] as int]));
    }
    let a = sizes_of(node.inputs@[0]@.shape.dims);
    let b = sizes_of(node.inputs@[1]@.shape.dims);
    assert(read_sizes(layout) =~= node_sizes(node)) by {
        assert forall|x: int| 0 <= x < rank implies read_sizes(layout)[x] == node_sizes(
            node,
        )[x] by {
            assert(part_end(layout, x) == own[x]);
            if x != node.op@->Concat_0 {
                assert(a[x] == b[x]);
            }
        }
    }
}

/// Where all nodes of the graph of `luminal` that a graph became store what their
/// operators compute, the node that a node became stores the numbers of that node.
pub proof fn law_lowered_nodes_compute(
    m: Numbers,
    run: Run,
    graph: ComputeGraph,
    lowered: LoweredGraph,
    i: int,
    s: int,
)
    requires
        can_lower(graph),
        is_lowered(graph, lowered),
        is_run(m, run, contents(lowered.graph)),
        is_whole_graph(m, graph),
        0 <= i < graph.nodes@.len(),
        has_place(graph.nodes@[i], s),
    ensures
        (run.stored)(lowered.ids@[i] as nat, s) == stored(m, node_tensor(graph, i), s),
{
    lemma_node(m, run, graph, lowered, i, s);
}

/// Where all nodes of the graph of `luminal` that a graph became store what their
/// operators compute, the nodes of the results that are asked for store the numbers of
/// these tensors, in the order of their positions.
pub proof fn law_lowered_results(
    m: Numbers,
    run: Run,
    graph: ComputeGraph,
    lowered: LoweredGraph,
    j: int,
    index: Seq<int>,
)
    requires
        can_lower(graph),
        is_lowered(graph, lowered),
        is_run(m, run, contents(lowered.graph)),
        is_whole_graph(m, graph),
        0 <= j < graph.outputs@.len(),
        fits(graph.nodes@, graph.outputs@[j]@),
        within(sizes_of(graph.outputs@[j]@.shape.dims), index),
    ensures
        ({
            let tensor = graph.outputs@[j]@;
            let s = position_at(sizes_of(tensor.shape.dims), index);
            (run.stored)(lowered.outputs@[j] as nat, s) == at(m, graph.meaning(tensor), index)
        }),
{
    let nodes = contents(lowered.graph);
    let tensor = graph.outputs@[j]@;
    let shape = tensor.shape;
    assert(can_lay_out(shape));
    let a = graph.meaning(tensor);
    let s = position_at(sizes(a), index);
    let p = place(shape, index);
    let id = lowered.outputs@[j] as nat;
    assert(stores(nodes, id, tensor, lowered.ids@));
    assert(has_place(graph.nodes@[tensor.id as int], p));
    lemma_node(m, run, graph, lowered, tensor.id as int, p);
    lemma_any_shape(m, node_tensor(graph, tensor.id as int), a, p);
    if shape.contiguous() {
        lemma_contiguous_place(shape, index);
    } else {
        lemma_position_within(sizes(a), index);
        lemma_plain(run, nodes[id].inputs[0], shape, index);
        assert(runs(m, run, nodes, id, s));
    }
}

/// The numbers that a node stands for by itself are those that it stores.
pub proof fn law_own_numbers(m: Numbers, t: Tensor, s: int)
    ensures
        own_numbers(t.op) matches Some(list) ==> 0 <= s < list.len() ==> number(list[s]) == stored(
            m,
            t,
            s,
        ),
        own_wholes(t.op) matches Some(list) ==> 0 <= s < list.len() ==> list[s] as real == stored(
            m,
            t,
            s,
        ),
{
    lemma_numbers();
}

} // verus!

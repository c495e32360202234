//! The computation graph that an importer builds.
//!
//! A [`ComputeGraph`] is a list of nodes; a [`GraphTensor`] names one of them together
//! with the shape in which its result is read. What a tensor stands for is a
//! [`Tensor`]: the operation that computes it, the tensors that go into that
//! operation, and the shape. Nodes are only ever added, so what a tensor
//! stands for never changes.

use crate::shape::{copy_dims, row_major, Dim, Shape, Tracker};
#[allow(unused_imports)]
use crate::shape::{can_broadcast, is_permutation};
use vstd::prelude::*;

verus! {

/// The types that a tensor can be cast to.
#[derive(Clone, Copy, PartialEq, Eq, Debug, Structural)]
pub enum DType {
    F32,
    F16,
    Bf16,
    Int,
}

/// Operations on each element of one tensor.
#[derive(Clone, Copy, PartialEq, Eq, Debug, Structural)]
pub enum Unary {
    Sqrt,
    Exp2,
    Sin,
    Cos,
    Abs,
    Recip,
    Cast(DType),
}

/// Operations on the elements at the same index of two tensors.
#[derive(Clone, Copy, PartialEq, Eq, Debug, Structural)]
pub enum Binary {
    Add,
    Mul,
    Rem,
    Pow,
    Eq,
    Lt,
    /// The sum of whole numbers.
    IntAdd,
    /// The product of whole numbers.
    IntMul,
}

/// Operations that combine the elements along an axis.
#[derive(Clone, Copy, PartialEq, Eq, Debug, Structural)]
pub enum Reduction {
    Max,
    Sum,
}

/// What a node computes, as a value of the specification.
#[verifier::ext_equal]
pub enum Operation {
    /// The data that is given to the node of this name.
    Load(Seq<char>),
    /// The number with these bits.
    Constant(u32),
    /// A whole number.
    Integer(i64),
    /// The whole numbers from 0 on, as many as this.
    Arange(usize),
    /// The square matrix that is 1 on one side of a diagonal, and 0 elsewhere.
    Triangle(bool, usize, i32),
    Unary(Unary),
    Binary(Binary),
    /// The combination of the elements along this axis.
    Reduce(Reduction, usize),
    /// The elements of the first input at the flat indices in the second.
    Gather,
    /// The elements from a start up to an end on each axis.
    Slice(Seq<(Dim, Dim)>),
    /// The first input followed by the second along this axis.
    Concat(usize),
}

/// What a tensor stands for.
#[verifier::ext_equal]
pub struct Tensor {
    pub op: Operation,
    pub inputs: Seq<Tensor>,
    pub shape: Shape,
}

/// A tensor whose result is stored axis by axis.
pub open spec fn made(op: Operation, inputs: Seq<Tensor>, dims: Seq<Dim>) -> Tensor {
    Tensor { op, inputs, shape: row_major(dims) }
}

/// The tensor that is given under the name `name`.
pub open spec fn load(name: Seq<char>, dims: Seq<Dim>) -> Tensor {
    made(Operation::Load(name), Seq::empty(), dims)
}

/// The scalar with these bits.
pub open spec fn scalar(bits: u32) -> Tensor {
    made(Operation::Constant(bits), Seq::empty(), Seq::empty())
}

/// The dimensions without those of the axes `axes`.
pub open spec fn dims_without(dims: Seq<Dim>, axes: Seq<usize>) -> Seq<Dim>
    decreases dims.len(),
{
    if dims.len() == 0 {
        Seq::empty()
    } else if axes.contains((dims.len() - 1) as usize) {
        dims_without(dims.drop_last(), axes)
    } else {
        dims_without(dims.drop_last(), axes).push(dims.last())
    }
}

/// Whether a matrix product of tensors with these dimensions is defined: a
/// vector or a batch of matrices times one matrix, or two batches of the same
/// size.
pub open spec fn can_multiply(a: Seq<Dim>, b: Seq<Dim>) -> bool {
    &&& a.len() >= 1
    &&& b.len() >= 2
    &&& a.last() == b[b.len() - 2]
    &&& {
        ||| b.len() == 2 && a.len() <= 3
        ||| b.len() == a.len() && a.len() <= 5 && a.subrange(0, a.len() - 2) == b.subrange(
            0,
            b.len() - 2,
        )
    }
}

/// The sum of two sizes.
pub open spec fn dim_sum(a: Dim, b: Dim) -> Dim {
    match (a, b) {
        (Dim::Known(x), Dim::Known(y)) => Dim::Known((x + y) as usize),
        _ => Dim::Dynamic,
    }
}

/// Whether tensors with these dimensions can be put one after the other along
/// `axis`: all other axes agree, and the length is representable.
pub open spec fn can_concat(a: Seq<Dim>, b: Seq<Dim>, axis: int) -> bool {
    &&& a.len() == b.len()
    &&& 0 <= axis < a.len()
    &&& forall|i: int| 0 <= i < a.len() && i != axis ==> #[trigger] a[i] == b[i]
    &&& (a[axis] is Known && b[axis] is Known ==> a[axis]->Known_0 + b[axis]->Known_0
        <= usize::MAX)
}

/// The size of the part of an axis from a start up to an end.
pub open spec fn range_size(range: (Dim, Dim)) -> Dim {
    match range {
        (Dim::Known(start), Dim::Known(end)) => Dim::Known((end - start) as usize),
        _ => Dim::Dynamic,
    }
}

/// Whether the parts of the axes from a start up to an end do not end before
/// they start.
pub open spec fn ranges_ordered(ranges: Seq<(Dim, Dim)>) -> bool {
    forall|i: int|
        0 <= i < ranges.len() ==> ((#[trigger] ranges[i]).0 is Known && ranges[i].1 is Known
            ==> ranges[i].0->Known_0 <= ranges[i].1->Known_0)
}

impl Tensor {
    pub open spec fn dims(self) -> Seq<Dim> {
        self.shape.dims
    }

    /// The tensor whose axis `i` is axis `axes[i]` of this one.
    pub open spec fn permuted(self, axes: Seq<usize>) -> Tensor {
        Tensor { shape: self.shape.permuted(axes), ..self }
    }

    /// The tensor repeated along a new axis before axis `axis`.
    pub open spec fn expanded(self, axis: int, dim: Dim) -> Tensor {
        Tensor { shape: self.shape.expanded(axis, dim), ..self }
    }

    /// The tensor without the axis `axis`, which has the size 1.
    pub open spec fn squeezed(self, axis: int) -> Tensor {
        Tensor { shape: self.shape.without(axis), ..self }
    }

    /// The tensor repeated into the sizes `target`.
    pub open spec fn broadcast(self, target: Seq<usize>) -> Tensor {
        Tensor { shape: self.shape.broadcast(target), ..self }
    }

    /// The elements of the tensor, in the order in which they are stored, read
    /// with other dimensions.
    pub open spec fn reshaped(self, dims: Seq<Dim>) -> Tensor {
        Tensor { shape: row_major(dims), ..self }
    }

    pub open spec fn unary(self, op: Unary) -> Tensor {
        made(Operation::Unary(op), seq![self], self.dims())
    }

    pub open spec fn binary(self, op: Binary, other: Tensor) -> Tensor {
        made(Operation::Binary(op), seq![self, other], self.dims())
    }

    pub open spec fn reduce(self, op: Reduction, axis: usize) -> Tensor {
        made(Operation::Reduce(op, axis), seq![self], self.dims().remove(axis as int))
    }

    pub open spec fn gather(self, indices: Tensor) -> Tensor {
        made(Operation::Gather, seq![self, indices], indices.dims())
    }

    pub open spec fn slice(self, ranges: Seq<(Dim, Dim)>) -> Tensor {
        made(
            Operation::Slice(ranges),
            seq![self],
            Seq::new(ranges.len(), |i: int| range_size(ranges[i])),
        )
    }

    pub open spec fn concat(self, other: Tensor, axis: usize) -> Tensor {
        made(
            Operation::Concat(axis),
            seq![self, other],
            self.dims().update(
                axis as int,
                dim_sum(self.dims()[axis as int], other.dims()[axis as int]),
            ),
        )
    }
}

/// A node of a graph and the shape in which its result is read.
#[derive(Debug)]
pub struct GraphTensor {
    pub id: usize,
    pub shape: Tracker,
}

/// A node of a graph and the shape in which its result is read, as a value of
/// the specification.
#[verifier::ext_equal]
pub struct Handle {
    pub id: nat,
    pub shape: Shape,
}

impl View for GraphTensor {
    type V = Handle;

    open spec fn view(&self) -> Handle {
        Handle { id: self.id as nat, shape: self.shape@ }
    }
}

/// What a node computes.
#[derive(Debug)]
pub enum Op {
    Load(String),
    Constant(u32),
    Integer(i64),
    Arange(usize),
    Triangle(bool, usize, i32),
    Unary(Unary),
    Binary(Binary),
    Reduce(Reduction, usize),
    Gather,
    Slice(Vec<(Dim, Dim)>),
    Concat(usize),
}

impl View for Op {
    type V = Operation;

    open spec fn view(&self) -> Operation {
        match self {
            Op::Load(name) => Operation::Load(name@),
            Op::Constant(bits) => Operation::Constant(*bits),
            Op::Integer(value) => Operation::Integer(*value),
            Op::Arange(count) => Operation::Arange(*count),
            Op::Triangle(upper, size, diagonal) => Operation::Triangle(*upper, *size, *diagonal),
            Op::Unary(op) => Operation::Unary(*op),
            Op::Binary(op) => Operation::Binary(*op),
            Op::Reduce(op, axis) => Operation::Reduce(*op, *axis),
            Op::Gather => Operation::Gather,
            Op::Slice(ranges) => Operation::Slice(ranges@),
            Op::Concat(axis) => Operation::Concat(*axis),
        }
    }
}

/// A node of a graph: what it computes, and from what.
#[derive(Debug)]
pub struct Node {
    pub op: Op,
    pub inputs: Vec<GraphTensor>,
}

/// What a node stands for, whatever shape its result is read in.
#[verifier::ext_equal]
pub struct Computation {
    pub op: Operation,
    pub inputs: Seq<Tensor>,
}

/// What the node `id` stands for.
pub open spec fn computation(nodes: Seq<Node>, id: int) -> Computation
    decreases id,
{
    Computation {
        op: nodes[id].op@,
        inputs: Seq::new(
            nodes[id].inputs@.len(),
            |k: int|
                {
                    let input = nodes[id].inputs@[k]@;
                    if 0 <= input.id < id {
                        let c = computation(nodes, input.id as int);
                        Tensor { op: c.op, inputs: c.inputs, shape: input.shape }
                    } else {
                        arbitrary()
                    }
                },
        ),
    }
}

/// A computation graph.
#[derive(Debug)]
pub struct ComputeGraph {
    /// The nodes, each after those that go into it.
    pub nodes: Vec<Node>,
    /// The tensors whose results are asked for.
    pub outputs: Vec<GraphTensor>,
}

/// The tensors whose results are asked for, as values of the specification.
pub open spec fn asked(outputs: Seq<GraphTensor>) -> Seq<Handle> {
    outputs.map_values(|tensor: GraphTensor| tensor@)
}

/// `b` has the nodes of `a`, and perhaps more, asks for the same results, and
/// has each node after those that go into it if `a` has.
pub open spec fn grows(a: ComputeGraph, b: ComputeGraph) -> bool {
    &&& a.nodes@.len() <= b.nodes@.len()
    &&& b.nodes@.subrange(0, a.nodes@.len() as int) == a.nodes@
    &&& a.outputs@ == b.outputs@
    &&& a.wf() ==> b.wf()
}

/// Nodes that are added to a graph leave what the others stand for as it was.
pub proof fn lemma_computation_kept(a: Seq<Node>, b: Seq<Node>, id: int)
    requires
        a.len() <= b.len(),
        b.subrange(0, a.len() as int) == a,
        0 <= id < a.len(),
    ensures
        computation(b, id) == computation(a, id),
    decreases id,
{
    assert(b[id] == b.subrange(0, a.len() as int)[id]);
    let ca = computation(a, id);
    let cb = computation(b, id);
    assert forall|k: int| 0 <= k < a[id].inputs@.len() implies ca.inputs[k] == cb.inputs[k] by {
        let input = a[id].inputs@[k]@;
        if 0 <= input.id < id {
            lemma_computation_kept(a, b, input.id as int);
        }
    }
    assert(ca.inputs =~= cb.inputs);
}

impl ComputeGraph {
    /// Every node comes after those that go into it.
    pub open spec fn wf(self) -> bool {
        forall|i: int, k: int|
            0 <= i < self.nodes@.len() && 0 <= k < self.nodes@[i].inputs@.len() ==> {
                &&& (#[trigger] self.nodes@[i].inputs@[k])@.id < i
                &&& self.nodes@[i].inputs@[k]@.shape.wf()
            }
    }

    /// Whether the graph has the node of a tensor.
    pub open spec fn holds(self, tensor: Handle) -> bool {
        tensor.id < self.nodes@.len() && tensor.shape.wf()
    }

    /// What a tensor stands for.
    pub open spec fn meaning(self, tensor: Handle) -> Tensor {
        let c = computation(self.nodes@, tensor.id as int);
        Tensor { op: c.op, inputs: c.inputs, shape: tensor.shape }
    }
}

/// A graph that stays as it is grows by nothing.
pub broadcast proof fn lemma_grows_reflexive(a: ComputeGraph)
    ensures
        #[trigger] grows(a, a),
{
    assert(a.nodes@.subrange(0, a.nodes@.len() as int) =~= a.nodes@);
}

/// Growth is transitive.
pub broadcast proof fn lemma_grows_transitive(a: ComputeGraph, b: ComputeGraph, c: ComputeGraph)
    requires
        #[trigger] grows(a, b),
        #[trigger] grows(b, c),
    ensures
        grows(a, c),
{
    assert(c.nodes@.subrange(0, a.nodes@.len() as int) =~= a.nodes@) by {
        assert forall|i: int| 0 <= i < a.nodes@.len() implies c.nodes@[i] == a.nodes@[i] by {
            assert(c.nodes@.subrange(0, b.nodes@.len() as int)[i] == b.nodes@[i]);
            assert(b.nodes@.subrange(0, a.nodes@.len() as int)[i] == a.nodes@[i]);
        }
    }
}

/// What a tensor stands for does not change when the graph grows.
pub broadcast proof fn lemma_meaning_kept(a: ComputeGraph, b: ComputeGraph, tensor: Handle)
    requires
        #[trigger] grows(a, b),
        a.holds(tensor),
    ensures
        #[trigger] b.meaning(tensor) == a.meaning(tensor),
        b.holds(tensor),
{
    lemma_computation_kept(a.nodes@, b.nodes@, tensor.id as int);
}

pub broadcast group group_graph {
    lemma_grows_reflexive,
    lemma_grows_transitive,
    lemma_meaning_kept,
}

/// Whether `axis` is one of `axes`.
pub fn names_axis(axes: &Vec<usize>, axis: usize) -> (found: bool)
    ensures
        found == axes@.contains(axis),
{
    let mut i: usize = 0;
    while i < axes.len()
        invariant
            i <= axes.len(),
            forall|k: int| 0 <= k < i ==> axes@[k] != axis,
        decreases axes.len() - i,
    {
        if axes[i] == axis {
            return true;
        }
        i = i + 1;
    }
    false
}

/// Whether two vectors hold the same dimensions.
pub fn same_dims(a: &Vec<Dim>, b: &Vec<Dim>) -> (same: bool)
    ensures
        same == (a@ == b@),
{
    if a.len() != b.len() {
        return false;
    }
    let mut i: usize = 0;
    while i < a.len()
        invariant
            a.len() == b.len(),
            i <= a.len(),
            forall|k: int| 0 <= k < i ==> a@[k] == b@[k],
        decreases a.len() - i,
    {
        if a[i] != b[i] {
            return false;
        }
        i = i + 1;
    }
    assert(a@ =~= b@);
    true
}

impl GraphTensor {
    /// The same tensor.
    pub fn copy(&self) -> (tensor: GraphTensor)
        ensures
            tensor@ == self@,
    {
        GraphTensor { id: self.id, shape: self.shape.copy() }
    }

    /// The dimensions of the tensor.
    pub fn dims(&self) -> (dims: &Vec<Dim>)
        ensures
            dims@ == self@.shape.dims,
    {
        &self.shape.dims
    }

    /// The tensor whose axis `i` is axis `axes[i]` of this one.
    pub fn permute(&self, axes: &Vec<usize>) -> (tensor: GraphTensor)
        requires
            self@.shape.wf(),
            is_permutation(axes@, self@.shape.dims.len()),
        ensures
            tensor@ == (Handle { shape: self@.shape.permuted(axes@), ..self@ }),
            tensor@.shape.wf(),
    {
        GraphTensor { id: self.id, shape: self.shape.permute(axes) }
    }

    /// The tensor repeated along a new axis before axis `axis`.
    pub fn expand_dim(&self, axis: usize, dim: Dim) -> (tensor: GraphTensor)
        requires
            self@.shape.wf(),
            axis <= self@.shape.dims.len(),
        ensures
            tensor@ == (Handle { shape: self@.shape.expanded(axis as int, dim), ..self@ }),
            tensor@.shape.wf(),
    {
        GraphTensor { id: self.id, shape: self.shape.expand_dim(axis, dim) }
    }

    /// The tensor with a new axis of size 1 before axis `axis`.
    pub fn unsqueeze(&self, axis: usize) -> (tensor: GraphTensor)
        requires
            self@.shape.wf(),
            axis <= self@.shape.dims.len(),
        ensures
            tensor@ == (Handle {
                shape: self@.shape.expanded(axis as int, Dim::Known(1)),
                ..self@
            }),
            tensor@.shape.wf(),
    {
        self.expand_dim(axis, Dim::Known(1))
    }

    /// The tensor without the axis `axis`, which has the size 1.
    pub fn squeeze(&self, axis: usize) -> (tensor: GraphTensor)
        requires
            self@.shape.wf(),
            axis < self@.shape.dims.len(),
            self@.shape.dims[axis as int] == Dim::Known(1),
        ensures
            tensor@ == (Handle { shape: self@.shape.without(axis as int), ..self@ }),
            tensor@.shape.wf(),
    {
        GraphTensor { id: self.id, shape: self.shape.remove_dim(axis) }
    }

    /// The elements of the tensor in the order in which they are stored, read
    /// with other dimensions.
    pub fn reshape(&self, dims: Vec<Dim>) -> (tensor: GraphTensor)
        ensures
            tensor@ == (Handle { shape: row_major(dims@), ..self@ }),
            tensor@.shape.wf(),
    {
        GraphTensor { id: self.id, shape: Tracker::new(dims) }
    }
}

/// The tensor repeated into the sizes `target`, by the rules of numpy.
pub fn broadcast_to(tensor: &GraphTensor, target: &Vec<usize>) -> (repeated: GraphTensor)
    requires
        tensor@.shape.wf(),
        can_broadcast(tensor@.shape.dims, target@),
    ensures
        repeated@ == (Handle { shape: tensor@.shape.broadcast(target@), ..tensor@ }),
        repeated@.shape.wf(),
{
    GraphTensor { id: tensor.id, shape: tensor.shape.broadcast(target) }
}

impl ComputeGraph {
    /// A graph without nodes.
    pub fn new() -> (graph: ComputeGraph)
        ensures
            graph.nodes@.len() == 0,
            graph.outputs@.len() == 0,
            graph.wf(),
    {
        ComputeGraph { nodes: Vec::new(), outputs: Vec::new() }
    }

    /// Adds a node whose result has the dimensions `dims`.
    fn push(&mut self, op: Op, inputs: Vec<GraphTensor>, dims: Vec<Dim>) -> (tensor: GraphTensor)
        requires
            forall|k: int|
                0 <= k < inputs@.len() ==> old(self).holds((#[trigger] inputs@[k])@),
        ensures
            grows(*old(self), *final(self)),
            final(self).holds(tensor@),
            final(self).meaning(tensor@) == made(
                op@,
                Seq::new(inputs@.len(), |k: int| old(self).meaning(inputs@[k]@)),
                dims@,
            ),
    {
        let id: usize = self.nodes.len();
        let ghost given = inputs@;
        let ghost before = *self;
        self.nodes.push(Node { op, inputs });
        assert(self.nodes@.subrange(0, before.nodes@.len() as int) =~= before.nodes@);
        let tensor = GraphTensor { id, shape: Tracker::new(dims) };
        proof {
            let c = computation(self.nodes@, id as int);
            assert forall|k: int| 0 <= k < given.len() implies c.inputs[k] == before.meaning(
                given[k]@,
            ) by {
                assert(before.holds(given[k]@));
                lemma_computation_kept(before.nodes@, self.nodes@, given[k]@.id as int);
            }
            assert(c.inputs =~= Seq::new(given.len(), |k: int| before.meaning(given[k]@)));
        }
        tensor
    }

    fn push_one(&mut self, op: Op, x: &GraphTensor, dims: Vec<Dim>) -> (tensor: GraphTensor)
        requires
            old(self).holds(x@),
        ensures
            grows(*old(self), *final(self)),
            final(self).holds(tensor@),
            final(self).meaning(tensor@) == made(op@, seq![old(self).meaning(x@)], dims@),
    {
        let mut inputs: Vec<GraphTensor> = Vec::new();
        inputs.push(x.copy());
        let ghost meanings = Seq::new(inputs@.len(), |k: int| self.meaning(inputs@[k]@));
        assert(meanings =~= seq![self.meaning(x@)]);
        self.push(op, inputs, dims)
    }

    fn push_two(&mut self, op: Op, x: &GraphTensor, y: &GraphTensor, dims: Vec<Dim>) -> (tensor:
        GraphTensor)
        requires
            old(self).holds(x@),
            old(self).holds(y@),
        ensures
            grows(*old(self), *final(self)),
            final(self).holds(tensor@),
            final(self).meaning(tensor@) == made(
                op@,
                seq![old(self).meaning(x@), old(self).meaning(y@)],
                dims@,
            ),
    {
        let mut inputs: Vec<GraphTensor> = Vec::new();
        inputs.push(x.copy());
        inputs.push(y.copy());
        let ghost meanings = Seq::new(inputs@.len(), |k: int| self.meaning(inputs@[k]@));
        assert(meanings =~= seq![self.meaning(x@), self.meaning(y@)]);
        self.push(op, inputs, dims)
    }

    fn push_none(&mut self, op: Op, dims: Vec<Dim>) -> (tensor: GraphTensor)
        ensures
            grows(*old(self), *final(self)),
            final(self).holds(tensor@),
            final(self).meaning(tensor@) == made(op@, Seq::empty(), dims@),
    {
        let inputs: Vec<GraphTensor> = Vec::new();
        let ghost meanings = Seq::new(inputs@.len(), |k: int| self.meaning(inputs@[k]@));
        assert(meanings =~= Seq::empty());
        self.push(op, inputs, dims)
    }

    /// A tensor whose data is given under the name `name`.
    pub fn named_tensor(&mut self, name: &str, dims: Vec<Dim>) -> (tensor: GraphTensor)
        ensures
            grows(*old(self), *final(self)),
            final(self).holds(tensor@),
            final(self).meaning(tensor@) == load(name@, dims@),
    {
        self.push_none(Op::Load(String::from_str(name)), dims)
    }

    /// The scalar with the given bits.
    pub fn constant(&mut self, bits: u32) -> (tensor: GraphTensor)
        ensures
            grows(*old(self), *final(self)),
            final(self).holds(tensor@),
            final(self).meaning(tensor@) == scalar(bits),
    {
        self.push_none(Op::Constant(bits), Vec::new())
    }

    /// The scalar with the given whole number.
    pub fn constant_int(&mut self, value: i64) -> (tensor: GraphTensor)
        ensures
            grows(*old(self), *final(self)),
            final(self).holds(tensor@),
            final(self).meaning(tensor@) == made(
                Operation::Integer(value),
                Seq::empty(),
                Seq::empty(),
            ),
    {
        self.push_none(Op::Integer(value), Vec::new())
    }

    /// The whole numbers from 0 up to `count`.
    pub fn arange(&mut self, count: usize) -> (tensor: GraphTensor)
        ensures
            grows(*old(self), *final(self)),
            final(self).holds(tensor@),
            final(self).meaning(tensor@) == made(
                Operation::Arange(count),
                Seq::empty(),
                seq![Dim::Known(count)],
            ),
    {
        let mut dims: Vec<Dim> = Vec::new();
        dims.push(Dim::Known(count));
        assert(dims@ =~= seq![Dim::Known(count)]);
        self.push_none(Op::Arange(count), dims)
    }

    /// The square matrix that is 1 on and above (`upper`), or on and below, the
    /// diagonal that lies `diagonal` places to the right of the main one.
    pub fn triangle(&mut self, upper: bool, size: usize, diagonal: i32) -> (tensor: GraphTensor)
        ensures
            grows(*old(self), *final(self)),
            final(self).holds(tensor@),
            final(self).meaning(tensor@) == made(
                Operation::Triangle(upper, size, diagonal),
                Seq::empty(),
                seq![Dim::Known(size), Dim::Known(size)],
            ),
    {
        let mut dims: Vec<Dim> = Vec::new();
        dims.push(Dim::Known(size));
        dims.push(Dim::Known(size));
        assert(dims@ =~= seq![Dim::Known(size), Dim::Known(size)]);
        self.push_none(Op::Triangle(upper, size, diagonal), dims)
    }

    /// An operation on each element.
    pub fn unary(&mut self, op: Unary, x: &GraphTensor) -> (tensor: GraphTensor)
        requires
            old(self).holds(x@),
        ensures
            grows(*old(self), *final(self)),
            final(self).holds(tensor@),
            final(self).meaning(tensor@) == old(self).meaning(x@).unary(op),
    {
        let dims = copy_dims(&x.shape.dims);
        self.push_one(Op::Unary(op), x, dims)
    }

    /// An operation on the elements at the same index.
    pub fn binary(&mut self, op: Binary, x: &GraphTensor, y: &GraphTensor) -> (tensor: GraphTensor)
        requires
            old(self).holds(x@),
            old(self).holds(y@),
            x@.shape.dims == y@.shape.dims,
        ensures
            grows(*old(self), *final(self)),
            final(self).holds(tensor@),
            final(self).meaning(tensor@) == old(self).meaning(x@).binary(op, old(self).meaning(y@)),
    {
        let dims = copy_dims(&x.shape.dims);
        self.push_two(Op::Binary(op), x, y, dims)
    }

    /// The combination of the elements along an axis.
    pub fn reduce(&mut self, op: Reduction, x: &GraphTensor, axis: usize) -> (tensor: GraphTensor)
        requires
            old(self).holds(x@),
            axis < x@.shape.dims.len(),
        ensures
            grows(*old(self), *final(self)),
            final(self).holds(tensor@),
            final(self).meaning(tensor@) == old(self).meaning(x@).reduce(op, axis),
    {
        let mut dims = copy_dims(&x.shape.dims);
        let _ = dims.remove(axis);
        self.push_one(Op::Reduce(op, axis), x, dims)
    }

    /// The elements of `x` at the flat indices in `indices`.
    pub fn gather(&mut self, x: &GraphTensor, indices: &GraphTensor) -> (tensor: GraphTensor)
        requires
            old(self).holds(x@),
            old(self).holds(indices@),
        ensures
            grows(*old(self), *final(self)),
            final(self).holds(tensor@),
            final(self).meaning(tensor@) == old(self).meaning(x@).gather(
                old(self).meaning(indices@),
            ),
    {
        let dims = copy_dims(&indices.shape.dims);
        self.push_two(Op::Gather, x, indices, dims)
    }

    /// The elements from a start up to an end on each axis.
    pub fn slice(&mut self, x: &GraphTensor, ranges: Vec<(Dim, Dim)>) -> (tensor: GraphTensor)
        requires
            old(self).holds(x@),
            ranges@.len() == x@.shape.dims.len(),
            ranges_ordered(ranges@),
        ensures
            grows(*old(self), *final(self)),
            final(self).holds(tensor@),
            final(self).meaning(tensor@) == old(self).meaning(x@).slice(ranges@),
    {
        let mut dims: Vec<Dim> = Vec::new();
        let mut i: usize = 0;
        while i < ranges.len()
            invariant
                i <= ranges.len(),
                ranges_ordered(ranges@),
                dims@.len() == i,
                forall|k: int| 0 <= k < i ==> #[trigger] dims@[k] == range_size(ranges@[k]),
            decreases ranges.len() - i,
        {
            let range = ranges[i];
            assert(range == ranges@[i as int]);
            match range {
                (Dim::Known(start), Dim::Known(end)) => {
                    dims.push(Dim::Known(end - start));
                },
                _ => {
                    dims.push(Dim::Dynamic);
                },
            }
            i = i + 1;
        }
        assert(dims@ =~= Seq::new(ranges@.len(), |i: int| range_size(ranges@[i])));
        self.push_one(Op::Slice(ranges), x, dims)
    }

    /// `x` followed by `y` along an axis.
    pub fn concat(&mut self, x: &GraphTensor, y: &GraphTensor, axis: usize) -> (tensor: GraphTensor)
        requires
            old(self).holds(x@),
            old(self).holds(y@),
            can_concat(x@.shape.dims, y@.shape.dims, axis as int),
        ensures
            grows(*old(self), *final(self)),
            final(self).holds(tensor@),
            final(self).meaning(tensor@) == old(self).meaning(x@).concat(
                old(self).meaning(y@),
                axis,
            ),
    {
        let mut dims = copy_dims(&x.shape.dims);
        let size = match (x.shape.dims[axis], y.shape.dims[axis]) {
            (Dim::Known(a), Dim::Known(b)) => Dim::Known(a + b),
            _ => Dim::Dynamic,
        };
        dims.set(axis, size);
        self.push_two(Op::Concat(axis), x, y, dims)
    }

    /// Asks for the result of a tensor.
    pub fn output(&mut self, x: &GraphTensor)
        requires
            old(self).holds(x@),
        ensures
            final(self).nodes@ == old(self).nodes@,
            asked(final(self).outputs@) == asked(old(self).outputs@).push(x@),
    {
        self.outputs.push(x.copy());
        assert(asked(self.outputs@) =~= asked(old(self).outputs@).push(x@));
    }
}

/// Whether a matrix product of tensors with these dimensions is defined.
pub fn multiplies(a: &Vec<Dim>, b: &Vec<Dim>) -> (r: bool)
    ensures
        r == can_multiply(a@, b@),
{
    if a.len() < 1 || b.len() < 2 {
        return false;
    }
    if a[a.len() - 1] != b[b.len() - 2] {
        return false;
    }
    if b.len() == 2 && a.len() <= 3 {
        return true;
    }
    if b.len() != a.len() || a.len() > 5 {
        return false;
    }
    let mut i: usize = 0;
    while i < a.len() - 2
        invariant
            a.len() == b.len(),
            a.len() >= 2,
            i <= a.len() - 2,
            forall|k: int| 0 <= k < i ==> a@[k] == b@[k],
        decreases a.len() - i,
    {
        if a[i] != b[i] {
            assert(a@.subrange(0, a@.len() - 2)[i as int] != b@.subrange(0, b@.len() - 2)[i as int]);
            return false;
        }
        i = i + 1;
    }
    assert(a@.subrange(0, a@.len() - 2) =~= b@.subrange(0, b@.len() - 2));
    true
}

/// Whether tensors with these dimensions can be put one after the other.
pub fn concatenates(a: &Vec<Dim>, b: &Vec<Dim>, axis: usize) -> (r: bool)
    ensures
        r == can_concat(a@, b@, axis as int),
{
    if a.len() != b.len() || axis >= a.len() {
        return false;
    }
    let mut i: usize = 0;
    while i < a.len()
        invariant
            a.len() == b.len(),
            i <= a.len(),
            forall|k: int| 0 <= k < i && k != axis ==> #[trigger] a@[k] == b@[k],
        decreases a.len() - i,
    {
        if i != axis && a[i] != b[i] {
            return false;
        }
        i = i + 1;
    }
    match (a[axis], b[axis]) {
        (Dim::Known(x), Dim::Known(y)) => x <= usize::MAX - y,
        _ => true,
    }
}

/// Whether no part of an axis ends before it starts.
pub fn are_ordered(ranges: &Vec<(Dim, Dim)>) -> (r: bool)
    ensures
        r == ranges_ordered(ranges@),
{
    let mut i: usize = 0;
    while i < ranges.len()
        invariant
            i <= ranges.len(),
            forall|k: int|
                0 <= k < i ==> ((#[trigger] ranges@[k]).0 is Known && ranges@[k].1 is Known
                    ==> ranges@[k].0->Known_0 <= ranges@[k].1->Known_0),
        decreases ranges.len() - i,
    {
        let range = ranges[i];
        assert(range == ranges@[i as int]);
        match range {
            (Dim::Known(start), Dim::Known(end)) => {
                if start > end {
                    return false;
                }
            },
            _ => {},
        }
        i = i + 1;
    }
    true
}

} // verus!

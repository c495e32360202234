//! Operations that are composed of others.
//!
//! Differences, quotients, choices, means and products of matrices are made of the
//! operations that a graph has: of sums, products, reciprocals and sums along an
//! axis, of tensors that are repeated as needed.

use crate::bits::{from_usize, NEG_ONE, ONE};
#[allow(unused_imports)]
use crate::bits::of_int;
use crate::graph::{group_graph, names_axis, Binary, ComputeGraph, GraphTensor, Reduction, Unary};
#[allow(unused_imports)]
use crate::graph::{can_multiply, dims_without, grows, made, scalar, Handle, Operation, Tensor};
use crate::shape::Dim;
#[allow(unused_imports)]
use crate::shape::{is_permutation, Shape};
use vstd::prelude::*;

verus! {

broadcast use group_graph;

/// The shape repeated along the first `count` of `dims`, which come before its
/// own.
pub open spec fn led_by(shape: Shape, dims: Seq<Dim>, count: nat) -> Shape
    decreases count,
{
    if count == 0 {
        shape
    } else {
        led_by(shape.expanded(0, dims[count - 1]), dims, (count - 1) as nat)
    }
}

/// The tensor repeated along the first `count` of `dims`.
pub open spec fn led(t: Tensor, dims: Seq<Dim>, count: nat) -> Tensor {
    Tensor { shape: led_by(t.shape, dims, count), ..t }
}

/// Repeats a tensor along the first `count` of `dims`.
pub(crate) fn lead(t: &GraphTensor, dims: &Vec<Dim>, count: usize) -> (r: GraphTensor)
    requires
        t@.shape.wf(),
        count <= dims@.len(),
    ensures
        r@ == (Handle { shape: led_by(t@.shape, dims@, count as nat), ..t@ }),
        r@.shape.dims == dims@.subrange(0, count as int) + t@.shape.dims,
        r@.shape.wf(),
{
    let mut r = t.copy();
    let mut i: usize = count;
    assert(r@.shape.dims =~= dims@.subrange(i as int, count as int) + t@.shape.dims);
    while i > 0
        invariant
            i <= count <= dims@.len(),
            r@.shape.wf(),
            r@.id == t@.id,
            r@.shape.dims == dims@.subrange(i as int, count as int) + t@.shape.dims,
            led_by(r@.shape, dims@, i as nat) == led_by(t@.shape, dims@, count as nat),
        decreases i,
    {
        r = r.expand_dim(0, dims[i - 1]);
        i = i - 1;
        assert(r@.shape.dims =~= dims@.subrange(i as int, count as int) + t@.shape.dims);
    }
    r
}

/// The tensor repeated into all of `dims`, which come before its own.
pub open spec fn filled(t: Tensor, dims: Seq<Dim>) -> Tensor {
    led(t, dims, dims.len())
}

/// Repeats a tensor into all of `dims`.
pub(crate) fn fill(t: &GraphTensor, dims: &Vec<Dim>, Ghost(cx): Ghost<ComputeGraph>) -> (r: GraphTensor)
    requires
        cx.holds(t@),
    ensures
        cx.holds(r@),
        cx.meaning(r@) == filled(cx.meaning(t@), dims@),
        r@.shape.dims == dims@ + t@.shape.dims,
{
    let r = lead(t, dims, dims.len());
    assert(dims@.subrange(0, dims@.len() as int) =~= dims@);
    r
}

/// The axes of a tensor with the last two exchanged.
pub open spec fn last_two_exchanged(rank: nat) -> Seq<usize> {
    Seq::new(
        rank,
        |i: int|
            if i == rank - 2 {
                (rank - 1) as usize
            } else if i == rank - 1 {
                (rank - 2) as usize
            } else {
                i as usize
            },
    )
}

/// The size of an axis as a scalar: a number, or the sum of as many ones if it is
/// only known when the graph runs.
pub open spec fn size_scalar(dim: Dim) -> Tensor {
    match dim {
        Dim::Known(size) => scalar(of_int(size as int)),
        Dim::Dynamic => filled(scalar(ONE), seq![dim]).reduce(Reduction::Sum, 0),
    }
}

/// The number of elements along those of the first `n` axes that are in `axes`, as
/// a scalar.
pub open spec fn count_along(dims: Seq<Dim>, axes: Seq<usize>, n: nat) -> Tensor
    decreases n,
{
    if n == 0 {
        scalar(ONE)
    } else if axes.contains((n - 1) as usize) {
        count_along(dims, axes, (n - 1) as nat).binary(Binary::Mul, size_scalar(dims[n - 1]))
    } else {
        count_along(dims, axes, (n - 1) as nat)
    }
}

impl Tensor {
    /// The negative of each element: its product with -1.
    pub open spec fn negative(self) -> Tensor {
        self.binary(Binary::Mul, filled(scalar(NEG_ONE), self.dims()))
    }

    /// The product with the reciprocals of `other`.
    pub open spec fn quotient(self, other: Tensor) -> Tensor {
        self.binary(Binary::Mul, other.unary(Unary::Recip))
    }

    /// `self` where `condition` is 1, and `other` where it is 0:
    /// `condition * self + (1 - condition) * other`.
    pub open spec fn cond(self, condition: Tensor, other: Tensor) -> Tensor {
        let opposite = filled(scalar(ONE), condition.dims()).binary(
            Binary::Add,
            condition.negative(),
        );
        condition.binary(Binary::Mul, self).binary(
            Binary::Add,
            opposite.binary(Binary::Mul, other),
        )
    }

    /// The sum along those axes from `n` on that are in `axes`, the last one
    /// first.
    pub open spec fn summed(self, axes: Seq<usize>, n: nat) -> Tensor
        decreases self.dims().len() - n,
    {
        if n >= self.dims().len() {
            self
        } else if axes.contains(n as usize) {
            self.summed(axes, n + 1).reduce(Reduction::Sum, n as usize)
        } else {
            self.summed(axes, n + 1)
        }
    }

    /// The sum along some axes, times the reciprocal of the number of elements.
    pub open spec fn mean(self, axes: Seq<usize>) -> Tensor {
        let rest = dims_without(self.dims(), axes);
        let share = count_along(self.dims(), axes, self.dims().len()).unary(Unary::Recip);
        made(
            Operation::Binary(Binary::Mul),
            seq![self.summed(axes, 0), filled(share, rest)],
            rest,
        )
    }

    /// The product of matrices: the rows of the first, repeated for each column of
    /// the second, times the columns of the second, repeated for each row of the
    /// first, summed along the last axis.
    pub open spec fn matmul(self, other: Tensor) -> Tensor {
        let rank = self.dims().len();
        let turned = other.permuted(last_two_exchanged(other.dims().len()));
        let rows = self.expanded(rank - 1, other.dims().last());
        let columns = if other.dims().len() == 2 {
            led(turned, self.dims(), (rank - 1) as nat)
        } else {
            turned.expanded(rank - 2, self.dims()[rank - 2])
        };
        made(
            Operation::Reduce(Reduction::Sum, rank as usize),
            seq![rows.binary(Binary::Mul, columns)],
            self.dims().drop_last().push(other.dims().last()),
        )
    }
}

/// What is left of the dimensions before and behind axis `n`, once the axes from
/// `n` on are summed along.
pub proof fn lemma_summed_dims(t: Tensor, axes: Seq<usize>, n: nat)
    requires
        n <= t.dims().len() <= usize::MAX,
    ensures
        t.summed(axes, n).dims().len() >= n,
        t.summed(axes, n).dims().subrange(0, n as int) == t.dims().subrange(0, n as int),
        dims_without(t.dims().subrange(0, n as int), axes) + t.summed(axes, n).dims().skip(n as int)
            == dims_without(t.dims(), axes),
    decreases t.dims().len() - n,
{
    let dims = t.dims();
    let now = t.summed(axes, n).dims();
    if n == dims.len() {
        assert(dims.subrange(0, n as int) =~= dims);
        assert(now.skip(n as int) =~= Seq::empty());
        assert(dims_without(dims, axes) + Seq::<Dim>::empty() =~= dims_without(dims, axes));
    } else {
        let m = n + 1;
        lemma_summed_dims(t, axes, m);
        let later = t.summed(axes, m).dims();
        let start = dims.subrange(0, n as int);
        assert(dims.subrange(0, m as int).drop_last() =~= start);
        assert(later.subrange(0, m as int).drop_last() =~= later.subrange(0, n as int));
        assert(later[n as int] == later.subrange(0, m as int)[n as int]);
        assert(later[n as int] == dims[n as int]);
        if axes.contains(n as usize) {
            assert(now == later.remove(n as int));
            assert(now.subrange(0, n as int) =~= later.subrange(0, n as int));
            assert(now.skip(n as int) =~= later.skip(m as int));
        } else {
            assert(dims_without(dims.subrange(0, m as int), axes) == dims_without(start, axes).push(
                dims[n as int],
            ));
            assert(dims_without(start, axes) + now.skip(n as int) =~= dims_without(
                start,
                axes,
            ).push(dims[n as int]) + later.skip(m as int));
        }
    }
}

/// The axes of a tensor with the last two exchanged.
fn exchange_last_two(rank: usize) -> (axes: Vec<usize>)
    requires
        rank >= 2,
    ensures
        axes@ == last_two_exchanged(rank as nat),
        is_permutation(axes@, rank as nat),
{
    let mut axes: Vec<usize> = Vec::new();
    let mut i: usize = 0;
    while i < rank
        invariant
            i <= rank,
            rank >= 2,
            axes@.len() == i,
            forall|k: int| 0 <= k < i ==> #[trigger] axes@[k] == last_two_exchanged(rank as nat)[k],
        decreases rank - i,
    {
        axes.push(
            if i == rank - 2 {
                rank - 1
            } else if i == rank - 1 {
                rank - 2
            } else {
                i
            },
        );
        i = i + 1;
    }
    assert(axes@ =~= last_two_exchanged(rank as nat));
    axes
}

impl ComputeGraph {
    /// A number repeated into dimensions.
    fn constant_of(&mut self, bits: u32, dims: &Vec<Dim>) -> (tensor: GraphTensor)
        ensures
            grows(*old(self), *final(self)),
            final(self).holds(tensor@),
            final(self).meaning(tensor@) == filled(scalar(bits), dims@),
            tensor@.shape.dims == dims@,
    {
        let number = self.constant(bits);
        assert(self.meaning(number@).shape == number@.shape);
        let tensor = fill(&number, dims, Ghost(*self));
        assert(tensor@.shape.dims =~= dims@);
        tensor
    }

    /// The negative of each element.
    pub fn negate(&mut self, x: &GraphTensor) -> (tensor: GraphTensor)
        requires
            old(self).holds(x@),
        ensures
            grows(*old(self), *final(self)),
            final(self).holds(tensor@),
            final(self).meaning(tensor@) == old(self).meaning(x@).negative(),
            tensor@.shape.dims == x@.shape.dims,
    {
        let factor = self.constant_of(NEG_ONE, x.dims());
        let tensor = self.binary(Binary::Mul, x, &factor);
        assert(self.meaning(tensor@).shape == tensor@.shape);
        tensor
    }

    /// The product with the reciprocals of `y`.
    pub fn divide(&mut self, x: &GraphTensor, y: &GraphTensor) -> (tensor: GraphTensor)
        requires
            old(self).holds(x@),
            old(self).holds(y@),
            x@.shape.dims == y@.shape.dims,
        ensures
            grows(*old(self), *final(self)),
            final(self).holds(tensor@),
            final(self).meaning(tensor@) == old(self).meaning(x@).quotient(old(self).meaning(y@)),
    {
        let inverse = self.unary(Unary::Recip, y);
        assert(self.meaning(inverse@).shape == inverse@.shape);
        self.binary(Binary::Mul, x, &inverse)
    }

    /// `x` where `condition` is 1, and `y` where it is 0.
    pub fn cond(&mut self, x: &GraphTensor, condition: &GraphTensor, y: &GraphTensor) -> (tensor:
        GraphTensor)
        requires
            old(self).holds(x@),
            old(self).holds(condition@),
            old(self).holds(y@),
            x@.shape.dims == condition@.shape.dims,
            x@.shape.dims == y@.shape.dims,
        ensures
            grows(*old(self), *final(self)),
            final(self).holds(tensor@),
            final(self).meaning(tensor@) == old(self).meaning(x@).cond(
                old(self).meaning(condition@),
                old(self).meaning(y@),
            ),
    {
        let ones = self.constant_of(ONE, condition.dims());
        let negative = self.negate(condition);
        let opposite = self.binary(Binary::Add, &ones, &negative);
        assert(self.meaning(opposite@).shape == opposite@.shape);
        let chosen = self.binary(Binary::Mul, condition, x);
        assert(self.meaning(chosen@).shape == chosen@.shape);
        let other = self.binary(Binary::Mul, &opposite, y);
        assert(self.meaning(other@).shape == other@.shape);
        self.binary(Binary::Add, &chosen, &other)
    }

    /// The size of an axis as a scalar.
    fn add_size(&mut self, dim: Dim) -> (tensor: GraphTensor)
        ensures
            grows(*old(self), *final(self)),
            final(self).holds(tensor@),
            final(self).meaning(tensor@) == size_scalar(dim),
            tensor@.shape.dims.len() == 0,
    {
        let tensor = match dim {
            Dim::Known(size) => self.constant(from_usize(size)),
            Dim::Dynamic => {
                let dims: Vec<Dim> = vec![dim];
                assert(dims@ =~= seq![dim]);
                let ones = self.constant_of(ONE, &dims);
                self.reduce(Reduction::Sum, &ones, 0)
            },
        };
        assert(self.meaning(tensor@).shape == tensor@.shape);
        tensor
    }

    /// The mean of the elements along some axes.
    pub fn mean(&mut self, x: &GraphTensor, axes: &Vec<usize>) -> (tensor: GraphTensor)
        requires
            old(self).holds(x@),
        ensures
            grows(*old(self), *final(self)),
            final(self).holds(tensor@),
            final(self).meaning(tensor@) == old(self).meaning(x@).mean(axes@),
            tensor@.shape.dims == dims_without(x@.shape.dims, axes@),
    {
        let rank: usize = x.dims().len();
        let ghost t = self.meaning(x@);
        let ghost begin = *self;
        let mut sum = x.copy();
        let mut n: usize = rank;
        while n > 0
            invariant
                n <= rank,
                rank == t.dims().len(),
                grows(begin, *self),
                self.holds(sum@),
                self.meaning(sum@) == t.summed(axes@, n as nat),
            decreases n,
        {
            proof {
                lemma_summed_dims(t, axes@, n as nat);
                assert(self.meaning(sum@).shape == sum@.shape);
            }
            n = n - 1;
            if names_axis(axes, n) {
                sum = self.reduce(Reduction::Sum, &sum, n);
            }
        }
        let mut count = self.constant(ONE);
        let mut i: usize = 0;
        assert(self.meaning(count@).shape == count@.shape);
        while i < rank
            invariant
                i <= rank,
                rank == t.dims().len(),
                t.dims() == x@.shape.dims,
                grows(begin, *self),
                self.holds(sum@),
                self.meaning(sum@) == t.summed(axes@, 0),
                self.holds(count@),
                self.meaning(count@) == count_along(t.dims(), axes@, i as nat),
                count@.shape.dims.len() == 0,
            decreases rank - i,
        {
            if names_axis(axes, i) {
                let size = self.add_size(x.dims()[i]);
                assert(size@.shape.dims =~= count@.shape.dims);
                count = self.binary(Binary::Mul, &count, &size);
                assert(self.meaning(count@).shape == count@.shape);
            }
            i = i + 1;
        }
        let share = self.unary(Unary::Recip, &count);
        assert(self.meaning(share@).shape == share@.shape);
        proof {
            lemma_summed_dims(t, axes@, 0);
            assert(self.meaning(sum@).shape == sum@.shape);
            assert(sum@.shape.dims.skip(0) =~= sum@.shape.dims);
            assert(t.dims().subrange(0, 0) =~= Seq::empty());
            assert(Seq::<Dim>::empty() + sum@.shape.dims =~= sum@.shape.dims);
        }
        let spread = fill(&share, sum.dims(), Ghost(*self));
        assert(spread@.shape.dims =~= sum@.shape.dims);
        let tensor = self.binary(Binary::Mul, &sum, &spread);
        assert(self.meaning(tensor@).shape == tensor@.shape);
        tensor
    }

    /// The product of matrices.
    pub fn matmul(&mut self, x: &GraphTensor, y: &GraphTensor) -> (tensor: GraphTensor)
        requires
            old(self).holds(x@),
            old(self).holds(y@),
            can_multiply(x@.shape.dims, y@.shape.dims),
        ensures
            grows(*old(self), *final(self)),
            final(self).holds(tensor@),
            final(self).meaning(tensor@) == old(self).meaning(x@).matmul(old(self).meaning(y@)),
    {
        let rank: usize = x.dims().len();
        let other: usize = y.dims().len();
        let turned = y.permute(&exchange_last_two(other));
        let rows = x.expand_dim(rank - 1, y.dims()[other - 1]);
        let columns = if other == 2 {
            lead(&turned, x.dims(), rank - 1)
        } else {
            turned.expand_dim(rank - 2, x.dims()[rank - 2])
        };
        proof {
            let a = x@.shape.dims;
            let b = y@.shape.dims;
            if other != 2 {
                assert forall|i: int| 0 <= i < rank - 2 implies a[i] == b[i] by {
                    assert(a.subrange(0, a.len() - 2)[i] == b.subrange(0, b.len() - 2)[i]);
                }
            }
            assert(rows@.shape.dims =~= columns@.shape.dims);
        }
        let product = self.binary(Binary::Mul, &rows, &columns);
        assert(self.meaning(product@).shape == product@.shape);
        let tensor = self.reduce(Reduction::Sum, &product, rank);
        assert(rows@.shape.dims.remove(rank as int) =~= x@.shape.dims.drop_last().push(
            y@.shape.dims.last(),
        ));
        tensor
    }
}

} // verus!

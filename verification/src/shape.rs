//! Dimensions of tensors and the way their elements lie in memory.

use vstd::arithmetic::div_mod::*;
use vstd::prelude::*;

verus! {

/// The size of one axis.
#[derive(Clone, Copy, PartialEq, Eq, Debug, Structural)]
pub enum Dim {
    /// A size that is known when the graph is built.
    Known(usize),
    /// A size that is only known when the graph runs.
    Dynamic,
}

/// The sizes of the axes, and for each axis the place that it has in the order
/// of the stored axes. An axis without a place is a repetition: every index
/// along it reads the same element.
#[verifier::ext_equal]
pub struct Shape {
    pub dims: Seq<Dim>,
    pub places: Seq<Option<usize>>,
}

/// The dimensions of a shape whose sizes are all known.
pub open spec fn known_dims(sizes: Seq<usize>) -> Seq<Dim> {
    Seq::new(sizes.len(), |i: int| Dim::Known(sizes[i]))
}

/// Whether all sizes are known.
pub open spec fn all_known(dims: Seq<Dim>) -> bool {
    forall|i: int| 0 <= i < dims.len() ==> (#[trigger] dims[i]) is Known
}

/// The sizes of dimensions that are all known.
pub open spec fn sizes_of(dims: Seq<Dim>) -> Seq<usize> {
    Seq::new(dims.len(), |i: int| dims[i]->Known_0)
}

/// The shape of a tensor that is stored axis by axis in the given order.
pub open spec fn row_major(dims: Seq<Dim>) -> Shape {
    Shape { dims, places: Seq::new(dims.len(), |i: int| Some(i as usize)) }
}

/// Whether `axes` names each of `rank` axes once.
pub open spec fn is_permutation(axes: Seq<usize>, rank: nat) -> bool {
    &&& axes.len() == rank
    &&& forall|i: int| 0 <= i < axes.len() ==> #[trigger] axes[i] < rank
    &&& axes.no_duplicates()
}

/// Whether a tensor with the dimensions `dims` can be repeated into the sizes
/// `target`: the axes are matched from the last one backwards, and an axis
/// either has the size asked for or the size 1.
pub open spec fn can_broadcast(dims: Seq<Dim>, target: Seq<usize>) -> bool {
    &&& dims.len() <= target.len()
    &&& forall|j: int|
        0 <= j < dims.len() ==> {
            ||| #[trigger] dims[j] == Dim::Known(1)
            ||| dims[j] == Dim::Known(target[target.len() - dims.len() + j])
        }
}

impl Shape {
    /// As many places as dimensions.
    pub open spec fn wf(self) -> bool {
        self.dims.len() == self.places.len()
    }

    /// Nothing is repeated and the axes stand in the order of the stored ones.
    pub open spec fn contiguous(self) -> bool {
        &&& forall|i: int| 0 <= i < self.places.len() ==> (#[trigger] self.places[i]) is Some
        &&& forall|i: int, j: int|
            0 <= i < j < self.places.len() ==> (#[trigger] self.places[i])->0 < (
            #[trigger] self.places[j])->0
    }

    /// The shape whose axis `i` is axis `axes[i]` of this one.
    pub open spec fn permuted(self, axes: Seq<usize>) -> Shape {
        Shape {
            dims: Seq::new(axes.len(), |i: int| self.dims[axes[i] as int]),
            places: Seq::new(axes.len(), |i: int| self.places[axes[i] as int]),
        }
    }

    /// The shape with a repeated axis before axis `axis`.
    pub open spec fn expanded(self, axis: int, dim: Dim) -> Shape {
        Shape { dims: self.dims.insert(axis, dim), places: self.places.insert(axis, None) }
    }

    /// The shape without axis `axis`.
    pub open spec fn without(self, axis: int) -> Shape {
        Shape { dims: self.dims.remove(axis), places: self.places.remove(axis) }
    }

    /// The shape repeated into the sizes `target`.
    pub open spec fn broadcast(self, target: Seq<usize>) -> Shape {
        let lead = target.len() - self.dims.len();
        Shape {
            dims: known_dims(target),
            places: Seq::new(
                target.len(),
                |i: int|
                    if i >= lead && self.dims[i - lead] == Dim::Known(target[i]) {
                        self.places[i - lead]
                    } else {
                        None
                    },
            ),
        }
    }
}

/// The sizes of the axes of a tensor and their places in memory.
#[derive(Debug)]
pub struct Tracker {
    pub dims: Vec<Dim>,
    pub places: Vec<Option<usize>>,
}

impl View for Tracker {
    type V = Shape;

    open spec fn view(&self) -> Shape {
        Shape { dims: self.dims@, places: self.places@ }
    }
}

/// A copy of a vector of dimensions.
pub fn copy_dims(dims: &Vec<Dim>) -> (copy: Vec<Dim>)
    ensures
        copy@ == dims@,
{
    let mut copy: Vec<Dim> = Vec::new();
    let mut i: usize = 0;
    while i < dims.len()
        invariant
            i <= dims.len(),
            copy@ == dims@.subrange(0, i as int),
        decreases dims.len() - i,
    {
        copy.push(dims[i]);
        i = i + 1;
    }
    copy
}

/// The dimensions of a shape whose sizes are all known.
pub fn dims_of(sizes: &Vec<usize>) -> (dims: Vec<Dim>)
    ensures
        dims@ == known_dims(sizes@),
{
    let mut dims: Vec<Dim> = Vec::new();
    let mut i: usize = 0;
    while i < sizes.len()
        invariant
            i <= sizes.len(),
            dims@ == known_dims(sizes@.subrange(0, i as int)),
        decreases sizes.len() - i,
    {
        dims.push(Dim::Known(sizes[i]));
        i = i + 1;
        assert(dims@ =~= known_dims(sizes@.subrange(0, i as int)));
    }
    assert(sizes@.subrange(0, sizes.len() as int) =~= sizes@);
    dims
}

/// The sizes of the dimensions, if all are known.
pub fn known_sizes(dims: &Vec<Dim>) -> (sizes: Option<Vec<usize>>)
    ensures
        match sizes {
            Some(s) => all_known(dims@) && s@ == sizes_of(dims@) && known_dims(s@) == dims@,
            None => !all_known(dims@),
        },
{
    let mut sizes: Vec<usize> = Vec::new();
    let mut i: usize = 0;
    while i < dims.len()
        invariant
            i <= dims.len(),
            sizes@.len() == i,
            forall|k: int| 0 <= k < i ==> #[trigger] dims@[k] == Dim::Known(sizes@[k]),
        decreases dims.len() - i,
    {
        match dims[i] {
            Dim::Known(n) => {
                sizes.push(n);
            },
            Dim::Dynamic => {
                return None;
            },
        }
        i = i + 1;
    }
    assert(sizes@ =~= sizes_of(dims@));
    assert(known_dims(sizes@) =~= dims@);
    Some(sizes)
}

impl Tracker {
    /// The shape of a tensor that is stored axis by axis in the given order.
    pub fn new(dims: Vec<Dim>) -> (shape: Tracker)
        ensures
            shape@ == row_major(dims@),
            shape@.wf(),
    {
        let mut places: Vec<Option<usize>> = Vec::new();
        let mut i: usize = 0;
        while i < dims.len()
            invariant
                i <= dims.len(),
                places@.len() == i,
                forall|k: int| 0 <= k < i ==> #[trigger] places@[k] == Some(k as usize),
            decreases dims.len() - i,
        {
            places.push(Some(i));
            i = i + 1;
        }
        let shape = Tracker { dims, places };
        assert(shape@ =~= row_major(dims@));
        shape
    }

    /// A copy of the shape.
    pub fn copy(&self) -> (copy: Tracker)
        ensures
            copy@ == self@,
    {
        let mut places: Vec<Option<usize>> = Vec::new();
        let mut i: usize = 0;
        while i < self.places.len()
            invariant
                i <= self.places.len(),
                places@ == self.places@.subrange(0, i as int),
            decreases self.places.len() - i,
        {
            places.push(self.places[i]);
            i = i + 1;
        }
        Tracker { dims: copy_dims(&self.dims), places }
    }

    /// How many axes there are.
    pub fn len(&self) -> (rank: usize)
        ensures
            rank == self@.dims.len(),
    {
        self.dims.len()
    }

    /// Whether nothing is repeated and the axes stand in the order of the
    /// stored ones.
    pub fn is_contiguous(&self) -> (r: bool)
        ensures
            r == self@.contiguous(),
    {
        let mut i: usize = 0;
        while i < self.places.len()
            invariant
                i <= self.places.len(),
                forall|k: int| 0 <= k < i ==> (#[trigger] self.places@[k]) is Some,
                forall|j: int, k: int|
                    0 <= j < k < i ==> (#[trigger] self.places@[j])->0 < (
                    #[trigger] self.places@[k])->0,
            decreases self.places.len() - i,
        {
            match self.places[i] {
                None => {
                    assert(!(self@.places[i as int] is Some));
                    return false;
                },
                Some(place) => {
                    if i > 0 {
                        if let Some(before) = self.places[i - 1] {
                            if before >= place {
                                assert(!(self@.places[i - 1]->0 < self@.places[i as int]->0));
                                return false;
                            }
                        }
                    }
                },
            }
            i = i + 1;
        }
        true
    }

    /// The shape whose axis `i` is axis `axes[i]` of this one.
    pub fn permute(&self, axes: &Vec<usize>) -> (shape: Tracker)
        requires
            self@.wf(),
            forall|i: int| 0 <= i < axes@.len() ==> #[trigger] axes@[i] < self@.dims.len(),
        ensures
            shape@ == self@.permuted(axes@),
            shape@.wf(),
    {
        let mut dims: Vec<Dim> = Vec::new();
        let mut places: Vec<Option<usize>> = Vec::new();
        let mut i: usize = 0;
        while i < axes.len()
            invariant
                i <= axes.len(),
                self@.wf(),
                forall|k: int| 0 <= k < axes@.len() ==> #[trigger] axes@[k] < self@.dims.len(),
                dims@.len() == i,
                places@.len() == i,
                forall|k: int| 0 <= k < i ==> #[trigger] dims@[k] == self@.dims[axes@[k] as int],
                forall|k: int|
                    0 <= k < i ==> #[trigger] places@[k] == self@.places[axes@[k] as int],
            decreases axes.len() - i,
        {
            dims.push(self.dims[axes[i]]);
            places.push(self.places[axes[i]]);
            i = i + 1;
        }
        let shape = Tracker { dims, places };
        assert(shape@ =~= self@.permuted(axes@));
        shape
    }

    /// The shape with a repeated axis before axis `axis`.
    pub fn expand_dim(&self, axis: usize, dim: Dim) -> (shape: Tracker)
        requires
            self@.wf(),
            axis <= self@.dims.len(),
        ensures
            shape@ == self@.expanded(axis as int, dim),
            shape@.wf(),
    {
        let mut shape = self.copy();
        shape.dims.insert(axis, dim);
        shape.places.insert(axis, None);
        shape
    }

    /// The shape without axis `axis`.
    pub fn remove_dim(&self, axis: usize) -> (shape: Tracker)
        requires
            self@.wf(),
            axis < self@.dims.len(),
        ensures
            shape@ == self@.without(axis as int),
            shape@.wf(),
    {
        let mut shape = self.copy();
        let _ = shape.dims.remove(axis);
        let _ = shape.places.remove(axis);
        shape
    }

    /// Whether the shape can be repeated into the sizes `target`.
    pub fn broadcasts_to(&self, target: &Vec<usize>) -> (r: bool)
        ensures
            r == can_broadcast(self@.dims, target@),
    {
        if self.dims.len() > target.len() {
            return false;
        }
        let lead: usize = target.len() - self.dims.len();
        let mut j: usize = 0;
        while j < self.dims.len()
            invariant
                j <= self.dims.len(),
                lead == target.len() - self.dims.len(),
                forall|k: int|
                    0 <= k < j ==> {
                        ||| #[trigger] self.dims@[k] == Dim::Known(1)
                        ||| self.dims@[k] == Dim::Known(target@[lead + k])
                    },
            decreases self.dims.len() - j,
        {
            if self.dims[j] != Dim::Known(1) && self.dims[j] != Dim::Known(target[lead + j]) {
                assert(self@.dims[j as int] != Dim::Known(1));
                return false;
            }
            j = j + 1;
        }
        true
    }

    /// The shape repeated into the sizes `target`.
    pub fn broadcast(&self, target: &Vec<usize>) -> (shape: Tracker)
        requires
            self@.wf(),
            self@.dims.len() <= target@.len(),
        ensures
            shape@ == self@.broadcast(target@),
            shape@.wf(),
    {
        let lead: usize = target.len() - self.dims.len();
        let mut places: Vec<Option<usize>> = Vec::new();
        let mut i: usize = 0;
        while i < target.len()
            invariant
                i <= target.len(),
                self@.wf(),
                lead == target.len() - self.dims.len(),
                places@.len() == i,
                forall|k: int|
                    0 <= k < i ==> #[trigger] places@[k] == self@.broadcast(target@).places[k],
            decreases target.len() - i,
        {
            if i >= lead && self.dims[i - lead] == Dim::Known(target[i]) {
                places.push(self.places[i - lead]);
            } else {
                places.push(None);
            }
            i = i + 1;
        }
        let shape = Tracker { dims: dims_of(target), places };
        assert(shape@ =~= self@.broadcast(target@));
        shape
    }
}

/// The size of axis `i` of `rank` axes, where `sizes` are the last of them and
/// those before are 1.
pub open spec fn aligned(sizes: Seq<usize>, rank: int, i: int) -> usize {
    if i < rank - sizes.len() {
        1
    } else {
        sizes[i - (rank - sizes.len())]
    }
}

/// The number of axes of two tensors that are matched axis by axis.
pub open spec fn joint_rank(a: Seq<usize>, b: Seq<usize>) -> nat {
    if a.len() >= b.len() {
        a.len()
    } else {
        b.len()
    }
}

/// Whether the axes of two tensors agree, matched from the last one backwards:
/// they have the same size or one of them has the size 1.
pub open spec fn compatible(a: Seq<usize>, b: Seq<usize>) -> bool {
    forall|i: int|
        #![trigger aligned(a, joint_rank(a, b) as int, i)]
        0 <= i < joint_rank(a, b) ==> {
            let x = aligned(a, joint_rank(a, b) as int, i);
            let y = aligned(b, joint_rank(a, b) as int, i);
            x == y || x == 1 || y == 1
        }
}

/// The sizes that both of two compatible tensors are repeated into.
pub open spec fn joint_sizes(a: Seq<usize>, b: Seq<usize>) -> Seq<usize> {
    Seq::new(
        joint_rank(a, b),
        |i: int|
            {
                let x = aligned(a, joint_rank(a, b) as int, i);
                if x == 1 {
                    aligned(b, joint_rank(a, b) as int, i)
                } else {
                    x
                }
            },
    )
}

/// The sizes that tensors with the dimensions `a` and `b` are both repeated
/// into, if there are such sizes.
pub open spec fn broadcast_sizes(a: Seq<Dim>, b: Seq<Dim>) -> Option<Seq<usize>> {
    if all_known(a) && all_known(b) && compatible(sizes_of(a), sizes_of(b)) {
        Some(joint_sizes(sizes_of(a), sizes_of(b)))
    } else {
        None
    }
}

/// The sizes that tensors with the dimensions `a` and `b` are both repeated
/// into, by the rules of numpy. There are none if a size is not known, or if
/// two sizes differ and neither is 1.
pub fn compute_broadcast_shape(a: &Vec<Dim>, b: &Vec<Dim>) -> (shape: Option<Vec<usize>>)
    ensures
        match shape {
            Some(s) => broadcast_sizes(a@, b@) == Some(s@),
            None => broadcast_sizes(a@, b@) is None,
        },
{
    let x = match known_sizes(a) {
        Some(x) => x,
        None => {
            return None;
        },
    };
    let y = match known_sizes(b) {
        Some(y) => y,
        None => {
            return None;
        },
    };
    join_sizes(&x, &y)
}

/// The sizes that tensors of known sizes are both repeated into.
pub fn join_sizes(x: &Vec<usize>, y: &Vec<usize>) -> (shape: Option<Vec<usize>>)
    ensures
        match shape {
            Some(s) => compatible(x@, y@) && s@ == joint_sizes(x@, y@),
            None => !compatible(x@, y@),
        },
{
    let rank: usize = if x.len() >= y.len() { x.len() } else { y.len() };
    let mut shape: Vec<usize> = Vec::new();
    let mut i: usize = 0;
    while i < rank
        invariant
            rank == joint_rank(x@, y@),
            i <= rank,
            shape@.len() == i,
            forall|k: int| 0 <= k < i ==> #[trigger] shape@[k] == joint_sizes(x@, y@)[k],
            forall|k: int|
                #![trigger aligned(x@, rank as int, k)]
                0 <= k < i ==> {
                    let p = aligned(x@, rank as int, k);
                    let q = aligned(y@, rank as int, k);
                    p == q || p == 1 || q == 1
                },
        decreases rank - i,
    {
        let p: usize = if i < rank - x.len() { 1 } else { x[i - (rank - x.len())] };
        let q: usize = if i < rank - y.len() { 1 } else { y[i - (rank - y.len())] };
        assert(p == aligned(x@, rank as int, i as int));
        assert(q == aligned(y@, rank as int, i as int));
        if p != q && p != 1 && q != 1 {
            return None;
        }
        shape.push(if p == 1 { q } else { p });
        i = i + 1;
    }
    assert(shape@ =~= joint_sizes(x@, y@));
    Some(shape)
}

/// The product of the sizes.
pub open spec fn product(sizes: Seq<usize>) -> nat
    decreases sizes.len(),
{
    if sizes.len() == 0 {
        1
    } else {
        product(sizes.drop_last()) * sizes.last() as nat
    }
}

/// The product of the sizes, if it and the products of the first few of them
/// are representable.
pub open spec fn bounded_product(sizes: Seq<usize>) -> Option<usize>
    decreases sizes.len(),
{
    if sizes.len() == 0 {
        Some(1)
    } else {
        match bounded_product(sizes.drop_last()) {
            None => None,
            Some(p) => if p * sizes.last() > usize::MAX {
                None
            } else {
                Some((p * sizes.last()) as usize)
            },
        }
    }
}

/// A product that is representable is the product.
pub proof fn lemma_bounded_product(sizes: Seq<usize>)
    ensures
        bounded_product(sizes) matches Some(p) ==> p == product(sizes),
    decreases sizes.len(),
{
    if sizes.len() > 0 {
        lemma_bounded_product(sizes.drop_last());
    }
}

/// The number of elements of a tensor with these sizes, if it can be computed
/// without overflow from the first axis on.
pub fn checked_product(sizes: &Vec<usize>) -> (p: Option<usize>)
    ensures
        p == bounded_product(sizes@),
        p matches Some(n) ==> n == product(sizes@),
{
    let mut p: usize = 1;
    let mut i: usize = 0;
    while i < sizes.len()
        invariant
            i <= sizes.len(),
            bounded_product(sizes@.subrange(0, i as int)) == Some(p),
        decreases sizes.len() - i,
    {
        let ghost before = sizes@.subrange(0, i as int);
        let ghost after = sizes@.subrange(0, i + 1);
        assert(after.drop_last() =~= before);
        match p.checked_mul(sizes[i]) {
            Some(q) => {
                p = q;
            },
            None => {
                proof {
                    lemma_product_overflows(sizes@, i + 1);
                }
                return None;
            },
        }
        i = i + 1;
    }
    assert(sizes@.subrange(0, sizes.len() as int) =~= sizes@);
    proof {
        lemma_bounded_product(sizes@);
    }
    Some(p)
}

proof fn lemma_product_overflows(sizes: Seq<usize>, n: int)
    requires
        0 <= n <= sizes.len(),
        bounded_product(sizes.subrange(0, n)) is None,
    ensures
        bounded_product(sizes) is None,
    decreases sizes.len() - n,
{
    if n == sizes.len() {
        assert(sizes.subrange(0, n) =~= sizes);
    } else {
        assert(sizes.subrange(0, n + 1).drop_last() =~= sizes.subrange(0, n));
        lemma_product_overflows(sizes, n + 1);
    }
}

/// The product of two lists of sizes, one after the other.
pub proof fn lemma_product_of_both(a: Seq<usize>, b: Seq<usize>)
    ensures
        product(a + b) == product(a) * product(b),
    decreases b.len(),
{
    if b.len() == 0 {
        assert(a + b =~= a);
        assert(product(b) == 1);
    } else {
        lemma_product_of_both(a, b.drop_last());
        assert((a + b).drop_last() =~= a + b.drop_last());
        assert((a + b).last() == b.last());
        let p = product(a);
        let q = product(b.drop_last());
        let r = b.last() as nat;
        assert(product(a + b) == product(a + b.drop_last()) * r);
        assert(product(b) == q * r);
        assert(p * q * r == p * (q * r)) by (nonlinear_arith);
    }
}

/// A product that is not 0 and is representable can be computed from the first
/// axis on.
pub proof fn lemma_product_is_bounded(sizes: Seq<usize>)
    requires
        0 < product(sizes) <= usize::MAX,
    ensures
        bounded_product(sizes) == Some(product(sizes) as usize),
    decreases sizes.len(),
{
    if sizes.len() > 0 {
        let p = product(sizes.drop_last());
        let last = sizes.last();
        assert(0 < p <= p * last as nat) by (nonlinear_arith)
            requires
                p * last as nat > 0,
        ;
        lemma_product_is_bounded(sizes.drop_last());
    }
}

/// Both of two compatible tensors can be repeated into their joint sizes.
pub proof fn law_joint_sizes_fit(a: Seq<Dim>, b: Seq<Dim>)
    requires
        broadcast_sizes(a, b) is Some,
    ensures
        can_broadcast(a, broadcast_sizes(a, b)->0),
        can_broadcast(b, broadcast_sizes(a, b)->0),
{
    let x = sizes_of(a);
    let y = sizes_of(b);
    let s = joint_sizes(x, y);
    let rank = joint_rank(x, y) as int;
    assert forall|j: int| 0 <= j < a.len() implies {
        ||| #[trigger] a[j] == Dim::Known(1)
        ||| a[j] == Dim::Known(s[s.len() - a.len() + j])
    } by {
        assert(aligned(x, rank, rank - a.len() + j) == x[j]);
        assert(a[j] is Known);
    }
    assert forall|j: int| 0 <= j < b.len() implies {
        ||| #[trigger] b[j] == Dim::Known(1)
        ||| b[j] == Dim::Known(s[s.len() - b.len() + j])
    } by {
        let i = rank - b.len() + j;
        assert(aligned(y, rank, i) == y[j]);
        assert(aligned(x, rank, i) == aligned(x, rank, i));
        assert(b[j] is Known);
    }
}

/// The joint sizes do not depend on which tensor comes first.
pub proof fn law_joint_sizes_commute(a: Seq<Dim>, b: Seq<Dim>)
    ensures
        broadcast_sizes(a, b) == broadcast_sizes(b, a),
{
    let x = sizes_of(a);
    let y = sizes_of(b);
    if all_known(a) && all_known(b) {
        let rank = joint_rank(x, y) as int;
        if compatible(x, y) {
            assert forall|i: int| 0 <= i < rank implies {
                let p = #[trigger] aligned(y, rank, i);
                let q = aligned(x, rank, i);
                p == q || p == 1 || q == 1
            } by {
                assert(aligned(x, rank, i) == aligned(x, rank, i));
            }
            assert(joint_sizes(x, y) =~= joint_sizes(y, x));
        } else if compatible(y, x) {
            assert forall|i: int| 0 <= i < rank implies {
                let p = #[trigger] aligned(x, rank, i);
                let q = aligned(y, rank, i);
                p == q || p == 1 || q == 1
            } by {
                assert(aligned(y, rank, i) == aligned(y, rank, i));
            }
        }
    }
}

/// A shape that is stored axis by axis in the given order is contiguous, and
/// so is no shape with a repeated axis.
pub proof fn law_contiguous(dims: Seq<Dim>, shape: Shape, axis: int, dim: Dim)
    requires
        dims.len() <= usize::MAX,
        shape.wf(),
        0 <= axis <= shape.dims.len(),
    ensures
        row_major(dims).contiguous(),
        !shape.expanded(axis, dim).contiguous(),
{
    assert(shape.expanded(axis, dim).places[axis] is None);
}

/// Taking a repeated axis away again gives the shape that it was put into.
pub proof fn law_without_undoes_expanded(shape: Shape, axis: int, dim: Dim)
    requires
        shape.wf(),
        0 <= axis <= shape.dims.len(),
    ensures
        shape.expanded(axis, dim).without(axis) == shape,
{
    assert(shape.expanded(axis, dim).without(axis) =~= shape);
}

/// The position of the stored element that a tensor reads at position `p`, if
/// its stored axes stand in the order in which they are stored: a repeated axis
/// does not move it.
pub open spec fn read_position(shape: Shape, p: int) -> int
    decreases shape.dims.len(),
{
    if shape.dims.len() == 0 {
        0
    } else {
        let size = shape.dims.last()->Known_0 as int;
        let before = read_position(
            Shape { dims: shape.dims.drop_last(), places: shape.places.drop_last() },
            p / size,
        );
        if shape.places.last() is Some {
            before * size + p % size
        } else {
            before
        }
    }
}

/// A contiguous tensor reads its elements in the order in which they are
/// stored.
pub proof fn law_contiguous_reads_in_order(shape: Shape, p: int)
    requires
        shape.wf(),
        shape.contiguous(),
        all_known(shape.dims),
        0 <= p < product(sizes_of(shape.dims)),
    ensures
        read_position(shape, p) == p,
    decreases shape.dims.len(),
{
    if shape.dims.len() > 0 {
        let rest = Shape { dims: shape.dims.drop_last(), places: shape.places.drop_last() };
        let sizes = sizes_of(shape.dims);
        let size = sizes.last() as int;
        let count = product(sizes.drop_last()) as int;
        assert(sizes_of(rest.dims) =~= sizes.drop_last());
        assert(shape.places[shape.places.len() - 1] is Some);
        assert forall|i: int| 0 <= i < rest.places.len() implies (
        #[trigger] rest.places[i]) is Some by {
            assert(shape.places[i] is Some);
        }
        assert forall|i: int, j: int| 0 <= i < j < rest.places.len() implies (
        #[trigger] rest.places[i])->0 < (#[trigger] rest.places[j])->0 by {
            assert(shape.places[i]->0 < shape.places[j]->0);
        }
        assert forall|i: int| 0 <= i < rest.dims.len() implies (
        #[trigger] rest.dims[i]) is Known by {
            assert(shape.dims[i] is Known);
        }
        assert(size > 0) by (nonlinear_arith)
            requires
                0 <= p < count * size,
                size >= 0,
        ;
        lemma_fundamental_div_mod(p, size);
        lemma_mod_bound(p, size);
        let q = p / size;
        assert(0 <= q < count) by (nonlinear_arith)
            requires
                p == size * q + p % size,
                0 <= p % size < size,
                0 <= p < count * size,
        ;
        law_contiguous_reads_in_order(rest, q);
        assert(q * size == size * q) by (nonlinear_arith);
    } else {
        assert(sizes_of(shape.dims) =~= Seq::empty());
    }
}

/// An axis of size 1 that is put in, or taken off again, leaves what a tensor
/// reads at each position as it was.
pub proof fn law_unit_axis_reads_the_same(shape: Shape, axis: int, p: int)
    requires
        shape.wf(),
        0 <= axis <= shape.dims.len(),
    ensures
        read_position(shape.expanded(axis, Dim::Known(1)), p) == read_position(shape, p),
    decreases shape.dims.len(),
{
    let wide = shape.expanded(axis, Dim::Known(1));
    let rest = Shape { dims: wide.dims.drop_last(), places: wide.places.drop_last() };
    if axis == shape.dims.len() {
        assert(rest =~= shape);
        assert(p / 1 == p);
    } else {
        let inner = Shape { dims: shape.dims.drop_last(), places: shape.places.drop_last() };
        let size = shape.dims.last()->Known_0 as int;
        assert(rest =~= inner.expanded(axis, Dim::Known(1)));
        assert(wide.dims.last() == shape.dims.last());
        assert(wide.places.last() == shape.places.last());
        law_unit_axis_reads_the_same(inner, axis, p / size);
    }
}

} // verus!

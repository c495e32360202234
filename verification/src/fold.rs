//! Values that are computed while the graph is built.
//!
//! Where the elements of the inputs of a node are known, so are those of its
//! output. This module computes them, on the bits of the numbers.

use crate::bits::{abs, eq, from_bool, is_nan, is_nonzero, lt, neg, ZERO, FloatMath};
#[allow(unused_imports)]
use crate::bits::{indicator, less, nan, negated, nonzero, same, unsigned};
use crate::shape::checked_product;
#[allow(unused_imports)]
use crate::shape::{
    bounded_product, can_broadcast, known_dims, lemma_bounded_product, lemma_product_is_bounded,
    lemma_product_of_both, product, read_position, row_major, Dim, Shape,
};
use vstd::arithmetic::div_mod::*;
use vstd::prelude::*;

verus! {

/// Operations on two numbers.
#[derive(Clone, Copy, PartialEq, Eq, Debug, Structural)]
pub enum Pairing {
    Add,
    /// The product, or 0 where it is not a number.
    Mul,
    Div,
    Rem,
    Pow,
    /// 1 if the numbers are equal, 0 if not.
    Equal,
    /// 1 if the first number is at most the second, 0 if not.
    AtMost,
}

/// Operations on one number.
#[derive(Clone, Copy, PartialEq, Eq, Debug, Structural)]
pub enum Mapping {
    Sqrt,
    Sin,
    Cos,
    Neg,
    Abs,
}

/// Whether `r` is a result of an operation on one number.
pub open spec fn results_in<M: FloatMath>(math: M, op: Mapping, a: u32, r: u32) -> bool {
    match op {
        Mapping::Sqrt => call_ensures(M::sqrt, (&math, a), r),
        Mapping::Sin => call_ensures(M::sin, (&math, a), r),
        Mapping::Cos => call_ensures(M::cos, (&math, a), r),
        Mapping::Neg => r == negated(a),
        Mapping::Abs => r == unsigned(a),
    }
}

/// `r` with 0 in place of what is not a number.
pub open spec fn numeric(r: u32) -> u32 {
    if nan(r) {
        ZERO
    } else {
        r
    }
}

/// Whether `r` is a result of an operation on two numbers.
pub open spec fn pairs_to<M: FloatMath>(math: M, op: Pairing, a: u32, b: u32, r: u32) -> bool {
    match op {
        Pairing::Add => call_ensures(M::add, (&math, a, b), r),
        Pairing::Mul => exists|p: u32| #[trigger] call_ensures(M::mul, (&math, a, b), p) && r
            == numeric(p),
        Pairing::Div => call_ensures(M::div, (&math, a, b), r),
        Pairing::Rem => call_ensures(M::rem, (&math, a, b), r),
        Pairing::Pow => call_ensures(M::pow, (&math, a, b), r),
        Pairing::Equal => r == indicator(same(a, b)),
        Pairing::AtMost => r == indicator(less(a, b) || same(a, b)),
    }
}

/// Whether the elements of `out` are results of an operation on those of `a`.
pub open spec fn maps_to<M: FloatMath>(math: M, op: Mapping, a: Seq<u32>, out: Seq<u32>) -> bool {
    &&& out.len() == a.len()
    &&& forall|i: int| 0 <= i < a.len() ==> results_in(math, op, a[i], #[trigger] out[i])
}

/// Whether two lists of elements can be paired: both are empty or none is.
pub open spec fn can_pair(a: Seq<u32>, b: Seq<u32>) -> bool {
    a.len() == 0 <==> b.len() == 0
}

/// The longer one of two lengths.
pub open spec fn longer(a: nat, b: nat) -> nat {
    if a >= b {
        a
    } else {
        b
    }
}

/// Whether the elements of `out` are results of an operation on those of `a`
/// and `b`, where the shorter list starts over when it ends.
pub open spec fn pairwise<M: FloatMath>(
    math: M,
    op: Pairing,
    a: Seq<u32>,
    b: Seq<u32>,
    out: Seq<u32>,
) -> bool {
    &&& out.len() == longer(a.len(), b.len())
    &&& forall|i: int|
        0 <= i < out.len() ==> pairs_to(
            math,
            op,
            a[i % (a.len() as int)],
            b[i % (b.len() as int)],
            #[trigger] out[i],
        )
}

fn apply_one<M: FloatMath>(math: &M, op: Mapping, a: u32) -> (r: u32)
    ensures
        results_in(*math, op, a, r),
{
    match op {
        Mapping::Sqrt => math.sqrt(a),
        Mapping::Sin => math.sin(a),
        Mapping::Cos => math.cos(a),
        Mapping::Neg => neg(a),
        Mapping::Abs => abs(a),
    }
}

fn apply_two<M: FloatMath>(math: &M, op: Pairing, a: u32, b: u32) -> (r: u32)
    ensures
        pairs_to(*math, op, a, b, r),
{
    match op {
        Pairing::Add => math.add(a, b),
        Pairing::Mul => {
            let p: u32 = math.mul(a, b);
            assert(call_ensures(M::mul, (math, a, b), p));
            if is_nan(p) {
                ZERO
            } else {
                p
            }
        },
        Pairing::Div => math.div(a, b),
        Pairing::Rem => math.rem(a, b),
        Pairing::Pow => math.pow(a, b),
        Pairing::Equal => from_bool(eq(a, b)),
        Pairing::AtMost => from_bool(lt(a, b) || eq(a, b)),
    }
}

/// The results of an operation on each element.
pub fn map_values<M: FloatMath>(math: &M, op: Mapping, a: &Vec<u32>) -> (out: Vec<u32>)
    ensures
        maps_to(*math, op, a@, out@),
{
    let mut out: Vec<u32> = Vec::new();
    let mut i: usize = 0;
    while i < a.len()
        invariant
            i <= a.len(),
            out@.len() == i,
            forall|k: int| 0 <= k < i ==> results_in(*math, op, a@[k], #[trigger] out@[k]),
        decreases a.len() - i,
    {
        out.push(apply_one(math, op, a[i]));
        i = i + 1;
    }
    out
}

/// The results of an operation on the elements of two lists, of which the
/// shorter one starts over when it ends.
pub fn broadcast_binop<M: FloatMath>(math: &M, op: Pairing, a: &Vec<u32>, b: &Vec<u32>) -> (out: Vec<
    u32,
>)
    requires
        can_pair(a@, b@),
    ensures
        pairwise(*math, op, a@, b@, out@),
{
    let len: usize = if a.len() >= b.len() { a.len() } else { b.len() };
    let mut out: Vec<u32> = Vec::new();
    let mut i: usize = 0;
    while i < len
        invariant
            can_pair(a@, b@),
            len == longer(a@.len(), b@.len()),
            i <= len,
            out@.len() == i,
            forall|k: int|
                0 <= k < i ==> pairs_to(
                    *math,
                    op,
                    a@[k % (a@.len() as int)],
                    b@[k % (b@.len() as int)],
                    #[trigger] out@[k],
                ),
        decreases len - i,
    {
        out.push(apply_two(math, op, a[i % a.len()], b[i % b.len()]));
        i = i + 1;
    }
    out
}

/// The reciprocals of the elements.
pub open spec fn reciprocals<M: FloatMath>(math: M, a: Seq<u32>, out: Seq<u32>) -> bool {
    &&& out.len() == a.len()
    &&& forall|i: int|
        0 <= i < a.len() ==> call_ensures(
            M::div,
            (&math, crate::bits::ONE, a[i]),
            #[trigger] out[i],
        )
}

/// The reciprocals of the elements.
pub fn reciprocal_values<M: FloatMath>(math: &M, a: &Vec<u32>) -> (out: Vec<u32>)
    ensures
        reciprocals(*math, a@, out@),
{
    let mut out: Vec<u32> = Vec::new();
    let mut i: usize = 0;
    while i < a.len()
        invariant
            i <= a.len(),
            out@.len() == i,
            forall|k: int|
                0 <= k < i ==> call_ensures(
                    M::div,
                    (math, crate::bits::ONE, a@[k]),
                    #[trigger] out@[k],
                ),
        decreases a.len() - i,
    {
        out.push(math.div(crate::bits::ONE, a[i]));
        i = i + 1;
    }
    out
}

/// Whether the elements of `out` are hyperbolic tangents of those of `a`.
pub open spec fn tangents<M: FloatMath>(math: M, a: Seq<u32>, out: Seq<u32>) -> bool {
    &&& out.len() == a.len()
    &&& forall|i: int|
        0 <= i < a.len() ==> call_ensures(M::tanh, (&math, a[i]), #[trigger] out[i])
}

/// The hyperbolic tangents of the elements.
pub fn tanh_values<M: FloatMath>(math: &M, a: &Vec<u32>) -> (out: Vec<u32>)
    ensures
        tangents(*math, a@, out@),
{
    let mut out: Vec<u32> = Vec::new();
    let mut i: usize = 0;
    while i < a.len()
        invariant
            i <= a.len(),
            out@.len() == i,
            forall|k: int|
                0 <= k < i ==> call_ensures(M::tanh, (math, a@[k]), #[trigger] out@[k]),
        decreases a.len() - i,
    {
        out.push(math.tanh(a[i]));
        i = i + 1;
    }
    out
}

/// The position that stands for position `i` in a list of length `len`: a list
/// of one element stands for a list of any length.
pub open spec fn scalar_index(len: nat, i: int) -> int {
    if len == 1 {
        0
    } else {
        i
    }
}

/// Whether a list has an element, or stands for one, at each of `len`
/// positions.
pub open spec fn covers(a: Seq<u32>, len: nat) -> bool {
    a.len() == 1 || a.len() == len
}

/// The elements of `x` where those of `c` differ from 0, and those of `y`
/// elsewhere.
pub open spec fn selected(c: Seq<u32>, x: Seq<u32>, y: Seq<u32>) -> Seq<u32> {
    Seq::new(
        longer(longer(c.len(), x.len()), y.len()),
        |i: int|
            if nonzero(c[scalar_index(c.len(), i)]) {
                x[scalar_index(x.len(), i)]
            } else {
                y[scalar_index(y.len(), i)]
            },
    )
}

/// Whether three lists can be selected from: each has as many elements as the
/// longest one, or one.
pub open spec fn can_select(c: Seq<u32>, x: Seq<u32>, y: Seq<u32>) -> bool {
    let len = longer(longer(c.len(), x.len()), y.len());
    len == 0 || (covers(c, len) && covers(x, len) && covers(y, len))
}

/// Whether three lists can be selected from.
pub fn selectable(c: &Vec<u32>, x: &Vec<u32>, y: &Vec<u32>) -> (r: bool)
    ensures
        r == can_select(c@, x@, y@),
{
    let mut len: usize = c.len();
    if x.len() > len {
        len = x.len();
    }
    if y.len() > len {
        len = y.len();
    }
    len == 0 || ((c.len() == 1 || c.len() == len) && (x.len() == 1 || x.len() == len) && (y.len()
        == 1 || y.len() == len))
}

/// The elements of `x` where those of `c` differ from 0, and those of `y`
/// elsewhere.
pub fn select(c: &Vec<u32>, x: &Vec<u32>, y: &Vec<u32>) -> (out: Vec<u32>)
    requires
        can_select(c@, x@, y@),
    ensures
        out@ == selected(c@, x@, y@),
{
    let mut len: usize = c.len();
    if x.len() > len {
        len = x.len();
    }
    if y.len() > len {
        len = y.len();
    }
    let mut out: Vec<u32> = Vec::new();
    let mut i: usize = 0;
    while i < len
        invariant
            can_select(c@, x@, y@),
            len == longer(longer(c@.len(), x@.len()), y@.len()),
            i <= len,
            out@.len() == i,
            forall|k: int| 0 <= k < i ==> #[trigger] out@[k] == selected(c@, x@, y@)[k],
        decreases len - i,
    {
        let cv: u32 = c[if c.len() == 1 { 0 } else { i }];
        let xv: u32 = x[if x.len() == 1 { 0 } else { i }];
        let yv: u32 = y[if y.len() == 1 { 0 } else { i }];
        out.push(if is_nonzero(cv) { xv } else { yv });
        i = i + 1;
    }
    assert(out@ =~= selected(c@, x@, y@));
    out
}

/// The first `len` elements of a list that starts over when it ends; none if
/// the list is empty.
pub open spec fn cycled(a: Seq<u32>, len: nat) -> Seq<u32> {
    if a.len() == 0 {
        Seq::empty()
    } else {
        Seq::new(len, |i: int| a[i % (a.len() as int)])
    }
}

/// The first `len` elements of a list that starts over when it ends; none if
/// the list is empty.
pub fn cycle(a: &Vec<u32>, len: usize) -> (out: Vec<u32>)
    ensures
        out@ == cycled(a@, len as nat),
{
    let mut out: Vec<u32> = Vec::new();
    if a.len() == 0 {
        return out;
    }
    let mut i: usize = 0;
    while i < len
        invariant
            a@.len() > 0,
            i <= len,
            out@.len() == i,
            forall|k: int| 0 <= k < i ==> #[trigger] out@[k] == a@[k % (a@.len() as int)],
        decreases len - i,
    {
        out.push(a[i % a.len()]);
        i = i + 1;
    }
    assert(out@ =~= cycled(a@, len as nat));
    out
}

/// `len` times the same number.
pub fn repeat(bits: u32, len: usize) -> (out: Vec<u32>)
    ensures
        out@ == Seq::new(len as nat, |i: int| bits),
{
    let mut out: Vec<u32> = Vec::new();
    let mut i: usize = 0;
    while i < len
        invariant
            i <= len,
            out@ == Seq::new(i as nat, |k: int| bits),
        decreases len - i,
    {
        out.push(bits);
        i = i + 1;
        assert(out@ =~= Seq::new(i as nat, |k: int| bits));
    }
    out
}

/// The elements from `start` up to `end`.
pub fn part(a: &Vec<u32>, start: usize, end: usize) -> (out: Vec<u32>)
    requires
        start <= end <= a@.len(),
    ensures
        out@ == a@.subrange(start as int, end as int),
{
    let mut out: Vec<u32> = Vec::new();
    let mut i: usize = start;
    while i < end
        invariant
            start <= i <= end <= a@.len(),
            out@ == a@.subrange(start as int, i as int),
        decreases end - i,
    {
        out.push(a[i]);
        i = i + 1;
        assert(out@ =~= a@.subrange(start as int, i as int));
    }
    out
}

/// The matrix with `rows` rows and `cols` columns that `data` holds row by
/// row, with rows and columns exchanged.
pub open spec fn transposed(data: Seq<u32>, rows: int, cols: int) -> Seq<u32> {
    Seq::new((rows * cols) as nat, |p: int| data[(p % rows) * cols + p / rows])
}

/// A position in a matrix that is held row by row.
pub proof fn lemma_position(i: int, j: int, rows: int, cols: int)
    requires
        0 <= i < rows,
        0 <= j < cols,
    ensures
        0 <= i * cols + j < rows * cols,
        (i * cols + j) / cols == i,
        (i * cols + j) % cols == j,
{
    assert(i * cols + j < rows * cols && 0 <= i * cols + j) by (nonlinear_arith)
        requires
            0 <= i < rows,
            0 <= j < cols,
    ;
    vstd::arithmetic::div_mod::lemma_fundamental_div_mod_converse(i * cols + j, cols, i, j);
}

/// The row and the column of a position.
pub proof fn lemma_row_and_column(p: int, rows: int, cols: int)
    requires
        0 <= p < rows * cols,
        cols > 0,
    ensures
        0 <= p / cols < rows,
        0 <= p % cols < cols,
        (p / cols) * cols + p % cols == p,
{
    vstd::arithmetic::div_mod::lemma_fundamental_div_mod(p, cols);
    assert(0 <= p / cols < rows) by (nonlinear_arith)
        requires
            0 <= p < rows * cols,
            cols > 0,
    ;
    assert((p / cols) * cols == cols * (p / cols)) by (nonlinear_arith);
}

/// The matrix with `rows` rows and `cols` columns that `data` holds row by
/// row, with rows and columns exchanged.
pub fn transpose_weight_data(data: &Vec<u32>, rows: usize, cols: usize) -> (out: Vec<u32>)
    requires
        rows * cols <= data@.len(),
    ensures
        out@ == transposed(data@, rows as int, cols as int),
{
    let mut out: Vec<u32> = Vec::new();
    let total: usize = data.len();
    let mut j: usize = 0;
    assert(0 * rows == 0);
    if rows == 0 {
        assert(rows * cols == 0) by (nonlinear_arith)
            requires
                rows == 0,
        ;
        assert(out@ =~= transposed(data@, rows as int, cols as int));
        return out;
    }
    while j < cols
        invariant
            total == data@.len(),
            rows * cols <= total,
            rows > 0,
            j <= cols,
            out@.len() == j * rows,
            forall|p: int|
                0 <= p < out@.len() ==> #[trigger] out@[p] == data@[(p % (rows as int)) * cols + p
                    / (rows as int)],
        decreases cols - j,
    {
        let mut i: usize = 0;
        while i < rows
            invariant
                total == data@.len(),
                rows * cols <= total,
                rows > 0,
                j < cols,
                i <= rows,
                out@.len() == j * rows + i,
                forall|p: int|
                    0 <= p < out@.len() ==> #[trigger] out@[p] == data@[(p % (rows as int)) * cols
                        + p / (rows as int)],
            decreases rows - i,
        {
            proof {
                lemma_position(i as int, j as int, rows as int, cols as int);
                assert(0 <= i * cols) by (nonlinear_arith);
                lemma_position(j as int, i as int, cols as int, rows as int);
            }
            out.push(data[i * cols + j]);
            i = i + 1;
        }
        assert(j * rows + rows == (j + 1) * rows) by (nonlinear_arith);
        j = j + 1;
    }
    assert(cols * rows == rows * cols) by (nonlinear_arith);
    assert(out@ =~= transposed(data@, rows as int, cols as int));
    out
}

/// The element in row `i` and column `j` of a matrix is in row `j` and column
/// `i` once rows and columns are exchanged.
pub proof fn law_transposed_element(data: Seq<u32>, rows: int, cols: int, i: int, j: int)
    requires
        0 <= i < rows,
        0 <= j < cols,
        rows * cols <= data.len(),
    ensures
        transposed(data, rows, cols)[j * rows + i] == data[i * cols + j],
{
    lemma_position(j, i, cols, rows);
    assert(cols * rows == rows * cols) by (nonlinear_arith);
}

/// Exchanging rows and columns twice gives the matrix back.
pub proof fn law_transposed_twice(data: Seq<u32>, rows: int, cols: int)
    requires
        0 <= rows,
        0 <= cols,
        rows * cols == data.len(),
    ensures
        transposed(transposed(data, rows, cols), cols, rows) == data,
{
    let once = transposed(data, rows, cols);
    let twice = transposed(once, cols, rows);
    assert(cols * rows == rows * cols) by (nonlinear_arith);
    assert forall|p: int| 0 <= p < data.len() implies twice[p] == data[p] by {
        assert(cols != 0 && rows != 0) by (nonlinear_arith)
            requires
                0 <= p < rows * cols,
        ;
        lemma_row_and_column(p, rows, cols);
        law_transposed_element(data, rows, cols, p / cols, p % cols);
    }
    assert(twice =~= data);
}

/// The position in a list with the sizes `from` of the element that goes to
/// position `p` when the list is repeated into the sizes `to`, matched from the
/// last axis backwards.
pub open spec fn spread_position(from: Seq<usize>, to: Seq<usize>, p: int) -> int
    decreases to.len(),
{
    if to.len() == 0 || from.len() == 0 {
        0
    } else {
        let size = to.last() as int;
        let before = spread_position(from.drop_last(), to.drop_last(), p / size);
        before * from.last() + if from.last() == 1 {
            0
        } else {
            p % size
        }
    }
}

/// The elements of a list with the sizes `from`, repeated into the sizes `to`.
pub open spec fn spread_values(a: Seq<u32>, from: Seq<usize>, to: Seq<usize>) -> Seq<u32> {
    Seq::new(product(to), |p: int| a[spread_position(from, to, p)])
}

fn spread_at(from: &Vec<usize>, n: usize, to: &Vec<usize>, m: usize, p: usize) -> (at: usize)
    requires
        n <= from@.len(),
        m <= to@.len(),
        can_broadcast(known_dims(from@.subrange(0, n as int)), to@.subrange(0, m as int)),
        product(from@.subrange(0, n as int)) <= usize::MAX,
        p < product(to@.subrange(0, m as int)),
    ensures
        at == spread_position(from@.subrange(0, n as int), to@.subrange(0, m as int), p as int),
        at < product(from@.subrange(0, n as int)),
    decreases m,
{
    if m == 0 || n == 0 {
        return 0;
    }
    let ghost f = from@.subrange(0, n as int);
    let ghost t = to@.subrange(0, m as int);
    let ghost pf = product(f.drop_last());
    let ghost pt = product(t.drop_last());
    let size: usize = to[m - 1];
    let own: usize = from[n - 1];
    proof {
        assert(f.drop_last() =~= from@.subrange(0, n - 1));
        assert(t.drop_last() =~= to@.subrange(0, m - 1));
        let kf = known_dims(f);
        let kd = known_dims(f.drop_last());
        assert(kf[n - 1] == Dim::Known(own));
        assert(own == 1 || own == size);
        assert forall|j: int| 0 <= j < kd.len() implies {
            ||| #[trigger] kd[j] == Dim::Known(1)
            ||| kd[j] == Dim::Known(t.drop_last()[t.len() - 1 - kd.len() + j])
        } by {
            assert(kf[j] == kd[j]);
        }
        assert(size > 0) by (nonlinear_arith)
            requires
                p < pt * size as nat,
                p >= 0,
        ;
        lemma_mod_bound(p as int, size as int);
        lemma_fundamental_div_mod(p as int, size as int);
        let q = p as int / size as int;
        assert(0 <= q < pt) by (nonlinear_arith)
            requires
                p == size * q + p as int % size as int,
                0 <= p as int % size as int,
                0 <= p < pt * size as nat,
                size > 0,
        ;
        assert(pf <= pf * own as nat) by (nonlinear_arith)
            requires
                own >= 1,
        ;
    }
    let before: usize = spread_at(from, n - 1, to, m - 1, p / size);
    let last: usize = if own == 1 {
        0
    } else {
        p % size
    };
    proof {
        assert(0 <= before * own && before * own + last < pf * own as nat) by (nonlinear_arith)
            requires
                0 <= before < pf,
                0 <= last < own,
        ;
    }
    before * own + last
}

/// The elements of a list with the sizes `from`, repeated into the sizes `to`,
/// of which there are `count`.
pub fn spread_elements(a: &Vec<u32>, from: &Vec<usize>, to: &Vec<usize>, count: usize) -> (out: Vec<
    u32,
>)
    requires
        can_broadcast(known_dims(from@), to@),
        a@.len() == product(from@),
        count == product(to@),
    ensures
        out@ == spread_values(a@, from@, to@),
{
    let mut out: Vec<u32> = Vec::new();
    let mut p: usize = 0;
    assert(from@.subrange(0, from@.len() as int) =~= from@);
    assert(to@.subrange(0, to@.len() as int) =~= to@);
    assert(a.len() <= usize::MAX);
    while p < count
        invariant
            can_broadcast(known_dims(from@), to@),
            from@.subrange(0, from@.len() as int) == from@,
            to@.subrange(0, to@.len() as int) == to@,
            a@.len() == product(from@),
            a@.len() <= usize::MAX,
            count == product(to@),
            p <= count,
            out@.len() == p,
            forall|k: int|
                0 <= k < p ==> #[trigger] out@[k] == a@[spread_position(from@, to@, k)],
        decreases count - p,
    {
        let at: usize = spread_at(from, from.len(), to, to.len(), p);
        out.push(a[at]);
        p = p + 1;
    }
    assert(out@ =~= spread_values(a@, from@, to@));
    out
}

proof fn lemma_spread_nowhere(sizes: Seq<usize>, p: int)
    requires
        0 <= p < product(sizes),
    ensures
        spread_position(sizes, sizes, p) == p,
    decreases sizes.len(),
{
    if sizes.len() > 0 {
        let size = sizes.last() as int;
        let rest = product(sizes.drop_last()) as int;
        assert(size > 0) by (nonlinear_arith)
            requires
                0 <= p < rest * size,
                size >= 0,
        ;
        lemma_fundamental_div_mod(p, size);
        lemma_mod_bound(p, size);
        let q = p / size;
        assert(0 <= q < rest) by (nonlinear_arith)
            requires
                p == size * q + p % size,
                0 <= p % size < size,
                0 <= p < rest * size,
        ;
        lemma_spread_nowhere(sizes.drop_last(), q);
        assert(q * size == size * q) by (nonlinear_arith);
    }
}

/// A list that is repeated into the sizes that it has stays as it is.
pub proof fn law_spread_into_own_sizes(a: Seq<u32>, sizes: Seq<usize>)
    requires
        a.len() == product(sizes),
    ensures
        spread_values(a, sizes, sizes) == a,
{
    assert forall|p: int| 0 <= p < a.len() implies spread_values(a, sizes, sizes)[p] == a[p] by {
        lemma_spread_nowhere(sizes, p);
    }
    assert(spread_values(a, sizes, sizes) =~= a);
}

/// A contiguous tensor that is repeated into larger sizes reads at each position
/// the element that the list of its elements has there once it is repeated into
/// these sizes.
pub proof fn law_repeated_tensor_reads_repeated_values(from: Seq<usize>, to: Seq<usize>, p: int)
    requires
        can_broadcast(known_dims(from), to),
        0 <= p < product(to),
    ensures
        read_position(row_major(known_dims(from)).broadcast(to), p) == spread_position(from, to, p),
{
    let shape = row_major(known_dims(from)).broadcast(to);
    lemma_repeated(from, to, shape, p);
}

/// The same for any shape with the places of a repeated contiguous one.
proof fn lemma_repeated(from: Seq<usize>, to: Seq<usize>, shape: Shape, p: int)
    requires
        can_broadcast(known_dims(from), to),
        shape.dims == known_dims(to),
        shape.places.len() == to.len(),
        forall|i: int|
            0 <= i < to.len() ==> ((#[trigger] shape.places[i]) is Some <==> i >= to.len()
                - from.len() && from[i - (to.len() - from.len())] == to[i]),
        0 <= p < product(to),
    ensures
        read_position(shape, p) == spread_position(from, to, p),
    decreases to.len(),
{
    if to.len() > 0 {
        let size = to.last() as int;
        let count = product(to.drop_last()) as int;
        assert(size > 0) by (nonlinear_arith)
            requires
                0 <= p < count * size,
                size >= 0,
        ;
        lemma_fundamental_div_mod(p, size);
        lemma_mod_bound(p, size);
        let q = p / size;
        assert(0 <= q < count) by (nonlinear_arith)
            requires
                p == size * q + p % size,
                0 <= p % size < size,
                0 <= p < count * size,
        ;
        let rest = Shape { dims: shape.dims.drop_last(), places: shape.places.drop_last() };
        assert(rest.dims =~= known_dims(to.drop_last()));
        let last = to.len() - 1;
        assert(shape.places.last() == shape.places[last]);
        if from.len() == 0 {
            assert forall|i: int| 0 <= i < rest.places.len() implies ((
            #[trigger] rest.places[i]) is Some <==> i >= to.drop_last().len() - from.len()
                && from[i - (to.drop_last().len() - from.len())] == to.drop_last()[i]) by {
                assert(rest.places[i] == shape.places[i]);
            }
            lemma_repeated(from, to.drop_last(), rest, q);
        } else {
            let lead = to.len() - from.len();
            let fewer = from.drop_last();
            assert(known_dims(from)[from.len() - 1] == Dim::Known(from.last()));
            assert forall|j: int| 0 <= j < fewer.len() implies {
                ||| #[trigger] known_dims(fewer)[j] == Dim::Known(1)
                ||| known_dims(fewer)[j] == Dim::Known(
                    to.drop_last()[to.drop_last().len() - fewer.len() + j],
                )
            } by {
                assert(known_dims(from)[j] == known_dims(fewer)[j]);
            }
            assert forall|i: int| 0 <= i < rest.places.len() implies ((
            #[trigger] rest.places[i]) is Some <==> i >= to.drop_last().len() - fewer.len()
                && fewer[i - (to.drop_last().len() - fewer.len())] == to.drop_last()[i]) by {
                assert(rest.places[i] == shape.places[i]);
            }
            lemma_repeated(fewer, to.drop_last(), rest, q);
            if from.last() == 1 && to.last() == 1 {
                assert(p % size == 0);
            }
        }
    }
}

/// The number of elements behind each index before an axis: those of the axis
/// itself and of the axes behind it.
pub open spec fn run_size(sizes: Seq<usize>, axis: int) -> int {
    sizes[axis] * product(sizes.subrange(axis + 1, sizes.len() as int))
}

/// The sizes of two lists one after the other along an axis.
pub open spec fn joined_sizes(a: Seq<usize>, b: Seq<usize>, axis: int) -> Seq<usize> {
    a.update(axis, (a[axis] + b[axis]) as usize)
}

/// The elements of two lists with the sizes `a_sizes` and `b_sizes`, one after
/// the other along an axis: at each index before the axis those of the first
/// come before those of the second.
pub open spec fn joined_along(
    a: Seq<u32>,
    a_sizes: Seq<usize>,
    b: Seq<u32>,
    b_sizes: Seq<usize>,
    axis: int,
) -> Seq<u32> {
    let x = run_size(a_sizes, axis);
    let y = run_size(b_sizes, axis);
    Seq::new(
        product(joined_sizes(a_sizes, b_sizes, axis)),
        |p: int|
            if p % (x + y) < x {
                a[(p / (x + y)) * x + p % (x + y)]
            } else {
                b[(p / (x + y)) * y + (p % (x + y) - x)]
            },
    )
}

/// The product of sizes, parted at an axis.
pub proof fn lemma_parted_product(sizes: Seq<usize>, axis: int)
    requires
        0 <= axis < sizes.len(),
    ensures
        product(sizes) == product(sizes.subrange(0, axis)) * run_size(sizes, axis),
{
    let outer = sizes.subrange(0, axis);
    let inner = sizes.subrange(axis + 1, sizes.len() as int);
    let one = seq![sizes[axis]];
    assert(sizes =~= outer + one + inner);
    lemma_product_of_both(outer + one, inner);
    lemma_product_of_both(outer, one);
    reveal_with_fuel(product, 2);
    assert(one.drop_last() =~= Seq::empty());
    assert(product(one) == sizes[axis]) by {
        assert(product(one) == product(one.drop_last()) * one.last() as nat);
    }
    let o = product(outer) as int;
    let i = product(inner) as int;
    let n = sizes[axis] as int;
    assert(o * n * i == o * (n * i)) by (nonlinear_arith);
}

/// The elements of two lists one after the other along an axis.
pub fn join_along(
    a: &Vec<u32>,
    a_sizes: &Vec<usize>,
    b: &Vec<u32>,
    b_sizes: &Vec<usize>,
    axis: usize,
    count: usize,
) -> (out: Vec<u32>)
    requires
        axis < a_sizes@.len(),
        a_sizes@.len() == b_sizes@.len(),
        forall|i: int|
            0 <= i < a_sizes@.len() && i != axis ==> #[trigger] a_sizes@[i] == b_sizes@[i],
        a_sizes@[axis as int] + b_sizes@[axis as int] <= usize::MAX,
        a@.len() == product(a_sizes@),
        b@.len() == product(b_sizes@),
        count == product(joined_sizes(a_sizes@, b_sizes@, axis as int)),
    ensures
        out@ == joined_along(a@, a_sizes@, b@, b_sizes@, axis as int),
{
    let mut out: Vec<u32> = Vec::new();
    if count == 0 {
        assert(out@ =~= joined_along(a@, a_sizes@, b@, b_sizes@, axis as int));
        return out;
    }
    let ghost both = joined_sizes(a_sizes@, b_sizes@, axis as int);
    let ghost tail = a_sizes@.subrange(axis + 1, a_sizes@.len() as int);
    let ghost outer = product(a_sizes@.subrange(0, axis as int)) as int;
    let ghost inner = product(tail) as int;
    let ghost m = a_sizes@[axis as int] as int;
    let ghost n = b_sizes@[axis as int] as int;
    proof {
        lemma_parted_product(a_sizes@, axis as int);
        lemma_parted_product(b_sizes@, axis as int);
        lemma_parted_product(both, axis as int);
        assert(b_sizes@.subrange(axis + 1, b_sizes@.len() as int) =~= tail);
        assert(both.subrange(axis + 1, both.len() as int) =~= tail);
        assert(b_sizes@.subrange(0, axis as int) =~= a_sizes@.subrange(0, axis as int));
        assert(both.subrange(0, axis as int) =~= a_sizes@.subrange(0, axis as int));
        assert(count == outer * ((m + n) * inner));
        assert(0 < outer && 0 < inner && (m + n) * inner == m * inner + n * inner && (m + n) * inner
            <= count && 0 <= m * inner && 0 <= n * inner && inner <= (m + n) * inner)
            by (nonlinear_arith)
            requires
                count == outer * ((m + n) * inner),
                count > 0,
                outer >= 0,
                inner >= 0,
                m >= 0,
                n >= 0,
        ;
    }
    assert(axis + 1 <= a_sizes.len());
    let mut rest: Vec<usize> = Vec::new();
    let mut j: usize = axis + 1;
    while j < a_sizes.len()
        invariant
            axis < j <= a_sizes@.len(),
            rest@ == a_sizes@.subrange(axis + 1, j as int),
        decreases a_sizes.len() - j,
    {
        rest.push(a_sizes[j]);
        j = j + 1;
        assert(rest@ =~= a_sizes@.subrange(axis + 1, j as int));
    }
    proof {
        lemma_product_is_bounded(rest@);
    }
    let unit: usize = match checked_product(&rest) {
        Some(unit) => unit,
        None => 1,
    };
    let x: usize = a_sizes[axis] * unit;
    let y: usize = b_sizes[axis] * unit;
    let row: usize = x + y;
    let mut p: usize = 0;
    while p < count
        invariant
            x == run_size(a_sizes@, axis as int),
            y == run_size(b_sizes@, axis as int),
            row == x + y,
            row > 0,
            a@.len() == outer * x,
            b@.len() == outer * y,
            count == outer * row,
            count == product(joined_sizes(a_sizes@, b_sizes@, axis as int)),
            p <= count,
            out@.len() == p,
            forall|k: int|
                0 <= k < p ==> #[trigger] out@[k] == joined_along(
                    a@,
                    a_sizes@,
                    b@,
                    b_sizes@,
                    axis as int,
                )[k],
        decreases count - p,
    {
        let o: usize = p / row;
        let r: usize = p % row;
        proof {
            lemma_fundamental_div_mod(p as int, row as int);
            lemma_mod_bound(p as int, row as int);
            let w = row as int;
            assert(0 <= o < outer) by (nonlinear_arith)
                requires
                    p == w * o + r,
                    0 <= r < w,
                    0 <= p < outer * w,
                    o >= 0,
            ;
            if r < x {
                assert(0 <= o * x && o * x + r < outer * x) by (nonlinear_arith)
                    requires
                        0 <= o < outer,
                        0 <= r < x,
                ;
            } else {
                let s = r - x;
                assert(0 <= o * y && o * y + s < outer * y) by (nonlinear_arith)
                    requires
                        0 <= o < outer,
                        0 <= s < y,
                ;
            }
        }
        assert(a.len() <= usize::MAX);
        assert(b.len() <= usize::MAX);
        if r < x {
            out.push(a[o * x + r]);
        } else {
            out.push(b[o * y + (r - x)]);
        }
        p = p + 1;
    }
    assert(out@ =~= joined_along(a@, a_sizes@, b@, b_sizes@, axis as int));
    out
}

/// The position in a list with the sizes `sizes` of the element at position `p`
/// of the part that starts at `starts` and has the sizes `widths`.
pub open spec fn cut_source(
    sizes: Seq<usize>,
    starts: Seq<usize>,
    widths: Seq<usize>,
    p: int,
) -> int
    decreases sizes.len(),
{
    if sizes.len() == 0 {
        0
    } else {
        let width = widths.last() as int;
        let before = cut_source(
            sizes.drop_last(),
            starts.drop_last(),
            widths.drop_last(),
            p / width,
        );
        before * sizes.last() + starts.last() + p % width
    }
}

/// The part of a list with the sizes `sizes` that starts at `starts` and has the
/// sizes `widths`.
pub open spec fn cut_values(
    a: Seq<u32>,
    sizes: Seq<usize>,
    starts: Seq<usize>,
    widths: Seq<usize>,
) -> Seq<u32> {
    Seq::new(product(widths), |p: int| a[cut_source(sizes, starts, widths, p)])
}

/// Whether a part that starts at `starts` and has the sizes `widths` lies within
/// the sizes `sizes`.
pub open spec fn lies_within(sizes: Seq<usize>, starts: Seq<usize>, widths: Seq<usize>) -> bool {
    &&& starts.len() == sizes.len()
    &&& widths.len() == sizes.len()
    &&& forall|i: int| 0 <= i < sizes.len() ==> #[trigger] starts[i] + widths[i] <= sizes[i]
}

fn cut_at(
    sizes: &Vec<usize>,
    starts: &Vec<usize>,
    widths: &Vec<usize>,
    n: usize,
    p: usize,
) -> (at: usize)
    requires
        lies_within(sizes@, starts@, widths@),
        n <= sizes@.len(),
        product(sizes@.subrange(0, n as int)) <= usize::MAX,
        p < product(widths@.subrange(0, n as int)),
    ensures
        at == cut_source(
            sizes@.subrange(0, n as int),
            starts@.subrange(0, n as int),
            widths@.subrange(0, n as int),
            p as int,
        ),
        at < product(sizes@.subrange(0, n as int)),
    decreases n,
{
    if n == 0 {
        return 0;
    }
    let size: usize = sizes[n - 1];
    let start: usize = starts[n - 1];
    let width: usize = widths[n - 1];
    let ghost ps = product(sizes@.subrange(0, n - 1)) as int;
    let ghost pw = product(widths@.subrange(0, n - 1)) as int;
    proof {
        assert(sizes@.subrange(0, n as int).drop_last() =~= sizes@.subrange(0, n - 1));
        assert(starts@.subrange(0, n as int).drop_last() =~= starts@.subrange(0, n - 1));
        assert(widths@.subrange(0, n as int).drop_last() =~= widths@.subrange(0, n - 1));
        assert(starts@[n - 1] + widths@[n - 1] <= sizes@[n - 1]);
        assert(width > 0) by (nonlinear_arith)
            requires
                0 <= p < pw * width,
                width >= 0,
        ;
        lemma_fundamental_div_mod(p as int, width as int);
        lemma_mod_bound(p as int, width as int);
        let q = p as int / width as int;
        let w = width as int;
        assert(0 <= q < pw) by (nonlinear_arith)
            requires
                p == w * q + p as int % w,
                0 <= p as int % w < w,
                0 <= p < pw * w,
        ;
        let z = size as int;
        assert(ps <= ps * z) by (nonlinear_arith)
            requires
                z >= 1,
                ps >= 0,
        ;
    }
    let before: usize = cut_at(sizes, starts, widths, n - 1, p / width);
    let rest: usize = start + p % width;
    proof {
        let z = size as int;
        assert(0 <= before * z && before * z + rest < ps * z) by (nonlinear_arith)
            requires
                0 <= before < ps,
                0 <= rest < z,
        ;
    }
    before * size + rest
}

/// A part of a list has no more elements than the list.
pub proof fn lemma_part_is_smaller(sizes: Seq<usize>, widths: Seq<usize>)
    requires
        sizes.len() == widths.len(),
        forall|i: int| 0 <= i < sizes.len() ==> #[trigger] widths[i] <= sizes[i],
        bounded_product(sizes) is Some,
    ensures
        bounded_product(widths) is Some,
        product(widths) <= product(sizes),
    decreases sizes.len(),
{
    lemma_bounded_product(sizes);
    lemma_bounded_product(widths);
    if sizes.len() > 0 {
        assert forall|i: int| 0 <= i < sizes.drop_last().len() implies #[trigger] widths.drop_last()[i]
            <= sizes.drop_last()[i] by {
            assert(widths[i] <= sizes[i]);
        }
        lemma_part_is_smaller(sizes.drop_last(), widths.drop_last());
        lemma_bounded_product(sizes.drop_last());
        lemma_bounded_product(widths.drop_last());
        let a = product(widths.drop_last()) as int;
        let b = product(sizes.drop_last()) as int;
        let x = widths.last() as int;
        let y = sizes.last() as int;
        assert(widths[widths.len() - 1] <= sizes[sizes.len() - 1]);
        assert(a * x <= b * y) by (nonlinear_arith)
            requires
                0 <= a <= b,
                0 <= x <= y,
        ;
    }
}

/// The part of a list with the sizes `sizes` that starts at `starts` and has the
/// sizes `widths`.
pub fn cut_elements(
    a: &Vec<u32>,
    sizes: &Vec<usize>,
    starts: &Vec<usize>,
    widths: &Vec<usize>,
) -> (out: Vec<u32>)
    requires
        lies_within(sizes@, starts@, widths@),
        bounded_product(sizes@) == Some(a@.len() as usize),
    ensures
        out@ == cut_values(a@, sizes@, starts@, widths@),
{
    assert(a.len() <= usize::MAX);
    proof {
        lemma_bounded_product(sizes@);
        assert forall|i: int| 0 <= i < sizes@.len() implies #[trigger] widths@[i] <= sizes@[i] by {
            assert(starts@[i] + widths@[i] <= sizes@[i]);
        }
        lemma_part_is_smaller(sizes@, widths@);
    }
    let count: usize = match checked_product(widths) {
        Some(count) => count,
        None => 0,
    };
    let mut out: Vec<u32> = Vec::new();
    let mut p: usize = 0;
    assert(sizes@.subrange(0, sizes@.len() as int) =~= sizes@);
    assert(starts@.subrange(0, starts@.len() as int) =~= starts@);
    assert(widths@.subrange(0, widths@.len() as int) =~= widths@);
    while p < count
        invariant
            lies_within(sizes@, starts@, widths@),
            sizes@.subrange(0, sizes@.len() as int) == sizes@,
            starts@.subrange(0, starts@.len() as int) == starts@,
            widths@.subrange(0, widths@.len() as int) == widths@,
            a@.len() == product(sizes@),
            a@.len() <= usize::MAX,
            count == product(widths@),
            p <= count,
            out@.len() == p,
            forall|k: int|
                0 <= k < p ==> #[trigger] out@[k] == a@[cut_source(sizes@, starts@, widths@, k)],
        decreases count - p,
    {
        let at: usize = cut_at(sizes, starts, widths, sizes.len(), p);
        out.push(a[at]);
        p = p + 1;
    }
    assert(out@ =~= cut_values(a@, sizes@, starts@, widths@));
    out
}

} // verus!

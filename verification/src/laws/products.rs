//! Products of matrices.

#[allow(unused_imports)]
use crate::bits::ONE;
#[allow(unused_imports)]
use crate::compose::{filled, last_two_exchanged, led};
#[allow(unused_imports)]
use crate::graph::{can_multiply, scalar, Binary, Reduction, Tensor};
#[allow(unused_imports)]
use crate::ops::matrix::{
    gemm_env, gemm_input, gemm_product, gemm_step, gemm_weight, matmul_step, scaled,
};
#[allow(unused_imports)]
use crate::proto::NodeDef;
#[allow(unused_imports)]
use crate::reading::{position_at, within};
#[allow(unused_imports)]
use crate::shape::{all_known, is_permutation, product, sizes_of, Dim};
#[allow(unused_imports)]
use crate::state::{Outcome, State};
#[allow(unused_imports)]
use crate::values::{
    along, at, has_index, is_sound, lemma_binary, lemma_expanded, lemma_numbers, lemma_permuted,
    lemma_reduce, lemma_row_major_place, number, sizes, total, Numbers,
};
use vstd::prelude::*;

verus! {

/// Whether tensors with these dimensions can be multiplied: the rows of the first
/// are as long as the columns of the second, which is one matrix, or has the same
/// leading axes.
pub open spec fn rows_fit_columns(a: Seq<Dim>, b: Seq<Dim>) -> bool {
    &&& a.len() >= 1
    &&& b.len() >= 2
    &&& a[a.len() - 1] == b[b.len() - 2]
    &&& if b.len() == 2 {
        a.len() <= 3
    } else {
        &&& a.len() == b.len()
        &&& a.len() <= 5
        &&& forall|i: int| 0 <= i < a.len() - 2 ==> a[i] == b[i]
    }
}

/// The index of the element in row `k` and column `j` of the matrix that a row of
/// the first factor, with the index `lead`, is multiplied with: one matrix has no
/// leading axes, and a batch of them has those of the first factor.
pub open spec fn column_index(rank: nat, lead: Seq<int>, k: int, j: int) -> Seq<int> {
    if rank == 2 {
        seq![k, j]
    } else {
        lead.drop_last().push(k).push(j)
    }
}

/// The products of the elements of a row and a column.
pub open spec fn products(m: Numbers, a: Tensor, b: Tensor, lead: Seq<int>, j: int) -> Seq<real> {
    Seq::new(
        sizes(a).last() as nat,
        |k: int| at(m, a, lead.push(k)) * at(m, b, column_index(b.dims().len(), lead, k, j)),
    )
}

/// A tensor that is repeated along axes before its own.
pub proof fn lemma_led(m: Numbers, t: Tensor, dims: Seq<Dim>, lead: Seq<int>, index: Seq<int>)
    requires
        is_sound(t.shape),
        lead.len() <= dims.len(),
        lead.len() + t.dims().len() <= usize::MAX,
        index.len() == t.dims().len(),
    ensures
        is_sound(led(t, dims, lead.len()).shape),
        led(t, dims, lead.len()).dims() == dims.subrange(0, lead.len() as int) + t.dims(),
        at(m, led(t, dims, lead.len()), lead + index) == at(m, t, index),
    decreases lead.len(),
{
    let n = lead.len();
    if n == 0 {
        assert(lead + index =~= index);
        assert(dims.subrange(0, 0) + t.dims() =~= t.dims());
    } else {
        let next = t.expanded(0, dims[n - 1]);
        lemma_expanded(m, t, 0, dims[n - 1], index, lead.last());
        lemma_led(m, next, dims, lead.drop_last(), index.insert(0, lead.last()));
        assert(lead.drop_last() + index.insert(0, lead.last()) =~= lead + index);
        assert(dims.subrange(0, n - 1) + next.dims() =~= dims.subrange(0, n as int) + t.dims());
    }
}

/// The columns of the second factor, as they are multiplied with the rows of the
/// first.
proof fn lemma_columns(m: Numbers, a: Tensor, b: Tensor, lead: Seq<int>, j: int, k: int)
    requires
        is_sound(b.shape),
        rows_fit_columns(a.dims(), b.dims()),
        lead.len() == a.dims().len() - 1,
    ensures
        ({
            let rank = a.dims().len();
            let turned = b.permuted(last_two_exchanged(b.dims().len()));
            let columns = if b.dims().len() == 2 {
                led(turned, a.dims(), (rank - 1) as nat)
            } else {
                turned.expanded(rank - 2, a.dims()[rank - 2])
            };
            &&& columns.dims() == a.dims().drop_last().push(b.dims().last()).push(a.dims().last())
            &&& at(m, columns, lead.push(j).push(k)) == at(
                m,
                b,
                column_index(b.dims().len(), lead, k, j),
            )
        }),
{
    let rank = a.dims().len();
    let other = b.dims().len();
    let order = last_two_exchanged(other);
    let turned = b.permuted(order);
    let index = column_index(other, lead, k, j);
    assert(is_permutation(order, other));
    lemma_permuted(m, b, order, index);
    let moved = Seq::new(order.len(), |i: int| index[order[i] as int]);
    let all = a.dims().drop_last().push(b.dims().last()).push(a.dims().last());
    if other == 2 {
        assert(moved =~= seq![j, k]);
        lemma_led(m, turned, a.dims(), lead, moved);
        assert(lead + moved =~= lead.push(j).push(k));
        assert(a.dims().subrange(0, rank - 1) + turned.dims() =~= all);
    } else {
        assert(moved =~= lead.drop_last().push(j).push(k));
        lemma_expanded(m, turned, rank - 2, a.dims()[rank - 2], moved, lead.last());
        assert(moved.insert(rank - 2, lead.last()) =~= lead.push(j).push(k));
        assert(turned.expanded(rank - 2, a.dims()[rank - 2]).dims() =~= all);
    }
}

/// The product of matrices, or of batches of them: its element in a row and a column
/// is the sum of the products of the elements of the row and the column.
pub proof fn law_product_of_matrices(m: Numbers, a: Tensor, b: Tensor, lead: Seq<int>, j: int)
    requires
        is_sound(a.shape),
        is_sound(b.shape),
        all_known(a.dims()),
        all_known(b.dims()),
        rows_fit_columns(a.dims(), b.dims()),
        within(sizes(a).drop_last(), lead),
        0 <= j < sizes(b).last(),
    ensures
        can_multiply(a.dims(), b.dims()),
        a.matmul(b).dims() == a.dims().drop_last().push(b.dims().last()),
        at(m, a.matmul(b), lead.push(j)) == total(products(m, a, b, lead, j)),
        is_sound(a.matmul(b).shape),
{
    let rank = a.dims().len();
    let n = b.dims().last();
    let turned = b.permuted(last_two_exchanged(b.dims().len()));
    let rows = a.expanded(rank - 1, n);
    let columns = if b.dims().len() == 2 {
        led(turned, a.dims(), (rank - 1) as nat)
    } else {
        turned.expanded(rank - 2, a.dims()[rank - 2])
    };
    let both = rows.binary(Binary::Mul, columns);
    let dims = a.dims().drop_last().push(n);
    if b.dims().len() != 2 {
        assert(a.dims().subrange(0, rank - 2) =~= b.dims().subrange(0, rank - 2));
    }
    assert(a.dims().last() == b.dims()[b.dims().len() - 2]);
    lemma_columns(m, a, b, lead, j, 0);
    assert(rows.dims() =~= dims.push(a.dims().last()));
    assert(both.dims().remove(rank as int) =~= dims);
    assert(a.matmul(b) == both.reduce(Reduction::Sum, rank as usize));
    assert(all_known(both.dims())) by {
        assert(b.dims()[b.dims().len() - 1] is Known);
        assert forall|i: int| 0 <= i < both.dims().len() implies (
        #[trigger] both.dims()[i]) is Known by {
            if i < rank - 1 {
                assert(a.dims()[i] is Known);
            } else if i == rank {
                assert(a.dims()[rank - 1] is Known);
            }
        }
    }
    let index = lead.push(j);
    let less = sizes(both).remove(rank as int);
    assert(within(less, index)) by {
        assert forall|i: int| 0 <= i < less.len() implies 0 <= #[trigger] index[i] < less[i] by {
            if i < rank - 1 {
                assert(0 <= lead[i] < sizes(a).drop_last()[i]);
            }
        }
    }
    lemma_reduce(m, both, Reduction::Sum, rank as usize, index);
    let found = along(m, both, index, rank as int);
    let wanted = products(m, a, b, lead, j);
    assert(sizes(both)[rank as int] == sizes(a).last());
    assert forall|k: int| 0 <= k < wanted.len() implies found[k] == wanted[k] by {
        let full = index.insert(rank as int, k);
        assert(full =~= lead.push(j).push(k));
        lemma_columns(m, a, b, lead, j, k);
        lemma_expanded(m, a, rank - 1, n, lead.push(k), j);
        assert(lead.push(k).insert(rank - 1, j) =~= full);
        assert(has_index(rows, full)) by {
            assert forall|i: int| 0 <= i < sizes(rows).len() implies 0 <= #[trigger] full[i]
                < sizes(rows)[i] by {
                if i < rank {
                    assert(0 <= index[i] < less[i]);
                }
            }
        }
        lemma_binary(m, rows, Binary::Mul, columns, full);
    }
    assert(found =~= wanted);
    lemma_row_major_place(dims, index);
}

/// A MatMul node of tensors that fit each other is done, and its output has the
/// products of their matrices.
pub proof fn law_matmul_node(
    m: Numbers,
    node: NodeDef,
    before: State,
    after: State,
    result: Outcome,
    lead: Seq<int>,
    j: int,
)
    requires
        matmul_step(node, before, after, result),
        node.input@.len() == 2,
        node.output@.len() > 0,
        before.env.contains_key(node.inp(0)),
        before.env.contains_key(node.inp(1)),
        is_sound(before.env[node.inp(0)].shape),
        is_sound(before.env[node.inp(1)].shape),
        all_known(before.env[node.inp(0)].dims()),
        all_known(before.env[node.inp(1)].dims()),
        rows_fit_columns(before.env[node.inp(0)].dims(), before.env[node.inp(1)].dims()),
        within(sizes(before.env[node.inp(0)]).drop_last(), lead),
        0 <= j < sizes(before.env[node.inp(1)]).last(),
    ensures
        ({
            let a = before.env[node.inp(0)];
            let b = before.env[node.inp(1)];
            let t = after.env[node.out(0)];
            &&& result is Done
            &&& t.dims() == a.dims().drop_last().push(b.dims().last())
            &&& at(m, t, lead.push(j)) == total(products(m, a, b, lead, j))
        }),
{
    law_product_of_matrices(
        m,
        before.env[node.inp(0)],
        before.env[node.inp(1)],
        lead,
        j,
    );
}

/// The dimensions of a matrix, exchanged if it is to be.
pub open spec fn turned_dims(t: Tensor, turn: bool) -> Seq<Dim> {
    if turn {
        seq![t.dims()[1], t.dims()[0]]
    } else {
        t.dims()
    }
}

/// The index of an element of a matrix, exchanged if the matrix is.
pub open spec fn turned_index(index: Seq<int>, turn: bool) -> Seq<int> {
    if turn {
        seq![index[1], index[0]]
    } else {
        index
    }
}

/// The products of the elements of a row and a column of two matrices, each of which
/// may be exchanged.
pub open spec fn turned_products(
    m: Numbers,
    a: Tensor,
    turn_a: bool,
    b: Tensor,
    turn_b: bool,
    lead: Seq<int>,
    j: int,
) -> Seq<real> {
    Seq::new(
        sizes_of(turned_dims(a, turn_a)).last() as nat,
        |k: int|
            at(m, a, turned_index(lead.push(k), turn_a)) * at(
                m,
                b,
                turned_index(column_index(b.dims().len(), lead, k, j), turn_b),
            ),
    )
}

/// A tensor times a number.
proof fn lemma_scaled(m: Numbers, x: Tensor, factor: u32, index: Seq<int>)
    requires
        x.dims().len() <= usize::MAX,
        has_index(x, index),
    ensures
        scaled(x, factor).dims() == x.dims(),
        at(m, scaled(x, factor), index) == number(factor) * at(m, x, index),
{
    if factor == ONE {
        lemma_numbers();
        let v = at(m, x, index);
        assert(1real * v == v) by (nonlinear_arith);
    } else {
        let spread = filled(scalar(factor), x.dims());
        lemma_row_major_place(Seq::empty(), Seq::empty());
        lemma_led(m, scalar(factor), x.dims(), index, Seq::empty());
        assert(spread.dims() =~= x.dims());
        assert(index + Seq::<int>::empty() =~= index);
        lemma_binary(m, x, Binary::Mul, spread, index);
        let v = at(m, x, index);
        let f = number(factor);
        assert(v * f == f * v) by (nonlinear_arith);
    }
}

/// Whether the numbers that are given for the second input of a Gemm node with rows
/// and columns exchanged are those of the input.
pub open spec fn gives_exchanged(m: Numbers, node: NodeDef, before: State) -> bool {
    let b = before.env[node.inp(1)];
    forall|k: int, j: int|
        0 <= k < sizes(b)[1] && 0 <= j < sizes(b)[0] ==> #[trigger] (m.given)(
            node.inp(1) + "_kn"@,
            k * sizes(b)[0] + j,
        ) == at(m, b, seq![j, k])
}

/// A Gemm node of matrices that fit each other is done, and the element of its output
/// in a row and a column is `alpha` times the sum of the products of the elements of
/// the row and the column, plus `beta` times the element of the bias in the column, if
/// there is one. A matrix whose attribute `transA` or `transB` is not 0 is exchanged
/// first.
pub proof fn law_gemm_node(
    m: Numbers,
    node: NodeDef,
    before: State,
    after: State,
    result: Outcome,
    lead: Seq<int>,
    j: int,
)
    requires
        gemm_step(node, before, after, result),
        node.input@.len() >= 2,
        node.output@.len() > 0,
        before.env.contains_key(node.inp(0)),
        before.env.contains_key(node.inp(1)),
        is_sound(before.env[node.inp(0)].shape),
        is_sound(before.env[node.inp(1)].shape),
        all_known(before.env[node.inp(0)].dims()),
        all_known(before.env[node.inp(1)].dims()),
        ({
            let a = before.env[node.inp(0)];
            let b = before.env[node.inp(1)];
            let turn_a = node.int_attr("transA"@, 0) != 0;
            let turn_b = node.int_attr("transB"@, 0) != 0;
            let rows = turned_dims(a, turn_a);
            let columns = turned_dims(b, turn_b);
            &&& turn_a ==> a.dims().len() == 2
            &&& turn_b ==> b.dims().len() == 2 && gives_exchanged(m, node, before)
            &&& rows_fit_columns(rows, columns)
            &&& within(sizes_of(rows).drop_last(), lead)
            &&& 0 <= j < sizes_of(columns).last()
            &&& node.has_input(2) ==> {
                &&& before.env.contains_key(node.inp(2))
                &&& node.inp(2) != node.inp(1) + "_kn"@
                &&& is_sound(before.env[node.inp(2)].shape)
                &&& rows.len() == 2
                &&& before.env[node.inp(2)].dims() == seq![columns.last()]
            }
        }),
    ensures
        ({
            let a = before.env[node.inp(0)];
            let b = before.env[node.inp(1)];
            let turn_a = node.int_attr("transA"@, 0) != 0;
            let turn_b = node.int_attr("transB"@, 0) != 0;
            let t = after.env[node.out(0)];
            let product = number(node.float_attr("alpha"@, ONE)) * total(
                turned_products(m, a, turn_a, b, turn_b, lead, j),
            );
            &&& result is Done
            &&& t.dims() == turned_dims(a, turn_a).drop_last().push(turned_dims(b, turn_b).last())
            &&& at(m, t, lead.push(j)) == if node.has_input(2) {
                product + number(node.float_attr("beta"@, ONE)) * at(
                    m,
                    before.env[node.inp(2)],
                    seq![j],
                )
            } else {
                product
            }
        }),
{
    let a = before.env[node.inp(0)];
    let b = before.env[node.inp(1)];
    let turn_a = node.int_attr("transA"@, 0) != 0;
    let turn_b = node.int_attr("transB"@, 0) != 0;
    let x = gemm_input(node, before);
    let w = gemm_weight(node, before);
    let order = seq![1usize, 0usize];
    assert(x.dims() =~= turned_dims(a, turn_a));
    assert(w.dims() =~= turned_dims(b, turn_b));
    if turn_a {
        assert(is_permutation(order, 2));
        lemma_permuted(m, a, order, seq![0int, 0int]);
    }
    if turn_b {
        lemma_row_major_place(w.dims(), seq![0int, 0int]);
    }
    assert(all_known(x.dims())) by {
        if turn_a {
            assert(a.dims()[0] is Known && a.dims()[1] is Known);
        }
    }
    assert(all_known(w.dims())) by {
        if turn_b {
            assert(b.dims()[0] is Known && b.dims()[1] is Known);
        }
    }
    law_product_of_matrices(m, x, w, lead, j);
    let found = products(m, x, w, lead, j);
    let wanted = turned_products(m, a, turn_a, b, turn_b, lead, j);
    assert forall|k: int| 0 <= k < wanted.len() implies found[k] == wanted[k] by {
        let row = lead.push(k);
        if turn_a {
            let back = seq![row[1], row[0]];
            lemma_permuted(m, a, order, back);
            assert(Seq::new(order.len(), |i: int| back[order[i] as int]) =~= row);
        }
        let column = column_index(b.dims().len(), lead, k, j);
        if turn_b {
            let n = sizes(b)[0] as int;
            assert(column == seq![k, j]);
            lemma_row_major_place(w.dims(), column);
            let sz = sizes(w);
            assert(sz =~= seq![sizes(b)[1], sizes(b)[0]]);
            assert(sz.drop_last() =~= seq![sizes(b)[1]]);
            assert(sz.drop_last().drop_last() =~= Seq::empty());
            assert(column.drop_last() =~= seq![k]);
            reveal_with_fuel(position_at, 3);
            assert(0 * sizes(b)[1] == 0);
            assert(position_at(sz, column) == k * n + j);
            assert(k < sizes_of(turned_dims(a, turn_a)).last());
            let rows = turned_dims(a, turn_a);
            assert(rows[rows.len() - 1] == turned_dims(b, turn_b)[0]);
            assert(0 <= k < sizes(b)[1] && 0 <= j < sizes(b)[0]);
            assert((m.given)(node.inp(1) + "_kn"@, k * n + j) == at(m, b, seq![j, k]));
            assert(turned_index(column, turn_b) =~= seq![j, k]);
        }
    }
    assert(found =~= wanted);
    let index = lead.push(j);
    let plain = x.matmul(w);
    let alpha = node.float_attr("alpha"@, ONE);
    assert(has_index(plain, index)) by {
        let rows = sizes_of(turned_dims(a, turn_a)).drop_last();
        assert(turned_dims(b, turn_b)[turned_dims(b, turn_b).len() - 1] is Known);
        assert forall|i: int| 0 <= i < plain.dims().len() implies (
        #[trigger] plain.dims()[i]) is Known by {
            if i < x.dims().len() - 1 {
                assert(x.dims()[i] is Known);
            }
        }
        assert forall|i: int| 0 <= i < sizes(plain).len() implies 0 <= #[trigger] index[i]
            < sizes(plain)[i] by {
            if i < lead.len() {
                assert(0 <= lead[i] < rows[i]);
            }
        }
    }
    lemma_scaled(m, plain, alpha, index);
    if node.has_input(2) {
        let bias = before.env[node.inp(2)];
        let named = gemm_env(node, before);
        assert(named[node.inp(2)] == bias);
        let result_tensor = gemm_product(node, before);
        let rows = bias.expanded(0, result_tensor.dims()[0]);
        assert(rows.dims() =~= plain.dims());
        lemma_expanded(m, bias, 0, result_tensor.dims()[0], seq![j], lead[0]);
        assert(seq![j].insert(0, lead[0]) =~= index);
        lemma_scaled(m, rows, node.float_attr("beta"@, ONE), index);
        lemma_binary(
            m,
            result_tensor,
            Binary::Add,
            scaled(rows, node.float_attr("beta"@, ONE)),
            index,
        );
    }
}

} // verus!

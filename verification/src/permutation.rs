//! Permutation matrices.

use crate::seq_facts::all_below;
use crate::sums::dot;
use crate::ultrametric::square;
use vstd::prelude::*;

verus! {

/// The 0/1 matrix that has, in row `i`, its single 1 in column `order[i]`.
pub open spec fn permutation_matrix(order: Seq<usize>) -> Seq<Seq<i64>> {
    Seq::new(
        order.len(),
        |i: int| Seq::new(order.len(), |j: int| if order[i] == j { 1i64 } else { 0i64 }),
    )
}

/// Row `i` of `m` holds a 1 in column `j` and 0 everywhere else.
pub open spec fn row_has_single_one(m: Seq<Seq<i64>>, i: int, j: int) -> bool {
    &&& 0 <= j < m.len()
    &&& m[i][j] == 1
    &&& forall|k: int| 0 <= k < m.len() && k != j ==> #[trigger] m[i][k] == 0
}

/// Column `j` of `m` holds a 1 in row `i` and 0 everywhere else.
pub open spec fn column_has_single_one(m: Seq<Seq<i64>>, j: int, i: int) -> bool {
    &&& 0 <= i < m.len()
    &&& m[i][j] == 1
    &&& forall|k: int| 0 <= k < m.len() && k != i ==> (#[trigger] m[k])[j] == 0
}

/// Row `i` of `m` holds exactly one 1, and 0 everywhere else.
pub open spec fn row_is_unit(m: Seq<Seq<i64>>, i: int) -> bool {
    exists|j: int| #[trigger] row_has_single_one(m, i, j)
}

/// Column `j` of `m` holds exactly one 1, and 0 everywhere else.
pub open spec fn column_is_unit(m: Seq<Seq<i64>>, j: int) -> bool {
    exists|i: int| #[trigger] column_has_single_one(m, j, i)
}

/// A square matrix with exactly one 1 in every row and in every column,
/// and 0 everywhere else.
pub open spec fn is_permutation_matrix(m: Seq<Seq<i64>>) -> bool {
    &&& square(m)
    &&& forall|i: int| 0 <= i < m.len() ==> #[trigger] row_is_unit(m, i)
    &&& forall|j: int| 0 <= j < m.len() ==> #[trigger] column_is_unit(m, j)
}

/// The matrix of a list that holds each index below its length exactly once
/// is a permutation matrix.
pub proof fn lemma_permutation_matrix(order: Seq<usize>)
    requires
        order.len() <= usize::MAX,
        order.no_duplicates(),
        all_below(order, order.len()),
        forall|x: usize| x < order.len() ==> order.contains(x),
    ensures
        is_permutation_matrix(permutation_matrix(order)),
{
    let m = permutation_matrix(order);
    let n = order.len() as int;
    assert forall|i: int| 0 <= i < n implies #[trigger] row_is_unit(m, i) by {
        assert(row_has_single_one(m, i, order[i] as int));
    }
    assert forall|j: int| 0 <= j < n implies #[trigger] column_is_unit(m, j) by {
        assert(order.contains(j as usize));
        let i = choose|i: int| 0 <= i < order.len() && order[i] == j as usize;
        assert forall|k: int| 0 <= k < n && k != i implies (#[trigger] m[k])[j] == 0 by {
            assert(order[k] != order[i]);
        }
        assert(column_has_single_one(m, j, i));
    }
}

/// The inner product with a row of zeros is zero.
proof fn lemma_dot_zero(a: Seq<i64>, b: Seq<i64>)
    requires
        forall|k: int| 0 <= k < a.len() ==> #[trigger] a[k] == 0,
    ensures
        dot(a, b) == 0,
    decreases a.len(),
{
    if a.len() > 0 {
        let front = a.drop_last();
        assert forall|k: int| 0 <= k < front.len() implies #[trigger] front[k] == 0 by {
            assert(front[k] == a[k]);
        }
        lemma_dot_zero(front, b);
        assert(a[a.len() - 1] == 0);
        let x = a.last();
        let y = b[a.len() - 1];
        assert(x == 0);
        assert(x * y == 0) by (nonlinear_arith)
            requires
                x == 0,
        ;
    }
}

/// The inner product with a row that holds a single 1 picks one entry.
proof fn lemma_dot_unit(a: Seq<i64>, b: Seq<i64>, p: int)
    requires
        0 <= p < a.len(),
        forall|k: int| 0 <= k < a.len() ==> #[trigger] a[k] == if k == p { 1i64 } else { 0i64 },
    ensures
        dot(a, b) == b[p],
    decreases a.len(),
{
    let front = a.drop_last();
    let last = a.len() - 1;
    assert(a[last] == if last == p { 1i64 } else { 0i64 });
    if p == last {
        assert forall|k: int| 0 <= k < front.len() implies #[trigger] front[k] == 0 by {
            assert(front[k] == a[k]);
        }
        lemma_dot_zero(front, b);
        let x = a.last();
        let y = b[last];
        assert(x == 1);
        assert(x * y == y) by (nonlinear_arith)
            requires
                x == 1,
        ;
    } else {
        assert forall|k: int| 0 <= k < front.len() implies #[trigger] front[k] == if k == p {
            1i64
        } else {
            0i64
        } by {
            assert(front[k] == a[k]);
        }
        lemma_dot_unit(front, b, p);
        let x = a.last();
        let y = b[last];
        assert(x == 0);
        assert(x * y == 0) by (nonlinear_arith)
            requires
                x == 0,
        ;
    }
}

/// The product of a permutation matrix with its transpose is the identity:
/// the inner product of two rows is 1 for a row with itself and 0 for two
/// different rows.
pub proof fn lemma_permutation_orthogonal(order: Seq<usize>, i: int, j: int)
    requires
        order.no_duplicates(),
        all_below(order, order.len()),
        0 <= i < order.len(),
        0 <= j < order.len(),
    ensures
        dot(permutation_matrix(order)[i], permutation_matrix(order)[j]) == if i == j {
            1int
        } else {
            0int
        },
{
    let m = permutation_matrix(order);
    lemma_dot_unit(m[i], m[j], order[i] as int);
}

} // verus!

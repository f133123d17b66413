//! Matrices whose entry for two indices is the least link of a chain
//! between them, and rearrangements of matrices. Such matrices are
//! ultrametric, and rearranging rows and columns alike keeps them so.

use crate::dense::DMatrix;
use crate::random::is_rearrangement;
use crate::ultrametric::{lesser, square, ultrametric};
use crate::utils::spec_is_ultrametric;
use vstd::prelude::*;

verus! {

/// `x` is the least of the links `d[i], .., d[k - 1]`.
pub open spec fn least_between(d: Seq<i64>, i: int, k: int, x: i64) -> bool {
    &&& forall|t: int| i <= t < k ==> x <= #[trigger] d[t]
    &&& exists|t: int| i <= t < k && #[trigger] d[t] == x
}

/// The two entries for the indices `r < k` hold the least link between them.
pub open spec fn chain_entry(matrix: &DMatrix, d: Seq<i64>, r: int, k: int) -> bool {
    &&& least_between(d, r, k, matrix.at(r, k))
    &&& matrix.at(k, r) == matrix.at(r, k)
}

/// Every entry off the diagonal, from row `from` on, holds the least link
/// between its two indices.
pub open spec fn chain_filled(matrix: &DMatrix, d: Seq<i64>, from: int) -> bool {
    forall|r: int, k: int|
        from <= r < k < matrix.spec_nrows() ==> #[trigger] chain_entry(matrix, d, r, k)
}

/// Every entry of the square matrix lies in `low..high`.
pub open spec fn entries_within(m: Seq<Seq<i64>>, low: int, high: int) -> bool {
    forall|i: int, j: int|
        0 <= i < m.len() && 0 <= j < m.len() ==> low <= #[trigger] m[i][j] < high
}

/// No entry of a row exceeds the row's diagonal entry.
pub open spec fn diagonal_dominant(m: Seq<Seq<i64>>) -> bool {
    forall|i: int, j: int| 0 <= i < m.len() && 0 <= j < m.len() ==> #[trigger] m[i][j] <= m[i][i]
}

/// `b` is `a` with rows and columns rearranged alike: what `a` has at
/// `(i, j)`, `b` has at `(order[i], order[j])`.
pub open spec fn rearranged(a: Seq<Seq<i64>>, b: Seq<Seq<i64>>, order: Seq<usize>) -> bool {
    &&& a.len() == b.len()
    &&& square(a)
    &&& square(b)
    &&& is_rearrangement(order, a.len())
    &&& forall|i: int, j: int|
        0 <= i < a.len() && 0 <= j < a.len() ==> b[order[i] as int][order[j] as int]
            == #[trigger] a[i][j]
}

/// A matrix filled with least links that are not negative is ultrametric.
pub proof fn lemma_chain_ultrametric(matrix: &DMatrix, d: Seq<i64>)
    requires
        matrix.spec_is_square(),
        d.len() + 1 == matrix.spec_nrows(),
        forall|t: int| 0 <= t < d.len() ==> #[trigger] d[t] >= 0,
        chain_filled(matrix, d, 0),
    ensures
        spec_is_ultrametric(matrix),
{
    let m = matrix@;
    let n = m.len() as int;
    matrix.lemma_view();
    assert forall|i: int, j: int| 0 <= i < n && 0 <= j < n implies #[trigger] m[i][j]
        == m[j][i] by {
        if i < j {
            assert(chain_entry(matrix, d, i, j));
        } else if j < i {
            assert(chain_entry(matrix, d, j, i));
        }
    }
    assert forall|i: int, j: int| 0 <= i < n && 0 <= j < n && i != j implies #[trigger] m[i][j]
        >= 0 by {
        let lo = if i < j { i } else { j };
        let hi = if i < j { j } else { i };
        assert(chain_entry(matrix, d, lo, hi));
        let t = choose|t: int| lo <= t < hi && #[trigger] d[t] == matrix.at(lo, hi);
    }
    assert forall|i: int, j: int, k: int|
        #![trigger m[i][j], m[j][k]]
        0 <= i < n && 0 <= j < n && 0 <= k < n && i != j && j != k && i != k implies m[i][k]
        >= lesser(m[i][j] as int, m[j][k] as int) by {
        let lo = if i < k { i } else { k };
        let hi = if i < k { k } else { i };
        assert(chain_entry(matrix, d, lo, hi));
        let t = choose|t: int| lo <= t < hi && #[trigger] d[t] == matrix.at(lo, hi);
        let lo1 = if i < j { i } else { j };
        let hi1 = if i < j { j } else { i };
        let lo2 = if j < k { j } else { k };
        let hi2 = if j < k { k } else { j };
        assert(chain_entry(matrix, d, lo1, hi1));
        assert(chain_entry(matrix, d, lo2, hi2));
        if lo1 <= t < hi1 {
            assert(matrix.at(lo1, hi1) <= d[t]);
        } else {
            assert(lo2 <= t < hi2);
            assert(matrix.at(lo2, hi2) <= d[t]);
        }
    }
}

/// In a matrix filled with least links, an entry off the diagonal is one
/// of the links.
pub proof fn lemma_chain_entry_is_link(matrix: &DMatrix, d: Seq<i64>, i: int, j: int) -> (t: int)
    requires
        chain_filled(matrix, d, 0),
        0 <= i < matrix.spec_nrows(),
        0 <= j < matrix.spec_nrows(),
        i != j,
    ensures
        0 <= t < matrix.spec_nrows() - 1,
        if i < j {
            i <= t < j
        } else {
            j <= t < i
        },
        matrix.at(i, j) == d[t],
{
    let lo = if i < j { i } else { j };
    let hi = if i < j { j } else { i };
    assert(chain_entry(matrix, d, lo, hi));
    choose|t: int| lo <= t < hi && #[trigger] d[t] == matrix.at(lo, hi)
}

/// The index that a rearrangement sends to `x`.
pub proof fn lemma_rearranged_source(order: Seq<usize>, n: nat, x: int) -> (i: int)
    requires
        is_rearrangement(order, n),
        0 <= x < n,
        n <= usize::MAX,
    ensures
        0 <= i < n,
        order[i] == x,
{
    assert(order.contains(x as usize));
    choose|i: int| 0 <= i < order.len() && order[i] == x as usize
}

/// Rearranging rows and columns alike keeps a matrix ultrametric, keeps
/// its entries in their range, and keeps the diagonal dominant.
pub proof fn lemma_rearranged(a: Seq<Seq<i64>>, b: Seq<Seq<i64>>, order: Seq<usize>)
    requires
        rearranged(a, b, order),
        a.len() <= usize::MAX,
    ensures
        ultrametric(a) ==> ultrametric(b),
        forall|low: int, high: int| entries_within(a, low, high) ==> entries_within(b, low, high),
        diagonal_dominant(a) ==> diagonal_dominant(b),
{
    let n = a.len();
    if ultrametric(a) {
        assert forall|x: int, y: int| 0 <= x < n && 0 <= y < n implies #[trigger] b[x][y]
            == b[y][x] by {
            let i = lemma_rearranged_source(order, n, x);
            let j = lemma_rearranged_source(order, n, y);
            assert(b[x][y] == a[i][j] && b[y][x] == a[j][i]);
        }
        assert forall|x: int, y: int| 0 <= x < n && 0 <= y < n && x != y implies #[trigger] b[x][y]
            >= 0 by {
            let i = lemma_rearranged_source(order, n, x);
            let j = lemma_rearranged_source(order, n, y);
            assert(b[x][y] == a[i][j]);
        }
        assert forall|x: int, y: int, z: int|
            #![trigger b[x][y], b[y][z]]
            0 <= x < n && 0 <= y < n && 0 <= z < n && x != y && y != z && x != z implies b[x][z]
            >= lesser(b[x][y] as int, b[y][z] as int) by {
            let i = lemma_rearranged_source(order, n, x);
            let j = lemma_rearranged_source(order, n, y);
            let k = lemma_rearranged_source(order, n, z);
            assert(b[x][y] == a[i][j] && b[y][z] == a[j][k] && b[x][z] == a[i][k]);
        }
    }
    assert forall|low: int, high: int| entries_within(a, low, high) implies entries_within(
        b,
        low,
        high,
    ) by {
        assert forall|x: int, y: int| 0 <= x < n && 0 <= y < n implies low <= #[trigger] b[x][y]
            < high by {
            let i = lemma_rearranged_source(order, n, x);
            let j = lemma_rearranged_source(order, n, y);
            assert(b[x][y] == a[i][j]);
        }
    }
    if diagonal_dominant(a) {
        assert forall|x: int, y: int| 0 <= x < n && 0 <= y < n implies #[trigger] b[x][y]
            <= b[x][x] by {
            let i = lemma_rearranged_source(order, n, x);
            let j = lemma_rearranged_source(order, n, y);
            assert(b[x][y] == a[i][j] && b[x][x] == a[i][i]);
        }
    }
}

} // verus!

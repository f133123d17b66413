//! Functions to check properties of matrices.

use crate::chain::{
    chain_entry, chain_filled, diagonal_dominant, entries_within, least_between,
    lemma_chain_entry_is_link, lemma_chain_ultrametric, lemma_rearranged, rearranged,
};
use crate::dense::{DMatrix, DVector};
use crate::partition::{lemma_parts_below, lemma_split_at_min, split, split_indices};
use crate::random::{
    gen_range, is_rearrangement, lemma_shuffled_indices, shuffle, std_rng_from_seed, thread_rng,
};
use crate::seq_facts::{all_below, index_range, lemma_identity_indices};
use crate::sums::{dense_product_fits, dot, dot_fits, lemma_dot_step};
use crate::ultrametric::{
    block_equal, lemma_ultrametric_joins, lemma_ultrametric_on_all, lemma_ultrametric_splits,
    square, symmetric, ultrametric, ultrametric_on,
};
use crate::ultrametric_tree::MultError;
use vstd::prelude::*;

verus! {

/// A matrix is ultrametric when it is square and its entries have the
/// ultrametric property.
pub open spec fn spec_is_ultrametric(matrix: &DMatrix) -> bool {
    matrix.spec_is_square() && ultrametric(matrix@)
}

/// Checks if a matrix is ultrametric.
///
/// First the symmetry is checked. Then the index set is split recursively,
/// as it is for the construction of the tree, and at every split the block
/// between the two parts has to hold one value that is not below the value
/// of the split above.
pub fn is_ultrametric(matrix: &DMatrix) -> (result: bool)
    ensures
        result == spec_is_ultrametric(matrix),
{
    if !is_symmetric(matrix) {
        return false;
    }
    let n = matrix.nrows();
    proof {
        matrix.lemma_view();
        lemma_identity_indices(n as nat);
        lemma_ultrametric_on_all(matrix@);
    }
    if n == 0 {
        return true;
    }
    let idx = index_range(n);
    is_submatrix_ultrametric(matrix, idx, 0)
}

/// Whether the matrix is square and equals its transpose.
fn is_symmetric(matrix: &DMatrix) -> (result: bool)
    ensures
        result == (matrix.spec_is_square() && symmetric(matrix@)),
{
    if !matrix.is_square() {
        return false;
    }
    let size = matrix.shape().0;
    proof {
        matrix.lemma_view();
    }
    let mut i: usize = 0;
    while i < size
        invariant
            i <= size,
            size == matrix.spec_nrows(),
            matrix.spec_is_square(),
            forall|a: int, b: int|
                0 <= a < i && a < b < size ==> matrix.at(a, b) == matrix.at(b, a),
        decreases size - i,
    {
        let mut j: usize = i + 1;
        while j < size
            invariant
                i < j <= size,
                size == matrix.spec_nrows(),
                matrix.spec_is_square(),
                forall|a: int, b: int|
                    0 <= a < i && a < b < size ==> matrix.at(a, b) == matrix.at(b, a),
                forall|b: int| i < b < j ==> matrix.at(i as int, b) == matrix.at(b, i as int),
            decreases size - j,
        {
            if matrix.get(i, j) != matrix.get(j, i) {
                proof {
                    let m = matrix@;
                    assert(m[i as int][j as int] != m[j as int][i as int]);
                }
                return false;
            }
            j += 1;
        }
        i += 1;
    }
    proof {
        let m = matrix@;
        assert forall|a: int, b: int|
            0 <= a < m.len() && 0 <= b < m.len() implies #[trigger] m[a][b] == m[b][a] by {
            if a < b {
                assert(matrix.at(a, b) == matrix.at(b, a));
            } else if b < a {
                assert(matrix.at(b, a) == matrix.at(a, b));
            }
        }
    }
    true
}

/// Whether the indices of `idx` satisfy the ultrametric inequalities with
/// `prev_value` as the floor.
fn is_submatrix_ultrametric(matrix: &DMatrix, idx: Vec<usize>, prev_value: i64) -> (result: bool)
    requires
        matrix.spec_is_square(),
        symmetric(matrix@),
        idx@.len() >= 1,
        idx@.no_duplicates(),
        all_below(idx@, matrix.spec_nrows()),
    ensures
        result == ultrametric_on(matrix@, idx@, prev_value as int),
    decreases idx@.len(),
{
    let first_i = idx[0];
    if idx.len() == 1 {
        proof {
            assert forall|a: usize, b: usize| idx@.contains(a) && idx@.contains(b) implies a
                == b by {
                let ka = choose|k: int| 0 <= k < idx@.len() && idx@[k] == a;
                let kb = choose|k: int| 0 <= k < idx@.len() && idx@[k] == b;
            }
        }
        return true;
    }
    let (left_partition, right_partition, min) = split_indices(matrix, &idx);
    proof {
        matrix.lemma_view();
        let s = split(matrix@, idx@);
        lemma_split_at_min(matrix@, idx@);
        lemma_parts_below(s, idx@, matrix.spec_nrows());
        if ultrametric_on(matrix@, idx@, prev_value as int) {
            lemma_ultrametric_splits(matrix@, idx@, s, prev_value as int);
        }
    }
    if min < prev_value || !is_block_equal(matrix, &left_partition, &right_partition, min) {
        return false;
    }
    let left = is_submatrix_ultrametric(matrix, left_partition, min);
    let right = is_submatrix_ultrametric(matrix, right_partition, min);
    proof {
        if left && right {
            lemma_ultrametric_joins(matrix@, idx@, split(matrix@, idx@), prev_value as int);
        }
    }
    left && right
}

/// Whether every entry in the rows of `left` and the columns of `right`
/// equals `value`.
fn is_block_equal(matrix: &DMatrix, left: &Vec<usize>, right: &Vec<usize>, value: i64) -> (result:
    bool)
    requires
        matrix.spec_is_square(),
        all_below(left@, matrix.spec_nrows()),
        all_below(right@, matrix.spec_nrows()),
    ensures
        result == block_equal(matrix@, left@, right@, value),
{
    proof {
        matrix.lemma_view();
    }
    let mut a: usize = 0;
    while a < left.len()
        invariant
            a <= left@.len(),
            matrix.spec_is_square(),
            all_below(left@, matrix.spec_nrows()),
            all_below(right@, matrix.spec_nrows()),
            forall|x: int, y: int|
                0 <= x < a && 0 <= y < right@.len() ==> matrix.at(
                    left@[x] as int,
                    right@[y] as int,
                ) == value,
        decreases left@.len() - a,
    {
        let i = left[a];
        let mut b: usize = 0;
        while b < right.len()
            invariant
                a < left@.len(),
                i == left@[a as int],
                b <= right@.len(),
                matrix.spec_is_square(),
                all_below(left@, matrix.spec_nrows()),
                all_below(right@, matrix.spec_nrows()),
                forall|x: int, y: int|
                    0 <= x < a && 0 <= y < right@.len() ==> matrix.at(
                        left@[x] as int,
                        right@[y] as int,
                    ) == value,
                forall|y: int|
                    0 <= y < b ==> matrix.at(i as int, right@[y] as int) == value,
            decreases right@.len() - b,
        {
            let j = right[b];
            if matrix.get(i, j) != value {
                proof {
                    assert(left@.contains(i) && right@.contains(j));
                    assert(matrix@[i as int][j as int] != value);
                }
                return false;
            }
            b += 1;
        }
        a += 1;
    }
    proof {
        assert forall|x: usize, y: usize|
            #![trigger left@.contains(x), right@.contains(y)]
            left@.contains(x) && right@.contains(y) implies matrix@[x as int][y as int]
            == value by {
            let kx = choose|k: int| 0 <= k < left@.len() && left@[k] == x;
            let ky = choose|k: int| 0 <= k < right@.len() && right@[k] == y;
            assert(matrix.at(left@[kx] as int, right@[ky] as int) == value);
        }
    }
    true
}

/// Calculate the product of a square matrix and a vector, entry by entry.
///
/// Terms and partial sums are 64-bit integers: the multiplication fails
/// with `Overflow` as soon as one of them does not fit, and with
/// `DimensionMismatch` unless the matrix has as many rows and as many
/// columns as the vector has entries.
pub fn calculate_normal_product(matrix: &DMatrix, vector: &DVector) -> (result: Result<
    DVector,
    MultError,
>)
    ensures
        match result {
            Ok(product) => {
                &&& matrix.spec_nrows() == vector@.len()
                &&& matrix.spec_ncols() == vector@.len()
                &&& dense_product_fits(matrix@, vector@)
                &&& product@.len() == vector@.len()
                &&& forall|i: int|
                    0 <= i < product@.len() ==> #[trigger] product@[i] == dot(matrix@[i], vector@)
            },
            Err(MultError::DimensionMismatch) => !(matrix.spec_nrows() == vector@.len()
                && matrix.spec_ncols() == vector@.len()),
            Err(MultError::Overflow) => {
                &&& matrix.spec_nrows() == vector@.len()
                &&& matrix.spec_ncols() == vector@.len()
                &&& !dense_product_fits(matrix@, vector@)
            },
        },
{
    let size = vector.nrows();
    let shape = matrix.shape();
    if shape.0 != size || shape.1 != size {
        return Err(MultError::DimensionMismatch);
    }
    proof {
        matrix.lemma_view();
    }
    let mut product = DVector::zeros(size);
    let mut i: usize = 0;
    while i < size
        invariant
            i <= size,
            size == vector@.len(),
            matrix.spec_nrows() == size,
            matrix.spec_ncols() == size,
            product@.len() == size,
            forall|a: int| 0 <= a < i ==> dot_fits(#[trigger] matrix@[a], vector@),
            forall|a: int| 0 <= a < i ==> #[trigger] product@[a] == dot(matrix@[a], vector@),
        decreases size - i,
    {
        let ghost row = matrix@[i as int];
        let mut sum: i64 = 0;
        let mut j: usize = 0;
        proof {
            matrix.lemma_view();
            if size > 0 {
                lemma_dot_step(row, vector@, 0);
            }
        }
        while j < size
            invariant
                i < size,
                j <= size,
                size == vector@.len(),
                matrix.spec_nrows() == size,
                matrix.spec_ncols() == size,
                row == matrix@[i as int],
                row.len() == size,
                sum == dot(row.take(j as int), vector@),
                forall|k: int|
                    0 <= k < j ==> i64::MIN <= #[trigger] row[k] * vector@[k] <= i64::MAX
                        && i64::MIN <= dot(row.take(k + 1), vector@) <= i64::MAX,
            decreases size - j,
        {
            proof {
                matrix.lemma_view();
                lemma_dot_step(row, vector@, j as int);
            }
            let term = match matrix.get(i, j).checked_mul(vector.get(j)) {
                Some(term) => term,
                None => {
                    return Err(MultError::Overflow);
                },
            };
            sum = match sum.checked_add(term) {
                Some(sum) => sum,
                None => {
                    return Err(MultError::Overflow);
                },
            };
            j += 1;
        }
        proof {
            if size > 0 {
                lemma_dot_step(row, vector@, 0);
            }
        }
        product.set(i, sum);
        i += 1;
    }
    Ok(product)
}

/// The matrix whose entry for two indices `i < k` is the least of the
/// random links between `i` and `i + 1`, .., `k - 1` and `k`. The diagonal
/// is left at zero.
fn chain_matrix(size: usize) -> (result: (DMatrix, Ghost<Seq<i64>>))
    requires
        size >= 2,
        size * size * 8 <= isize::MAX,
    ensures
        result.0.spec_nrows() == size,
        result.0.spec_ncols() == size,
        result.1@.len() + 1 == size,
        forall|t: int| 0 <= t < result.1@.len() ==> 1 <= #[trigger] result.1@[t] < size,
        chain_filled(&result.0, result.1@, 0),
{
    let mut matrix = DMatrix::zeros(size, size);
    let mut rng = thread_rng();
    let ghost mut d: Seq<i64> = Seq::empty();
    let mut i: usize = 1;
    while i < size
        invariant
            1 <= i <= size,
            size * size * 8 <= isize::MAX,
            matrix.spec_nrows() == size,
            matrix.spec_ncols() == size,
            d.len() == i - 1,
            forall|t: int| 0 <= t < d.len() ==> 1 <= #[trigger] d[t] < size,
            forall|t: int|
                0 <= t < d.len() ==> matrix.at(t, t + 1) == #[trigger] d[t] && matrix.at(t + 1, t)
                    == d[t],
        decreases size - i,
    {
        assert(size < 0x8000_0000) by (nonlinear_arith)
            requires
                size * size * 8 <= isize::MAX,
        ;
        let elem = gen_range(&mut rng, 1, size) as i64;
        matrix.set(i - 1, i, elem);
        matrix.set(i, i - 1, elem);
        proof {
            d = d.push(elem);
        }
        i += 1;
    }
    let mut i: usize = size - 2;
    proof {
        assert forall|r: int, k: int| i <= r < k < size implies #[trigger] chain_entry(
            &matrix,
            d,
            r,
            k,
        ) by {
            assert(matrix.at(r, r + 1) == d[r]);
        }
    }
    while i > 0
        invariant
            i <= size - 2,
            size >= 2,
            matrix.spec_nrows() == size,
            matrix.spec_ncols() == size,
            d.len() + 1 == size,
            forall|t: int|
                0 <= t < d.len() ==> matrix.at(t, t + 1) == #[trigger] d[t] && matrix.at(t + 1, t)
                    == d[t],
            chain_filled(&matrix, d, i as int),
        decreases i,
    {
        i -= 1;
        let mut k: usize = i + 2;
        proof {
            assert(matrix.at(i as int, i + 1) == d[i as int]);
            assert(chain_entry(&matrix, d, i as int, i + 1));
        }
        while k < size
            invariant
                i + 2 <= k <= size,
                matrix.spec_nrows() == size,
                matrix.spec_ncols() == size,
                d.len() + 1 == size,
                forall|t: int|
                    0 <= t < d.len() ==> matrix.at(t, t + 1) == #[trigger] d[t] && matrix.at(
                        t + 1,
                        t,
                    ) == d[t],
                chain_filled(&matrix, d, i + 1),
                forall|c: int| i < c < k ==> #[trigger] chain_entry(&matrix, d, i as int, c),
            decreases size - k,
        {
            let ghost before = matrix;
            let left = matrix.get(i, k - 1);
            let below = matrix.get(i + 1, k);
            let elem = if left < below {
                left
            } else {
                below
            };
            matrix.set(i, k, elem);
            matrix.set(k, i, elem);
            proof {
                assert(chain_entry(&before, d, i as int, k - 1));
                assert(chain_entry(&before, d, i + 1, k as int));
                let t1 = choose|t: int|
                    i <= t < k - 1 && #[trigger] d[t] == before.at(i as int, k - 1);
                let t2 = choose|t: int|
                    i + 1 <= t < k && #[trigger] d[t] == before.at(i + 1, k as int);
                assert(least_between(d, i as int, k as int, elem)) by {
                    if left < below {
                        assert(d[t1] == elem);
                    } else {
                        assert(d[t2] == elem);
                    }
                }
                assert forall|r: int, c: int| i + 1 <= r < c < size implies #[trigger] chain_entry(
                    &matrix,
                    d,
                    r,
                    c,
                ) by {
                    assert(chain_entry(&before, d, r, c));
                }
                assert forall|c: int| i < c < k + 1 implies #[trigger] chain_entry(
                    &matrix,
                    d,
                    i as int,
                    c,
                ) by {
                    if c < k {
                        assert(chain_entry(&before, d, i as int, c));
                    }
                }
            }
            k += 1;
        }
        proof {
            assert forall|r: int, c: int| i <= r < c < size implies #[trigger] chain_entry(
                &matrix,
                d,
                r,
                c,
            ) by {
                if r > i {
                    assert(chain_filled(&matrix, d, i + 1));
                }
            }
        }
    }
    (matrix, Ghost(d))
}

/// Overwrites the diagonal with the elements of `diag` and leaves the
/// other entries as they are.
fn set_diagonal(matrix: &mut DMatrix, diag: &Vec<i64>)
    requires
        old(matrix).spec_is_square(),
        diag@.len() == old(matrix).spec_nrows(),
    ensures
        final(matrix).spec_nrows() == old(matrix).spec_nrows(),
        final(matrix).spec_ncols() == old(matrix).spec_ncols(),
        forall|a: int, b: int|
            0 <= a < diag@.len() && 0 <= b < diag@.len() ==> final(matrix).at(a, b) == if a == b {
                diag@[a]
            } else {
                old(matrix).at(a, b)
            },
{
    let size = diag.len();
    let mut i: usize = 0;
    while i < size
        invariant
            i <= size,
            size == diag@.len(),
            matrix.spec_nrows() == size,
            matrix.spec_ncols() == size,
            forall|a: int, b: int|
                0 <= a < size && 0 <= b < size ==> matrix.at(a, b) == if a == b && a < i {
                    diag@[a]
                } else {
                    old(matrix).at(a, b)
                },
        decreases size - i,
    {
        matrix.set(i, i, diag[i]);
        i += 1;
    }
}

/// Constructs a random ultrametric matrix.
///
/// The entries are integers from `1` to `size - 1`. The entries off the
/// diagonal are the least links of a random chain over the indices; the
/// diagonal entries are chosen at random. At the end rows and columns are
/// rearranged alike, by a shuffle with a fixed seed.
pub fn random_ultrametric_matrix(size: usize) -> (matrix: DMatrix)
    requires
        size >= 2,
        size * size * 8 <= isize::MAX,
    ensures
        matrix.spec_nrows() == size,
        matrix.spec_ncols() == size,
        spec_is_ultrametric(&matrix),
        entries_within(matrix@, 1, size as int),
{
    let (mut matrix, Ghost(d)) = chain_matrix(size);
    let ghost chain = matrix;
    let diag = random_vector(size);
    set_diagonal(&mut matrix, &diag);
    proof {
        assert forall|r: int, k: int| 0 <= r < k < size implies #[trigger] chain_entry(
            &matrix,
            d,
            r,
            k,
        ) by {
            assert(chain_entry(&chain, d, r, k));
        }
        lemma_chain_ultrametric(&matrix, d);
        matrix.lemma_view();
        assert forall|a: int, b: int|
            0 <= a < size && 0 <= b < size implies 1 <= #[trigger] matrix@[a][b] < size by {
            if a != b {
                let t = lemma_chain_entry_is_link(&matrix, d, a, b);
            }
        }
    }
    permutate_matrix(&mut matrix);
    matrix
}

/// Constructs a random special ultrametric matrix.
///
/// As [`random_ultrametric_matrix`], but every diagonal entry is the
/// largest entry of its row.
pub fn random_special_ultrametric_matrix(size: usize) -> (matrix: DMatrix)
    requires
        size >= 2,
        size * size * 8 <= isize::MAX,
    ensures
        matrix.spec_nrows() == size,
        matrix.spec_ncols() == size,
        spec_is_ultrametric(&matrix),
        entries_within(matrix@, 1, size as int),
        diagonal_dominant(matrix@),
{
    let (mut matrix, Ghost(d)) = chain_matrix(size);
    let ghost chain = matrix;
    let mut diag: Vec<i64> = Vec::new();
    proof {
        assert(chain_entry(&chain, d, 0, 1));
    }
    diag.push(matrix.get(0, 1));
    let mut i: usize = 1;
    while i < size - 1
        invariant
            1 <= i <= size - 1,
            matrix.spec_nrows() == size,
            matrix.spec_ncols() == size,
            diag@.len() == i,
            forall|a: int|
                0 <= a < i ==> #[trigger] diag@[a] == if a == 0 {
                    matrix.at(0, 1)
                } else if matrix.at(a - 1, a) > matrix.at(a, a + 1) {
                    matrix.at(a - 1, a)
                } else {
                    matrix.at(a, a + 1)
                },
        decreases size - i,
    {
        let before = matrix.get(i - 1, i);
        let after = matrix.get(i, i + 1);
        diag.push(if before > after { before } else { after });
        i += 1;
    }
    diag.push(matrix.get(size - 2, size - 1));
    set_diagonal(&mut matrix, &diag);
    proof {
        assert forall|r: int, k: int| 0 <= r < k < size implies #[trigger] chain_entry(
            &matrix,
            d,
            r,
            k,
        ) by {
            assert(chain_entry(&chain, d, r, k));
        }
        lemma_chain_ultrametric(&matrix, d);
        matrix.lemma_view();
        assert forall|a: int| 0 <= a < size - 1 implies chain.at(a, a + 1) == #[trigger] d[a] by {
            assert(chain_entry(&chain, d, a, a + 1));
            let t = choose|t: int| a <= t < a + 1 && #[trigger] d[t] == chain.at(a, a + 1);
        }
        assert forall|a: int, b: int|
            0 <= a < size && 0 <= b < size implies 1 <= #[trigger] matrix@[a][b] < size
            && matrix@[a][b] <= matrix@[a][a] by {
            if a > 0 {
                assert(chain.at(a - 1, a) == d[a - 1]);
            }
            if a < size - 1 {
                assert(chain.at(a, a + 1) == d[a]);
            }
            if a != b {
                let t = lemma_chain_entry_is_link(&matrix, d, a, b);
                if a < b {
                    assert(chain_entry(&matrix, d, a, b));
                    assert(matrix.at(a, b) <= d[a]);
                } else {
                    assert(chain_entry(&matrix, d, b, a));
                    assert(matrix.at(b, a) <= d[a - 1]);
                }
            }
        }
    }
    permutate_matrix(&mut matrix);
    matrix
}

/// A vector of `size` random integers from `1` to `size - 1`.
fn random_vector(size: usize) -> (vector: Vec<i64>)
    requires
        size >= 2,
        size * size * 8 <= isize::MAX,
    ensures
        vector@.len() == size,
        forall|i: int| 0 <= i < size ==> 1 <= #[trigger] vector@[i] < size,
{
    let mut rng = thread_rng();
    let mut vector: Vec<i64> = Vec::new();
    let mut i: usize = 0;
    while i < size
        invariant
            i <= size,
            size >= 2,
            size * size * 8 <= isize::MAX,
            vector@.len() == i,
            forall|j: int| 0 <= j < i ==> 1 <= #[trigger] vector@[j] < size,
        decreases size - i,
    {
        assert(size < 0x8000_0000) by (nonlinear_arith)
            requires
                size * size * 8 <= isize::MAX,
        ;
        vector.push(gen_range(&mut rng, 1, size) as i64);
        i += 1;
    }
    vector
}

/// Rearranges rows and columns alike, by the shuffle of the indices that
/// the seed 42 gives. What was ultrametric stays so.
fn permutate_matrix(matrix: &mut DMatrix)
    requires
        old(matrix).spec_is_square(),
        old(matrix).spec_nrows() * old(matrix).spec_nrows() * 8 <= isize::MAX,
    ensures
        final(matrix).spec_nrows() == old(matrix).spec_nrows(),
        final(matrix).spec_ncols() == old(matrix).spec_ncols(),
        exists|order: Seq<usize>| #[trigger] rearranged(old(matrix)@, final(matrix)@, order),
        spec_is_ultrametric(old(matrix)) ==> spec_is_ultrametric(final(matrix)),
        forall|low: int, high: int|
            entries_within(old(matrix)@, low, high) ==> entries_within(final(matrix)@, low, high),
        diagonal_dominant(old(matrix)@) ==> diagonal_dominant(final(matrix)@),
{
    let size = matrix.shape().0;
    let mut new_matrix = DMatrix::zeros(size, size);
    let mut rng = std_rng_from_seed(42);
    let mut element_vector = index_range(size);
    shuffle(&mut element_vector, &mut rng);
    let ghost order = element_vector@;
    proof {
        lemma_shuffled_indices(order, size as nat);
    }
    let mut old_i: usize = 0;
    while old_i < size
        invariant
            old_i <= size,
            size == matrix.spec_nrows(),
            size == matrix.spec_ncols(),
            new_matrix.spec_nrows() == size,
            new_matrix.spec_ncols() == size,
            order == element_vector@,
            is_rearrangement(order, size as nat),
            forall|a: int, b: int|
                0 <= a < old_i && 0 <= b < size ==> new_matrix.at(
                    order[a] as int,
                    order[b] as int,
                ) == matrix.at(a, b),
        decreases size - old_i,
    {
        let new_i = element_vector[old_i];
        let mut old_j: usize = 0;
        while old_j < size
            invariant
                old_i < size,
                old_j <= size,
                new_i == order[old_i as int],
                size == matrix.spec_nrows(),
                size == matrix.spec_ncols(),
                new_matrix.spec_nrows() == size,
                new_matrix.spec_ncols() == size,
                order == element_vector@,
                is_rearrangement(order, size as nat),
                forall|a: int, b: int|
                    0 <= a < old_i && 0 <= b < size ==> new_matrix.at(
                        order[a] as int,
                        order[b] as int,
                    ) == matrix.at(a, b),
                forall|b: int|
                    0 <= b < old_j ==> new_matrix.at(new_i as int, order[b] as int) == matrix.at(
                        old_i as int,
                        b,
                    ),
            decreases size - old_j,
        {
            let new_j = element_vector[old_j];
            new_matrix.set(new_i, new_j, matrix.get(old_i, old_j));
            old_j += 1;
        }
        old_i += 1;
    }
    proof {
        matrix.lemma_view();
        new_matrix.lemma_view();
        assert(rearranged(matrix@, new_matrix@, order));
        lemma_rearranged(matrix@, new_matrix@, order);
    }
    *matrix = new_matrix;
}

} // verus!

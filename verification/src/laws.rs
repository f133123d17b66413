//! What holds of the library as a whole: statements that relate several of
//! its functions, each proved from the definitions.

use crate::dense::DMatrix;
use crate::leaf_order::lemma_leaf_order_root;
use crate::model::{
    PartitionTree, build, build_approx, leaf_tree, lemma_build_approx_wf, lemma_build_wf,
    lemma_entry_apart, lemma_entry_in_child,
};
use crate::partition::{
    Split, has_entry, lemma_parts_below, lemma_scan_right_part, lemma_split_approx_at_min,
    lemma_split_at_min, row_min, split, split_approx, splits_at_min,
};
use crate::permutation::{
    is_permutation_matrix, lemma_permutation_matrix, lemma_permutation_orthogonal,
    permutation_matrix,
};
use crate::product::{lemma_product_is_dense, product_fits, row_value};
use crate::prune::{
    lemma_pruned_entry, lemma_pruned_fits, lemma_pruned_fixed, lemma_pruned_is_pruned,
    lemma_pruned_node_count, lemma_pruned_wf,
};
use crate::seq_facts::{
    all_below, identity_indices, lemma_all_below_contains, lemma_identity_indices,
};
use crate::sums::{dense_product, dot};
use crate::ultrametric::{
    lemma_ultrametric_on_all, lemma_ultrametric_splits, square, symmetric, ultrametric,
    ultrametric_on,
};
use crate::utils::spec_is_ultrametric;
use vstd::prelude::*;

verus! {

/// A vertex over the two parts of a split at the row minimum, each part
/// under a child that gives its pairs the matrix's entries, gives every
/// pair of the list the matrix's entry.
proof fn lemma_split_node_entries(
    m: Seq<Seq<i64>>,
    part: Seq<usize>,
    s: Split,
    floor: int,
    t: PartitionTree,
    x: usize,
    y: usize,
)
    requires
        square(m),
        symmetric(m),
        part.len() >= 2,
        part.no_duplicates(),
        all_below(part, m.len()),
        ultrametric_on(m, part, floor),
        splits_at_min(m, part, s),
        t.wf(),
        t.level == s.min,
        t.children.len() == 2,
        t.children[0].partition == s.left,
        t.children[1].partition == s.right,
        part.contains(x),
        part.contains(y),
        s.left.contains(x) && s.left.contains(y) ==> t.children[0].entry(x, y)
            == m[x as int][y as int],
        s.right.contains(x) && s.right.contains(y) ==> t.children[1].entry(x, y)
            == m[x as int][y as int],
    ensures
        t.entry(x, y) == m[x as int][y as int],
{
    let rest = part.drop_first();
    lemma_ultrametric_splits(m, part, s, floor);
    lemma_all_below_contains(part, m.len(), x);
    lemma_all_below_contains(part, m.len(), y);
    assert forall|z: usize| part.contains(z) implies s.left.contains(z) || s.right.contains(
        z,
    ) by {
        let k = choose|k: int| 0 <= k < part.len() && part[k] == z;
        if k == 0 {
            assert(s.left[0] == z);
        } else {
            assert(rest[k - 1] == z);
            assert(rest.contains(z));
        }
    }
    assert(m[x as int][y as int] == m[y as int][x as int]);
    if s.left.contains(x) && s.left.contains(y) {
        lemma_entry_in_child(t, 0, x, y);
    } else if s.right.contains(x) && s.right.contains(y) {
        lemma_entry_in_child(t, 1, x, y);
    } else if s.left.contains(x) {
        lemma_entry_apart(t, 0, 1, x, y);
    } else {
        lemma_entry_apart(t, 0, 1, y, x);
    }
}

/// On a list of one index the leaf gives the index the diagonal entry.
proof fn lemma_leaf_entries(m: Seq<Seq<i64>>, part: Seq<usize>, x: usize, y: usize)
    requires
        part.len() == 1,
        part.contains(x),
        part.contains(y),
    ensures
        leaf_tree(m, part).entry(x, y) == m[x as int][y as int],
{
    let kx = choose|k: int| 0 <= k < part.len() && part[k] == x;
    let ky = choose|k: int| 0 <= k < part.len() && part[k] == y;
    assert(!leaf_tree(m, part).same_child(x, y));
}

/// On an index list on which the ultrametric inequalities hold, the tree
/// built from the list gives every pair of its indices the entry that the
/// matrix has there.
pub proof fn lemma_build_entries(m: Seq<Seq<i64>>, part: Seq<usize>, floor: int, x: usize, y: usize)
    requires
        square(m),
        symmetric(m),
        part.len() >= 1,
        part.no_duplicates(),
        all_below(part, m.len()),
        ultrametric_on(m, part, floor),
        part.contains(x),
        part.contains(y),
    ensures
        build(m, part).entry(x, y) == m[x as int][y as int],
    decreases part.len(),
{
    let t = build(m, part);
    lemma_build_wf(m, part);
    if part.len() == 1 {
        lemma_leaf_entries(m, part, x, y);
    } else {
        let s = split(m, part);
        lemma_split_at_min(m, part);
        lemma_ultrametric_splits(m, part, s, floor);
        lemma_parts_below(s, part, m.len());
        lemma_build_wf(m, s.left);
        lemma_build_wf(m, s.right);
        assert(t.children[0] == build(m, s.left));
        assert(t.children[1] == build(m, s.right));
        if s.left.contains(x) && s.left.contains(y) {
            lemma_build_entries(m, s.left, s.min as int, x, y);
        }
        if s.right.contains(x) && s.right.contains(y) {
            lemma_build_entries(m, s.right, s.min as int, x, y);
        }
        lemma_split_node_entries(m, part, s, floor, t, x, y);
    }
}

/// The same for the tree built with the tolerance zero.
pub proof fn lemma_build_approx_entries(
    m: Seq<Seq<i64>>,
    part: Seq<usize>,
    floor: int,
    x: usize,
    y: usize,
)
    requires
        square(m),
        symmetric(m),
        part.len() >= 1,
        part.no_duplicates(),
        all_below(part, m.len()),
        ultrametric_on(m, part, floor),
        part.contains(x),
        part.contains(y),
    ensures
        build_approx(m, part, 0).entry(x, y) == m[x as int][y as int],
    decreases part.len(),
{
    let t = build_approx(m, part, 0);
    lemma_build_approx_wf(m, part, 0);
    if part.len() == 1 {
        lemma_leaf_entries(m, part, x, y);
    } else {
        let s = split_approx(m, part, 0);
        lemma_split_approx_at_min(m, part);
        lemma_ultrametric_splits(m, part, s, floor);
        lemma_parts_below(s, part, m.len());
        lemma_build_approx_wf(m, s.left, 0);
        lemma_build_approx_wf(m, s.right, 0);
        assert(t.children[0] == build_approx(m, s.left, 0));
        assert(t.children[1] == build_approx(m, s.right, 0));
        if s.left.contains(x) && s.left.contains(y) {
            lemma_build_approx_entries(m, s.left, s.min as int, x, y);
        }
        if s.right.contains(x) && s.right.contains(y) {
            lemma_build_approx_entries(m, s.right, s.min as int, x, y);
        }
        lemma_split_node_entries(m, part, s, floor, t, x, y);
    }
}

/// The split, said without the scan: the level of the split is the least
/// entry that the first index has with the other indices, the right part
/// holds, in list order, the indices with that entry, and the left part
/// holds the first index and the indices with a larger entry.
pub proof fn law_split_parts(m: Seq<Seq<i64>>, part: Seq<usize>)
    requires
        part.len() >= 1,
        part.no_duplicates(),
    ensures
        split(m, part).min == row_min(m, part[0], part.drop_first()),
        split(m, part).right == part.drop_first().filter(
            has_entry(m, part[0], row_min(m, part[0], part.drop_first())),
        ),
        split(m, part).left[0] == part[0],
        forall|x: usize|
            split(m, part).left.contains(x) <==> x == part[0] || (part.drop_first().contains(x)
                && m[part[0] as int][x as int] > split(m, part).min),
{
    let s = split(m, part);
    let rest = part.drop_first();
    lemma_scan_right_part(m, part[0], rest);
    lemma_split_at_min(m, part);
    assert(s.left.contains(s.left[0]));
    assert forall|x: usize| rest.contains(x) && m[part[0] as int][x as int]
        > s.min implies s.left.contains(x) by {
        assert(s.left.contains(x) || s.right.contains(x));
    }
}

/// Round trip: the tree built from an ultrametric matrix stands for that
/// matrix.
pub proof fn law_round_trip(m: Seq<Seq<i64>>)
    requires
        ultrametric(m),
        m.len() <= usize::MAX,
    ensures
        build(m, identity_indices(m.len())).wf_root(),
        build(m, identity_indices(m.len())).matrix() == m,
{
    let n = m.len();
    let ids = identity_indices(n);
    let t = build(m, ids);
    lemma_identity_indices(n);
    lemma_build_wf(m, ids);
    lemma_ultrametric_on_all(m);
    assert forall|i: int| 0 <= i < n implies #[trigger] t.matrix()[i] == m[i] by {
        assert forall|j: int| 0 <= j < n implies #[trigger] t.matrix()[i][j] == m[i][j] by {
            assert(ids.contains(i as usize) && ids.contains(j as usize));
            lemma_build_entries(m, ids, 0, i as usize, j as usize);
        }
        assert(t.matrix()[i] =~= m[i]);
    }
    assert(t.matrix() =~= m);
}

/// Round trip with the tolerance zero: the tree that the tolerant splitting
/// builds with the tolerance zero from an ultrametric matrix stands for
/// that matrix.
pub proof fn law_round_trip_approx(m: Seq<Seq<i64>>)
    requires
        ultrametric(m),
        m.len() <= usize::MAX,
    ensures
        build_approx(m, identity_indices(m.len()), 0).wf_root(),
        build_approx(m, identity_indices(m.len()), 0).matrix() == m,
{
    let n = m.len();
    let ids = identity_indices(n);
    let t = build_approx(m, ids, 0);
    lemma_identity_indices(n);
    lemma_build_approx_wf(m, ids, 0);
    lemma_ultrametric_on_all(m);
    assert forall|i: int| 0 <= i < n implies #[trigger] t.matrix()[i] == m[i] by {
        assert forall|j: int| 0 <= j < n implies #[trigger] t.matrix()[i][j] == m[i][j] by {
            assert(ids.contains(i as usize) && ids.contains(j as usize));
            lemma_build_approx_entries(m, ids, 0, i as usize, j as usize);
        }
        assert(t.matrix()[i] =~= m[i]);
    }
    assert(t.matrix() =~= m);
}

/// Round trip, for a matrix as the library holds it.
pub proof fn law_round_trip_matrix(matrix: &DMatrix)
    requires
        spec_is_ultrametric(matrix),
        matrix.spec_nrows() <= usize::MAX,
    ensures
        build(matrix@, identity_indices(matrix.spec_nrows())).matrix() == matrix@,
        build_approx(matrix@, identity_indices(matrix.spec_nrows()), 0).matrix() == matrix@,
{
    matrix.lemma_view();
    law_round_trip(matrix@);
    law_round_trip_approx(matrix@);
}

/// Multiplication equivalence: on the tree built from an ultrametric
/// matrix, what the two passes of the tree multiplication yield for an
/// index is the inner product of the matrix's row with the vector.
pub proof fn law_multiplication_equivalence(m: Seq<Seq<i64>>, v: Seq<i64>)
    requires
        ultrametric(m),
        m.len() <= usize::MAX,
        v.len() == m.len(),
    ensures
        dense_product(build(m, identity_indices(m.len())).matrix(), v) == dense_product(m, v),
        forall|x: usize|
            x < m.len() ==> #[trigger] row_value(build(m, identity_indices(m.len())), 0, v, x)
                == dot(m[x as int], v),
{
    let t = build(m, identity_indices(m.len()));
    law_round_trip(m);
    assert forall|x: usize| x < m.len() implies #[trigger] row_value(t, 0, v, x) == dot(
        m[x as int],
        v,
    ) by {
        lemma_product_is_dense(t, v, x);
    }
}

/// Multiplication equivalence for any tree: the value of the two passes is
/// the product of the represented matrix with the vector.
pub proof fn law_tree_product(t: PartitionTree, v: Seq<i64>)
    requires
        t.wf_root(),
        v.len() == t.size(),
    ensures
        forall|x: usize|
            x < t.size() ==> #[trigger] row_value(t, 0, v, x) == dense_product(
                t.matrix(),
                v,
            )[x as int],
{
    assert forall|x: usize| x < t.size() implies #[trigger] row_value(t, 0, v, x) == dense_product(
        t.matrix(),
        v,
    )[x as int] by {
        lemma_product_is_dense(t, v, x);
    }
}

/// Permutation validity: the permutation matrix of a tree has exactly one
/// 1 in every row and in every column and 0 everywhere else, and its
/// product with its transpose is the identity.
pub proof fn law_permutation_validity(t: PartitionTree)
    requires
        t.wf_root(),
    ensures
        is_permutation_matrix(permutation_matrix(t.leaf_order())),
        forall|i: int, j: int|
            0 <= i < t.size() && 0 <= j < t.size() ==> dot(
                #[trigger] permutation_matrix(t.leaf_order())[i],
                #[trigger] permutation_matrix(t.leaf_order())[j],
            ) == if i == j {
                1int
            } else {
                0int
            },
{
    let order = t.leaf_order();
    lemma_leaf_order_root(t);
    lemma_permutation_matrix(order);
    assert forall|i: int, j: int| 0 <= i < t.size() && 0 <= j < t.size() implies dot(
        #[trigger] permutation_matrix(order)[i],
        #[trigger] permutation_matrix(order)[j],
    ) == if i == j {
        1int
    } else {
        0int
    } by {
        lemma_permutation_orthogonal(order, i, j);
    }
}

/// Symmetry rejection: a matrix with two entries that mirror each other
/// and differ is not ultrametric.
pub proof fn law_symmetry_rejection(matrix: &DMatrix, i: int, j: int)
    requires
        0 <= i < matrix.spec_nrows(),
        0 <= j < matrix.spec_nrows(),
        0 <= i < matrix.spec_ncols(),
        0 <= j < matrix.spec_ncols(),
        matrix.at(i, j) != matrix.at(j, i),
    ensures
        !spec_is_ultrametric(matrix),
{
    matrix.lemma_view();
    if spec_is_ultrametric(matrix) {
        let m = matrix@;
        assert(m[i][j] == m[j][i]);
    }
}

/// Pruning invariance: the pruned tree is well formed over the same
/// indices and stands for the same matrix.
pub proof fn law_pruning_keeps_matrix(t: PartitionTree)
    requires
        t.wf_root(),
    ensures
        t.pruned().wf_root(),
        t.pruned().size() == t.size(),
        t.pruned().matrix() == t.matrix(),
{
    let p = t.pruned();
    lemma_pruned_wf(t);
    let n = t.size() as int;
    assert forall|x: usize| x < p.size() implies #[trigger] p.covers(x) by {
        assert(t.covers(x));
    }
    assert forall|i: int| 0 <= i < n implies #[trigger] p.matrix()[i] == t.matrix()[i] by {
        assert forall|j: int| 0 <= j < n implies #[trigger] p.matrix()[i][j]
            == t.matrix()[i][j] by {
            assert(t.covers(i as usize) && t.covers(j as usize));
            lemma_pruned_entry(t, i as usize, j as usize);
        }
        assert(p.matrix()[i] =~= t.matrix()[i]);
    }
    assert(p.matrix() =~= t.matrix());
}

/// Pruning invariance of the product: the multiplication stays within 64
/// bits on the pruned tree exactly when it does on the tree, and on both
/// trees its two passes yield, for every index, the same value.
pub proof fn law_pruning_keeps_product(t: PartitionTree, v: Seq<i64>)
    requires
        t.wf_root(),
        v.len() == t.size(),
    ensures
        product_fits(t.pruned(), v) == product_fits(t, v),
        forall|x: usize|
            x < t.size() ==> #[trigger] row_value(t.pruned(), 0, v, x) == row_value(t, 0, v, x),
{
    law_pruning_keeps_matrix(t);
    lemma_pruned_fits(t, 0, 0, v);
    assert forall|x: usize| x < t.size() implies #[trigger] row_value(t.pruned(), 0, v, x)
        == row_value(t, 0, v, x) by {
        lemma_product_is_dense(t, v, x);
        lemma_product_is_dense(t.pruned(), v, x);
    }
}

/// Pruning is idempotent: pruning a pruned tree gives the same tree.
pub proof fn law_pruning_idempotent(t: PartitionTree)
    ensures
        t.pruned().is_pruned(),
        t.pruned().pruned() == t.pruned(),
{
    lemma_pruned_is_pruned(t);
    lemma_pruned_fixed(t.pruned());
}

/// Pruning never adds a vertex: it keeps the number of vertices when no
/// vertex has a child of its own level, and lowers it otherwise.
pub proof fn law_pruning_node_count(t: PartitionTree)
    ensures
        t.pruned().node_count() <= t.node_count(),
        t.pruned().node_count() == t.node_count() <==> t.is_pruned(),
{
    lemma_pruned_node_count(t);
}

} // verus!

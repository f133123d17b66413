//! What the two passes of the tree multiplication compute, and why that is
//! the product of the represented matrix with the vector.

use crate::leaf_order::{
    in_child_before, leaf_order_before, lemma_leaf_order, lemma_leaf_order_before_step,
    lemma_leaf_order_root,
};
use crate::model::{
    PartitionTree, lemma_entry_apart, lemma_entry_in_child, lemma_entry_leaf, lemma_one_child,
};
use crate::sums::{
    dot, entry_of, lemma_dot_as_sum, lemma_sum_over_concat, lemma_sum_over_ext,
    lemma_sum_over_permutation, lemma_sum_over_scaled, sum_at, sum_over,
};
use vstd::prelude::*;

verus! {

/// The sum of the vector's entries at the indices of the subtree.
pub open spec fn subtree_sum(t: PartitionTree, v: Seq<i64>) -> int {
    sum_at(v, t.leaf_order())
}

/// The partial product that the first pass stores at a vertex: the step
/// from the parent's level to the vertex's level, times the subtree sum.
pub open spec fn node_sum(t: PartitionTree, parent: int, v: Seq<i64>) -> int {
    (t.level - parent) * subtree_sum(t, v)
}

/// A child of `t` that covers `x`, when there is one.
pub open spec fn owner(t: PartitionTree, x: usize) -> int {
    choose|k: int| 0 <= k < t.children.len() && (#[trigger] t.children[k]).covers(x)
}

/// What the second pass adds up for index `x` on the way from a vertex
/// down to the vertex that holds `x` as a leaf.
pub open spec fn row_value(t: PartitionTree, parent: int, v: Seq<i64>, x: usize) -> int
    decreases t,
{
    node_sum(t, parent, v) + if t.in_child(x) {
        row_value(t.children[owner(t, x)], t.level as int, v, x)
    } else {
        0
    }
}

/// Whether `a` is the value of some `i64`.
pub open spec fn fits_i64(a: int) -> bool {
    i64::MIN <= a <= i64::MAX
}

/// Every partial product in the subtree fits in 64 bits.
pub open spec fn sums_fit(t: PartitionTree, parent: int, v: Seq<i64>) -> bool
    decreases t,
{
    &&& fits_i64(node_sum(t, parent, v))
    &&& forall|k: int|
        0 <= k < t.children.len() ==> sums_fit(#[trigger] t.children[k], t.level as int, v)
}

/// Every running total of the second pass in the subtree fits in 64 bits.
pub open spec fn totals_fit(t: PartitionTree, parent: int, inherited: int, v: Seq<i64>) -> bool
    decreases t,
{
    &&& fits_i64(inherited + node_sum(t, parent, v))
    &&& forall|k: int|
        0 <= k < t.children.len() ==> totals_fit(
            #[trigger] t.children[k],
            t.level as int,
            inherited + node_sum(t, parent, v),
            v,
        )
}

/// The multiplication stays within 64-bit integers: every partial product
/// and every running total does.
pub open spec fn product_fits(t: PartitionTree, v: Seq<i64>) -> bool {
    sums_fit(t, 0, v) && totals_fit(t, 0, 0, v)
}

/// The term of index `j` in row `x` of the product.
pub open spec fn weighted(t: PartitionTree, v: Seq<i64>, x: usize) -> spec_fn(usize) -> int {
    |j: usize| t.entry(x, j) * v[j as int]
}

/// Over the indices under the first `m` children, row `x` of the product
/// is the level times the sum of the vector there, and on top of that what
/// the child that covers `x` adds on its own.
proof fn lemma_forest_weighted(t: PartitionTree, m: int, v: Seq<i64>, x: usize)
    requires
        t.wf(),
        t.covers(x),
        0 <= m <= t.children.len(),
    ensures
        sum_over(leaf_order_before(t, m), weighted(t, v, x)) == t.level * sum_at(
            v,
            leaf_order_before(t, m),
        ) + if in_child_before(t, m, x) {
            row_value(t.children[owner(t, x)], t.level as int, v, x)
        } else {
            0
        },
    decreases t, 0int, m,
{
    let g = weighted(t, v, x);
    let f = entry_of(v);
    let level = t.level as int;
    if m == 0 {
        assert(t.children.take(0).len() == 0);
        assert(level * 0 == 0);
    } else {
        let k = m - 1;
        let child = t.children[k];
        let before = leaf_order_before(t, k);
        lemma_forest_weighted(t, k, v, x);
        lemma_leaf_order_before_step(t, k);
        lemma_leaf_order(child);
        lemma_sum_over_concat(before, child.leaf_order(), g);
        lemma_sum_over_concat(before, child.leaf_order(), f);
        assert(level * (sum_over(before, f) + sum_over(child.leaf_order(), f)) == level
            * sum_over(before, f) + level * sum_over(child.leaf_order(), f))
            by (nonlinear_arith);
        if child.covers(x) {
            assert(t.in_child(x));
            lemma_one_child(t, k, owner(t, x), x);
            assert(in_child_before(t, m, x));
            if in_child_before(t, k, x) {
                let j = choose|j: int|
                    0 <= j < k && j < t.children.len() && (#[trigger] t.children[j]).covers(x);
                lemma_one_child(t, j, k, x);
            }
            lemma_row_value(child, level, v, x);
            assert forall|i: int| 0 <= i < child.leaf_order().len() implies g(
                #[trigger] child.leaf_order()[i],
            ) == weighted(child, v, x)(child.leaf_order()[i]) by {
                let j = child.leaf_order()[i];
                assert(child.leaf_order().contains(j));
                lemma_entry_in_child(t, k, x, j);
            }
            lemma_sum_over_ext(child.leaf_order(), g, weighted(child, v, x));
        } else {
            if in_child_before(t, m, x) {
                let j = choose|j: int|
                    0 <= j < m && j < t.children.len() && (#[trigger] t.children[j]).covers(x);
                assert(in_child_before(t, k, x));
            }
            if in_child_before(t, k, x) {
                let j = choose|j: int|
                    0 <= j < k && j < t.children.len() && (#[trigger] t.children[j]).covers(x);
                assert(in_child_before(t, m, x));
            }
            assert forall|i: int| 0 <= i < child.leaf_order().len() implies g(
                #[trigger] child.leaf_order()[i],
            ) == level * f(child.leaf_order()[i]) by {
                let j = child.leaf_order()[i];
                assert(child.leaf_order().contains(j));
                assert(child.covers(j));
                if t.in_child(x) {
                    let o = owner(t, x);
                    lemma_entry_apart(t, o, k, x, j);
                } else {
                    lemma_entry_leaf(t, x, j);
                }
            }
            lemma_sum_over_scaled(child.leaf_order(), level, f, g);
        }
    }
}

/// Row `x` of the product over the indices of a subtree: the value of the
/// second pass, once the part that the levels above contribute is added.
pub proof fn lemma_row_value(t: PartitionTree, parent: int, v: Seq<i64>, x: usize)
    requires
        t.wf(),
        t.covers(x),
    ensures
        row_value(t, parent, v, x) + parent * subtree_sum(t, v) == sum_over(
            t.leaf_order(),
            weighted(t, v, x),
        ),
    decreases t, 1int, 0int,
{
    let g = weighted(t, v, x);
    let f = entry_of(v);
    let level = t.level as int;
    let count = t.children.len() as int;
    let forest = leaf_order_before(t, count);
    lemma_forest_weighted(t, count, v, x);
    assert(t.children.take(count) == t.children);
    lemma_sum_over_concat(forest, t.leaves, g);
    lemma_sum_over_concat(forest, t.leaves, f);
    assert forall|i: int| 0 <= i < t.leaves.len() implies g(#[trigger] t.leaves[i]) == level * f(
        t.leaves[i],
    ) by {
        assert(t.leaves.contains(t.leaves[i]));
        lemma_entry_leaf(t, t.leaves[i], x);
    }
    lemma_sum_over_scaled(t.leaves, level, f, g);
    if t.in_child(x) {
        let o = owner(t, x);
        assert(in_child_before(t, count, x));
    } else {
        if in_child_before(t, count, x) {
            let j = choose|j: int|
                0 <= j < count && j < t.children.len() && (#[trigger] t.children[j]).covers(x);
            assert(t.in_child(x));
        }
    }
    let s_forest = sum_over(forest, f);
    let s_leaves = sum_over(t.leaves, f);
    let s = subtree_sum(t, v);
    assert(s == s_forest + s_leaves);
    assert((level - parent) * s + parent * s == level * s_forest + level * s_leaves)
        by (nonlinear_arith)
        requires
            s == s_forest + s_leaves,
    ;
}

/// At the root of a tree over `0, .., n - 1`, the second pass yields for
/// every index the inner product of its matrix row with the vector.
pub proof fn lemma_product_is_dense(t: PartitionTree, v: Seq<i64>, x: usize)
    requires
        t.wf_root(),
        v.len() == t.size(),
        x < t.size(),
    ensures
        row_value(t, 0, v, x) == dot(t.matrix()[x as int], v),
{
    let g = weighted(t, v, x);
    let n = t.size();
    assert(t.covers(x));
    lemma_row_value(t, 0, v, x);
    assert(0 * subtree_sum(t, v) == 0);
    lemma_leaf_order_root(t);
    lemma_sum_over_permutation(t.leaf_order(), n, g);
    let row = t.matrix()[x as int];
    assert forall|j: usize| j < row.len() implies #[trigger] g(j) == row[j as int]
        * v[j as int] by {
        assert(row[j as int] == t.entry(x, j));
    }
    lemma_dot_as_sum(row, v, g);
}

} // verus!

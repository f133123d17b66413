//! The post-order index list of a well-formed tree holds exactly the
//! indices that the tree covers, each once.

use crate::model::{PartitionTree, forest_leaf_order, lemma_child_covers, lemma_one_child};
use crate::seq_facts::{all_below, lemma_concat_no_duplicates};
use vstd::prelude::*;

verus! {

/// Whether one of the first `m` children of `t` covers `x`.
pub open spec fn in_child_before(t: PartitionTree, m: int, x: usize) -> bool {
    exists|k: int| 0 <= k < m && k < t.children.len() && (#[trigger] t.children[k]).covers(x)
}

/// The index list of the first `m` children.
pub open spec fn leaf_order_before(t: PartitionTree, m: int) -> Seq<usize> {
    forest_leaf_order(t.children.take(m))
}

/// One more child: its index list is appended.
pub proof fn lemma_leaf_order_before_step(t: PartitionTree, m: int)
    requires
        0 <= m < t.children.len(),
    ensures
        leaf_order_before(t, m + 1) == leaf_order_before(t, m) + t.children[m].leaf_order(),
        leaf_order_before(t, 0) == Seq::<usize>::empty(),
        leaf_order_before(t, t.children.len() as int) == forest_leaf_order(t.children),
{
    assert(t.children.take(m + 1).drop_last() == t.children.take(m));
    assert(t.children.take(m + 1).last() == t.children[m]);
    assert(t.children.take(0).len() == 0);
    assert(t.children.take(t.children.len() as int) == t.children);
}

/// The index list of the first `m` children is no longer than that of all.
pub proof fn lemma_leaf_order_before_len(t: PartitionTree, m: int)
    requires
        0 <= m <= t.children.len(),
    ensures
        leaf_order_before(t, m).len() + t.leaves.len() <= t.leaf_order().len(),
    decreases t.children.len() - m,
{
    if m < t.children.len() {
        lemma_leaf_order_before_step(t, m);
        lemma_leaf_order_before_len(t, m + 1);
    } else {
        assert(t.children.take(m) == t.children);
    }
}

/// The index list of the first `m` children of a well-formed tree holds,
/// each once, the indices that these children cover.
pub proof fn lemma_forest_leaf_order(t: PartitionTree, m: int)
    requires
        t.wf(),
        0 <= m <= t.children.len(),
    ensures
        leaf_order_before(t, m).no_duplicates(),
        forall|x: usize| #[trigger]
            leaf_order_before(t, m).contains(x) <==> in_child_before(t, m, x),
    decreases t, 0int, m,
{
    broadcast use vstd::seq_lib::lemma_seq_concat_contains_all_elements;

    if m == 0 {
        assert(t.children.take(0).len() == 0);
    } else {
        let child = t.children[m - 1];
        lemma_forest_leaf_order(t, m - 1);
        lemma_leaf_order(child);
        lemma_leaf_order_before_step(t, m - 1);
        let before = leaf_order_before(t, m - 1);
        assert forall|x: usize| !(#[trigger] before.contains(x) && child.leaf_order().contains(
            x,
        )) by {
            if before.contains(x) && child.leaf_order().contains(x) {
                assert(in_child_before(t, m - 1, x));
                let k = choose|k: int|
                    0 <= k < m - 1 && k < t.children.len() && (#[trigger] t.children[k]).covers(x);
                lemma_one_child(t, k, m - 1, x);
            }
        }
        lemma_concat_no_duplicates(before, child.leaf_order());
        assert forall|x: usize| #[trigger]
            leaf_order_before(t, m).contains(x) <==> in_child_before(t, m, x) by {
            if in_child_before(t, m, x) {
                let k = choose|k: int|
                    0 <= k < m && k < t.children.len() && (#[trigger] t.children[k]).covers(x);
                if k < m - 1 {
                    assert(in_child_before(t, m - 1, x));
                }
            }
            if before.contains(x) {
                assert(in_child_before(t, m - 1, x));
                let k = choose|k: int|
                    0 <= k < m - 1 && k < t.children.len() && (#[trigger] t.children[k]).covers(x);
                assert(in_child_before(t, m, x));
            }
            if child.leaf_order().contains(x) {
                assert(t.children[m - 1].covers(x));
                assert(in_child_before(t, m, x));
            }
        }
    }
}

/// The index list of a well-formed tree holds, each once, the indices that
/// the tree covers.
pub proof fn lemma_leaf_order(t: PartitionTree)
    requires
        t.wf(),
    ensures
        t.leaf_order().no_duplicates(),
        forall|x: usize| #[trigger] t.leaf_order().contains(x) <==> t.covers(x),
        t.leaf_order().len() == t.partition.len(),
    decreases t, 1int, 0int,
{
    broadcast use vstd::seq_lib::lemma_seq_concat_contains_all_elements;

    let count = t.children.len() as int;
    lemma_forest_leaf_order(t, count);
    assert(t.children.take(count) == t.children);
    let forest = forest_leaf_order(t.children);
    assert forall|x: usize| !(#[trigger] forest.contains(x) && t.leaves.contains(x)) by {
        if forest.contains(x) && t.leaves.contains(x) {
            assert(in_child_before(t, count, x));
            let k = choose|k: int|
                0 <= k < count && k < t.children.len() && (#[trigger] t.children[k]).covers(x);
            lemma_child_covers(t, k, x);
        }
    }
    lemma_concat_no_duplicates(forest, t.leaves);
    assert forall|x: usize| #[trigger] t.leaf_order().contains(x) <==> t.covers(x) by {
        if forest.contains(x) {
            assert(in_child_before(t, count, x));
            let k = choose|k: int|
                0 <= k < count && k < t.children.len() && (#[trigger] t.children[k]).covers(x);
            lemma_child_covers(t, k, x);
        }
        if t.in_child(x) {
            let k = choose|k: int|
                0 <= k < t.children.len() && (#[trigger] t.children[k]).covers(x);
            assert(in_child_before(t, count, x));
        }
    }
    t.leaf_order().unique_seq_to_set();
    t.partition.unique_seq_to_set();
    assert(t.leaf_order().to_set() =~= t.partition.to_set());
}

/// At the root the index list is a rearrangement of `0, .., size - 1`.
pub proof fn lemma_leaf_order_root(t: PartitionTree)
    requires
        t.wf_root(),
    ensures
        t.leaf_order().len() == t.size(),
        t.leaf_order().no_duplicates(),
        all_below(t.leaf_order(), t.size()),
        forall|x: usize| x < t.size() ==> #[trigger] t.leaf_order().contains(x),
{
    lemma_leaf_order(t);
    assert forall|k: int| 0 <= k < t.leaf_order().len() implies (#[trigger] t.leaf_order()[k])
        < t.size() by {
        assert(t.leaf_order().contains(t.leaf_order()[k]));
        crate::seq_facts::lemma_all_below_contains(t.partition, t.size(), t.leaf_order()[k]);
    }
    assert forall|x: usize| x < t.size() implies #[trigger] t.leaf_order().contains(x) by {
        assert(t.covers(x));
    }
}

} // verus!

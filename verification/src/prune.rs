//! Pruning, on the model: what the merged tree is made of, and that it is
//! well formed when the tree was.

use crate::leaf_order::lemma_leaf_order;
use crate::model::{
    PartitionTree, forest_node_count, kept, lemma_child_covers, lemma_entry_in_child,
    lemma_one_child, lemma_pruned_forest, merged_leaves, promoted, pruned_forest,
};
use crate::product::{fits_i64, node_sum, subtree_sum, sums_fit, totals_fit};
use crate::seq_facts::{apart, lemma_concat_no_duplicates};
use crate::sums::{entry_of, lemma_sum_over_same_elements};
use vstd::prelude::*;

verus! {

/// No index is covered by two trees of the sequence.
pub open spec fn pairwise_apart(trees: Seq<PartitionTree>) -> bool {
    forall|a: int, b: int|
        0 <= a < b < trees.len() ==> apart(
            (#[trigger] trees[a]).partition,
            (#[trigger] trees[b]).partition,
        )
}

/// Whether `c` is one of `kids` and its level is not `level`.
pub open spec fn is_kept_kid(kids: Seq<PartitionTree>, level: i64, c: PartitionTree) -> bool {
    exists|k: int| 0 <= k < kids.len() && (#[trigger] kids[k]).level != level && kids[k] == c
}

/// Whether `g` is a child of one of `kids` whose level is `level`.
pub open spec fn is_grandchild(kids: Seq<PartitionTree>, level: i64, g: PartitionTree) -> bool {
    exists|k: int, j: int|
        0 <= k < kids.len() && kids[k].level == level && 0 <= j < kids[k].children.len()
            && #[trigger] kids[k].children[j] == g
}

/// Whether `x` is a leaf of one of `kids` whose level is `level`.
pub open spec fn is_merged_leaf(kids: Seq<PartitionTree>, level: i64, x: usize) -> bool {
    exists|k: int|
        0 <= k < kids.len() && (#[trigger] kids[k]).level == level && kids[k].leaves.contains(x)
}

/// What `kept` keeps.
pub proof fn lemma_kept(kids: Seq<PartitionTree>, level: i64)
    ensures
        forall|i: int|
            0 <= i < kept(kids, level).len() ==> is_kept_kid(
                kids,
                level,
                #[trigger] kept(kids, level)[i],
            ),
        forall|k: int|
            0 <= k < kids.len() && (#[trigger] kids[k]).level != level ==> kept(
                kids,
                level,
            ).contains(kids[k]),
        pairwise_apart(kids) ==> pairwise_apart(kept(kids, level)),
        kept(kids, level).len() <= kids.len(),
    decreases kids.len(),
{
    broadcast use vstd::seq_lib::lemma_seq_concat_contains_all_elements;

    let result = kept(kids, level);
    if kids.len() > 0 {
        let first = kids.first();
        let rest = kids.drop_first();
        let below = kept(rest, level);
        lemma_kept(rest, level);
        assert forall|i: int| 0 <= i < below.len() implies is_kept_kid(
            kids,
            level,
            #[trigger] below[i],
        ) by {
            assert(is_kept_kid(rest, level, below[i]));
            let k = choose|k: int|
                0 <= k < rest.len() && (#[trigger] rest[k]).level != level && rest[k] == below[i];
            assert(kids[k + 1] == rest[k]);
        }
        if first.level != level {
            assert(result == seq![first] + below);
            assert(kids[0] == first);
            assert(is_kept_kid(kids, level, first));
            assert(seq![first][0] == first);
        }
        assert forall|i: int| 0 <= i < result.len() implies is_kept_kid(
            kids,
            level,
            #[trigger] result[i],
        ) by {
            if first.level != level && i > 0 {
                assert(result[i] == below[i - 1]);
            }
        }
        assert forall|k: int|
            0 <= k < kids.len() && (#[trigger] kids[k]).level != level implies result.contains(
            kids[k],
        ) by {
            if k == 0 {
                assert(result[0] == first);
            } else {
                assert(rest[k - 1] == kids[k]);
                assert(below.contains(rest[k - 1]));
            }
        }
        if pairwise_apart(kids) {
            assert forall|a: int, b: int| 0 <= a < b < rest.len() implies apart(
                (#[trigger] rest[a]).partition,
                (#[trigger] rest[b]).partition,
            ) by {
                assert(rest[a] == kids[a + 1] && rest[b] == kids[b + 1]);
            }
            assert forall|a: int, b: int| 0 <= a < b < result.len() implies apart(
                (#[trigger] result[a]).partition,
                (#[trigger] result[b]).partition,
            ) by {
                if first.level != level {
                    if a == 0 {
                        assert(result[b] == below[b - 1]);
                        assert(is_kept_kid(rest, level, below[b - 1]));
                        let k = choose|k: int|
                            0 <= k < rest.len() && (#[trigger] rest[k]).level != level && rest[k]
                                == below[b - 1];
                        assert(kids[k + 1] == rest[k]);
                        assert(apart(kids[0].partition, kids[k + 1].partition));
                    } else {
                        assert(result[a] == below[a - 1] && result[b] == below[b - 1]);
                    }
                }
            }
        }
    }
}

/// Where no tree has the level, `kept` keeps all and nothing is merged.
pub proof fn lemma_nothing_merged(kids: Seq<PartitionTree>, level: i64)
    requires
        forall|k: int| 0 <= k < kids.len() ==> (#[trigger] kids[k]).level != level,
    ensures
        kept(kids, level) == kids,
        promoted(kids, level) == Seq::<PartitionTree>::empty(),
        merged_leaves(kids, level) == Seq::<usize>::empty(),
{
    lemma_nothing_kept_away(kids, level);
    lemma_nothing_promoted(kids, level);
}

/// Where no tree has the level, `kept` keeps all.
proof fn lemma_nothing_kept_away(kids: Seq<PartitionTree>, level: i64)
    requires
        forall|k: int| 0 <= k < kids.len() ==> (#[trigger] kids[k]).level != level,
    ensures
        kept(kids, level) == kids,
    decreases kids.len(),
{
    if kids.len() > 0 {
        let rest = kids.drop_first();
        assert forall|k: int| 0 <= k < rest.len() implies (#[trigger] rest[k]).level != level by {
            assert(rest[k] == kids[k + 1]);
        }
        lemma_nothing_kept_away(rest, level);
        assert(kids[0].level != level);
        assert(seq![kids.first()] + rest =~= kids);
    } else {
        assert(kept(kids, level) =~= kids);
    }
}

/// Where no tree has the level, nothing is promoted and no leaf is merged.
proof fn lemma_nothing_promoted(kids: Seq<PartitionTree>, level: i64)
    requires
        forall|k: int| 0 <= k < kids.len() ==> (#[trigger] kids[k]).level != level,
    ensures
        promoted(kids, level) == Seq::<PartitionTree>::empty(),
        merged_leaves(kids, level) == Seq::<usize>::empty(),
    decreases kids.len(),
{
    if kids.len() > 0 {
        let front = kids.drop_last();
        assert forall|k: int| 0 <= k < front.len() implies (#[trigger] front[k]).level
            != level by {
            assert(front[k] == kids[k]);
        }
        lemma_nothing_promoted(front, level);
        assert(kids[kids.len() - 1].level != level);
    }
}

/// What `promoted` holds.
pub proof fn lemma_promoted(kids: Seq<PartitionTree>, level: i64)
    ensures
        forall|i: int|
            0 <= i < promoted(kids, level).len() ==> is_grandchild(
                kids,
                level,
                #[trigger] promoted(kids, level)[i],
            ),
        forall|k: int, j: int|
            0 <= k < kids.len() && kids[k].level == level && 0 <= j < kids[k].children.len()
                ==> promoted(kids, level).contains(#[trigger] kids[k].children[j]),
        pairwise_apart(kids) && (forall|k: int| 0 <= k < kids.len() ==> (#[trigger] kids[k]).wf())
            ==> pairwise_apart(promoted(kids, level)),
    decreases kids.len(),
{
    broadcast use vstd::seq_lib::lemma_seq_concat_contains_all_elements;

    let result = promoted(kids, level);
    if kids.len() > 0 {
        let front = kids.drop_last();
        let last = kids.last();
        let z = kids.len() - 1;
        let before = promoted(front, level);
        lemma_promoted(front, level);
        assert forall|i: int| 0 <= i < before.len() implies is_grandchild(
            kids,
            level,
            #[trigger] before[i],
        ) by {
            assert(is_grandchild(front, level, before[i]));
            let (k, j) = choose|k: int, j: int|
                0 <= k < front.len() && front[k].level == level && 0 <= j
                    < front[k].children.len() && #[trigger] front[k].children[j] == before[i];
            assert(front[k] == kids[k]);
            assert(kids[k].children[j] == before[i]);
        }
        assert forall|i: int| 0 <= i < result.len() implies is_grandchild(
            kids,
            level,
            #[trigger] result[i],
        ) by {
            if i >= before.len() {
                assert(last.level == level);
                assert(result[i] == kids[z].children[i - before.len()]);
            } else {
                assert(result[i] == before[i]);
            }
        }
        assert forall|k: int, j: int|
            0 <= k < kids.len() && kids[k].level == level && 0 <= j
                < kids[k].children.len() implies result.contains(
            #[trigger] kids[k].children[j],
        ) by {
            if k == z {
                assert(last.children.contains(last.children[j]));
            } else {
                assert(front[k] == kids[k]);
                assert(before.contains(front[k].children[j]));
            }
        }
        if pairwise_apart(kids) && (forall|k: int|
            0 <= k < kids.len() ==> (#[trigger] kids[k]).wf()) {
            assert forall|a: int, b: int| 0 <= a < b < front.len() implies apart(
                (#[trigger] front[a]).partition,
                (#[trigger] front[b]).partition,
            ) by {
                assert(front[a] == kids[a] && front[b] == kids[b]);
            }
            assert forall|k: int| 0 <= k < front.len() implies (#[trigger] front[k]).wf() by {
                assert(front[k] == kids[k]);
            }
            assert(last.wf());
            assert forall|a: int, b: int| 0 <= a < b < result.len() implies apart(
                (#[trigger] result[a]).partition,
                (#[trigger] result[b]).partition,
            ) by {
                if b < before.len() {
                    assert(result[a] == before[a] && result[b] == before[b]);
                } else if a >= before.len() {
                    assert(result[a] == last.children[a - before.len()]);
                    assert(result[b] == last.children[b - before.len()]);
                } else {
                    assert(result[a] == before[a]);
                    assert(result[b] == last.children[b - before.len()]);
                    assert(is_grandchild(front, level, before[a]));
                    let (k, j) = choose|k: int, j: int|
                        0 <= k < front.len() && front[k].level == level && 0 <= j
                            < front[k].children.len() && #[trigger] front[k].children[j]
                            == before[a];
                    assert(front[k] == kids[k]);
                    assert(apart(kids[k].partition, kids[z].partition));
                    assert forall|x: usize|
                        !(#[trigger] result[a].partition.contains(x)
                            && result[b].partition.contains(x)) by {
                        if result[a].partition.contains(x) && result[b].partition.contains(x) {
                            lemma_child_covers(kids[k], j, x);
                            lemma_child_covers(last, b - before.len(), x);
                        }
                    }
                }
            }
        }
    }
}

/// What `merged_leaves` holds.
pub proof fn lemma_merged_leaves(kids: Seq<PartitionTree>, level: i64)
    ensures
        forall|x: usize| #[trigger]
            merged_leaves(kids, level).contains(x) <==> is_merged_leaf(kids, level, x),
        pairwise_apart(kids) && (forall|k: int| 0 <= k < kids.len() ==> (#[trigger] kids[k]).wf())
            ==> merged_leaves(kids, level).no_duplicates(),
    decreases kids.len(),
{
    broadcast use vstd::seq_lib::lemma_seq_concat_contains_all_elements;

    let result = merged_leaves(kids, level);
    if kids.len() > 0 {
        let front = kids.drop_last();
        let last = kids.last();
        let z = kids.len() - 1;
        let before = merged_leaves(front, level);
        lemma_merged_leaves(front, level);
        assert forall|x: usize| is_merged_leaf(front, level, x) implies is_merged_leaf(
            kids,
            level,
            x,
        ) by {
            let k = choose|k: int|
                0 <= k < front.len() && (#[trigger] front[k]).level == level
                    && front[k].leaves.contains(x);
            assert(front[k] == kids[k]);
        }
        assert forall|x: usize| #[trigger] result.contains(x) <==> is_merged_leaf(
            kids,
            level,
            x,
        ) by {
            if is_merged_leaf(kids, level, x) {
                let k = choose|k: int|
                    0 <= k < kids.len() && (#[trigger] kids[k]).level == level
                        && kids[k].leaves.contains(x);
                if k < z {
                    assert(front[k] == kids[k]);
                    assert(is_merged_leaf(front, level, x));
                }
            }
            if last.level == level && last.leaves.contains(x) {
                assert(kids[z] == last);
            }
        }
        if pairwise_apart(kids) && (forall|k: int|
            0 <= k < kids.len() ==> (#[trigger] kids[k]).wf()) {
            assert forall|a: int, b: int| 0 <= a < b < front.len() implies apart(
                (#[trigger] front[a]).partition,
                (#[trigger] front[b]).partition,
            ) by {
                assert(front[a] == kids[a] && front[b] == kids[b]);
            }
            assert forall|k: int| 0 <= k < front.len() implies (#[trigger] front[k]).wf() by {
                assert(front[k] == kids[k]);
            }
            assert(last.wf());
            if last.level == level {
                assert forall|x: usize| !(#[trigger] before.contains(x) && last.leaves.contains(
                    x,
                )) by {
                    if before.contains(x) && last.leaves.contains(x) {
                        assert(is_merged_leaf(front, level, x));
                        let k = choose|k: int|
                            0 <= k < front.len() && (#[trigger] front[k]).level == level
                                && front[k].leaves.contains(x);
                        assert(front[k] == kids[k]);
                        assert(kids[k].covers(x));
                        assert(last.covers(x));
                        assert(apart(kids[k].partition, kids[z].partition));
                    }
                }
                lemma_concat_no_duplicates(before, last.leaves);
            }
        }
    }
}

/// The pruned kids of a well-formed tree: each is well formed and covers
/// what the child covered, and no index is covered by two of them.
pub proof fn lemma_pruned_kids(t: PartitionTree)
    requires
        t.wf(),
    ensures
        pruned_forest(t.children).len() == t.children.len(),
        forall|k: int|
            0 <= k < t.children.len() ==> (#[trigger] pruned_forest(t.children)[k]).wf()
                && pruned_forest(t.children)[k].partition == t.children[k].partition
                && pruned_forest(t.children)[k] == t.children[k].pruned(),
        pairwise_apart(pruned_forest(t.children)),
    decreases t, 0int,
{
    let kids = pruned_forest(t.children);
    lemma_pruned_forest(t.children);
    assert forall|k: int| 0 <= k < t.children.len() implies (#[trigger] kids[k]).wf()
        && kids[k].partition == t.children[k].partition && kids[k]
        == t.children[k].pruned() by {
        lemma_pruned_wf(t.children[k]);
    }
    assert forall|a: int, b: int| 0 <= a < b < kids.len() implies apart(
        (#[trigger] kids[a]).partition,
        (#[trigger] kids[b]).partition,
    ) by {
        assert(apart(t.children[a].partition, t.children[b].partition));
    }
}

/// Pruning keeps a tree well formed and keeps what it covers.
pub proof fn lemma_pruned_wf(t: PartitionTree)
    requires
        t.wf(),
    ensures
        t.pruned().wf(),
        t.pruned().partition == t.partition,
        t.pruned().level == t.level,
    decreases t, 1int,
{
    broadcast use vstd::seq_lib::lemma_seq_concat_contains_all_elements;

    let level = t.level;
    let kids = pruned_forest(t.children);
    let p = t.pruned();
    let stay = kept(kids, level);
    let up = promoted(kids, level);
    lemma_pruned_kids(t);
    lemma_kept(kids, level);
    lemma_promoted(kids, level);
    lemma_merged_leaves(kids, level);
    assert(p.children == stay + up);

    // the leaves
    assert forall|x: usize| !(#[trigger] t.leaves.contains(x) && merged_leaves(
        kids,
        level,
    ).contains(x)) by {
        if t.leaves.contains(x) && merged_leaves(kids, level).contains(x) {
            assert(is_merged_leaf(kids, level, x));
            let k = choose|k: int|
                0 <= k < kids.len() && (#[trigger] kids[k]).level == level
                    && kids[k].leaves.contains(x);
            assert(kids[k].covers(x));
            assert(t.children[k].covers(x));
            lemma_child_covers(t, k, x);
        }
    }
    lemma_concat_no_duplicates(t.leaves, merged_leaves(kids, level));

    // every child of the pruned tree lies under one child of the tree
    assert forall|i: int| 0 <= i < p.children.len() implies (#[trigger] p.children[i]).wf()
        && under_some_child(t, p.children[i]) by {
        lemma_pruned_child(t, i);
    }

    // what the pruned tree covers
    assert forall|x: usize| #[trigger] p.covers(x) <==> (p.leaves.contains(x) || p.in_child(x)) by {
        if p.leaves.contains(x) {
            if !t.leaves.contains(x) {
                assert(is_merged_leaf(kids, level, x));
                let k = choose|k: int|
                    0 <= k < kids.len() && (#[trigger] kids[k]).level == level
                        && kids[k].leaves.contains(x);
                assert(kids[k].covers(x));
                assert(t.children[k].covers(x));
                lemma_child_covers(t, k, x);
            }
        }
        if p.in_child(x) {
            let i = choose|i: int|
                0 <= i < p.children.len() && (#[trigger] p.children[i]).covers(x);
            assert(under_some_child(t, p.children[i]));
            let k = choose|k: int|
                0 <= k < t.children.len() && subset(
                    p.children[i].partition,
                    (#[trigger] t.children[k]).partition,
                );
            assert(t.children[k].covers(x));
            lemma_child_covers(t, k, x);
        }
        if t.covers(x) && !t.leaves.contains(x) {
            assert(t.in_child(x));
            let k = choose|k: int|
                0 <= k < t.children.len() && (#[trigger] t.children[k]).covers(x);
            assert(kids[k].covers(x));
            if kids[k].level != level {
                assert(stay.contains(kids[k]));
                let i = choose|i: int| 0 <= i < stay.len() && stay[i] == kids[k];
                assert(p.children[i] == kids[k]);
                assert(p.in_child(x));
            } else if kids[k].leaves.contains(x) {
                assert(is_merged_leaf(kids, level, x));
            } else {
                assert(kids[k].in_child(x));
                let j = choose|j: int|
                    0 <= j < kids[k].children.len() && (#[trigger] kids[k].children[j]).covers(x);
                assert(up.contains(kids[k].children[j]));
                let i = choose|i: int| 0 <= i < up.len() && up[i] == kids[k].children[j];
                assert(p.children[stay.len() + i] == kids[k].children[j]);
                assert(p.in_child(x));
            }
        }
    }

    // leaves and children do not meet
    assert forall|i: int| 0 <= i < p.children.len() implies apart(
        p.leaves,
        (#[trigger] p.children[i]).partition,
    ) by {
        let c = p.children[i];
        assert forall|x: usize| !(#[trigger] p.leaves.contains(x) && c.partition.contains(x)) by {
            if p.leaves.contains(x) && c.partition.contains(x) {
                lemma_leaf_not_under_child(t, i, x);
            }
        }
    }

    // the children do not meet
    assert forall|a: int, b: int| 0 <= a < b < p.children.len() implies apart(
        (#[trigger] p.children[a]).partition,
        (#[trigger] p.children[b]).partition,
    ) by {
        if b < stay.len() {
            assert(p.children[a] == stay[a] && p.children[b] == stay[b]);
        } else if a >= stay.len() {
            assert(p.children[a] == up[a - stay.len()] && p.children[b] == up[b - stay.len()]);
        } else {
            let ca = p.children[a];
            let cb = p.children[b];
            assert(ca == stay[a] && cb == up[b - stay.len()]);
            assert(is_kept_kid(kids, level, ca));
            assert(is_grandchild(kids, level, cb));
            let k1 = choose|k: int|
                0 <= k < kids.len() && (#[trigger] kids[k]).level != level && kids[k] == ca;
            let (k2, j) = choose|k: int, j: int|
                0 <= k < kids.len() && kids[k].level == level && 0 <= j < kids[k].children.len()
                    && #[trigger] kids[k].children[j] == cb;
            assert forall|x: usize| !(#[trigger] ca.partition.contains(x) && cb.partition.contains(
                x,
            )) by {
                if ca.partition.contains(x) && cb.partition.contains(x) {
                    lemma_child_covers(kids[k2], j, x);
                    assert(t.children[k1].covers(x) && t.children[k2].covers(x));
                    lemma_one_child(t, k1, k2, x);
                }
            }
        }
    }
}

/// Every index of `a` is an index of `b`.
pub open spec fn subset(a: Seq<usize>, b: Seq<usize>) -> bool {
    forall|x: usize| a.contains(x) ==> b.contains(x)
}

/// What `c` covers, one child of `t` covers.
pub open spec fn under_some_child(t: PartitionTree, c: PartitionTree) -> bool {
    exists|k: int|
        0 <= k < t.children.len() && subset(c.partition, (#[trigger] t.children[k]).partition)
}

/// A child of the pruned tree is well formed and lies under one child of
/// the tree.
proof fn lemma_pruned_child(t: PartitionTree, i: int)
    requires
        t.wf(),
        0 <= i < t.pruned().children.len(),
        pruned_forest(t.children).len() == t.children.len(),
        forall|k: int|
            0 <= k < t.children.len() ==> (#[trigger] pruned_forest(t.children)[k]).wf()
                && pruned_forest(t.children)[k].partition == t.children[k].partition,
    ensures
        t.pruned().children[i].wf(),
        under_some_child(t, t.pruned().children[i]),
{
    let level = t.level;
    let kids = pruned_forest(t.children);
    let stay = kept(kids, level);
    let up = promoted(kids, level);
    let c = t.pruned().children[i];
    lemma_kept(kids, level);
    lemma_promoted(kids, level);
    if i < stay.len() {
        assert(c == stay[i]);
        assert(is_kept_kid(kids, level, c));
        let k = choose|k: int|
            0 <= k < kids.len() && (#[trigger] kids[k]).level != level && kids[k] == c;
        assert(subset(c.partition, t.children[k].partition));
    } else {
        assert(c == up[i - stay.len()]);
        assert(is_grandchild(kids, level, c));
        let (k, j) = choose|k: int, j: int|
            0 <= k < kids.len() && kids[k].level == level && 0 <= j < kids[k].children.len()
                && #[trigger] kids[k].children[j] == c;
        assert(kids[k].wf());
        assert forall|x: usize| c.partition.contains(x) implies t.children[k].partition.contains(
            x,
        ) by {
            lemma_child_covers(kids[k], j, x);
        }
        assert(subset(c.partition, t.children[k].partition));
    }
}

/// A leaf of the pruned tree lies under none of its children.
proof fn lemma_leaf_not_under_child(t: PartitionTree, i: int, x: usize)
    requires
        t.wf(),
        0 <= i < t.pruned().children.len(),
        t.pruned().leaves.contains(x),
        pruned_forest(t.children).len() == t.children.len(),
        forall|k: int|
            0 <= k < t.children.len() ==> (#[trigger] pruned_forest(t.children)[k]).wf()
                && pruned_forest(t.children)[k].partition == t.children[k].partition,
    ensures
        !t.pruned().children[i].covers(x),
{
    broadcast use vstd::seq_lib::lemma_seq_concat_contains_all_elements;

    if t.pruned().children[i].covers(x) {
        let level = t.level;
        let kids = pruned_forest(t.children);
        let stay = kept(kids, level);
        let up = promoted(kids, level);
        let c = t.pruned().children[i];
        lemma_kept(kids, level);
        lemma_promoted(kids, level);
        lemma_merged_leaves(kids, level);
        // the child of `t` over `c`, and whether `c` is a grandchild under it
        if i < stay.len() {
            assert(c == stay[i]);
            assert(is_kept_kid(kids, level, c));
            let k = choose|k: int|
                0 <= k < kids.len() && (#[trigger] kids[k]).level != level && kids[k] == c;
            assert(t.children[k].covers(x));
            lemma_child_covers(t, k, x);
            assert(is_merged_leaf(kids, level, x));
            let k1 = choose|k1: int|
                0 <= k1 < kids.len() && (#[trigger] kids[k1]).level == level
                    && kids[k1].leaves.contains(x);
            assert(kids[k1].covers(x));
            assert(t.children[k1].covers(x));
            lemma_one_child(t, k, k1, x);
        } else {
            assert(c == up[i - stay.len()]);
            assert(is_grandchild(kids, level, c));
            let (k, j) = choose|k: int, j: int|
                0 <= k < kids.len() && kids[k].level == level && 0 <= j < kids[k].children.len()
                    && #[trigger] kids[k].children[j] == c;
            assert(kids[k].wf());
            lemma_child_covers(kids[k], j, x);
            assert(t.children[k].covers(x));
            lemma_child_covers(t, k, x);
            assert(is_merged_leaf(kids, level, x));
            let k1 = choose|k1: int|
                0 <= k1 < kids.len() && (#[trigger] kids[k1]).level == level
                    && kids[k1].leaves.contains(x);
            assert(kids[k1].covers(x));
            assert(t.children[k1].covers(x));
            lemma_one_child(t, k, k1, x);
        }
    }
}

/// Pruning keeps every entry: for two indices that the tree covers, the
/// pruned tree has the entry that the tree has.
pub proof fn lemma_pruned_entry(t: PartitionTree, x: usize, y: usize)
    requires
        t.wf(),
        t.covers(x),
        t.covers(y),
    ensures
        t.pruned().entry(x, y) == t.entry(x, y),
    decreases t,
{
    let level = t.level;
    let kids = pruned_forest(t.children);
    let p = t.pruned();
    let stay = kept(kids, level);
    let up = promoted(kids, level);
    lemma_pruned_wf(t);
    lemma_pruned_kids(t);
    lemma_kept(kids, level);
    lemma_promoted(kids, level);
    assert(p.children == stay + up);
    if p.same_child(x, y) {
        let i = p.shared_child(x, y);
        lemma_pruned_child(t, i);
    }
    if t.same_child(x, y) {
        let k = t.shared_child(x, y);
        let kid = kids[k];
        lemma_pruned_entry(t.children[k], x, y);
        assert(kid.covers(x) && kid.covers(y));
        if kid.level != level {
            assert(stay.contains(kid));
            let i = choose|i: int| 0 <= i < stay.len() && stay[i] == kid;
            assert(p.children[i] == kid);
            lemma_entry_in_child(p, i, x, y);
        } else if kid.same_child(x, y) {
            let j = kid.shared_child(x, y);
            let g = kid.children[j];
            assert(up.contains(kids[k].children[j]));
            let i = choose|i: int| 0 <= i < up.len() && up[i] == g;
            assert(p.children[stay.len() + i] == g);
            lemma_entry_in_child(p, stay.len() + i, x, y);
        } else if p.same_child(x, y) {
            let i = p.shared_child(x, y);
            let c = p.children[i];
            if i < stay.len() {
                assert(c == stay[i]);
                assert(is_kept_kid(kids, level, c));
                let k2 = choose|k2: int|
                    0 <= k2 < kids.len() && (#[trigger] kids[k2]).level != level && kids[k2] == c;
                assert(t.children[k2].covers(x));
                lemma_one_child(t, k, k2, x);
            } else {
                assert(c == up[i - stay.len()]);
                assert(is_grandchild(kids, level, c));
                let (k2, j2) = choose|k2: int, j2: int|
                    0 <= k2 < kids.len() && kids[k2].level == level && 0 <= j2
                        < kids[k2].children.len() && #[trigger] kids[k2].children[j2] == c;
                lemma_child_covers(kids[k2], j2, x);
                assert(t.children[k2].covers(x));
                lemma_one_child(t, k, k2, x);
                assert(kid.children[j2].covers(x) && kid.children[j2].covers(y));
            }
        }
    } else if p.same_child(x, y) {
        let i = p.shared_child(x, y);
        let c = p.children[i];
        let k = choose|k: int|
            0 <= k < t.children.len() && subset(c.partition, (#[trigger] t.children[k]).partition);
        assert(t.children[k].covers(x) && t.children[k].covers(y));
    }
}

/// The pruned tree has no vertex with a child of its own level.
pub proof fn lemma_pruned_is_pruned(t: PartitionTree)
    ensures
        t.pruned().is_pruned(),
    decreases t,
{
    let level = t.level;
    let kids = pruned_forest(t.children);
    let p = t.pruned();
    let stay = kept(kids, level);
    let up = promoted(kids, level);
    lemma_pruned_forest(t.children);
    lemma_kept(kids, level);
    lemma_promoted(kids, level);
    assert(p.children == stay + up);
    assert forall|i: int| 0 <= i < p.children.len() implies (#[trigger] p.children[i]).level
        != p.level && p.children[i].is_pruned() by {
        let c = p.children[i];
        if i < stay.len() {
            assert(c == stay[i]);
            assert(is_kept_kid(kids, level, c));
            let k = choose|k: int|
                0 <= k < kids.len() && (#[trigger] kids[k]).level != level && kids[k] == c;
            lemma_pruned_is_pruned(t.children[k]);
        } else {
            assert(c == up[i - stay.len()]);
            assert(is_grandchild(kids, level, c));
            let (k, j) = choose|k: int, j: int|
                0 <= k < kids.len() && kids[k].level == level && 0 <= j < kids[k].children.len()
                    && #[trigger] kids[k].children[j] == c;
            lemma_pruned_is_pruned(t.children[k]);
            assert(kids[k].is_pruned());
        }
    }
}

/// Pruning leaves a tree as it is when no vertex has a child of its own
/// level.
pub proof fn lemma_pruned_fixed(t: PartitionTree)
    requires
        t.is_pruned(),
    ensures
        t.pruned() == t,
    decreases t,
{
    let level = t.level;
    let kids = pruned_forest(t.children);
    lemma_pruned_forest(t.children);
    assert forall|k: int| 0 <= k < t.children.len() implies #[trigger] kids[k]
        == t.children[k] by {
        lemma_pruned_fixed(t.children[k]);
    }
    assert(kids =~= t.children);
    lemma_nothing_merged(kids, level);
    assert(t.leaves + Seq::<usize>::empty() =~= t.leaves);
    assert(kids + Seq::<PartitionTree>::empty() =~= kids);
}

/// Pruning keeps the sum of the vector's entries under a vertex.
pub proof fn lemma_pruned_subtree_sum(t: PartitionTree, v: Seq<i64>)
    requires
        t.wf(),
    ensures
        subtree_sum(t.pruned(), v) == subtree_sum(t, v),
{
    lemma_pruned_wf(t);
    lemma_leaf_order(t);
    lemma_leaf_order(t.pruned());
    lemma_sum_over_same_elements(t.pruned().leaf_order(), t.leaf_order(), entry_of(v));
}

/// A merged kid adds nothing of its own to the products.
proof fn lemma_merged_node_sum(kid: PartitionTree, v: Seq<i64>)
    ensures
        node_sum(kid, kid.level as int, v) == 0,
{
    let level = kid.level as int;
    let sum = subtree_sum(kid, v);
    assert((level - level) * sum == 0) by (nonlinear_arith);
}

/// The partial products fit under the pruned tree if they fit under the
/// children of the tree.
proof fn lemma_sums_fit_down(t: PartitionTree, v: Seq<i64>, i: int)
    requires
        0 <= i < t.pruned().children.len(),
        pruned_forest(t.children).len() == t.children.len(),
        forall|k: int|
            0 <= k < t.children.len() ==> sums_fit(
                #[trigger] pruned_forest(t.children)[k],
                t.level as int,
                v,
            ),
    ensures
        sums_fit(t.pruned().children[i], t.level as int, v),
{
    let level = t.level;
    let kids = pruned_forest(t.children);
    let c = t.pruned().children[i];
    lemma_pruned_source(t, i);
    if is_kept_kid(kids, level, c) {
        let k = choose|k: int|
            0 <= k < kids.len() && (#[trigger] kids[k]).level != level && kids[k] == c;
        assert(sums_fit(kids[k], level as int, v));
    } else {
        let (k, j) = choose|k: int, j: int|
            0 <= k < kids.len() && kids[k].level == level && 0 <= j < kids[k].children.len()
                && #[trigger] kids[k].children[j] == c;
        assert(sums_fit(kids[k], level as int, v));
    }
}

/// The partial products fit under a pruned kid if they fit under the
/// children of the pruned tree.
proof fn lemma_sums_fit_up(t: PartitionTree, v: Seq<i64>, k: int)
    requires
        0 <= k < t.children.len(),
        pruned_forest(t.children).len() == t.children.len(),
        forall|i: int|
            0 <= i < t.pruned().children.len() ==> sums_fit(
                #[trigger] t.pruned().children[i],
                t.level as int,
                v,
            ),
    ensures
        sums_fit(pruned_forest(t.children)[k], t.level as int, v),
{
    let level = t.level;
    let kids = pruned_forest(t.children);
    let p = t.pruned();
    let stay = kept(kids, level);
    let up = promoted(kids, level);
    let kid = kids[k];
    lemma_kept(kids, level);
    lemma_promoted(kids, level);
    assert(p.children == stay + up);
    if kid.level != level {
        assert(stay.contains(kid));
        let i = choose|i: int| 0 <= i < stay.len() && stay[i] == kid;
        assert(p.children[i] == kid);
    } else {
        lemma_merged_node_sum(kid, v);
        assert forall|j: int| 0 <= j < kid.children.len() implies sums_fit(
            #[trigger] kid.children[j],
            kid.level as int,
            v,
        ) by {
            assert(up.contains(kids[k].children[j]));
            let i = choose|i: int| 0 <= i < up.len() && up[i] == kid.children[j];
            assert(p.children[stay.len() + i] == kid.children[j]);
        }
    }
}

/// The running totals fit under the pruned tree if they fit under the
/// children of the tree.
proof fn lemma_totals_fit_down(t: PartitionTree, total: int, v: Seq<i64>, i: int)
    requires
        0 <= i < t.pruned().children.len(),
        pruned_forest(t.children).len() == t.children.len(),
        forall|k: int|
            0 <= k < t.children.len() ==> totals_fit(
                #[trigger] pruned_forest(t.children)[k],
                t.level as int,
                total,
                v,
            ),
    ensures
        totals_fit(t.pruned().children[i], t.level as int, total, v),
{
    let level = t.level;
    let kids = pruned_forest(t.children);
    let c = t.pruned().children[i];
    lemma_pruned_source(t, i);
    if is_kept_kid(kids, level, c) {
        let k = choose|k: int|
            0 <= k < kids.len() && (#[trigger] kids[k]).level != level && kids[k] == c;
        assert(totals_fit(kids[k], level as int, total, v));
    } else {
        let (k, j) = choose|k: int, j: int|
            0 <= k < kids.len() && kids[k].level == level && 0 <= j < kids[k].children.len()
                && #[trigger] kids[k].children[j] == c;
        assert(totals_fit(kids[k], level as int, total, v));
        lemma_merged_node_sum(kids[k], v);
    }
}

/// The running totals fit under a pruned kid if they fit under the
/// children of the pruned tree and the total handed down fits.
proof fn lemma_totals_fit_up(t: PartitionTree, total: int, v: Seq<i64>, k: int)
    requires
        0 <= k < t.children.len(),
        pruned_forest(t.children).len() == t.children.len(),
        fits_i64(total),
        forall|i: int|
            0 <= i < t.pruned().children.len() ==> totals_fit(
                #[trigger] t.pruned().children[i],
                t.level as int,
                total,
                v,
            ),
    ensures
        totals_fit(pruned_forest(t.children)[k], t.level as int, total, v),
{
    let level = t.level;
    let kids = pruned_forest(t.children);
    let p = t.pruned();
    let stay = kept(kids, level);
    let up = promoted(kids, level);
    let kid = kids[k];
    lemma_kept(kids, level);
    lemma_promoted(kids, level);
    assert(p.children == stay + up);
    if kid.level != level {
        assert(stay.contains(kid));
        let i = choose|i: int| 0 <= i < stay.len() && stay[i] == kid;
        assert(p.children[i] == kid);
    } else {
        lemma_merged_node_sum(kid, v);
        assert forall|j: int| 0 <= j < kid.children.len() implies totals_fit(
            #[trigger] kid.children[j],
            kid.level as int,
            total + node_sum(kid, level as int, v),
            v,
        ) by {
            assert(up.contains(kids[k].children[j]));
            let i = choose|i: int| 0 <= i < up.len() && up[i] == kid.children[j];
            assert(p.children[stay.len() + i] == kid.children[j]);
        }
    }
}

/// Pruning does not change whether the partial products fit in 64 bits,
/// nor whether the running totals do.
pub proof fn lemma_pruned_fits(t: PartitionTree, parent: int, inherited: int, v: Seq<i64>)
    requires
        t.wf(),
    ensures
        sums_fit(t.pruned(), parent, v) == sums_fit(t, parent, v),
        totals_fit(t.pruned(), parent, inherited, v) == totals_fit(t, parent, inherited, v),
    decreases t,
{
    let level = t.level as int;
    let kids = pruned_forest(t.children);
    let p = t.pruned();
    lemma_pruned_forest(t.children);
    lemma_pruned_subtree_sum(t, v);
    let total = inherited + node_sum(t, parent, v);
    assert(node_sum(p, parent, v) == node_sum(t, parent, v));
    assert forall|k: int| 0 <= k < t.children.len() implies sums_fit(#[trigger] kids[k], level, v)
        == sums_fit(t.children[k], level, v) && totals_fit(kids[k], level, total, v)
        == totals_fit(t.children[k], level, total, v) by {
        lemma_pruned_fits(t.children[k], level, total, v);
    }
    if sums_fit(t, parent, v) {
        assert forall|i: int| 0 <= i < p.children.len() implies sums_fit(
            #[trigger] p.children[i],
            level,
            v,
        ) by {
            lemma_sums_fit_down(t, v, i);
        }
    }
    if sums_fit(p, parent, v) {
        assert forall|k: int| 0 <= k < t.children.len() implies sums_fit(
            #[trigger] t.children[k],
            level,
            v,
        ) by {
            lemma_sums_fit_up(t, v, k);
        }
    }
    if totals_fit(t, parent, inherited, v) {
        assert forall|i: int| 0 <= i < p.children.len() implies totals_fit(
            #[trigger] p.children[i],
            level,
            total,
            v,
        ) by {
            lemma_totals_fit_down(t, total, v, i);
        }
    }
    if totals_fit(p, parent, inherited, v) {
        assert forall|k: int| 0 <= k < t.children.len() implies totals_fit(
            #[trigger] t.children[k],
            level,
            total,
            v,
        ) by {
            lemma_totals_fit_up(t, total, v, k);
        }
    }
}

/// A child of the pruned tree is a kept kid or a child of a merged one.
proof fn lemma_pruned_source(t: PartitionTree, i: int)
    requires
        0 <= i < t.pruned().children.len(),
    ensures
        is_kept_kid(pruned_forest(t.children), t.level, t.pruned().children[i]) || is_grandchild(
            pruned_forest(t.children),
            t.level,
            t.pruned().children[i],
        ),
{
    let level = t.level;
    let kids = pruned_forest(t.children);
    let stay = kept(kids, level);
    let up = promoted(kids, level);
    lemma_kept(kids, level);
    lemma_promoted(kids, level);
    if i < stay.len() {
        assert(t.pruned().children[i] == stay[i]);
    } else {
        assert(t.pruned().children[i] == up[i - stay.len()]);
    }
}

/// The number of trees of the sequence whose level is `level`.
pub open spec fn merges(kids: Seq<PartitionTree>, level: i64) -> nat
    decreases kids.len(),
{
    if kids.len() == 0 {
        0
    } else if kids.last().level == level {
        merges(kids.drop_last(), level) + 1
    } else {
        merges(kids.drop_last(), level)
    }
}

/// The number of vertices in the trees of the sequence whose level is
/// `level`.
pub open spec fn merged_nodes(kids: Seq<PartitionTree>, level: i64) -> nat
    decreases kids.len(),
{
    if kids.len() == 0 {
        0
    } else if kids.last().level == level {
        merged_nodes(kids.drop_last(), level) + kids.last().node_count()
    } else {
        merged_nodes(kids.drop_last(), level)
    }
}

/// The vertices of two sequences of trees add up.
proof fn lemma_forest_node_count_concat(a: Seq<PartitionTree>, b: Seq<PartitionTree>)
    ensures
        forest_node_count(a + b) == forest_node_count(a) + forest_node_count(b),
    decreases b.len(),
{
    if b.len() == 0 {
        assert(a + b == a);
    } else {
        lemma_forest_node_count_concat(a, b.drop_last());
        assert((a + b).drop_last() == a + b.drop_last());
    }
}

/// The vertices of the merged trees of two sequences add up.
proof fn lemma_merged_nodes_concat(a: Seq<PartitionTree>, b: Seq<PartitionTree>, level: i64)
    ensures
        merged_nodes(a + b, level) == merged_nodes(a, level) + merged_nodes(b, level),
    decreases b.len(),
{
    if b.len() == 0 {
        assert(a + b == a);
    } else {
        lemma_merged_nodes_concat(a, b.drop_last(), level);
        assert((a + b).drop_last() == a + b.drop_last());
    }
}

/// The counts of a sequence of one tree.
proof fn lemma_single_counts(c: PartitionTree, level: i64)
    ensures
        forest_node_count(seq![c]) == c.node_count(),
        merged_nodes(seq![c], level) == if c.level == level {
            c.node_count()
        } else {
            0
        },
{
    let front = seq![c].drop_last();
    assert(front.len() == 0);
    assert(seq![c].last() == c);
    assert(forest_node_count(front) == 0);
    assert(merged_nodes(front, level) == 0);
}

/// The vertices of the kept trees and of the merged trees are the vertices
/// of all trees.
proof fn lemma_kept_node_count(kids: Seq<PartitionTree>, level: i64)
    ensures
        forest_node_count(kept(kids, level)) + merged_nodes(kids, level) == forest_node_count(kids),
    decreases kids.len(),
{
    if kids.len() > 0 {
        let first = kids.first();
        let rest = kids.drop_first();
        lemma_kept_node_count(rest, level);
        assert(kids == seq![first] + rest);
        lemma_forest_node_count_concat(seq![first], rest);
        lemma_merged_nodes_concat(seq![first], rest, level);
        lemma_single_counts(first, level);
        if first.level != level {
            lemma_forest_node_count_concat(seq![first], kept(rest, level));
        }
    }
}

/// A merged tree gives all its vertices but its root to the promoted trees.
proof fn lemma_promoted_node_count(kids: Seq<PartitionTree>, level: i64)
    ensures
        forest_node_count(promoted(kids, level)) + merges(kids, level) == merged_nodes(kids, level),
    decreases kids.len(),
{
    if kids.len() > 0 {
        lemma_promoted_node_count(kids.drop_last(), level);
        if kids.last().level == level {
            lemma_forest_node_count_concat(promoted(kids.drop_last(), level), kids.last().children);
        }
    }
}

/// A sequence of trees none of which has more vertices than its
/// counterpart has no more vertices in all, and fewer if one tree has fewer.
proof fn lemma_forest_node_count_le(a: Seq<PartitionTree>, b: Seq<PartitionTree>)
    requires
        a.len() == b.len(),
        forall|k: int| 0 <= k < a.len() ==> (#[trigger] a[k]).node_count() <= b[k].node_count(),
    ensures
        forest_node_count(a) <= forest_node_count(b),
        (exists|k: int| 0 <= k < a.len() && (#[trigger] a[k]).node_count() < b[k].node_count())
            ==> forest_node_count(a) < forest_node_count(b),
    decreases a.len(),
{
    if a.len() > 0 {
        let fa = a.drop_last();
        let fb = b.drop_last();
        assert forall|k: int| 0 <= k < fa.len() implies (#[trigger] fa[k]).node_count()
            <= fb[k].node_count() by {
            assert(fa[k] == a[k] && fb[k] == b[k]);
        }
        lemma_forest_node_count_le(fa, fb);
        assert(a[a.len() - 1].node_count() <= b[a.len() - 1].node_count());
        if exists|k: int| 0 <= k < a.len() && (#[trigger] a[k]).node_count() < b[k].node_count() {
            let k = choose|k: int|
                0 <= k < a.len() && (#[trigger] a[k]).node_count() < b[k].node_count();
            if k < a.len() - 1 {
                assert(fa[k] == a[k] && fb[k] == b[k]);
            }
        }
    }
}

/// Where a tree of the sequence has the level, at least one is merged.
proof fn lemma_merges_positive(kids: Seq<PartitionTree>, level: i64, k: int)
    requires
        0 <= k < kids.len(),
        kids[k].level == level,
    ensures
        merges(kids, level) >= 1,
    decreases kids.len(),
{
    if k < kids.len() - 1 {
        assert(kids.drop_last()[k] == kids[k]);
        lemma_merges_positive(kids.drop_last(), level, k);
    }
}

/// Pruning never adds a vertex, and it removes one unless the tree has no
/// vertex with a child of its own level.
pub proof fn lemma_pruned_node_count(t: PartitionTree)
    ensures
        t.pruned().node_count() <= t.node_count(),
        !t.is_pruned() ==> t.pruned().node_count() < t.node_count(),
        t.is_pruned() ==> t.pruned().node_count() == t.node_count(),
    decreases t,
{
    let level = t.level;
    let kids = pruned_forest(t.children);
    let p = t.pruned();
    lemma_pruned_forest(t.children);
    lemma_kept_node_count(kids, level);
    lemma_promoted_node_count(kids, level);
    lemma_forest_node_count_concat(kept(kids, level), promoted(kids, level));
    assert forall|k: int| 0 <= k < kids.len() implies (#[trigger] kids[k]).node_count()
        <= t.children[k].node_count() by {
        lemma_pruned_node_count(t.children[k]);
    }
    lemma_forest_node_count_le(kids, t.children);
    if t.is_pruned() {
        lemma_pruned_fixed(t);
    } else {
        let k = choose|k: int|
            0 <= k < t.children.len() && !((#[trigger] t.children[k]).level != t.level
                && t.children[k].is_pruned());
        if !t.children[k].is_pruned() {
            lemma_pruned_node_count(t.children[k]);
            assert(kids[k].node_count() < t.children[k].node_count());
        } else {
            lemma_pruned_fixed(t.children[k]);
            lemma_merges_positive(kids, level, k);
        }
    }
}

} // verus!

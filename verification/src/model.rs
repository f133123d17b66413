//! The mathematical model of a partition tree.
//!
//! A tree is a value of [`PartitionTree`]: the index list it covers, the
//! indices attached to it as leaves, its level, and its children. The
//! functions here say what a tree means (which matrix it stands for) and
//! which trees are well formed; the executable tree is specified against
//! them.

use crate::partition::{
    Split, divides, lemma_scan, lemma_scan_approx, lemma_scan_lengths, split, split_approx,
};
use crate::seq_facts::{
    all_below, apart, lemma_all_below_contains, lemma_all_below_from_contains,
    lemma_drop_first_no_duplicates,
};
use vstd::prelude::*;

verus! {

/// One vertex of a partition tree together with everything below it.
pub struct PartitionTree {
    /// The indices covered by this vertex and its descendants.
    pub partition: Seq<usize>,
    /// The indices attached to this vertex itself.
    pub leaves: Seq<usize>,
    /// The value shared by all pairs of indices that this vertex separates.
    pub level: i64,
    /// The vertices directly below this one.
    pub children: Seq<PartitionTree>,
}

impl PartitionTree {
    /// Whether index `x` lies in this subtree.
    pub open spec fn covers(self, x: usize) -> bool {
        self.partition.contains(x)
    }

    /// Whether some child covers `x`.
    pub open spec fn in_child(self, x: usize) -> bool {
        exists|k: int| 0 <= k < self.children.len() && (#[trigger] self.children[k]).covers(x)
    }

    /// Whether some child covers both `i` and `j`.
    pub open spec fn same_child(self, i: usize, j: usize) -> bool {
        exists|k: int|
            0 <= k < self.children.len() && (#[trigger] self.children[k]).covers(i)
                && self.children[k].covers(j)
    }

    /// A child that covers both `i` and `j`, when there is one.
    pub open spec fn shared_child(self, i: usize, j: usize) -> int {
        choose|k: int|
            0 <= k < self.children.len() && (#[trigger] self.children[k]).covers(i)
                && self.children[k].covers(j)
    }

    /// Well-formedness: at every vertex the covered indices are, without
    /// repetition, the vertex's own leaves together with what its children
    /// cover, and no index belongs to two of these.
    pub open spec fn wf(self) -> bool
        decreases self,
    {
        &&& self.partition.no_duplicates()
        &&& self.leaves.no_duplicates()
        &&& forall|x: usize| #[trigger]
            self.covers(x) <==> (self.leaves.contains(x) || self.in_child(x))
        &&& forall|k: int|
            0 <= k < self.children.len() ==> apart(
                self.leaves,
                (#[trigger] self.children[k]).partition,
            )
        &&& forall|a: int, b: int|
            0 <= a < b < self.children.len() ==> apart(
                (#[trigger] self.children[a]).partition,
                (#[trigger] self.children[b]).partition,
            )
        &&& forall|k: int| 0 <= k < self.children.len() ==> (#[trigger] self.children[k]).wf()
    }

    /// The number of indices the tree covers.
    pub open spec fn size(self) -> nat {
        self.partition.len()
    }

    /// A well-formed tree over exactly the indices `0, .., size - 1`.
    pub open spec fn wf_root(self) -> bool {
        &&& self.wf()
        &&& self.size() <= usize::MAX
        &&& all_below(self.partition, self.size())
        &&& forall|x: usize| x < self.size() ==> #[trigger] self.covers(x)
    }

    /// The matrix entry that the tree assigns to the pair `(i, j)`: the
    /// level of the lowest vertex that covers both.
    pub open spec fn entry(self, i: usize, j: usize) -> i64
        decreases self,
    {
        if self.same_child(i, j) {
            self.children[self.shared_child(i, j)].entry(i, j)
        } else {
            self.level
        }
    }

    /// The square matrix that the tree stands for, as rows.
    pub open spec fn matrix(self) -> Seq<Seq<i64>> {
        Seq::new(
            self.size(),
            |i: int| Seq::new(self.size(), |j: int| self.entry(i as usize, j as usize)),
        )
    }

    /// The tree after pruning: every child is pruned first; then each child
    /// whose level equals this vertex's level is merged into it, which
    /// hands its leaves and its children over to this vertex.
    pub open spec fn pruned(self) -> PartitionTree
        decreases self, 1int,
    {
        let kids = pruned_forest(self.children);
        PartitionTree {
            partition: self.partition,
            leaves: self.leaves + merged_leaves(kids, self.level),
            level: self.level,
            children: kept(kids, self.level) + promoted(kids, self.level),
        }
    }

    /// No vertex has a child of its own level.
    pub open spec fn is_pruned(self) -> bool
        decreases self,
    {
        forall|k: int|
            0 <= k < self.children.len() ==> (#[trigger] self.children[k]).level != self.level
                && self.children[k].is_pruned()
    }

    /// The number of vertices.
    pub open spec fn node_count(self) -> nat
        decreases self, 1int,
    {
        1 + forest_node_count(self.children)
    }

    /// The indices in the order of a post-order walk: what the children
    /// hold, child by child, and then the vertex's own leaves.
    pub open spec fn leaf_order(self) -> Seq<usize>
        decreases self, 1int,
    {
        forest_leaf_order(self.children) + self.leaves
    }
}

/// The number of vertices in a sequence of trees.
pub open spec fn forest_node_count(trees: Seq<PartitionTree>) -> nat
    decreases trees, 0int,
{
    if trees.len() == 0 {
        0
    } else {
        forest_node_count(trees.drop_last()) + trees.last().node_count()
    }
}

/// The post-order index lists of a sequence of trees, one after the other.
pub open spec fn forest_leaf_order(trees: Seq<PartitionTree>) -> Seq<usize>
    decreases trees, 0int,
{
    if trees.len() == 0 {
        Seq::empty()
    } else {
        forest_leaf_order(trees.drop_last()) + trees.last().leaf_order()
    }
}

/// Each tree of the sequence, pruned.
pub open spec fn pruned_forest(trees: Seq<PartitionTree>) -> Seq<PartitionTree>
    decreases trees, 0int,
{
    if trees.len() == 0 {
        Seq::empty()
    } else {
        pruned_forest(trees.drop_last()).push(trees.last().pruned())
    }
}

/// The leaves of the trees whose level is `level`, tree by tree.
pub open spec fn merged_leaves(kids: Seq<PartitionTree>, level: i64) -> Seq<usize>
    decreases kids.len(),
{
    if kids.len() == 0 {
        Seq::empty()
    } else if kids.last().level == level {
        merged_leaves(kids.drop_last(), level) + kids.last().leaves
    } else {
        merged_leaves(kids.drop_last(), level)
    }
}

/// The children of the trees whose level is `level`, tree by tree.
pub open spec fn promoted(kids: Seq<PartitionTree>, level: i64) -> Seq<PartitionTree>
    decreases kids.len(),
{
    if kids.len() == 0 {
        Seq::empty()
    } else if kids.last().level == level {
        promoted(kids.drop_last(), level) + kids.last().children
    } else {
        promoted(kids.drop_last(), level)
    }
}

/// The trees whose level is not `level`, in order.
pub open spec fn kept(kids: Seq<PartitionTree>, level: i64) -> Seq<PartitionTree>
    decreases kids.len(),
{
    if kids.len() == 0 {
        Seq::empty()
    } else if kids.first().level == level {
        kept(kids.drop_first(), level)
    } else {
        seq![kids.first()] + kept(kids.drop_first(), level)
    }
}

/// The vertices of the first `m` trees are among those of all the trees.
pub proof fn lemma_forest_node_count_grows(trees: Seq<PartitionTree>, m: int)
    requires
        0 <= m <= trees.len(),
    ensures
        forest_node_count(trees.take(m)) <= forest_node_count(trees),
    decreases trees.len() - m,
{
    if m < trees.len() {
        lemma_forest_node_count_grows(trees, m + 1);
        assert(trees.take(m + 1).drop_last() == trees.take(m));
    } else {
        assert(trees.take(m) == trees);
    }
}

/// `pruned_forest` goes tree by tree.
pub proof fn lemma_pruned_forest(trees: Seq<PartitionTree>)
    ensures
        pruned_forest(trees).len() == trees.len(),
        forall|k: int|
            0 <= k < trees.len() ==> #[trigger] pruned_forest(trees)[k] == trees[k].pruned(),
    decreases trees.len(),
{
    if trees.len() > 0 {
        lemma_pruned_forest(trees.drop_last());
    }
}

/// The tree without vertices or indices.
pub open spec fn empty_tree() -> PartitionTree {
    PartitionTree {
        partition: Seq::empty(),
        leaves: Seq::empty(),
        level: 0,
        children: Seq::empty(),
    }
}

/// The tree of a single index: one vertex whose level is the diagonal entry.
pub open spec fn leaf_tree(m: Seq<Seq<i64>>, part: Seq<usize>) -> PartitionTree {
    PartitionTree {
        partition: part,
        leaves: seq![part[0]],
        level: m[part[0] as int][part[0] as int],
        children: Seq::empty(),
    }
}

/// The partition tree of the index list `part` under the matrix `m`.
///
/// A single index becomes a leaf. A longer list is split around its first
/// index; the vertex takes the row minimum as its level and gets the trees
/// of the left and the right part as its two children.
pub open spec fn build(m: Seq<Seq<i64>>, part: Seq<usize>) -> PartitionTree
    decreases part.len(),
{
    if part.len() == 0 {
        empty_tree()
    } else if part.len() == 1 {
        leaf_tree(m, part)
    } else {
        let s = split(m, part);
        proof {
            lemma_scan_lengths(m, part[0], part.drop_first());
        }
        PartitionTree {
            partition: part,
            leaves: Seq::empty(),
            level: s.min,
            children: seq![build(m, s.left), build(m, s.right)],
        }
    }
}

/// The partition tree built with tolerance `eps` at every split.
pub open spec fn build_approx(m: Seq<Seq<i64>>, part: Seq<usize>, eps: i64) -> PartitionTree
    decreases part.len(),
    when eps >= 0
{
    if part.len() == 0 {
        empty_tree()
    } else if part.len() == 1 {
        leaf_tree(m, part)
    } else {
        let s = split_approx(m, part, eps);
        proof {
            lemma_scan_approx(m, part[0], part.drop_first(), eps);
        }
        PartitionTree {
            partition: part,
            leaves: Seq::empty(),
            level: s.min,
            children: seq![build_approx(m, s.left, eps), build_approx(m, s.right, eps)],
        }
    }
}

/// In a well-formed tree at most one child covers a given index.
pub proof fn lemma_one_child(t: PartitionTree, a: int, b: int, x: usize)
    requires
        t.wf(),
        0 <= a < t.children.len(),
        0 <= b < t.children.len(),
        t.children[a].covers(x),
        t.children[b].covers(x),
    ensures
        a == b,
{
    if a < b {
        assert(apart(t.children[a].partition, t.children[b].partition));
    } else if b < a {
        assert(apart(t.children[b].partition, t.children[a].partition));
    }
}

/// What a child covers, the tree covers; and it is not a leaf of the root.
pub proof fn lemma_child_covers(t: PartitionTree, k: int, x: usize)
    requires
        t.wf(),
        0 <= k < t.children.len(),
        t.children[k].covers(x),
    ensures
        t.covers(x),
        !t.leaves.contains(x),
        t.in_child(x),
{
    assert(apart(t.leaves, t.children[k].partition));
}

/// Where the indices of a well-formed tree are below `n`, so are its
/// leaves.
pub proof fn lemma_leaves_below(t: PartitionTree, n: nat)
    requires
        t.wf(),
        all_below(t.partition, n),
    ensures
        all_below(t.leaves, n),
{
    assert forall|x: usize| t.leaves.contains(x) implies x < n by {
        assert(t.covers(x));
        lemma_all_below_contains(t.partition, n, x);
    }
    lemma_all_below_from_contains(t.leaves, n);
}

/// Where the indices of a well-formed tree are below `n`, so are the
/// indices of each child, which is well formed itself.
pub proof fn lemma_child_below(t: PartitionTree, k: int, n: nat)
    requires
        t.wf(),
        0 <= k < t.children.len(),
        all_below(t.partition, n),
    ensures
        t.children[k].wf(),
        all_below(t.children[k].partition, n),
{
    let child = t.children[k];
    assert forall|x: usize| child.partition.contains(x) implies x < n by {
        assert(child.covers(x));
        lemma_child_covers(t, k, x);
        lemma_all_below_contains(t.partition, n, x);
    }
    lemma_all_below_from_contains(child.partition, n);
}

/// For two indices under one child the tree's entry is the child's.
pub proof fn lemma_entry_in_child(t: PartitionTree, k: int, x: usize, y: usize)
    requires
        t.wf(),
        0 <= k < t.children.len(),
        t.children[k].covers(x),
        t.children[k].covers(y),
    ensures
        t.entry(x, y) == t.children[k].entry(x, y),
{
    assert(t.same_child(x, y));
    lemma_one_child(t, k, t.shared_child(x, y), x);
}

/// For two indices that no single child covers the entry is the level.
pub proof fn lemma_entry_apart(t: PartitionTree, a: int, b: int, x: usize, y: usize)
    requires
        t.wf(),
        0 <= a < t.children.len(),
        0 <= b < t.children.len(),
        a != b,
        t.children[a].covers(x),
        t.children[b].covers(y),
    ensures
        t.entry(x, y) == t.level,
        t.entry(y, x) == t.level,
{
    if t.same_child(x, y) {
        let k = t.shared_child(x, y);
        lemma_one_child(t, k, a, x);
        lemma_one_child(t, k, b, y);
    }
    if t.same_child(y, x) {
        let k = t.shared_child(y, x);
        lemma_one_child(t, k, a, x);
        lemma_one_child(t, k, b, y);
    }
}

/// For a leaf of the root and any other index the entry is the level.
pub proof fn lemma_entry_leaf(t: PartitionTree, x: usize, y: usize)
    requires
        t.wf(),
        t.leaves.contains(x),
    ensures
        t.entry(x, y) == t.level,
        t.entry(y, x) == t.level,
{
    if t.same_child(x, y) {
        let k = t.shared_child(x, y);
        assert(apart(t.leaves, t.children[k].partition));
    }
    if t.same_child(y, x) {
        let k = t.shared_child(y, x);
        assert(apart(t.leaves, t.children[k].partition));
    }
}

/// A vertex without leaves of its own whose two children cover the two
/// parts of a split is well formed when the children are.
pub proof fn lemma_split_node_wf(
    part: Seq<usize>,
    s: Split,
    level: i64,
    left: PartitionTree,
    right: PartitionTree,
)
    requires
        part.len() >= 1,
        part.no_duplicates(),
        divides(s, part[0], part.drop_first()),
        left.wf(),
        right.wf(),
        left.partition == s.left,
        right.partition == s.right,
    ensures
        (PartitionTree {
            partition: part,
            leaves: Seq::empty(),
            level,
            children: seq![left, right],
        }).wf(),
{
    let node = PartitionTree {
        partition: part,
        leaves: Seq::empty(),
        level,
        children: seq![left, right],
    };
    let rest = part.drop_first();
    assert(node.children[0] == left);
    assert(node.children[1] == right);
    assert forall|x: usize| #[trigger] node.covers(x) <==> (node.leaves.contains(x)
        || node.in_child(x)) by {
        if node.covers(x) {
            let k = choose|k: int| 0 <= k < part.len() && part[k] == x;
            if k > 0 {
                assert(rest[k - 1] == x);
                assert(rest.contains(x));
            }
            assert(s.left.contains(x) || s.right.contains(x));
            if s.left.contains(x) {
                assert(node.children[0].covers(x));
            } else {
                assert(node.children[1].covers(x));
            }
        }
        if node.in_child(x) {
            let k = choose|k: int|
                0 <= k < node.children.len() && (#[trigger] node.children[k]).covers(x);
            assert(s.left.contains(x) || s.right.contains(x));
            if x != part[0] {
                let j = choose|j: int| 0 <= j < rest.len() && rest[j] == x;
                assert(part[j + 1] == x);
            }
        }
    }
}

/// A list of one index and the leaf built on it.
pub proof fn lemma_leaf_tree_wf(m: Seq<Seq<i64>>, part: Seq<usize>)
    requires
        part.len() == 1,
    ensures
        leaf_tree(m, part).wf(),
{
    let node = leaf_tree(m, part);
    assert(part =~= seq![part[0]]);
    assert(part.no_duplicates());
    assert(!node.in_child(part[0]));
}

/// Built from a list without repetition, the tree is well formed and
/// covers that list.
pub proof fn lemma_build_wf(m: Seq<Seq<i64>>, part: Seq<usize>)
    requires
        part.no_duplicates(),
    ensures
        build(m, part).wf(),
        build(m, part).partition == part,
    decreases part.len(),
{
    if part.len() == 0 {
        assert(!empty_tree().in_child(0));
    } else if part.len() == 1 {
        lemma_leaf_tree_wf(m, part);
    } else {
        let s = split(m, part);
        lemma_drop_first_no_duplicates(part);
        lemma_scan(m, part[0], part.drop_first());
        lemma_build_wf(m, s.left);
        lemma_build_wf(m, s.right);
        lemma_split_node_wf(part, s, s.min, build(m, s.left), build(m, s.right));
    }
}

/// Built with a tolerance from a list without repetition, the tree is well
/// formed and covers that list.
pub proof fn lemma_build_approx_wf(m: Seq<Seq<i64>>, part: Seq<usize>, eps: i64)
    requires
        part.no_duplicates(),
        eps >= 0,
    ensures
        build_approx(m, part, eps).wf(),
        build_approx(m, part, eps).partition == part,
    decreases part.len(),
{
    if part.len() == 0 {
        assert(!empty_tree().in_child(0));
    } else if part.len() == 1 {
        lemma_leaf_tree_wf(m, part);
    } else {
        let s = split_approx(m, part, eps);
        lemma_drop_first_no_duplicates(part);
        lemma_scan_approx(m, part[0], part.drop_first(), eps);
        lemma_build_approx_wf(m, s.left, eps);
        lemma_build_approx_wf(m, s.right, eps);
        lemma_split_node_wf(
            part,
            s,
            s.min,
            build_approx(m, s.left, eps),
            build_approx(m, s.right, eps),
        );
    }
}

} // verus!

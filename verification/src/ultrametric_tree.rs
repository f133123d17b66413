//! The executable partition tree of an ultrametric matrix.
//!
//! This file holds the type, its mathematical view and its accessors. The
//! operations stand in the modules below it: building a tree from a matrix,
//! turning it back into a matrix, multiplying it with a vector, pruning it.

mod builder;
mod multiply;
mod pruning;
mod reconstruct;

pub use multiply::MultError;

use crate::model::{PartitionTree, empty_tree, forest_node_count, lemma_forest_node_count_grows};
use vstd::prelude::*;

verus! {

/// Tree that represents the structure of an ultrametric matrix.
///
/// A value is one vertex together with the vertices below it; the root
/// stands for the whole matrix. Recursion in the methods is as deep as the
/// tree, which for a matrix of `n` rows can be `n` vertices deep.
pub struct UltrametricTree {
    /// Indices associated with the vertex.
    partition: Vec<usize>,
    /// Indices for which the vertex is a leaf.
    partition_leaves: Vec<usize>,
    /// Value of the vertex.
    level: i64,
    /// Partial product, rewritten by every multiplication.
    sum: i64,
    /// Children of the vertex.
    children: Vec<UltrametricTree>,
}

impl View for UltrametricTree {
    type V = PartitionTree;

    /// The tree as a mathematical value; the partial products are left out.
    closed spec fn view(&self) -> PartitionTree {
        model_of(*self)
    }
}

/// The mathematical value of a tree.
pub closed spec fn model_of(tree: UltrametricTree) -> PartitionTree
    decreases tree, 1int,
{
    PartitionTree {
        partition: tree.partition@,
        leaves: tree.partition_leaves@,
        level: tree.level,
        children: views(tree.children@),
    }
}

/// The views of a sequence of trees, in order.
pub closed spec fn views(trees: Seq<UltrametricTree>) -> Seq<PartitionTree>
    decreases trees, 0int,
{
    if trees.len() == 0 {
        Seq::empty()
    } else {
        views(trees.drop_last()).push(model_of(trees.last()))
    }
}

/// `views` goes element by element.
proof fn lemma_views(trees: Seq<UltrametricTree>)
    ensures
        views(trees).len() == trees.len(),
        forall|k: int| 0 <= k < trees.len() ==> #[trigger] views(trees)[k] == trees[k]@,
    decreases trees.len(),
{
    if trees.len() > 0 {
        lemma_views(trees.drop_last());
    }
}

/// `views` goes through a concatenation.
proof fn lemma_views_concat(a: Seq<UltrametricTree>, b: Seq<UltrametricTree>)
    ensures
        views(a + b) == views(a) + views(b),
{
    lemma_views(a);
    lemma_views(b);
    lemma_views(a + b);
    assert(views(a + b) =~= views(a) + views(b));
}

/// Appends the indices of `source` to `target`.
fn append_indices(target: &mut Vec<usize>, source: &Vec<usize>)
    ensures
        final(target)@ == old(target)@ + source@,
{
    let mut k: usize = 0;
    while k < source.len()
        invariant
            k <= source@.len(),
            target@ == old(target)@ + source@.take(k as int),
        decreases source@.len() - k,
    {
        target.push(source[k]);
        assert(source@.take(k + 1) == source@.take(k as int).push(source@[k as int]));
        k += 1;
    }
    assert(source@.take(source@.len() as int) == source@);
}

impl Default for UltrametricTree {
    /// The tree without indices.
    fn default() -> (tree: Self)
        ensures
            tree@ == empty_tree(),
            tree@.wf_root(),
    {
        let tree = UltrametricTree::new(Vec::new());
        proof {
            tree.lemma_view();
            assert(tree@.children =~= Seq::<PartitionTree>::empty());
            assert(tree@.partition =~= Seq::<usize>::empty());
            assert(!empty_tree().in_child(0));
        }
        tree
    }
}

impl Clone for UltrametricTree {
    /// A copy of the tree, partial products included.
    fn clone(&self) -> (tree: Self)
        ensures
            tree@ == self@,
        decreases self,
    {
        let mut children: Vec<UltrametricTree> = Vec::new();
        let count = self.children.len();
        let mut k: usize = 0;
        while k < count
            invariant
                k <= count,
                count == self.children@.len(),
                children@.len() == k,
                forall|j: int| 0 <= j < k ==> (#[trigger] children@[j])@ == self.children@[j]@,
            decreases count - k,
        {
            let child = self.children[k].clone();
            children.push(child);
            k += 1;
        }
        let tree = UltrametricTree {
            partition: self.partition.clone(),
            partition_leaves: self.partition_leaves.clone(),
            level: self.level,
            sum: self.sum,
            children,
        };
        proof {
            Self::lemma_same_view(tree, *self);
        }
        tree
    }
}

impl UltrametricTree {
    /// The view, field by field.
    proof fn lemma_view(&self)
        ensures
            self@.partition == self.partition@,
            self@.leaves == self.partition_leaves@,
            self@.level == self.level,
            self@.children.len() == self.children@.len(),
            forall|k: int|
                0 <= k < self.children@.len() ==> #[trigger] self@.children[k]
                    == self.children@[k]@,
    {
        lemma_views(self.children@);
    }

    /// Two trees that differ at most in their partial products have one view.
    proof fn lemma_same_view(a: Self, b: Self)
        requires
            a.partition@ == b.partition@,
            a.partition_leaves@ == b.partition_leaves@,
            a.level == b.level,
            a.children@.len() == b.children@.len(),
            forall|j: int| 0 <= j < a.children@.len() ==> (#[trigger] a.children@[j])@ == (
            b.children@[j])@,
        ensures
            a@ == b@,
    {
        lemma_views(a.children@);
        lemma_views(b.children@);
        assert forall|j: int| 0 <= j < a.children@.len() implies views(a.children@)[j] == views(
            b.children@,
        )[j] by {
            assert(a.children@[j]@ == b.children@[j]@);
        }
        assert(views(a.children@) =~= views(b.children@));
    }

    /// Create a new vertex using `partition`.
    fn new(partition: Vec<usize>) -> (tree: Self)
        ensures
            tree.partition == partition,
            tree.partition_leaves@ == Seq::<usize>::empty(),
            tree.level == 0,
            tree.children@ == Seq::<UltrametricTree>::empty(),
    {
        UltrametricTree {
            partition,
            partition_leaves: Vec::new(),
            level: 0,
            sum: 0,
            children: Vec::new(),
        }
    }

    /// The number of indices that the tree covers.
    pub fn size(&self) -> (size: usize)
        ensures
            size == self@.size(),
    {
        proof {
            self.lemma_view();
        }
        self.partition.len()
    }

    /// The value of this vertex.
    pub fn level(&self) -> (level: i64)
        ensures
            level == self@.level,
    {
        proof {
            self.lemma_view();
        }
        self.level
    }

    /// The indices that this vertex and the vertices below it cover.
    pub fn partition(&self) -> (partition: &Vec<usize>)
        ensures
            partition@ == self@.partition,
    {
        proof {
            self.lemma_view();
        }
        &self.partition
    }

    /// The indices for which this vertex is a leaf.
    pub fn partition_leaves(&self) -> (leaves: &Vec<usize>)
        ensures
            leaves@ == self@.leaves,
    {
        proof {
            self.lemma_view();
        }
        &self.partition_leaves
    }

    /// The number of children of this vertex.
    pub fn num_children(&self) -> (count: usize)
        ensures
            count == self@.children.len(),
    {
        proof {
            self.lemma_view();
        }
        self.children.len()
    }

    /// The child at position `k`, or `None` when there is none.
    ///
    /// A child is a tree over the indices that it covers, which in general
    /// are not `0, .., size - 1`: it can be walked and counted, but the
    /// operations that require a tree over `0, .., size - 1` are for the
    /// root.
    pub fn child(&self, k: usize) -> (child: Option<&UltrametricTree>)
        ensures
            child is Some <==> k < self@.children.len(),
            child matches Some(c) ==> c@ == self@.children[k as int],
    {
        proof {
            self.lemma_view();
        }
        if k < self.children.len() {
            Some(&self.children[k])
        } else {
            None
        }
    }

    /// The number of vertices, or `None` when it exceeds `usize::MAX`.
    pub fn node_count(&self) -> (count: Option<usize>)
        ensures
            count is Some <==> self@.node_count() <= usize::MAX,
            count matches Some(c) ==> c == self@.node_count(),
        decreases self,
    {
        let ghost t = self@;
        let mut total: usize = 1;
        let count = self.children.len();
        let mut c: usize = 0;
        proof {
            self.lemma_view();
            assert(t.children.take(0).len() == 0);
        }
        while c < count
            invariant
                c <= count,
                count == self.children@.len(),
                count == t.children.len(),
                t == self@,
                total == 1 + forest_node_count(t.children.take(c as int)),
            decreases count - c,
        {
            proof {
                self.lemma_view();
                assert(t.children.take(c + 1).drop_last() == t.children.take(c as int));
                assert(t.children.take(c + 1).last() == t.children[c as int]);
                lemma_forest_node_count_grows(t.children, c + 1);
            }
            let below = match self.children[c].node_count() {
                Some(below) => below,
                None => {
                    return None;
                },
            };
            total = match total.checked_add(below) {
                Some(total) => total,
                None => {
                    return None;
                },
            };
            c += 1;
        }
        proof {
            assert(t.children.take(count as int) == t.children);
        }
        Some(total)
    }
}

} // verus!

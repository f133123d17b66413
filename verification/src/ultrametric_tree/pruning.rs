//! Pruning in place.

use super::{UltrametricTree, append_indices, lemma_views, lemma_views_concat, views};
use crate::laws::{law_pruning_idempotent, law_pruning_keeps_matrix};
use crate::model::{
    PartitionTree, kept, lemma_pruned_forest, merged_leaves, promoted, pruned_forest,
};
use vstd::prelude::*;

verus! {

/// The trees whose level is not `level`, in order.
spec fn without_level(trees: Seq<UltrametricTree>, level: i64) -> Seq<UltrametricTree>
    decreases trees.len(),
{
    if trees.len() == 0 {
        Seq::empty()
    } else if trees.first().level == level {
        without_level(trees.drop_first(), level)
    } else {
        seq![trees.first()] + without_level(trees.drop_first(), level)
    }
}

/// Dropping the trees of one level commutes with taking views, as far as
/// the trees of other levels go.
proof fn lemma_without_level(trees: Seq<UltrametricTree>, kids: Seq<PartitionTree>, level: i64)
    requires
        trees.len() == kids.len(),
        forall|j: int| 0 <= j < trees.len() ==> (#[trigger] trees[j]).level == kids[j].level,
        forall|j: int|
            0 <= j < trees.len() && kids[j].level != level ==> (#[trigger] trees[j])@ == kids[j],
    ensures
        views(without_level(trees, level)) == kept(kids, level),
    decreases trees.len(),
{
    if trees.len() == 0 {
        lemma_views(without_level(trees, level));
        assert(views(without_level(trees, level)) =~= kept(kids, level));
    } else {
        let rest = trees.drop_first();
        let kids_rest = kids.drop_first();
        assert forall|j: int| 0 <= j < rest.len() implies (#[trigger] rest[j]).level
            == kids_rest[j].level by {
            assert(rest[j] == trees[j + 1]);
        }
        assert forall|j: int| 0 <= j < rest.len() && kids_rest[j].level != level implies (
        #[trigger] rest[j])@ == kids_rest[j] by {
            assert(rest[j] == trees[j + 1]);
        }
        lemma_without_level(rest, kids_rest, level);
        assert(trees[0].level == kids[0].level);
        if trees.first().level != level {
            lemma_views_concat(seq![trees.first()], without_level(rest, level));
            lemma_views(seq![trees.first()]);
            assert(views(seq![trees.first()]) =~= seq![kids.first()]);
        }
    }
}

impl UltrametricTree {
    /// Prune the tree to reduce the number of vertices.
    ///
    /// Every child is pruned first. Then each child whose level equals the
    /// level of this vertex is merged into it: its leaves are appended to
    /// the leaves of this vertex, its children are appended to the children
    /// of this vertex, and the child itself is dropped. The pruned tree
    /// represents the same matrix.
    pub fn prune_tree(&mut self)
        ensures
            final(self)@ == old(self)@.pruned(),
            final(self)@.is_pruned(),
            old(self)@.wf_root() ==> final(self)@.wf_root() && final(self)@.matrix() == old(
                self,
            )@.matrix(),
        decreases *old(self),
    {
        let ghost t0 = old(self)@;
        proof {
            law_pruning_idempotent(t0);
            if t0.wf_root() {
                law_pruning_keeps_matrix(t0);
            }
        }
        let ghost kids = pruned_forest(t0.children);
        let ghost level = self.level;
        proof {
            old(self).lemma_view();
            lemma_pruned_forest(t0.children);
            lemma_views(Seq::<UltrametricTree>::empty());
        }
        let mut new_children: Vec<UltrametricTree> = Vec::new();
        let count = self.children.len();
        let mut id: usize = 0;
        assert(kids.take(0) =~= Seq::<PartitionTree>::empty());
        assert(views(new_children@) =~= promoted(kids.take(0), level));
        assert(self.partition_leaves@ =~= t0.leaves + merged_leaves(kids.take(0), level));
        while id < count
            invariant
                id <= count,
                count == self.children@.len(),
                count == old(self).children@.len(),
                count == kids.len(),
                t0 == old(self)@,
                kids == pruned_forest(t0.children),
                level == self.level,
                level == t0.level,
                self.partition@ == t0.partition,
                self.partition_leaves@ == t0.leaves + merged_leaves(kids.take(id as int), level),
                views(new_children@) == promoted(kids.take(id as int), level),
                forall|j: int|
                    0 <= j < id ==> (#[trigger] self.children@[j]).level == kids[j].level,
                forall|j: int|
                    0 <= j < id && kids[j].level != level ==> (#[trigger] self.children@[j])@
                        == kids[j],
                forall|j: int|
                    id <= j < count ==> #[trigger] self.children@[j] == old(self).children@[j],
            decreases count - id,
        {
            proof {
                old(self).lemma_view();
                lemma_pruned_forest(t0.children);
                assert(decreases_to!(*old(self) => old(self).children@[id as int]));
                assert(kids.take(id + 1).drop_last() == kids.take(id as int));
                assert(kids.take(id + 1).last() == kids[id as int]);
            }
            let child = &mut self.children[id];
            child.prune_tree();
            proof {
                child.lemma_view();
            }
            if child.level == self.level {
                append_indices(&mut self.partition_leaves, &child.partition_leaves);
                proof {
                    lemma_views_concat(new_children@, child.children@);
                }
                new_children.append(&mut child.children);
            }
            id += 1;
        }
        assert(kids.take(count as int) == kids);
        let ghost merged_children = self.children@;
        let mut k: usize = count;
        assert(merged_children.skip(count as int) =~= Seq::<UltrametricTree>::empty());
        assert(self.children@ =~= merged_children.take(k as int) + without_level(
            merged_children.skip(k as int),
            level,
        ));
        while k > 0
            invariant
                k <= count,
                count == merged_children.len(),
                level == self.level,
                self.partition@ == t0.partition,
                self.partition_leaves@ == t0.leaves + merged_leaves(kids, level),
                self.children@ == merged_children.take(k as int) + without_level(
                    merged_children.skip(k as int),
                    level,
                ),
            decreases k,
        {
            k -= 1;
            proof {
                assert(merged_children.skip(k as int).drop_first() == merged_children.skip(k + 1));
                assert(merged_children.skip(k as int).first() == merged_children[k as int]);
                assert(self.children@[k as int] == merged_children[k as int]);
            }
            if self.children[k].level == self.level {
                self.children.remove(k);
                assert(self.children@ =~= merged_children.take(k as int) + without_level(
                    merged_children.skip(k as int),
                    level,
                ));
            } else {
                assert(self.children@ =~= merged_children.take(k as int) + without_level(
                    merged_children.skip(k as int),
                    level,
                ));
            }
        }
        let ghost promoted_children = new_children@;
        self.children.append(&mut new_children);
        proof {
            assert(merged_children.skip(0) == merged_children);
            lemma_without_level(merged_children, kids, level);
            lemma_views_concat(without_level(merged_children, level), promoted_children);
            self.lemma_view();
        }
    }
}

} // verus!

//! The product of the represented matrix and a vector, in two passes over
//! the tree.

use super::{UltrametricTree, model_of};
use crate::dense::DVector;
use crate::leaf_order::{
    in_child_before, leaf_order_before, lemma_leaf_order, lemma_leaf_order_before_len,
    lemma_leaf_order_before_step,
};
use crate::model::{lemma_child_below, lemma_child_covers, lemma_leaves_below, lemma_one_child};
use crate::product::{
    lemma_product_is_dense, node_sum, owner, product_fits, row_value, subtree_sum, sums_fit,
    totals_fit,
};
use crate::seq_facts::all_below;
use crate::sums::{dot, entry_of, lemma_sum_at_bound, lemma_sum_over_concat, sum_at};
use vstd::prelude::*;

verus! {

/// Why a multiplication did not yield a product.
#[derive(Clone, Copy, Debug, PartialEq, Eq, Structural)]
pub enum MultError {
    /// The vector does not have as many entries as the tree has indices.
    DimensionMismatch,
    /// A partial product or a running total does not fit in 64 bits.
    Overflow,
}

/// Every vertex of the tree holds its partial product for the vector `v`,
/// where `parent` is the level of the vertex above.
spec fn sums_stored(tree: UltrametricTree, parent: int, v: Seq<i64>) -> bool
    decreases tree,
{
    &&& tree.sum == node_sum(model_of(tree), parent, v)
    &&& forall|k: int|
        0 <= k < tree.children@.len() ==> sums_stored(
            #[trigger] tree.children@[k],
            tree.level as int,
            v,
        )
}

impl UltrametricTree {
    /// Calculate the product of the matrix represented by the tree and a
    /// vector.
    ///
    /// The multiplication is done in two steps. The first annotates every
    /// vertex with its partial product; the second adds the partial
    /// products up along the way to each index. The tree's structure is
    /// left as it was. Partial products and running totals are 64-bit
    /// integers: the multiplication fails with `Overflow` as soon as one of
    /// them does not fit. The sums of the vector's entries are taken in 128
    /// bits, which hold them whatever the entries are.
    pub fn mult(&mut self, vector: &DVector) -> (result: Result<DVector, MultError>)
        requires
            old(self)@.wf_root(),
        ensures
            final(self)@ == old(self)@,
            match result {
                Ok(product) => {
                    &&& vector@.len() == old(self)@.size()
                    &&& product_fits(old(self)@, vector@)
                    &&& product@.len() == vector@.len()
                    &&& forall|i: int|
                        0 <= i < product@.len() ==> #[trigger] product@[i] == dot(
                            old(self)@.matrix()[i],
                            vector@,
                        )
                },
                Err(MultError::DimensionMismatch) => vector@.len() != old(self)@.size(),
                Err(MultError::Overflow) => {
                    &&& vector@.len() == old(self)@.size()
                    &&& !product_fits(old(self)@, vector@)
                },
            },
    {
        let size = self.partition.len();
        let len = vector.nrows();
        proof {
            self.lemma_view();
        }
        if len != size {
            return Err(MultError::DimensionMismatch);
        }
        let ghost t = self@;
        match self.calculate_partial_product(vector, 0) {
            None => Err(MultError::Overflow),
            Some(_) => {
                let mut product = DVector::zeros(len);
                let fits = self.calculate_full_product(
                    &mut product,
                    0,
                    Ghost(0int),
                    Ghost(vector@),
                );
                if fits {
                    proof {
                        assert forall|i: int| 0 <= i < product@.len() implies #[trigger] product@[i]
                            == dot(t.matrix()[i], vector@) by {
                            assert(t.covers(i as usize));
                            lemma_product_is_dense(t, vector@, i as usize);
                        }
                    }
                    Ok(product)
                } else {
                    Err(MultError::Overflow)
                }
            },
        }
    }

    /// Recursive function to calculate the partial products, which is the
    /// first step of the multiplication: returns the sum of the vector's
    /// entries under this vertex, or `None` when a partial product does not
    /// fit in 64 bits.
    fn calculate_partial_product(&mut self, vector: &DVector, parent_val: i64) -> (result: Option<
        i128,
    >)
        requires
            old(self)@.wf(),
            all_below(old(self)@.partition, vector@.len()),
        ensures
            final(self)@ == old(self)@,
            result is Some <==> sums_fit(old(self)@, parent_val as int, vector@),
            result matches Some(sum) ==> sum == subtree_sum(old(self)@, vector@) && sums_stored(
                *final(self),
                parent_val as int,
                vector@,
            ),
        decreases *old(self),
    {
        let ghost t = old(self)@;
        let ghost v = vector@;
        let level = self.level;
        proof {
            old(self).lemma_view();
            lemma_leaf_order(t);
            lemma_leaves_below(t, v.len());
            lemma_leaf_order_before_len(t, 0);
            assert(t.leaves.take(0).len() == 0);
        }
        assert(t.leaf_order().len() == self.partition.len());
        let mut sum: i128 = 0;
        let leaf_count = self.partition_leaves.len();
        let mut k: usize = 0;
        while k < leaf_count
            invariant
                k <= leaf_count,
                leaf_count == t.leaves.len(),
                self.partition_leaves@ == t.leaves,
                all_below(t.leaves, v.len()),
                v == vector@,
                sum == sum_at(v, t.leaves.take(k as int)),
                t.leaves.len() <= t.leaf_order().len() <= usize::MAX,
            decreases leaf_count - k,
        {
            let leaf_idx = self.partition_leaves[k];
            proof {
                assert(t.leaves.take(k + 1).drop_last() == t.leaves.take(k as int));
                assert(t.leaves.take(k + 1).last() == leaf_idx);
                lemma_sum_at_bound(v, t.leaves.take(k as int));
            }
            sum = sum + vector.get(leaf_idx) as i128;
            k += 1;
        }
        assert(t.leaves.take(leaf_count as int) == t.leaves);
        let count = self.children.len();
        let mut c: usize = 0;
        proof {
            assert(t.children.take(0).len() == 0);
        }
        while c < count
            invariant
                c <= count,
                count == self.children@.len(),
                count == old(self).children@.len(),
                count == t.children.len(),
                t == old(self)@,
                t.wf(),
                v == vector@,
                all_below(t.partition, v.len()),
                level == self.level,
                level == t.level,
                self.partition@ == t.partition,
                self.partition_leaves@ == t.leaves,
                t.leaf_order().len() <= usize::MAX,
                sum == sum_at(v, t.leaves) + sum_at(v, leaf_order_before(t, c as int)),
                forall|j: int| 0 <= j < c ==> (#[trigger] self.children@[j])@ == t.children[j],
                forall|j: int|
                    0 <= j < c ==> sums_stored(#[trigger] self.children@[j], level as int, v),
                forall|j: int| 0 <= j < c ==> sums_fit(#[trigger] t.children[j], level as int, v),
                forall|j: int|
                    c <= j < count ==> #[trigger] self.children@[j] == old(self).children@[j],
            decreases count - c,
        {
            proof {
                old(self).lemma_view();
                let child_model = t.children[c as int];
                lemma_child_below(t, c as int, v.len());
                assert(decreases_to!(*old(self) => old(self).children@[c as int]));
                lemma_leaf_order_before_step(t, c as int);
                lemma_leaf_order_before_len(t, c + 1);
                lemma_sum_over_concat(
                    leaf_order_before(t, c as int),
                    child_model.leaf_order(),
                    entry_of(v),
                );
                lemma_sum_at_bound(v, t.leaves);
                lemma_sum_at_bound(v, leaf_order_before(t, c as int));
                lemma_sum_at_bound(v, child_model.leaf_order());
            }
            let child = &mut self.children[c];
            match child.calculate_partial_product(vector, level) {
                None => {
                    proof {
                        Self::lemma_same_view(*old(self), *self);
                    }
                    return None;
                },
                Some(child_sum) => {
                    sum = sum + child_sum;
                },
            }
            c += 1;
        }
        proof {
            assert(t.children.take(count as int) == t.children);
            lemma_sum_over_concat(leaf_order_before(t, count as int), t.leaves, entry_of(v));
            assert(sum == subtree_sum(t, v));
        }
        let diff: i128 = level as i128 - parent_val as i128;
        let fitting = match diff.checked_mul(sum) {
            Some(product) => {
                if product >= i64::MIN as i128 && product <= i64::MAX as i128 {
                    self.sum = product as i64;
                    true
                } else {
                    false
                }
            },
            None => false,
        };
        proof {
            Self::lemma_same_view(*old(self), *self);
            self.lemma_view();
        }
        if fitting {
            Some(sum)
        } else {
            None
        }
    }

    /// Recursive function to calculate the full product, which is the
    /// second step of the multiplication: writes the entry of every index
    /// under this vertex, or returns `false` when a running total does not
    /// fit in 64 bits.
    fn calculate_full_product(
        &self,
        product: &mut DVector,
        prev_sum: i64,
        Ghost(parent): Ghost<int>,
        Ghost(v): Ghost<Seq<i64>>,
    ) -> (fits: bool)
        requires
            self@.wf(),
            all_below(self@.partition, old(product)@.len()),
            sums_stored(*self, parent, v),
        ensures
            final(product)@.len() == old(product)@.len(),
            fits <==> totals_fit(self@, parent, prev_sum as int, v),
            fits ==> forall|x: usize|
                x < old(product)@.len() ==> #[trigger] final(product)@[x as int] == if self@.covers(
                    x,
                ) {
                    prev_sum + row_value(self@, parent, v, x)
                } else {
                    old(product)@[x as int] as int
                },
        decreases self,
    {
        let ghost t = self@;
        let ghost n = product@.len();
        proof {
            self.lemma_view();
            lemma_leaves_below(t, n);
        }
        let sum = match prev_sum.checked_add(self.sum) {
            Some(sum) => sum,
            None => {
                return false;
            },
        };
        let leaf_count = self.partition_leaves.len();
        let mut k: usize = 0;
        while k < leaf_count
            invariant
                k <= leaf_count,
                leaf_count == t.leaves.len(),
                self.partition_leaves@ == t.leaves,
                all_below(t.leaves, n),
                product@.len() == n,
                n == old(product)@.len(),
                forall|x: usize|
                    x < n ==> #[trigger] product@[x as int] == if t.leaves.take(k as int).contains(
                        x,
                    ) {
                        sum
                    } else {
                        old(product)@[x as int]
                    },
            decreases leaf_count - k,
        {
            let leaf_id = self.partition_leaves[k];
            product.set(leaf_id, sum);
            proof {
                let done = t.leaves.take(k as int);
                assert(t.leaves.take(k + 1) =~= done.push(leaf_id));
                assert forall|x: usize| #[trigger]
                    t.leaves.take(k + 1).contains(x) <==> done.contains(x) || x == leaf_id by {
                    vstd::seq_lib::lemma_seq_contains_after_push(done, leaf_id, x);
                }
            }
            k += 1;
        }
        assert(t.leaves.take(leaf_count as int) == t.leaves);
        let count = self.children.len();
        let mut c: usize = 0;
        proof {
            assert forall|x: usize| t.leaves.contains(x) implies row_value(t, parent, v, x)
                == node_sum(t, parent, v) by {
                if t.in_child(x) {
                    let o = owner(t, x);
                    lemma_child_covers(t, o, x);
                }
            }
        }
        while c < count
            invariant
                c <= count,
                count == self.children@.len(),
                count == t.children.len(),
                t == self@,
                t.wf(),
                sums_stored(*self, parent, v),
                all_below(t.partition, n),
                product@.len() == n,
                n == old(product)@.len(),
                sum == prev_sum + node_sum(t, parent, v),
                forall|j: int|
                    0 <= j < c ==> totals_fit(
                        #[trigger] t.children[j],
                        t.level as int,
                        sum as int,
                        v,
                    ),
                forall|x: usize|
                    x < n ==> #[trigger] product@[x as int] == if t.leaves.contains(x)
                        || in_child_before(t, c as int, x) {
                        prev_sum + row_value(t, parent, v, x)
                    } else {
                        old(product)@[x as int] as int
                    },
            decreases count - c,
        {
            proof {
                self.lemma_view();
                lemma_child_below(t, c as int, n);
            }
            let child_fits = self.children[c].calculate_full_product(
                product,
                sum,
                Ghost(self.level as int),
                Ghost(v),
            );
            if !child_fits {
                return false;
            }
            proof {
                let child_model = t.children[c as int];
                assert forall|x: usize| x < n implies #[trigger] product@[x as int]
                    == if t.leaves.contains(x) || in_child_before(t, c + 1, x) {
                    prev_sum + row_value(t, parent, v, x)
                } else {
                    old(product)@[x as int] as int
                } by {
                    if child_model.covers(x) {
                        lemma_child_covers(t, c as int, x);
                        lemma_one_child(t, c as int, owner(t, x), x);
                        assert(in_child_before(t, c + 1, x));
                    } else {
                        if in_child_before(t, c + 1, x) {
                            let j = choose|j: int|
                                0 <= j < c + 1 && j < t.children.len() && (
                                #[trigger] t.children[j]).covers(x);
                            assert(in_child_before(t, c as int, x));
                        }
                        if in_child_before(t, c as int, x) {
                            let j = choose|j: int|
                                0 <= j < c && j < t.children.len() && (
                                #[trigger] t.children[j]).covers(x);
                            assert(in_child_before(t, c + 1, x));
                        }
                    }
                }
            }
            c += 1;
        }
        proof {
            assert forall|x: usize| t.covers(x) <==> t.leaves.contains(x) || in_child_before(
                t,
                count as int,
                x,
            ) by {
                if t.in_child(x) {
                    let j = choose|j: int|
                        0 <= j < t.children.len() && (#[trigger] t.children[j]).covers(x);
                    assert(in_child_before(t, count as int, x));
                }
                if in_child_before(t, count as int, x) {
                    let j = choose|j: int|
                        0 <= j < count && j < t.children.len() && (#[trigger] t.children[j]).covers(
                            x,
                        );
                    lemma_child_covers(t, j, x);
                }
            }
        }
        true
    }
}

} // verus!

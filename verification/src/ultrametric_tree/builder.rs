//! Building the tree of a matrix by recursive splitting.

use super::UltrametricTree;
use crate::dense::DMatrix;
use crate::laws::law_round_trip_matrix;
use crate::model::{
    PartitionTree, build, build_approx, empty_tree, lemma_build_approx_wf, lemma_build_wf,
};
use crate::partition::{
    lemma_parts_below, lemma_scan, lemma_scan_approx, split, split_approx, split_indices,
    split_indices_approx,
};
use crate::seq_facts::{
    all_below, identity_indices, index_range, lemma_drop_first_no_duplicates,
    lemma_identity_indices,
};
use crate::utils::spec_is_ultrametric;
use vstd::prelude::*;

verus! {

impl UltrametricTree {
    /// Construct the tree that represents the structure of a square matrix.
    ///
    /// The matrix is not checked for being ultrametric: the tree is the one
    /// that the recursive splitting yields, whatever the entries are. A
    /// matrix without rows gives the tree without indices.
    pub fn from_matrix(matrix: &DMatrix) -> (tree: Self)
        requires
            matrix.spec_is_square(),
        ensures
            tree@ == build(matrix@, identity_indices(matrix.spec_nrows())),
            tree@.wf_root(),
            tree@.size() == matrix.spec_nrows(),
            spec_is_ultrametric(matrix) ==> tree@.matrix() == matrix@,
    {
        let n = matrix.nrows();
        let vertex_ids = index_range(n);
        proof {
            lemma_identity_indices(n as nat);
            lemma_build_wf(matrix@, vertex_ids@);
            if spec_is_ultrametric(matrix) {
                law_round_trip_matrix(matrix);
            }
        }
        if n == 0 {
            let tree = UltrametricTree::new(vertex_ids);
            assert(tree@ == empty_tree()) by {
                assert(tree@.children =~= Seq::<PartitionTree>::empty());
                assert(tree@.partition =~= Seq::<usize>::empty());
            }
            tree
        } else {
            Self::from_matrix_recursive(matrix, vertex_ids)
        }
    }

    /// Recursive function used to construct the tree from a matrix.
    fn from_matrix_recursive(matrix: &DMatrix, partition: Vec<usize>) -> (tree: Self)
        requires
            matrix.spec_is_square(),
            partition@.len() >= 1,
            partition@.no_duplicates(),
            all_below(partition@, matrix.spec_nrows()),
        ensures
            tree@ == build(matrix@, partition@),
        decreases partition@.len(),
    {
        let first_i = partition[0];
        if partition.len() == 1 {
            let level = matrix.get(first_i, first_i);
            let mut tree = UltrametricTree::new(partition);
            tree.level = level;
            tree.partition_leaves.push(first_i);
            proof {
                matrix.lemma_view();
                assert(tree@.children =~= Seq::<PartitionTree>::empty());
                assert(tree@.leaves =~= seq![first_i]);
            }
            tree
        } else {
            let (left_partition, right_partition, min) = split_indices(matrix, &partition);
            proof {
                let rest = partition@.drop_first();
                lemma_drop_first_no_duplicates(partition@);
                lemma_scan(matrix@, first_i, rest);
                lemma_parts_below(split(matrix@, partition@), partition@, matrix.spec_nrows());
            }
            let left_child = Self::from_matrix_recursive(matrix, left_partition);
            let right_child = Self::from_matrix_recursive(matrix, right_partition);
            let mut tree = UltrametricTree::new(partition);
            tree.level = min;
            tree.children.push(left_child);
            tree.children.push(right_child);
            proof {
                tree.lemma_view();
                assert(tree@.children =~= seq![left_child@, right_child@]);
            }
            tree
        }
    }

    /// Construct a tree that approximately represents the structure of a
    /// square matrix.
    ///
    /// As [`from_matrix`](UltrametricTree::from_matrix), but at every split
    /// the right part takes each index whose entry is at most the minimum
    /// plus `eps`. Only the minimum is stored in the vertex.
    pub fn from_matrix_approx(matrix: &DMatrix, eps: i64) -> (tree: Self)
        requires
            matrix.spec_is_square(),
            eps >= 0,
        ensures
            tree@ == build_approx(matrix@, identity_indices(matrix.spec_nrows()), eps),
            tree@.wf_root(),
            tree@.size() == matrix.spec_nrows(),
            eps == 0 && spec_is_ultrametric(matrix) ==> tree@.matrix() == matrix@,
    {
        let n = matrix.nrows();
        let vertex_ids = index_range(n);
        proof {
            lemma_identity_indices(n as nat);
            lemma_build_approx_wf(matrix@, vertex_ids@, eps);
            if eps == 0 && spec_is_ultrametric(matrix) {
                law_round_trip_matrix(matrix);
            }
        }
        if n == 0 {
            let tree = UltrametricTree::new(vertex_ids);
            assert(tree@ == empty_tree()) by {
                assert(tree@.children =~= Seq::<PartitionTree>::empty());
                assert(tree@.partition =~= Seq::<usize>::empty());
            }
            tree
        } else {
            Self::from_matrix_approx_recursive(matrix, vertex_ids, eps)
        }
    }

    /// Recursive function used to construct the tree that approximately
    /// represents the structure of a matrix.
    fn from_matrix_approx_recursive(matrix: &DMatrix, partition: Vec<usize>, eps: i64) -> (tree:
        Self)
        requires
            matrix.spec_is_square(),
            partition@.len() >= 1,
            partition@.no_duplicates(),
            all_below(partition@, matrix.spec_nrows()),
            eps >= 0,
        ensures
            tree@ == build_approx(matrix@, partition@, eps),
        decreases partition@.len(),
    {
        let first_i = partition[0];
        if partition.len() == 1 {
            let level = matrix.get(first_i, first_i);
            let mut tree = UltrametricTree::new(partition);
            tree.level = level;
            tree.partition_leaves.push(first_i);
            proof {
                matrix.lemma_view();
                assert(tree@.children =~= Seq::<PartitionTree>::empty());
                assert(tree@.leaves =~= seq![first_i]);
            }
            tree
        } else {
            let (left_partition, right_partition, min) = split_indices_approx(
                matrix,
                &partition,
                eps,
            );
            proof {
                let rest = partition@.drop_first();
                lemma_drop_first_no_duplicates(partition@);
                lemma_scan_approx(matrix@, first_i, rest, eps);
                lemma_parts_below(
                    split_approx(matrix@, partition@, eps),
                    partition@,
                    matrix.spec_nrows(),
                );
            }
            let left_child = Self::from_matrix_approx_recursive(matrix, left_partition, eps);
            let right_child = Self::from_matrix_approx_recursive(matrix, right_partition, eps);
            let mut tree = UltrametricTree::new(partition);
            tree.level = min;
            tree.children.push(left_child);
            tree.children.push(right_child);
            proof {
                tree.lemma_view();
                assert(tree@.children =~= seq![left_child@, right_child@]);
            }
            tree
        }
    }
}

} // verus!

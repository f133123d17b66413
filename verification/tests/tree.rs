use ultrametric_matrix_tools::utils::{
    calculate_normal_product, is_ultrametric, random_special_ultrametric_matrix,
    random_ultrametric_matrix,
};
use ultrametric_matrix_tools::{DMatrix, DVector, MultError, UltrametricTree};

fn example_matrix() -> DMatrix {
    DMatrix::from_vec(4, 4, vec![0, 1, 3, 1, 1, 3, 1, 1, 3, 1, 5, 1, 1, 1, 1, 1]).unwrap()
}

fn square_from_rows(rows: &[Vec<i64>]) -> DMatrix {
    let n = rows.len();
    let mut data = Vec::new();
    for j in 0..n {
        for row in rows {
            data.push(row[j]);
        }
    }
    DMatrix::from_vec(n, n, data).unwrap()
}

fn rows_of(matrix: &DMatrix) -> Vec<Vec<i64>> {
    let (nrows, ncols) = matrix.shape();
    (0..nrows)
        .map(|i| (0..ncols).map(|j| matrix.try_get(i, j).unwrap()).collect())
        .collect()
}

fn dense_product(matrix: &DMatrix, vector: &[i64]) -> Vec<i64> {
    rows_of(matrix)
        .iter()
        .map(|row| row.iter().zip(vector).map(|(a, b)| a * b).sum())
        .collect()
}

fn multiply(tree: &mut UltrametricTree, vector: Vec<i64>) -> Vec<i64> {
    match tree.mult(&DVector::from_vec(vector)) {
        Ok(product) => product.to_vec(),
        Err(error) => panic!("multiplication failed: {:?}", error),
    }
}

#[test]
fn example_matrix_is_ultrametric() {
    assert!(is_ultrametric(&example_matrix()));
}

#[test]
fn changed_entry_is_not_ultrametric() {
    let mut matrix = example_matrix();
    matrix.set(0, 3, 2);
    matrix.set(3, 0, 2);
    assert!(!is_ultrametric(&matrix));
}

#[test]
fn asymmetric_matrix_is_not_ultrametric() {
    let mut matrix = example_matrix();
    matrix.set(0, 1, 2);
    assert!(!is_ultrametric(&matrix));
    let mut matrix = example_matrix();
    matrix.set(2, 3, 4);
    assert!(!is_ultrametric(&matrix));
}

#[test]
fn negative_entry_is_not_ultrametric() {
    let matrix = square_from_rows(&[vec![1, -1], vec![-1, 1]]);
    assert!(!is_ultrametric(&matrix));
}

#[test]
fn diagonal_does_not_matter() {
    let matrix = square_from_rows(&[vec![-7, 2], vec![2, 0]]);
    assert!(is_ultrametric(&matrix));
}

#[test]
fn matrix_that_is_not_square_is_not_ultrametric() {
    let matrix = DMatrix::from_vec(2, 3, vec![1, 1, 1, 1, 1, 1]).unwrap();
    assert!(!is_ultrametric(&matrix));
}

#[test]
fn small_matrices_are_ultrametric() {
    assert!(is_ultrametric(&DMatrix::from_vec(0, 0, vec![]).unwrap()));
    assert!(is_ultrametric(&DMatrix::from_vec(1, 1, vec![-3]).unwrap()));
}

#[test]
fn tree_of_example_matrix() {
    let tree = UltrametricTree::from_matrix(&example_matrix());
    assert_eq!(tree.size(), 4);
    assert_eq!(tree.node_count(), Some(7));
    assert_eq!(tree.level(), 1);
    assert_eq!(tree.partition(), &vec![0, 1, 2, 3]);
    assert!(tree.partition_leaves().is_empty());
    assert_eq!(tree.num_children(), 2);
    let left = tree.child(0).unwrap();
    assert_eq!(left.partition(), &vec![0, 2]);
    assert_eq!(left.level(), 3);
    assert_eq!(left.child(0).unwrap().partition_leaves(), &vec![0]);
    assert_eq!(left.child(0).unwrap().level(), 0);
    assert_eq!(left.child(1).unwrap().partition_leaves(), &vec![2]);
    assert_eq!(left.child(1).unwrap().level(), 5);
    let right = tree.child(1).unwrap();
    assert_eq!(right.partition(), &vec![1, 3]);
    assert_eq!(right.level(), 1);
    assert_eq!(right.child(0).unwrap().level(), 3);
    assert_eq!(right.child(1).unwrap().level(), 1);
    assert!(tree.child(2).is_none());
}

#[test]
fn scan_moves_the_right_part_to_the_end_of_the_left_part() {
    // Row 0 reads 5, 7, 3 at the indices 1, 2, 3: index 2 joins the left
    // part first, index 1 follows when 3 is found to be smaller.
    let matrix = square_from_rows(&[
        vec![0, 5, 7, 3],
        vec![5, 0, 5, 3],
        vec![7, 5, 0, 3],
        vec![3, 3, 3, 0],
    ]);
    assert!(is_ultrametric(&matrix));
    let tree = UltrametricTree::from_matrix(&matrix);
    assert_eq!(tree.level(), 3);
    assert_eq!(tree.child(0).unwrap().partition(), &vec![0, 2, 1]);
    assert_eq!(tree.child(1).unwrap().partition(), &vec![3]);
}

#[test]
fn round_trip_of_example_matrix() {
    let matrix = example_matrix();
    let tree = UltrametricTree::from_matrix(&matrix);
    assert_eq!(rows_of(&tree.to_matrix()), rows_of(&matrix));
}

#[test]
fn tree_of_a_matrix_that_is_not_ultrametric_stands_for_another_matrix() {
    let mut matrix = example_matrix();
    matrix.set(0, 3, 2);
    matrix.set(3, 0, 2);
    let tree = UltrametricTree::from_matrix(&matrix);
    assert_ne!(rows_of(&tree.to_matrix()), rows_of(&matrix));
}

#[test]
fn multiplication_of_example_matrix() {
    let mut tree = UltrametricTree::from_matrix(&example_matrix());
    assert_eq!(multiply(&mut tree, vec![4, 2, 7, 5]), vec![28, 22, 54, 18]);
    // the partial products of one call do not leak into the next
    assert_eq!(multiply(&mut tree, vec![1, 0, 0, 0]), vec![0, 1, 3, 1]);
    assert_eq!(multiply(&mut tree, vec![4, 2, 7, 5]), vec![28, 22, 54, 18]);
}

#[test]
fn multiplication_agrees_with_dense_product() {
    let matrix = square_from_rows(&[
        vec![9, 2, 2, 1, 1],
        vec![2, 4, 3, 1, 1],
        vec![2, 3, 3, 1, 1],
        vec![1, 1, 1, 8, 6],
        vec![1, 1, 1, 6, 7],
    ]);
    assert!(is_ultrametric(&matrix));
    let vector = vec![3, -1, 4, 1, -5];
    let mut tree = UltrametricTree::from_matrix(&matrix);
    assert_eq!(multiply(&mut tree, vector.clone()), dense_product(&matrix, &vector));
    tree.prune_tree();
    assert_eq!(multiply(&mut tree, vector.clone()), dense_product(&matrix, &vector));
}

#[test]
fn single_element_matrix() {
    let matrix = DMatrix::from_vec(1, 1, vec![6]).unwrap();
    let mut tree = UltrametricTree::from_matrix(&matrix);
    assert_eq!(tree.node_count(), Some(1));
    assert_eq!(tree.num_children(), 0);
    assert_eq!(tree.partition_leaves(), &vec![0]);
    assert_eq!(tree.level(), 6);
    assert_eq!(multiply(&mut tree, vec![7]), vec![42]);
    assert_eq!(rows_of(&tree.to_matrix()), vec![vec![6]]);
}

#[test]
fn empty_matrix() {
    let matrix = DMatrix::from_vec(0, 0, vec![]).unwrap();
    let mut tree = UltrametricTree::from_matrix(&matrix);
    assert_eq!(tree.size(), 0);
    assert_eq!(tree.node_count(), Some(1));
    assert_eq!(multiply(&mut tree, vec![]), Vec::<i64>::new());
    assert_eq!(tree.to_matrix().shape(), (0, 0));
    tree.prune_tree();
    assert_eq!(tree.size(), 0);
}

#[test]
fn multiplication_rejects_a_vector_of_another_length() {
    let mut tree = UltrametricTree::from_matrix(&example_matrix());
    let short = tree.mult(&DVector::from_vec(vec![1, 2, 3]));
    assert!(matches!(short, Err(MultError::DimensionMismatch)));
    let long = tree.mult(&DVector::from_vec(vec![1, 2, 3, 4, 5]));
    assert!(matches!(long, Err(MultError::DimensionMismatch)));
}

#[test]
fn multiplication_reports_overflow() {
    let matrix = square_from_rows(&[vec![2, 2], vec![2, 2]]);
    let mut tree = UltrametricTree::from_matrix(&matrix);
    let result = tree.mult(&DVector::from_vec(vec![i64::MAX, 1]));
    assert!(matches!(result, Err(MultError::Overflow)));
    // a running total overflows although every partial product fits
    let matrix = square_from_rows(&[vec![i64::MAX, 1], vec![1, 1]]);
    let mut tree = UltrametricTree::from_matrix(&matrix);
    let result = tree.mult(&DVector::from_vec(vec![2, 0]));
    assert!(matches!(result, Err(MultError::Overflow)));
    assert_eq!(multiply(&mut tree, vec![1, 0]), vec![i64::MAX, 1]);
}

#[test]
fn sums_beyond_64_bits_are_fine_where_the_level_step_is_zero() {
    // the subtree sum of the root is 2^63, but its level is 0
    let matrix = square_from_rows(&[vec![0, 0], vec![0, 0]]);
    let mut tree = UltrametricTree::from_matrix(&matrix);
    assert_eq!(multiply(&mut tree, vec![i64::MAX, 1]), vec![0, 0]);
}

#[test]
fn pruning_keeps_the_matrix() {
    let matrix = example_matrix();
    let mut tree = UltrametricTree::from_matrix(&matrix);
    tree.prune_tree();
    assert_eq!(rows_of(&tree.to_matrix()), rows_of(&matrix));
    assert_eq!(multiply(&mut tree, vec![4, 2, 7, 5]), vec![28, 22, 54, 18]);
}

#[test]
fn pruning_merges_children_of_equal_level() {
    let mut tree = UltrametricTree::from_matrix(&example_matrix());
    assert_eq!(tree.node_count(), Some(7));
    tree.prune_tree();
    // the child over 1 and 3 and the leaf 3 below it both have level 1
    assert_eq!(tree.node_count(), Some(5));
    assert_eq!(tree.partition_leaves(), &vec![3]);
    assert_eq!(tree.num_children(), 2);
    assert_eq!(tree.child(0).unwrap().partition(), &vec![0, 2]);
    assert_eq!(tree.child(1).unwrap().partition_leaves(), &vec![1]);
    assert_eq!(tree.child(1).unwrap().level(), 3);
}

#[test]
fn pruning_is_idempotent() {
    let mut tree = UltrametricTree::from_matrix(&example_matrix());
    tree.prune_tree();
    let count = tree.node_count();
    let leaves = tree.partition_leaves().clone();
    tree.prune_tree();
    assert_eq!(tree.node_count(), count);
    assert_eq!(tree.partition_leaves(), &leaves);
    assert_eq!(tree.num_children(), 2);
}

#[test]
fn pruning_keeps_a_tree_with_distinct_levels() {
    let matrix = square_from_rows(&[vec![9, 2, 1], vec![2, 8, 1], vec![1, 1, 7]]);
    assert!(is_ultrametric(&matrix));
    let mut tree = UltrametricTree::from_matrix(&matrix);
    assert_eq!(tree.node_count(), Some(5));
    tree.prune_tree();
    assert_eq!(tree.node_count(), Some(5));
}

#[test]
fn permutation_matrix_of_example_matrix() {
    let tree = UltrametricTree::from_matrix(&example_matrix());
    let permutation = rows_of(&tree.get_permutation_matrix());
    assert_eq!(
        permutation,
        vec![vec![1, 0, 0, 0], vec![0, 0, 1, 0], vec![0, 1, 0, 0], vec![0, 0, 0, 1]]
    );
}

#[test]
fn permutation_matrix_has_one_entry_per_row_and_column() {
    let mut tree = UltrametricTree::from_matrix(&example_matrix());
    tree.prune_tree();
    let permutation = rows_of(&tree.get_permutation_matrix());
    assert_eq!(
        permutation,
        vec![vec![1, 0, 0, 0], vec![0, 0, 1, 0], vec![0, 1, 0, 0], vec![0, 0, 0, 1]]
    );
    for i in 0..4 {
        assert_eq!(permutation[i].iter().sum::<i64>(), 1);
        assert_eq!(permutation.iter().map(|row| row[i]).sum::<i64>(), 1);
    }
}

#[test]
fn approximate_tree_with_tolerance_zero_is_the_exact_tree() {
    let matrix = example_matrix();
    let tree = UltrametricTree::from_matrix_approx(&matrix, 0);
    assert_eq!(rows_of(&tree.to_matrix()), rows_of(&matrix));
    assert_eq!(tree.node_count(), Some(7));
}

#[test]
fn approximate_tree_groups_entries_within_the_tolerance() {
    let matrix = square_from_rows(&[
        vec![0, 11, 30, 10],
        vec![11, 30, 10, 10],
        vec![30, 10, 50, 10],
        vec![10, 10, 10, 10],
    ]);
    let tree = UltrametricTree::from_matrix_approx(&matrix, 1);
    assert_eq!(tree.level(), 10);
    assert_eq!(tree.child(0).unwrap().partition(), &vec![0, 2]);
    assert_eq!(tree.child(1).unwrap().partition(), &vec![1, 3]);
    let exact = UltrametricTree::from_matrix(&matrix);
    assert_eq!(exact.child(0).unwrap().partition(), &vec![0, 2, 1]);
    assert_eq!(exact.child(1).unwrap().partition(), &vec![3]);
    let rebuilt = rows_of(&tree.to_matrix());
    assert_eq!(rebuilt[0], vec![0, 10, 30, 10]);
}

#[test]
fn random_matrices_are_ultrametric() {
    for size in 2..12 {
        let matrix = random_ultrametric_matrix(size);
        assert_eq!(matrix.shape(), (size, size));
        assert!(is_ultrametric(&matrix));
        let rows = rows_of(&matrix);
        assert!(rows.iter().flatten().all(|&entry| 1 <= entry && entry < size as i64));
        let tree = UltrametricTree::from_matrix(&matrix);
        assert_eq!(rows_of(&tree.to_matrix()), rows);

        let special = random_special_ultrametric_matrix(size);
        assert!(is_ultrametric(&special));
        let rows = rows_of(&special);
        for (i, row) in rows.iter().enumerate() {
            assert!(row.iter().all(|&entry| 1 <= entry && entry <= row[i]));
        }
    }
}

#[test]
fn random_matrix_multiplication_agrees_with_dense_product() {
    let size = 9;
    let matrix = random_ultrametric_matrix(size);
    let vector: Vec<i64> = (0..size as i64).map(|i| 3 * i - 7).collect();
    let mut tree = UltrametricTree::from_matrix(&matrix);
    let product = multiply(&mut tree, vector.clone());
    assert_eq!(product, dense_product(&matrix, &vector));
    let count = tree.node_count().unwrap();
    tree.prune_tree();
    assert!(tree.node_count().unwrap() <= count);
    assert_eq!(multiply(&mut tree, vector.clone()), product);
    assert_eq!(rows_of(&tree.to_matrix()), rows_of(&matrix));
}

#[test]
fn default_tree_is_the_empty_tree() {
    let mut tree = UltrametricTree::default();
    assert_eq!(tree.size(), 0);
    assert_eq!(tree.node_count(), Some(1));
    assert_eq!(tree.num_children(), 0);
    assert_eq!(multiply(&mut tree, vec![]), Vec::<i64>::new());
}

#[test]
fn clone_is_a_tree_of_its_own() {
    let mut tree = UltrametricTree::from_matrix(&example_matrix());
    let mut copy = tree.clone();
    tree.prune_tree();
    assert_eq!(tree.node_count(), Some(5));
    assert_eq!(copy.node_count(), Some(7));
    assert_eq!(multiply(&mut copy, vec![4, 2, 7, 5]), vec![28, 22, 54, 18]);
    assert_eq!(rows_of(&copy.to_matrix()), rows_of(&example_matrix()));
}

#[test]
fn pruning_merges_over_several_levels() {
    // all entries off the diagonal are 2, the diagonal is 2 as well: the
    // pruned tree is a single vertex with every index as a leaf
    let matrix = square_from_rows(&[vec![2, 2, 2], vec![2, 2, 2], vec![2, 2, 2]]);
    let mut tree = UltrametricTree::from_matrix(&matrix);
    assert_eq!(tree.node_count(), Some(5));
    tree.prune_tree();
    assert_eq!(tree.node_count(), Some(1));
    assert_eq!(tree.partition_leaves(), &vec![0, 1, 2]);
    assert_eq!(rows_of(&tree.to_matrix()), rows_of(&matrix));
    assert_eq!(multiply(&mut tree, vec![1, 2, 3]), vec![12, 12, 12]);
    let permutation = rows_of(&tree.get_permutation_matrix());
    assert_eq!(permutation, vec![vec![1, 0, 0], vec![0, 1, 0], vec![0, 0, 1]]);
}

#[test]
fn permutation_matrix_times_its_transpose_is_the_identity() {
    let matrix = square_from_rows(&[
        vec![0, 5, 7, 3],
        vec![5, 0, 5, 3],
        vec![7, 5, 0, 3],
        vec![3, 3, 3, 0],
    ]);
    let tree = UltrametricTree::from_matrix(&matrix);
    let permutation = rows_of(&tree.get_permutation_matrix());
    assert_eq!(
        permutation,
        vec![vec![1, 0, 0, 0], vec![0, 0, 1, 0], vec![0, 1, 0, 0], vec![0, 0, 0, 1]]
    );
    for i in 0..4 {
        for j in 0..4 {
            let entry: i64 = (0..4).map(|k| permutation[i][k] * permutation[j][k]).sum();
            assert_eq!(entry, if i == j { 1 } else { 0 });
        }
    }
}

#[test]
fn plain_product_of_example_matrix() {
    let product = calculate_normal_product(&example_matrix(), &DVector::from_vec(vec![4, 2, 7, 5]));
    assert_eq!(product.ok().map(|p| p.to_vec()), Some(vec![28, 22, 54, 18]));
}

#[test]
fn plain_product_of_a_matrix_that_is_not_symmetric() {
    let matrix = square_from_rows(&[vec![1, 2], vec![3, 4]]);
    let product = calculate_normal_product(&matrix, &DVector::from_vec(vec![5, -6]));
    assert_eq!(product.ok().map(|p| p.to_vec()), Some(vec![-7, -9]));
}

#[test]
fn plain_product_rejects_shapes_that_do_not_fit() {
    let vector = DVector::from_vec(vec![1, 2, 3]);
    let result = calculate_normal_product(&example_matrix(), &vector);
    assert!(matches!(result, Err(MultError::DimensionMismatch)));
    let wide = DMatrix::from_vec(3, 4, vec![0; 12]).unwrap();
    let result = calculate_normal_product(&wide, &vector);
    assert!(matches!(result, Err(MultError::DimensionMismatch)));
}

#[test]
fn plain_product_reports_overflow() {
    let matrix = square_from_rows(&[vec![i64::MAX, 1], vec![0, 0]]);
    let term = calculate_normal_product(&matrix, &DVector::from_vec(vec![2, 0]));
    assert!(matches!(term, Err(MultError::Overflow)));
    let sum = calculate_normal_product(&matrix, &DVector::from_vec(vec![1, 1]));
    assert!(matches!(sum, Err(MultError::Overflow)));
    let fine = calculate_normal_product(&matrix, &DVector::from_vec(vec![1, -1]));
    assert_eq!(fine.ok().map(|p| p.to_vec()), Some(vec![i64::MAX - 1, 0]));
}

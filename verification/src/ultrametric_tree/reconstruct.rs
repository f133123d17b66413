//! From a tree back to matrices: the matrix that the tree stands for, and
//! the permutation matrix of its post-order walk.

use super::{UltrametricTree, append_indices};
use crate::dense::DMatrix;
use crate::leaf_order::{leaf_order_before, lemma_leaf_order_before_step, lemma_leaf_order_root};
use crate::model::{
    PartitionTree, lemma_child_below, lemma_child_covers, lemma_entry_apart, lemma_entry_in_child,
    lemma_entry_leaf, lemma_leaves_below,
};
use crate::permutation::{is_permutation_matrix, lemma_permutation_matrix, permutation_matrix};
use crate::seq_facts::all_below;
use vstd::prelude::*;

verus! {

/// Whether `(x, y)` or `(y, x)` has its row in `rows` and its column in `cols`.
pub open spec fn in_block(rows: Seq<usize>, cols: Seq<usize>, x: usize, y: usize) -> bool {
    (rows.contains(x) && cols.contains(y)) || (cols.contains(x) && rows.contains(y))
}

/// A list of one element holds that element and no other.
proof fn lemma_singleton_contains(i: usize, x: usize)
    ensures
        seq![i].contains(x) <==> x == i,
{
    if seq![i].contains(x) {
        let k = choose|k: int| 0 <= k < seq![i].len() && seq![i][k] == x;
    }
    assert(seq![i][0] == i);
}

/// Writes `value` at every place whose row is in `rows` and whose column is
/// in `cols`, and at the mirrored places.
fn fill_block(matrix: &mut DMatrix, rows: &Vec<usize>, cols: &Vec<usize>, value: i64)
    requires
        old(matrix).spec_is_square(),
        all_below(rows@, old(matrix).spec_nrows()),
        all_below(cols@, old(matrix).spec_nrows()),
    ensures
        final(matrix).spec_nrows() == old(matrix).spec_nrows(),
        final(matrix).spec_ncols() == old(matrix).spec_ncols(),
        forall|x: usize, y: usize|
            x < old(matrix).spec_nrows() && y < old(matrix).spec_nrows() ==> final(matrix).at(
                x as int,
                y as int,
            ) == if in_block(rows@, cols@, x, y) {
                value
            } else {
                old(matrix).at(x as int, y as int)
            },
{
    let ghost n = matrix.spec_nrows();
    let mut a: usize = 0;
    while a < rows.len()
        invariant
            a <= rows@.len(),
            n == old(matrix).spec_nrows(),
            matrix.spec_nrows() == n,
            matrix.spec_ncols() == n,
            all_below(rows@, n),
            all_below(cols@, n),
            forall|x: usize, y: usize|
                x < n && y < n ==> matrix.at(x as int, y as int) == if in_block(
                    rows@.take(a as int),
                    cols@,
                    x,
                    y,
                ) {
                    value
                } else {
                    old(matrix).at(x as int, y as int)
                },
        decreases rows@.len() - a,
    {
        let i = rows[a];
        let mut b: usize = 0;
        while b < cols.len()
            invariant
                a < rows@.len(),
                i == rows@[a as int],
                b <= cols@.len(),
                n == old(matrix).spec_nrows(),
                matrix.spec_nrows() == n,
                matrix.spec_ncols() == n,
                all_below(rows@, n),
                all_below(cols@, n),
                forall|x: usize, y: usize|
                    x < n && y < n ==> matrix.at(x as int, y as int) == if in_block(
                        rows@.take(a as int),
                        cols@,
                        x,
                        y,
                    ) || in_block(seq![i], cols@.take(b as int), x, y) {
                        value
                    } else {
                        old(matrix).at(x as int, y as int)
                    },
            decreases cols@.len() - b,
        {
            let j = cols[b];
            matrix.set(i, j, value);
            matrix.set(j, i, value);
            proof {
                let done = cols@.take(b as int);
                let next = cols@.take(b + 1);
                assert(next == done.push(j));
                assert forall|x: usize, y: usize| x < n && y < n implies (in_block(
                    seq![i],
                    next,
                    x,
                    y,
                ) <==> in_block(seq![i], done, x, y) || (x == i && y == j) || (x == j && y
                    == i)) by {
                    lemma_singleton_contains(i, x);
                    lemma_singleton_contains(i, y);
                    vstd::seq_lib::lemma_seq_contains_after_push(done, j, x);
                    vstd::seq_lib::lemma_seq_contains_after_push(done, j, y);
                }
            }
            b += 1;
        }
        proof {
            let done = rows@.take(a as int);
            let next = rows@.take(a + 1);
            assert(next == done.push(i));
            assert(cols@.take(cols@.len() as int) == cols@);
            assert forall|x: usize, y: usize| x < n && y < n implies (in_block(next, cols@, x, y)
                <==> in_block(done, cols@, x, y) || in_block(seq![i], cols@, x, y)) by {
                lemma_singleton_contains(i, x);
                lemma_singleton_contains(i, y);
                vstd::seq_lib::lemma_seq_contains_after_push(done, i, x);
                vstd::seq_lib::lemma_seq_contains_after_push(done, i, y);
            }
        }
        a += 1;
    }
    assert(rows@.take(rows@.len() as int) == rows@);
}

/// The places that the reconstruction at a vertex has filled once it is
/// done with the children before `upto`: both indices are covered, and
/// either both are leaves of the vertex or one lies under such a child.
pub open spec fn filled(t: PartitionTree, upto: int, x: usize, y: usize) -> bool {
    &&& t.covers(x)
    &&& t.covers(y)
    &&& ((t.leaves.contains(x) && t.leaves.contains(y)) || exists|k: int|
        0 <= k < upto && k < t.children.len() && ((#[trigger] t.children[k]).covers(x)
            || t.children[k].covers(y)))
}

/// The places between child `c1` and a child after it and before `c2`.
pub open spec fn crossed(t: PartitionTree, c1: int, c2: int, x: usize, y: usize) -> bool {
    exists|k: int|
        c1 < k < c2 && in_block(
            t.children[c1].partition,
            (#[trigger] t.children[k]).partition,
            x,
            y,
        )
}

/// What handling child `c` adds to the filled places: the places under
/// `c`, those between `c` and a leaf of the vertex, those between `c` and a
/// later child, and, filled before, those between `c` and an earlier child.
proof fn lemma_filled_step(t: PartitionTree, c: int, x: usize, y: usize)
    requires
        t.wf(),
        0 <= c < t.children.len(),
    ensures
        filled(t, c + 1, x, y) <==> (filled(t, c, x, y) || (t.children[c].covers(x)
            && t.children[c].covers(y)) || in_block(t.children[c].partition, t.leaves, x, y)
            || crossed(t, c, t.children.len() as int, x, y)),
{
    let child = t.children[c];
    if filled(t, c + 1, x, y) && !filled(t, c, x, y) {
        let k = choose|k: int|
            0 <= k < c + 1 && k < t.children.len() && ((#[trigger] t.children[k]).covers(x)
                || t.children[k].covers(y));
        assert(k == c);
        // one index lies under `c`; the other one is covered by the vertex
        let other = if child.covers(x) { y } else { x };
        if t.leaves.contains(other) {
        } else {
            assert(t.in_child(other));
            let j = choose|j: int|
                0 <= j < t.children.len() && (#[trigger] t.children[j]).covers(other);
            if j < c {
                assert(filled(t, c, x, y));
            } else if j > c {
                assert(crossed(t, c, t.children.len() as int, x, y));
            } else if child.covers(x) && child.covers(y) {
            } else {
                // `other` lies under `c`, so the index under `c` is the one
                // that was not chosen: both lie under `c`
                assert(child.covers(other));
            }
        }
    }
    if child.covers(x) && child.covers(y) {
        lemma_child_covers(t, c, x);
        lemma_child_covers(t, c, y);
        assert(filled(t, c + 1, x, y));
    }
    if in_block(child.partition, t.leaves, x, y) {
        if child.covers(x) {
            lemma_child_covers(t, c, x);
            assert(t.covers(y));
        } else {
            lemma_child_covers(t, c, y);
            assert(t.covers(x));
        }
        assert(filled(t, c + 1, x, y));
    }
    if crossed(t, c, t.children.len() as int, x, y) {
        let k = choose|k: int|
            c < k < t.children.len() && in_block(
                child.partition,
                (#[trigger] t.children[k]).partition,
                x,
                y,
            );
        if child.covers(x) {
            lemma_child_covers(t, c, x);
            lemma_child_covers(t, k, y);
        } else {
            lemma_child_covers(t, c, y);
            lemma_child_covers(t, k, x);
        }
        assert(filled(t, c + 1, x, y));
    }
    if filled(t, c, x, y) {
        if !(t.leaves.contains(x) && t.leaves.contains(y)) {
            let k = choose|k: int|
                0 <= k < c && k < t.children.len() && ((#[trigger] t.children[k]).covers(x)
                    || t.children[k].covers(y));
            assert(filled(t, c + 1, x, y));
        }
    }
}

impl UltrametricTree {
    /// Construct the matrix that is represented by the tree.
    ///
    /// The entry for two indices is the level of the lowest vertex that
    /// covers both of them.
    pub fn to_matrix(&self) -> (matrix: DMatrix)
        requires
            self@.wf_root(),
            self@.size() * self@.size() * 8 <= isize::MAX,
        ensures
            matrix.spec_nrows() == self@.size(),
            matrix.spec_ncols() == self@.size(),
            matrix@ == self@.matrix(),
    {
        let size = self.partition.len();
        let mut matrix = DMatrix::zeros(size, size);
        self.to_matrix_recursive(&mut matrix);
        proof {
            matrix.lemma_view();
            assert forall|i: int| 0 <= i < size implies #[trigger] matrix@[i]
                == self@.matrix()[i] by {
                assert forall|j: int| 0 <= j < size implies #[trigger] matrix@[i][j]
                    == self@.matrix()[i][j] by {
                    assert(self@.covers(i as usize) && self@.covers(j as usize));
                }
                assert(matrix@[i] =~= self@.matrix()[i]);
            }
            assert(matrix@ =~= self@.matrix());
        }
        matrix
    }

    /// Recursive function to construct the matrix that is represented by
    /// the tree: fills in every place whose row and column the vertex
    /// covers, and no other.
    fn to_matrix_recursive(&self, matrix: &mut DMatrix)
        requires
            self@.wf(),
            old(matrix).spec_is_square(),
            all_below(self@.partition, old(matrix).spec_nrows()),
        ensures
            final(matrix).spec_nrows() == old(matrix).spec_nrows(),
            final(matrix).spec_ncols() == old(matrix).spec_ncols(),
            forall|x: usize, y: usize|
                x < old(matrix).spec_nrows() && y < old(matrix).spec_nrows() ==> final(matrix).at(
                    x as int,
                    y as int,
                ) == if self@.covers(x) && self@.covers(y) {
                    self@.entry(x, y)
                } else {
                    old(matrix).at(x as int, y as int)
                },
        decreases self,
    {
        let ghost n = matrix.spec_nrows();
        let ghost t = self@;
        proof {
            self.lemma_view();
            assert forall|k: int| 0 <= k < self.children@.len() implies all_below(
                (#[trigger] self.children@[k]).partition@,
                n,
            ) && all_below(self.children@[k]@.partition, n) by {
                let c = t.children[k];
                self.children@[k].lemma_view();
                assert(c.partition == self.children@[k].partition@);
                lemma_child_below(t, k, n);
            }
            lemma_leaves_below(t, n);
        }
        fill_block(matrix, &self.partition_leaves, &self.partition_leaves, self.level);
        proof {
            assert forall|x: usize, y: usize| x < n && y < n implies matrix.at(x as int, y as int)
                == if filled(t, 0, x, y) {
                t.entry(x, y)
            } else {
                old(matrix).at(x as int, y as int)
            } by {
                if t.leaves.contains(x) {
                    lemma_entry_leaf(t, x, y);
                }
            }
        }
        let count = self.children.len();
        let mut c1: usize = 0;
        while c1 < count
            invariant
                c1 <= count,
                count == self.children@.len(),
                t == self@,
                t.wf(),
                n == old(matrix).spec_nrows(),
                matrix.spec_nrows() == n,
                matrix.spec_ncols() == n,
                all_below(t.partition, n),
                all_below(t.leaves, n),
                forall|k: int|
                    0 <= k < count ==> all_below((#[trigger] self.children@[k]).partition@, n),
                forall|k: int| 0 <= k < count ==> all_below(self.children@[k]@.partition, n),
                forall|x: usize, y: usize|
                    x < n && y < n ==> matrix.at(x as int, y as int) == if filled(
                        t,
                        c1 as int,
                        x,
                        y,
                    ) {
                        t.entry(x, y)
                    } else {
                        old(matrix).at(x as int, y as int)
                    },
            decreases count - c1,
        {
            let ghost at_start = *matrix;
            let mut c2: usize = c1 + 1;
            while c2 < count
                invariant
                    c1 < c2 <= count,
                    count == self.children@.len(),
                    t == self@,
                    t.wf(),
                    n == old(matrix).spec_nrows(),
                    matrix.spec_nrows() == n,
                    matrix.spec_ncols() == n,
                    at_start.spec_nrows() == n,
                    forall|k: int|
                        0 <= k < count ==> all_below(
                            (#[trigger] self.children@[k]).partition@,
                            n,
                        ),
                    forall|x: usize, y: usize|
                        x < n && y < n ==> matrix.at(x as int, y as int) == if crossed(
                            t,
                            c1 as int,
                            c2 as int,
                            x,
                            y,
                        ) {
                            t.level
                        } else {
                            at_start.at(x as int, y as int)
                        },
                decreases count - c2,
            {
                fill_block(
                    matrix,
                    &self.children[c1].partition,
                    &self.children[c2].partition,
                    self.level,
                );
                proof {
                    self.lemma_view();
                    self.children@[c1 as int].lemma_view();
                    self.children@[c2 as int].lemma_view();
                    assert(t.children[c1 as int].partition == self.children@[c1 as int].partition@);
                    assert(t.children[c2 as int].partition == self.children@[c2 as int].partition@);
                    assert forall|x: usize, y: usize| x < n && y < n implies (crossed(
                        t,
                        c1 as int,
                        c2 + 1,
                        x,
                        y,
                    ) <==> crossed(t, c1 as int, c2 as int, x, y) || in_block(
                        t.children[c1 as int].partition,
                        t.children[c2 as int].partition,
                        x,
                        y,
                    )) by {
                        if crossed(t, c1 as int, c2 + 1, x, y) {
                            let k = choose|k: int|
                                c1 < k < c2 + 1 && in_block(
                                    t.children[c1 as int].partition,
                                    (#[trigger] t.children[k]).partition,
                                    x,
                                    y,
                                );
                            if k < c2 {
                                assert(crossed(t, c1 as int, c2 as int, x, y));
                            }
                        }
                        if crossed(t, c1 as int, c2 as int, x, y) {
                            let k = choose|k: int|
                                c1 < k < c2 && in_block(
                                    t.children[c1 as int].partition,
                                    (#[trigger] t.children[k]).partition,
                                    x,
                                    y,
                                );
                            assert(crossed(t, c1 as int, c2 + 1, x, y));
                        }
                        if in_block(
                            t.children[c1 as int].partition,
                            t.children[c2 as int].partition,
                            x,
                            y,
                        ) {
                            assert(crossed(t, c1 as int, c2 + 1, x, y));
                        }
                    }
                }
                c2 += 1;
            }
            proof {
                self.lemma_view();
                self.children@[c1 as int].lemma_view();
                assert(t.children[c1 as int].wf());
            }
            fill_block(matrix, &self.children[c1].partition, &self.partition_leaves, self.level);
            self.children[c1].to_matrix_recursive(matrix);
            proof {
                let c = t.children[c1 as int];
                assert(c == self.children@[c1 as int]@);
                assert(c.partition == self.children@[c1 as int].partition@);
                assert forall|x: usize, y: usize| x < n && y < n implies matrix.at(
                    x as int,
                    y as int,
                ) == if filled(t, c1 + 1, x, y) {
                    t.entry(x, y)
                } else {
                    old(matrix).at(x as int, y as int)
                } by {
                    lemma_filled_step(t, c1 as int, x, y);
                    if c.covers(x) && c.covers(y) {
                        lemma_entry_in_child(t, c1 as int, x, y);
                    } else if in_block(c.partition, t.leaves, x, y) {
                        if t.leaves.contains(x) {
                            lemma_entry_leaf(t, x, y);
                        } else {
                            lemma_entry_leaf(t, y, x);
                        }
                    } else if crossed(t, c1 as int, count as int, x, y) {
                        let k = choose|k: int|
                            c1 < k < count && in_block(
                                c.partition,
                                (#[trigger] t.children[k]).partition,
                                x,
                                y,
                            );
                        if c.partition.contains(x) {
                            lemma_entry_apart(t, c1 as int, k, x, y);
                        } else {
                            lemma_entry_apart(t, c1 as int, k, y, x);
                        }
                    }
                }
            }
            c1 += 1;
        }
        proof {
            self.lemma_view();
            assert forall|x: usize, y: usize| x < n && y < n implies (filled(t, count as int, x, y)
                <==> t.covers(x) && t.covers(y)) by {
                if t.covers(x) && t.covers(y) {
                    if t.in_child(x) {
                        let k = choose|k: int|
                            0 <= k < t.children.len() && (#[trigger] t.children[k]).covers(x);
                        assert(filled(t, count as int, x, y));
                    } else if t.in_child(y) {
                        let k = choose|k: int|
                            0 <= k < t.children.len() && (#[trigger] t.children[k]).covers(y);
                        assert(filled(t, count as int, x, y));
                    }
                }
                if filled(t, count as int, x, y) {
                    if !(t.leaves.contains(x) && t.leaves.contains(y)) {
                        let k = choose|k: int|
                            0 <= k < count && ((#[trigger] t.children[k]).covers(x)
                                || t.children[k].covers(y));
                        if t.children[k].covers(x) {
                            lemma_child_covers(t, k, x);
                        } else {
                            lemma_child_covers(t, k, y);
                        }
                    }
                }
            }
        }
    }

    /// Construct the permutation matrix of the tree.
    ///
    /// Row `i` has its single 1 in the column of the index that a
    /// post-order walk of the tree visits at position `i`: the children
    /// first, in their order, then the vertex's own leaves.
    pub fn get_permutation_matrix(&self) -> (matrix: DMatrix)
        requires
            self@.wf_root(),
            self@.size() * self@.size() * 8 <= isize::MAX,
        ensures
            matrix.spec_nrows() == self@.size(),
            matrix.spec_ncols() == self@.size(),
            matrix@ == permutation_matrix(self@.leaf_order()),
            is_permutation_matrix(matrix@),
    {
        let size = self.partition.len();
        let permutations = self.get_permutation_matrix_recursive();
        let ghost order = self@.leaf_order();
        proof {
            self.lemma_view();
            lemma_leaf_order_root(self@);
            lemma_permutation_matrix(order);
        }
        let mut perm_mat = DMatrix::zeros(size, size);
        let mut i: usize = 0;
        while i < size
            invariant
                i <= size,
                size == order.len(),
                permutations@ == order,
                all_below(order, size as nat),
                perm_mat.spec_nrows() == size,
                perm_mat.spec_ncols() == size,
                forall|a: int, b: int|
                    0 <= a < size && 0 <= b < size ==> perm_mat.at(a, b) == if a < i && order[a]
                        == b {
                        1i64
                    } else {
                        0i64
                    },
            decreases size - i,
        {
            let j = permutations[i];
            perm_mat.set(i, j, 1);
            i += 1;
        }
        proof {
            perm_mat.lemma_view();
            let expected = permutation_matrix(order);
            assert forall|a: int| 0 <= a < size implies #[trigger] perm_mat@[a] == expected[a] by {
                assert forall|b: int| 0 <= b < size implies #[trigger] perm_mat@[a][b]
                    == expected[a][b] by {
                    assert(perm_mat.at(a, b) == if order[a] == b { 1i64 } else { 0i64 });
                }
                assert(perm_mat@[a] =~= expected[a]);
            }
            assert(perm_mat@ =~= expected);
        }
        perm_mat
    }

    /// Recursive function to construct the permutation matrix: the indices
    /// in post-order.
    fn get_permutation_matrix_recursive(&self) -> (perm: Vec<usize>)
        ensures
            perm@ == self@.leaf_order(),
        decreases self,
    {
        let ghost t = self@;
        let mut perm: Vec<usize> = Vec::new();
        let count = self.children.len();
        let mut c: usize = 0;
        proof {
            self.lemma_view();
            assert(t.children.take(0).len() == 0);
        }
        while c < count
            invariant
                c <= count,
                count == self.children@.len(),
                count == t.children.len(),
                t == self@,
                perm@ == leaf_order_before(t, c as int),
            decreases count - c,
        {
            proof {
                self.lemma_view();
                lemma_leaf_order_before_step(t, c as int);
            }
            let child_perm = self.children[c].get_permutation_matrix_recursive();
            append_indices(&mut perm, &child_perm);
            c += 1;
        }
        proof {
            self.lemma_view();
            assert(t.children.take(count as int) == t.children);
        }
        append_indices(&mut perm, &self.partition_leaves);
        perm
    }
}

} // verus!

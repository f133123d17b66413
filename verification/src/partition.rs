//! Splitting an index list around its first element.
//!
//! Both the tree builder and the ultrametricity check rest on one scan: the
//! first index of the list is the pivot, and the remaining indices are
//! divided by the entry they share with the pivot's row. Indices whose entry
//! is the row's minimum form the right part; the pivot and all others form
//! the left part.

use crate::dense::DMatrix;
use crate::seq_facts::{
    all_below, apart, lemma_all_below_from_contains, lemma_concat_no_duplicates,
    lemma_drop_first_no_duplicates, lemma_filter_complement, lemma_filter_keeps,
    lemma_push_no_duplicates,
};
use vstd::prelude::*;

verus! {

/// The outcome of a scan: the two parts and the smallest entry seen.
pub struct Split {
    pub left: Seq<usize>,
    pub right: Seq<usize>,
    pub min: i64,
}

/// The scan over `rest`, index by index from the front.
///
/// A value below the running minimum moves the whole right part to the end
/// of the left part and starts a new right part; a value equal to it joins
/// the right part; a larger one joins the left part.
pub open spec fn scan(m: Seq<Seq<i64>>, pivot: usize, rest: Seq<usize>) -> Split
    decreases rest.len(),
{
    if rest.len() == 0 {
        Split { left: seq![pivot], right: Seq::empty(), min: i64::MAX }
    } else {
        let before = scan(m, pivot, rest.drop_last());
        let i = rest.last();
        let value = m[pivot as int][i as int];
        if value < before.min {
            Split { left: before.left + before.right, right: seq![i], min: value }
        } else if value == before.min {
            Split { left: before.left, right: before.right.push(i), min: before.min }
        } else {
            Split { left: before.left.push(i), right: before.right, min: before.min }
        }
    }
}

/// The split of a non-empty index list around its first element.
pub open spec fn split(m: Seq<Seq<i64>>, part: Seq<usize>) -> Split {
    scan(m, part[0], part.drop_first())
}

/// The smallest entry that the pivot's row has at the indices of `rest`
/// (the largest `i64` when `rest` is empty).
pub open spec fn row_min(m: Seq<Seq<i64>>, pivot: usize, rest: Seq<usize>) -> i64
    decreases rest.len(),
{
    if rest.len() == 0 {
        i64::MAX
    } else {
        let before = row_min(m, pivot, rest.drop_last());
        let value = m[pivot as int][rest.last() as int];
        if value < before {
            value
        } else {
            before
        }
    }
}

/// The split with tolerance `eps`: the right part holds, in list order, the
/// indices whose entry is at most the row's minimum plus `eps`; the left
/// part holds the pivot and then the other indices, in list order.
pub open spec fn scan_approx(m: Seq<Seq<i64>>, pivot: usize, rest: Seq<usize>, eps: i64) -> Split {
    let min = row_min(m, pivot, rest);
    Split {
        left: seq![pivot] + rest.filter(|i: usize| m[pivot as int][i as int] > min + eps),
        right: rest.filter(|i: usize| m[pivot as int][i as int] <= min + eps),
        min,
    }
}

/// Whether the pivot's row has the entry `value` at an index, as a
/// function of the index.
pub open spec fn has_entry(m: Seq<Seq<i64>>, pivot: usize, value: i64) -> spec_fn(usize) -> bool {
    |i: usize| m[pivot as int][i as int] == value
}

/// The tolerant split of a non-empty index list around its first element.
pub open spec fn split_approx(m: Seq<Seq<i64>>, part: Seq<usize>, eps: i64) -> Split {
    scan_approx(m, part[0], part.drop_first(), eps)
}

/// The scan hands every index to exactly one part, the pivot to the left
/// one, and leaves the right part empty only when there is nothing to scan.
pub proof fn lemma_scan_lengths(m: Seq<Seq<i64>>, pivot: usize, rest: Seq<usize>)
    ensures
        scan(m, pivot, rest).left.len() >= 1,
        scan(m, pivot, rest).left.len() + scan(m, pivot, rest).right.len() == rest.len() + 1,
        rest.len() >= 1 ==> scan(m, pivot, rest).right.len() >= 1,
    decreases rest.len(),
{
    if rest.len() > 0 {
        lemma_scan_lengths(m, pivot, rest.drop_last());
    }
}

/// What makes two sequences the parts of a split of `pivot` and `rest`:
/// the left part starts with the pivot, the parts share no index, neither
/// repeats one, and together they hold the pivot and `rest`.
pub open spec fn divides(s: Split, pivot: usize, rest: Seq<usize>) -> bool {
    &&& s.left.len() >= 1
    &&& s.left[0] == pivot
    &&& s.left.len() + s.right.len() == rest.len() + 1
    &&& (rest.len() >= 1 ==> s.right.len() >= 1)
    &&& s.left.no_duplicates()
    &&& s.right.no_duplicates()
    &&& apart(s.left, s.right)
    &&& forall|x: usize| #[trigger] s.left.contains(x) ==> x == pivot || rest.contains(x)
    &&& forall|x: usize| #[trigger] s.right.contains(x) ==> rest.contains(x)
    &&& forall|x: usize| #[trigger] rest.contains(x) ==> s.left.contains(x) || s.right.contains(x)
}

/// The parts of a split at the row minimum: they divide the list, every
/// index of the right part has the minimum as its entry in the pivot's
/// row, and every index of the left part but the pivot has a larger one.
pub open spec fn splits_at_min(m: Seq<Seq<i64>>, part: Seq<usize>, s: Split) -> bool {
    &&& divides(s, part[0], part.drop_first())
    &&& forall|x: usize| #[trigger] s.right.contains(x) ==> m[part[0] as int][x as int] == s.min
    &&& forall|x: usize| #[trigger]
        s.left.contains(x) && x != part[0] ==> m[part[0] as int][x as int] > s.min
}

/// The split of a list without repetition is a split at the row minimum.
pub proof fn lemma_split_at_min(m: Seq<Seq<i64>>, part: Seq<usize>)
    requires
        part.len() >= 1,
        part.no_duplicates(),
    ensures
        splits_at_min(m, part, split(m, part)),
{
    lemma_drop_first_no_duplicates(part);
    lemma_scan(m, part[0], part.drop_first());
}

/// With the tolerance zero, the tolerant split of a list without
/// repetition is a split at the row minimum.
pub proof fn lemma_split_approx_at_min(m: Seq<Seq<i64>>, part: Seq<usize>)
    requires
        part.len() >= 1,
        part.no_duplicates(),
    ensures
        splits_at_min(m, part, split_approx(m, part, 0)),
{
    broadcast use vstd::seq_lib::lemma_seq_concat_contains_all_elements;

    let pivot = part[0];
    let rest = part.drop_first();
    let min = row_min(m, pivot, rest);
    let above = |i: usize| m[pivot as int][i as int] > min + 0;
    let within = |i: usize| m[pivot as int][i as int] <= min + 0;
    let s = split_approx(m, part, 0);
    lemma_drop_first_no_duplicates(part);
    lemma_scan_approx(m, pivot, rest, 0);
    lemma_row_min(m, pivot, rest);
    lemma_filter_keeps(rest, above);
    lemma_filter_keeps(rest, within);
    assert(s.right == rest.filter(within));
    assert(s.left == seq![pivot] + rest.filter(above));
    assert forall|x: usize| #[trigger]
        s.left.contains(x) && x != pivot implies m[pivot as int][x as int] > s.min by {
        if seq![pivot].contains(x) {
            let k = choose|k: int| 0 <= k < seq![pivot].len() && seq![pivot][k] == x;
        }
    }
}

/// The parts of a list of indices below `n` hold indices below `n`.
pub proof fn lemma_parts_below(s: Split, part: Seq<usize>, n: nat)
    requires
        part.len() >= 1,
        divides(s, part[0], part.drop_first()),
        all_below(part, n),
    ensures
        all_below(s.left, n),
        all_below(s.right, n),
{
    let rest = part.drop_first();
    assert forall|x: usize| s.left.contains(x) || s.right.contains(x) implies x < n by {
        if x != part[0] {
            assert(rest.contains(x));
            let j = choose|j: int| 0 <= j < rest.len() && rest[j] == x;
            assert(rest[j] == part[j + 1]);
        }
    }
    lemma_all_below_from_contains(s.left, n);
    lemma_all_below_from_contains(s.right, n);
}

/// The scan divides the list, the right part holds exactly the row's
/// minimum, and everything in the left part but the pivot lies above it.
pub proof fn lemma_scan(m: Seq<Seq<i64>>, pivot: usize, rest: Seq<usize>)
    requires
        rest.no_duplicates(),
        !rest.contains(pivot),
    ensures
        divides(scan(m, pivot, rest), pivot, rest),
        forall|x: usize| #[trigger]
            scan(m, pivot, rest).right.contains(x) ==> m[pivot as int][x as int] == scan(
                m,
                pivot,
                rest,
            ).min,
        forall|x: usize| #[trigger]
            scan(m, pivot, rest).left.contains(x) && x != pivot ==> m[pivot as int][x as int]
                > scan(m, pivot, rest).min,
        forall|x: usize| #[trigger]
            rest.contains(x) ==> m[pivot as int][x as int] >= scan(m, pivot, rest).min,
    decreases rest.len(),
{
    broadcast use {
        vstd::seq_lib::lemma_seq_contains_after_push,
        vstd::seq_lib::lemma_seq_concat_contains_all_elements,
    };

    let s = scan(m, pivot, rest);
    if rest.len() == 0 {
        assert(s.left[0] == pivot);
        assert forall|x: usize| s.left.contains(x) implies x == pivot by {
            let k = choose|k: int| 0 <= k < s.left.len() && s.left[k] == x;
        }
    } else {
        let front = rest.drop_last();
        let i = rest.last();
        let before = scan(m, pivot, front);
        assert(rest == front.push(i));
        assert(front.no_duplicates());
        assert(!front.contains(i)) by {
            if front.contains(i) {
                let k = choose|k: int| 0 <= k < front.len() && front[k] == i;
                assert(rest[k] == rest[rest.len() - 1]);
            }
        }
        assert(i != pivot) by {
            assert(rest.contains(i));
        }
        assert(!front.contains(pivot));
        lemma_scan(m, pivot, front);
        let value = m[pivot as int][i as int];
        assert(!before.left.contains(i) && !before.right.contains(i));
        if value < before.min {
            lemma_concat_no_duplicates(before.left, before.right);
            assert(s.right[0] == i);
            assert forall|x: usize| s.right.contains(x) implies x == i by {
                let k = choose|k: int| 0 <= k < s.right.len() && s.right[k] == x;
            }
            assert(s.left[0] == before.left[0]);
        } else if value == before.min {
            lemma_push_no_duplicates(before.right, i);
        } else {
            lemma_push_no_duplicates(before.left, i);
            assert(s.left[0] == before.left[0]);
        }
    }
}

/// The row minimum is a lower bound that some index of `rest` attains.
pub proof fn lemma_row_min(m: Seq<Seq<i64>>, pivot: usize, rest: Seq<usize>)
    ensures
        forall|x: usize| #[trigger]
            rest.contains(x) ==> m[pivot as int][x as int] >= row_min(m, pivot, rest),
        rest.len() >= 1 ==> exists|x: usize| #[trigger]
            rest.contains(x) && m[pivot as int][x as int] == row_min(m, pivot, rest),
    decreases rest.len(),
{
    broadcast use vstd::seq_lib::lemma_seq_contains_after_push;

    if rest.len() > 0 {
        let front = rest.drop_last();
        let last = rest.last();
        lemma_row_min(m, pivot, front);
        assert(rest == front.push(last));
        if m[pivot as int][last as int] < row_min(m, pivot, front) || front.len() == 0 {
            assert(rest.contains(last));
        } else {
            let x = choose|x: usize| #[trigger]
                front.contains(x) && m[pivot as int][x as int] == row_min(m, pivot, front);
            assert(rest.contains(x));
        }
    }
}

/// What the scan yields, said without the scan: its minimum is the row
/// minimum, and its right part holds, in list order, the indices whose
/// entry in the pivot's row is that minimum.
pub proof fn lemma_scan_right_part(m: Seq<Seq<i64>>, pivot: usize, rest: Seq<usize>)
    ensures
        scan(m, pivot, rest).min == row_min(m, pivot, rest),
        scan(m, pivot, rest).right == rest.filter(
            has_entry(m, pivot, row_min(m, pivot, rest)),
        ),
    decreases rest.len(),
{
    reveal(Seq::filter);
    if rest.len() > 0 {
        let front = rest.drop_last();
        let i = rest.last();
        let before = scan(m, pivot, front);
        let value = m[pivot as int][i as int];
        let pred = has_entry(m, pivot, row_min(m, pivot, rest));
        lemma_scan_right_part(m, pivot, front);
        assert(rest == front.push(i));
        front.lemma_filter_push(i, pred);
        if value < before.min {
            lemma_row_min(m, pivot, front);
            lemma_filter_keeps(front, pred);
            let kept = front.filter(pred);
            if kept.len() > 0 {
                assert(kept.contains(kept[0]));
            }
            assert(kept.push(i) =~= seq![i]);
        }
    }
}

/// With a tolerance that is not negative, the tolerant split divides the
/// list, and the right part is not empty unless there is nothing to scan.
pub proof fn lemma_scan_approx(m: Seq<Seq<i64>>, pivot: usize, rest: Seq<usize>, eps: i64)
    requires
        eps >= 0,
    ensures
        scan_approx(m, pivot, rest, eps).left.len() >= 1,
        scan_approx(m, pivot, rest, eps).left[0] == pivot,
        scan_approx(m, pivot, rest, eps).left.len() + scan_approx(m, pivot, rest, eps).right.len()
            == rest.len() + 1,
        rest.len() >= 1 ==> scan_approx(m, pivot, rest, eps).right.len() >= 1,
        rest.no_duplicates() && !rest.contains(pivot) ==> divides(
            scan_approx(m, pivot, rest, eps),
            pivot,
            rest,
        ),
{
    broadcast use vstd::seq_lib::lemma_seq_concat_contains_all_elements;

    let min = row_min(m, pivot, rest);
    let above = |i: usize| m[pivot as int][i as int] > min + eps;
    let within = |i: usize| m[pivot as int][i as int] <= min + eps;
    let s = scan_approx(m, pivot, rest, eps);
    assert(s.left == seq![pivot] + rest.filter(above));
    assert(s.right == rest.filter(within));
    lemma_filter_complement(rest, within, above);
    lemma_filter_keeps(rest, above);
    lemma_filter_keeps(rest, within);
    lemma_row_min(m, pivot, rest);
    if rest.len() >= 1 {
        let x = choose|x: usize| #[trigger]
            rest.contains(x) && m[pivot as int][x as int] == row_min(m, pivot, rest);
        assert(within(x));
        assert(s.right.contains(x));
    }
    assert(seq![pivot][0] == pivot);
    assert forall|x: usize| seq![pivot].contains(x) <==> x == pivot by {
        if seq![pivot].contains(x) {
            let k = choose|k: int| 0 <= k < seq![pivot].len() && seq![pivot][k] == x;
        }
    }
    if rest.no_duplicates() && !rest.contains(pivot) {
        assert(apart(seq![pivot], rest.filter(above)));
        lemma_concat_no_duplicates(seq![pivot], rest.filter(above));
    }
}

/// Runs the scan on a matrix and an index list, as three plain values.
pub(crate) fn split_indices(matrix: &DMatrix, partition: &Vec<usize>) -> (parts: (
    Vec<usize>,
    Vec<usize>,
    i64,
))
    requires
        partition@.len() >= 1,
        matrix.spec_is_square(),
        all_below(partition@, matrix.spec_nrows()),
    ensures
        parts.0@ == split(matrix@, partition@).left,
        parts.1@ == split(matrix@, partition@).right,
        parts.2 == split(matrix@, partition@).min,
{
    let first_i = partition[0];
    let len = partition.len();
    let mut left_partition: Vec<usize> = Vec::new();
    left_partition.push(first_i);
    let mut right_partition: Vec<usize> = Vec::new();
    let mut min = i64::MAX;
    let ghost rest = partition@.drop_first();
    let mut k: usize = 1;
    assert(rest.take(0) =~= Seq::<usize>::empty());
    while k < len
        invariant
            1 <= k <= len,
            len == partition@.len(),
            first_i == partition@[0],
            rest == partition@.drop_first(),
            matrix.spec_is_square(),
            all_below(partition@, matrix.spec_nrows()),
            left_partition@ == scan(matrix@, first_i, rest.take(k - 1)).left,
            right_partition@ == scan(matrix@, first_i, rest.take(k - 1)).right,
            min == scan(matrix@, first_i, rest.take(k - 1)).min,
        decreases len - k,
    {
        let i = partition[k];
        let value = matrix.get(first_i, i);
        proof {
            matrix.lemma_view();
            assert(rest.take(k as int).drop_last() =~= rest.take(k - 1));
            assert(rest.take(k as int).last() == i);
        }
        if min > value {
            min = value;
            left_partition.append(&mut right_partition);
            right_partition.push(i);
            assert(right_partition@ =~= seq![i]);
        } else {
            if min == value {
                right_partition.push(i);
            } else {
                left_partition.push(i);
            }
        }
        k += 1;
    }
    assert(rest.take(len - 1) =~= rest);
    (left_partition, right_partition, min)
}

/// Runs the tolerant scan on a matrix and an index list, as three plain
/// values.
pub(crate) fn split_indices_approx(matrix: &DMatrix, partition: &Vec<usize>, eps: i64) -> (parts: (
    Vec<usize>,
    Vec<usize>,
    i64,
))
    requires
        partition@.len() >= 1,
        matrix.spec_is_square(),
        all_below(partition@, matrix.spec_nrows()),
    ensures
        parts.0@ == split_approx(matrix@, partition@, eps).left,
        parts.1@ == split_approx(matrix@, partition@, eps).right,
        parts.2 == split_approx(matrix@, partition@, eps).min,
{
    let first_i = partition[0];
    let len = partition.len();
    let mut left_partition: Vec<usize> = Vec::new();
    left_partition.push(first_i);
    let mut right_partition: Vec<usize> = Vec::new();
    let mut min = i64::MAX;
    let ghost rest = partition@.drop_first();
    let mut k: usize = 1;
    assert(rest.take(0) =~= Seq::<usize>::empty());
    while k < len
        invariant
            1 <= k <= len,
            len == partition@.len(),
            first_i == partition@[0],
            rest == partition@.drop_first(),
            matrix.spec_is_square(),
            all_below(partition@, matrix.spec_nrows()),
            min == row_min(matrix@, first_i, rest.take(k - 1)),
        decreases len - k,
    {
        let i = partition[k];
        let value = matrix.get(first_i, i);
        proof {
            matrix.lemma_view();
            assert(rest.take(k as int).drop_last() =~= rest.take(k - 1));
            assert(rest.take(k as int).last() == i);
        }
        if value < min {
            min = value;
        }
        k += 1;
    }
    assert(rest.take(len - 1) =~= rest);
    let ghost above = |i: usize| matrix@[first_i as int][i as int] > min + eps;
    let ghost within = |i: usize| matrix@[first_i as int][i as int] <= min + eps;
    let bound: i128 = min as i128 + eps as i128;
    k = 1;
    proof {
        reveal(Seq::filter);
        assert(rest.take(0).filter(above) =~= Seq::<usize>::empty());
        assert(rest.take(0).filter(within) =~= Seq::<usize>::empty());
    }
    while k < len
        invariant
            1 <= k <= len,
            len == partition@.len(),
            first_i == partition@[0],
            rest == partition@.drop_first(),
            matrix.spec_is_square(),
            all_below(partition@, matrix.spec_nrows()),
            bound == min + eps,
            above == |i: usize| matrix@[first_i as int][i as int] > min + eps,
            within == |i: usize| matrix@[first_i as int][i as int] <= min + eps,
            left_partition@ == seq![first_i] + rest.take(k - 1).filter(above),
            right_partition@ == rest.take(k - 1).filter(within),
        decreases len - k,
    {
        let i = partition[k];
        let value = matrix.get(first_i, i);
        proof {
            matrix.lemma_view();
            assert(rest.take(k as int) =~= rest.take(k - 1).push(i));
            rest.take(k - 1).lemma_filter_push(i, above);
            rest.take(k - 1).lemma_filter_push(i, within);
        }
        if value as i128 <= bound {
            right_partition.push(i);
        } else {
            left_partition.push(i);
            assert(left_partition@ =~= seq![first_i] + rest.take(k - 1).filter(above).push(i));
        }
        k += 1;
    }
    assert(rest.take(len - 1) =~= rest);
    (left_partition, right_partition, min)
}

} // verus!

//! What it means for a matrix to be ultrametric, and how that property
//! behaves under the split of an index list.

use crate::partition::{Split, split, splits_at_min};
use crate::seq_facts::{
    all_below, identity_indices, lemma_all_below_contains, lemma_identity_indices,
};
use vstd::prelude::*;

verus! {

/// The smaller of two integers.
pub open spec fn lesser(a: int, b: int) -> int {
    if a <= b {
        a
    } else {
        b
    }
}

/// Every row of `m` has as many entries as `m` has rows.
pub open spec fn square(m: Seq<Seq<i64>>) -> bool {
    forall|i: int| 0 <= i < m.len() ==> (#[trigger] m[i]).len() == m.len()
}

/// `m[i][j] == m[j][i]` for all places of the square matrix `m`.
pub open spec fn symmetric(m: Seq<Seq<i64>>) -> bool {
    forall|i: int, j: int|
        0 <= i < m.len() && 0 <= j < m.len() ==> #[trigger] m[i][j] == m[j][i]
}

/// The ultrametric property of a square matrix: it is symmetric, no entry
/// off the diagonal is negative, and for any three distinct indices
/// `m[i][k] >= min(m[i][j], m[j][k])`. The diagonal is free.
pub open spec fn ultrametric(m: Seq<Seq<i64>>) -> bool {
    &&& square(m)
    &&& symmetric(m)
    &&& forall|i: int, j: int|
        0 <= i < m.len() && 0 <= j < m.len() && i != j ==> #[trigger] m[i][j] >= 0
    &&& forall|i: int, j: int, k: int|
        #![trigger m[i][j], m[j][k]]
        0 <= i < m.len() && 0 <= j < m.len() && 0 <= k < m.len() && i != j && j != k && i != k
            ==> m[i][k] >= lesser(m[i][j] as int, m[j][k] as int)
}

/// The ultrametric inequalities among the indices of `idx`, with `floor` as
/// the lower bound of the entries off the diagonal.
pub open spec fn ultrametric_on(m: Seq<Seq<i64>>, idx: Seq<usize>, floor: int) -> bool {
    &&& forall|a: usize, b: usize|
        #![trigger idx.contains(a), idx.contains(b)]
        idx.contains(a) && idx.contains(b) && a != b ==> m[a as int][b as int] >= floor
    &&& forall|a: usize, b: usize, c: usize|
        #![trigger idx.contains(a), idx.contains(b), idx.contains(c)]
        idx.contains(a) && idx.contains(b) && idx.contains(c) && a != b && b != c && a != c
            ==> m[a as int][c as int] >= lesser(
            m[a as int][b as int] as int,
            m[b as int][c as int] as int,
        )
}

/// Every pair of one index of `left` and one of `right` has the entry `value`.
pub open spec fn block_equal(
    m: Seq<Seq<i64>>,
    left: Seq<usize>,
    right: Seq<usize>,
    value: i64,
) -> bool {
    forall|a: usize, b: usize|
        #![trigger left.contains(a), right.contains(b)]
        left.contains(a) && right.contains(b) ==> m[a as int][b as int] == value
}

/// Over all indices of a matrix, the inequalities on an index list say what
/// the ultrametric property says.
pub proof fn lemma_ultrametric_on_all(m: Seq<Seq<i64>>)
    requires
        square(m),
        symmetric(m),
        m.len() <= usize::MAX,
    ensures
        ultrametric(m) <==> ultrametric_on(m, identity_indices(m.len()), 0),
{
    let n = m.len();
    let idx = identity_indices(n);
    lemma_identity_indices(n);
    if ultrametric(m) {
        assert forall|a: usize, b: usize, c: usize|
            #![trigger idx.contains(a), idx.contains(b), idx.contains(c)]
            idx.contains(a) && idx.contains(b) && idx.contains(c) && a != b && b != c && a
                != c implies m[a as int][c as int] >= lesser(
            m[a as int][b as int] as int,
            m[b as int][c as int] as int,
        ) by {
            let _ = m[a as int][b as int];
            let _ = m[b as int][c as int];
        }
        assert(ultrametric_on(m, idx, 0));
    }
    if ultrametric_on(m, idx, 0) {
        assert forall|i: int, j: int| 0 <= i < n && 0 <= j < n && i != j implies #[trigger] m[i][j]
            >= 0 by {
            assert(idx.contains(i as usize) && idx.contains(j as usize));
        }
        assert forall|i: int, j: int, k: int|
            #![trigger m[i][j], m[j][k]]
            0 <= i < n && 0 <= j < n && 0 <= k < n && i != j && j != k && i != k implies m[i][k]
            >= lesser(m[i][j] as int, m[j][k] as int) by {
            assert(idx.contains(i as usize) && idx.contains(j as usize) && idx.contains(
                k as usize,
            ));
        }
        assert(ultrametric(m));
    }
}

/// The facts about a split that the two lemmas below start from.
pub open spec fn split_context(m: Seq<Seq<i64>>, part: Seq<usize>) -> bool {
    &&& square(m)
    &&& symmetric(m)
    &&& part.len() >= 2
    &&& part.no_duplicates()
    &&& all_below(part, m.len())
}

/// Membership in a list, told by its first element and the rest.
proof fn lemma_first_or_rest(part: Seq<usize>, x: usize)
    requires
        part.len() >= 1,
    ensures
        part.contains(x) <==> (x == part[0] || part.drop_first().contains(x)),
{
    let rest = part.drop_first();
    if part.contains(x) {
        let k = choose|k: int| 0 <= k < part.len() && part[k] == x;
        if k > 0 {
            assert(rest[k - 1] == x);
        }
    }
    if rest.contains(x) {
        let k = choose|k: int| 0 <= k < rest.len() && rest[k] == x;
        assert(part[k + 1] == x);
    }
    assert(part[0] == part[0]);
}

/// If the inequalities hold on a list, then a split of the list at the row
/// minimum has its minimum at or above the floor, every pair across the two
/// parts has the minimum as its entry, and the inequalities hold on each
/// part with the minimum as the floor.
pub proof fn lemma_ultrametric_splits(m: Seq<Seq<i64>>, part: Seq<usize>, s: Split, floor: int)
    requires
        split_context(m, part),
        splits_at_min(m, part, s),
        ultrametric_on(m, part, floor),
    ensures
        s.min >= floor,
        block_equal(m, s.left, s.right, s.min),
        ultrametric_on(m, s.left, s.min as int),
        ultrametric_on(m, s.right, s.min as int),
{
    let p = part[0];
    let rest = part.drop_first();
    assert(part.contains(p));
    assert forall|x: usize| s.left.contains(x) || s.right.contains(x) implies part.contains(x)
        && x < m.len() by {
        lemma_first_or_rest(part, x);
        lemma_all_below_contains(part, m.len(), x);
    }
    let r0 = s.right[0];
    assert(s.right.contains(r0));
    assert(part.contains(r0) && r0 != p);
    assert(m[p as int][r0 as int] == s.min);

    assert forall|a: usize, b: usize|
        #![trigger s.left.contains(a), s.right.contains(b)]
        s.left.contains(a) && s.right.contains(b) implies m[a as int][b as int] == s.min by {
        assert(part.contains(a) && part.contains(b) && part.contains(p));
        if a != p {
            assert(m[p as int][b as int] >= lesser(
                m[p as int][a as int] as int,
                m[a as int][b as int] as int,
            ));
            assert(m[a as int][b as int] >= lesser(
                m[a as int][p as int] as int,
                m[p as int][b as int] as int,
            ));
            assert(m[a as int][p as int] == m[p as int][a as int]);
        }
    }
    assert forall|a: usize, b: usize|
        #![trigger s.left.contains(a), s.left.contains(b)]
        s.left.contains(a) && s.left.contains(b) && a != b implies m[a as int][b as int]
        >= s.min by {
        assert(part.contains(a) && part.contains(b) && part.contains(p));
        assert(m[a as int][p as int] == m[p as int][a as int]);
        if a != p && b != p {
            assert(m[a as int][b as int] >= lesser(
                m[a as int][p as int] as int,
                m[p as int][b as int] as int,
            ));
        }
    }
    assert forall|a: usize, b: usize|
        #![trigger s.right.contains(a), s.right.contains(b)]
        s.right.contains(a) && s.right.contains(b) && a != b implies m[a as int][b as int]
        >= s.min by {
        assert(part.contains(a) && part.contains(b) && part.contains(p));
        assert(m[a as int][p as int] == m[p as int][a as int]);
        assert(m[a as int][b as int] >= lesser(
            m[a as int][p as int] as int,
            m[p as int][b as int] as int,
        ));
    }
    assert forall|a: usize, b: usize, c: usize|
        #![trigger s.left.contains(a), s.left.contains(b), s.left.contains(c)]
        s.left.contains(a) && s.left.contains(b) && s.left.contains(c) && a != b && b != c && a
            != c implies m[a as int][c as int] >= lesser(
        m[a as int][b as int] as int,
        m[b as int][c as int] as int,
    ) by {
        assert(part.contains(a) && part.contains(b) && part.contains(c));
    }
    assert forall|a: usize, b: usize, c: usize|
        #![trigger s.right.contains(a), s.right.contains(b), s.right.contains(c)]
        s.right.contains(a) && s.right.contains(b) && s.right.contains(c) && a != b && b != c
            && a != c implies m[a as int][c as int] >= lesser(
        m[a as int][b as int] as int,
        m[b as int][c as int] as int,
    ) by {
        assert(part.contains(a) && part.contains(b) && part.contains(c));
    }
}

/// The converse: from the four facts about the split back to the
/// inequalities on the whole list.
pub proof fn lemma_ultrametric_joins(m: Seq<Seq<i64>>, part: Seq<usize>, s: Split, floor: int)
    requires
        split_context(m, part),
        splits_at_min(m, part, s),
        s.min >= floor,
        block_equal(m, s.left, s.right, s.min),
        ultrametric_on(m, s.left, s.min as int),
        ultrametric_on(m, s.right, s.min as int),
    ensures
        ultrametric_on(m, part, floor),
{
    let p = part[0];
    let rest = part.drop_first();
    assert(s.left.contains(s.left[0]));
    assert forall|x: usize| part.contains(x) implies (s.left.contains(x) || s.right.contains(x))
        && x < m.len() by {
        lemma_first_or_rest(part, x);
        lemma_all_below_contains(part, m.len(), x);
    }
    assert forall|a: usize, b: usize|
        #![trigger part.contains(a), part.contains(b)]
        part.contains(a) && part.contains(b) && a != b implies m[a as int][b as int]
        >= floor by {
        assert(m[a as int][b as int] == m[b as int][a as int]);
    }
    assert forall|a: usize, b: usize, c: usize|
        #![trigger part.contains(a), part.contains(b), part.contains(c)]
        part.contains(a) && part.contains(b) && part.contains(c) && a != b && b != c && a
            != c implies m[a as int][c as int] >= lesser(
        m[a as int][b as int] as int,
        m[b as int][c as int] as int,
    ) by {
        assert(m[a as int][b as int] == m[b as int][a as int]);
        assert(m[a as int][c as int] == m[c as int][a as int]);
        assert(m[b as int][c as int] == m[c as int][b as int]);
    }
}

} // verus!

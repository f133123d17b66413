//! Finite sums over index lists.

use crate::seq_facts::{all_below, identity_indices};
use vstd::prelude::*;

verus! {

/// The sum of `f` over the elements of `s`, each as often as it occurs.
pub open spec fn sum_over(s: Seq<usize>, f: spec_fn(usize) -> int) -> int
    decreases s.len(),
{
    if s.len() == 0 {
        0
    } else {
        sum_over(s.drop_last(), f) + f(s.last())
    }
}

/// The entry of the vector at an index, as a function of the index.
pub open spec fn entry_of(v: Seq<i64>) -> spec_fn(usize) -> int {
    |j: usize| v[j as int] as int
}

/// The sum of the entries that `v` has at the indices of `s`.
pub open spec fn sum_at(v: Seq<i64>, s: Seq<usize>) -> int {
    sum_over(s, entry_of(v))
}

/// The inner product of `a` with the first `a.len()` entries of `b`.
pub open spec fn dot(a: Seq<i64>, b: Seq<i64>) -> int
    decreases a.len(),
{
    if a.len() == 0 {
        0
    } else {
        dot(a.drop_last(), b) + a.last() * b[a.len() - 1]
    }
}

/// The product of a matrix, given by its rows, and a vector.
pub open spec fn dense_product(m: Seq<Seq<i64>>, v: Seq<i64>) -> Seq<int> {
    Seq::new(m.len(), |i: int| dot(m[i], v))
}

/// Every term and every partial sum of the inner product of `a` and `b`
/// fits in 64 bits.
pub open spec fn dot_fits(a: Seq<i64>, b: Seq<i64>) -> bool {
    forall|k: int|
        0 <= k < a.len() ==> i64::MIN <= #[trigger] a[k] * b[k] <= i64::MAX && i64::MIN <= dot(
            a.take(k + 1),
            b,
        ) <= i64::MAX
}

/// Every term and every partial sum of the product of a matrix, given by
/// its rows, and a vector fits in 64 bits.
pub open spec fn dense_product_fits(m: Seq<Seq<i64>>, v: Seq<i64>) -> bool {
    forall|i: int| 0 <= i < m.len() ==> dot_fits(#[trigger] m[i], v)
}

/// One more entry adds its term to the inner product.
pub proof fn lemma_dot_step(a: Seq<i64>, b: Seq<i64>, k: int)
    requires
        0 <= k < a.len(),
    ensures
        dot(a.take(k + 1), b) == dot(a.take(k), b) + a[k] * b[k],
        dot(a.take(0), b) == 0,
        dot(a.take(a.len() as int), b) == dot(a, b),
{
    assert(a.take(k + 1).drop_last() == a.take(k));
    assert(a.take(k + 1).last() == a[k]);
    assert(a.take(0).len() == 0);
    assert(a.take(a.len() as int) == a);
}

/// One more element adds its term to the sum.
pub proof fn lemma_sum_over_push(s: Seq<usize>, x: usize, f: spec_fn(usize) -> int)
    ensures
        sum_over(s.push(x), f) == sum_over(s, f) + f(x),
{
    assert(s.push(x).drop_last() == s);
}

/// Sums agree when the summands agree on the list.
pub proof fn lemma_sum_over_ext(s: Seq<usize>, f: spec_fn(usize) -> int, g: spec_fn(usize) -> int)
    requires
        forall|k: int| 0 <= k < s.len() ==> f(#[trigger] s[k]) == g(s[k]),
    ensures
        sum_over(s, f) == sum_over(s, g),
    decreases s.len(),
{
    if s.len() > 0 {
        lemma_sum_over_ext(s.drop_last(), f, g);
        assert(f(s[s.len() - 1]) == g(s[s.len() - 1]));
    }
}

/// The sum over a concatenation is the sum of the sums.
pub proof fn lemma_sum_over_concat(a: Seq<usize>, b: Seq<usize>, f: spec_fn(usize) -> int)
    ensures
        sum_over(a + b, f) == sum_over(a, f) + sum_over(b, f),
    decreases b.len(),
{
    if b.len() == 0 {
        assert(a + b == a);
    } else {
        lemma_sum_over_concat(a, b.drop_last(), f);
        assert((a + b).drop_last() == a + b.drop_last());
    }
}

/// A constant factor can be taken out of a sum.
pub proof fn lemma_sum_over_scaled(
    s: Seq<usize>,
    c: int,
    f: spec_fn(usize) -> int,
    g: spec_fn(usize) -> int,
)
    requires
        forall|k: int| 0 <= k < s.len() ==> g(#[trigger] s[k]) == c * f(s[k]),
    ensures
        sum_over(s, g) == c * sum_over(s, f),
    decreases s.len(),
{
    if s.len() > 0 {
        lemma_sum_over_scaled(s.drop_last(), c, f, g);
        let x = s.last();
        assert(g(s[s.len() - 1]) == c * f(x));
        assert(c * (sum_over(s.drop_last(), f) + f(x)) == c * sum_over(s.drop_last(), f) + c
            * f(x)) by (nonlinear_arith);
    } else {
        assert(c * 0 == 0);
    }
}

/// A sum of 64-bit entries stays within `2^63` times the number of terms.
pub proof fn lemma_sum_at_bound(v: Seq<i64>, s: Seq<usize>)
    ensures
        -(s.len() * 0x8000_0000_0000_0000) <= sum_at(v, s) <= s.len() * 0x8000_0000_0000_0000,
    decreases s.len(),
{
    if s.len() > 0 {
        lemma_sum_at_bound(v, s.drop_last());
    }
}

/// Taking one position out of a list.
proof fn lemma_sum_over_remove(s: Seq<usize>, p: int, f: spec_fn(usize) -> int)
    requires
        0 <= p < s.len(),
    ensures
        sum_over(s, f) == sum_over(s.remove(p), f) + f(s[p]),
{
    let a = s.take(p);
    let b = s.skip(p + 1);
    assert(s == a.push(s[p]) + b);
    assert(s.remove(p) == a + b);
    lemma_sum_over_concat(a.push(s[p]), b, f);
    lemma_sum_over_concat(a, b, f);
    lemma_sum_over_push(a, s[p], f);
}

/// The order of the terms does not matter: a list that holds each index
/// below `n` exactly once sums to what `0, .., n - 1` sums to.
pub proof fn lemma_sum_over_permutation(s: Seq<usize>, n: nat, f: spec_fn(usize) -> int)
    requires
        n <= usize::MAX,
        s.no_duplicates(),
        all_below(s, n),
        forall|x: usize| x < n ==> s.contains(x),
    ensures
        s.len() == n,
        sum_over(s, f) == sum_over(identity_indices(n), f),
    decreases n,
{
    if n == 0 {
        if s.len() > 0 {
            assert(s[0] < n);
        }
        assert(identity_indices(0).len() == 0);
    } else {
        let top = (n - 1) as usize;
        assert(s.contains(top));
        let p = choose|p: int| 0 <= p < s.len() && s[p] == top;
        let rest = s.remove(p);
        assert forall|i: int, j: int| 0 <= i < rest.len() && 0 <= j < rest.len() && i
            != j implies rest[i] != rest[j] by {
            let si = if i < p { i } else { i + 1 };
            let sj = if j < p { j } else { j + 1 };
            assert(rest[i] == s[si] && rest[j] == s[sj]);
        }
        assert forall|k: int| 0 <= k < rest.len() implies (#[trigger] rest[k]) < (n - 1) as nat by {
            let sk = if k < p { k } else { k + 1 };
            assert(rest[k] == s[sk]);
            assert(s[sk] < n);
            assert(s[sk] != s[p]);
        }
        assert forall|x: usize| x < (n - 1) as nat implies rest.contains(x) by {
            assert(s.contains(x));
            let q = choose|q: int| 0 <= q < s.len() && s[q] == x;
            if q < p {
                assert(rest[q] == x);
            } else {
                assert(rest[q - 1] == x);
            }
        }
        lemma_sum_over_permutation(rest, (n - 1) as nat, f);
        lemma_sum_over_remove(s, p, f);
        let ids = identity_indices(n);
        assert(ids.drop_last() == identity_indices((n - 1) as nat));
        assert(ids.last() == top);
    }
}

/// Two lists without repetition that hold the same values have one sum.
pub proof fn lemma_sum_over_same_elements(a: Seq<usize>, b: Seq<usize>, f: spec_fn(usize) -> int)
    requires
        a.no_duplicates(),
        b.no_duplicates(),
        forall|x: usize| a.contains(x) <==> b.contains(x),
    ensures
        a.len() == b.len(),
        sum_over(a, f) == sum_over(b, f),
    decreases a.len(),
{
    if a.len() == 0 {
        if b.len() > 0 {
            assert(b.contains(b[0]));
        }
    } else {
        let x = a.last();
        let front = a.drop_last();
        assert(a.contains(x));
        assert(b.contains(x));
        let p = choose|p: int| 0 <= p < b.len() && b[p] == x;
        let rest = b.remove(p);
        assert forall|i: int, j: int| 0 <= i < rest.len() && 0 <= j < rest.len() && i
            != j implies rest[i] != rest[j] by {
            let si = if i < p { i } else { i + 1 };
            let sj = if j < p { j } else { j + 1 };
            assert(rest[i] == b[si] && rest[j] == b[sj]);
        }
        assert forall|y: usize| front.contains(y) <==> rest.contains(y) by {
            if front.contains(y) {
                let k = choose|k: int| 0 <= k < front.len() && front[k] == y;
                assert(a[k] == y);
                assert(a.contains(y));
                assert(y != x);
                let q = choose|q: int| 0 <= q < b.len() && b[q] == y;
                if q < p {
                    assert(rest[q] == y);
                } else {
                    assert(rest[q - 1] == y);
                }
            }
            if rest.contains(y) {
                let k = choose|k: int| 0 <= k < rest.len() && rest[k] == y;
                let sk = if k < p { k } else { k + 1 };
                assert(rest[k] == b[sk]);
                assert(b.contains(y));
                assert(y != x);
                let q = choose|q: int| 0 <= q < a.len() && a[q] == y;
                assert(front[q] == y);
            }
        }
        lemma_sum_over_same_elements(front, rest, f);
        lemma_sum_over_remove(b, p, f);
    }
}

/// The inner product as a sum over `0, .., a.len() - 1`.
pub proof fn lemma_dot_as_sum(a: Seq<i64>, b: Seq<i64>, f: spec_fn(usize) -> int)
    requires
        a.len() <= usize::MAX,
        forall|j: usize| j < a.len() ==> #[trigger] f(j) == a[j as int] * b[j as int],
    ensures
        dot(a, b) == sum_over(identity_indices(a.len()), f),
    decreases a.len(),
{
    if a.len() > 0 {
        let front = a.drop_last();
        lemma_dot_as_sum(front, b, f);
        let ids = identity_indices(a.len());
        assert(ids.drop_last() == identity_indices(front.len()));
        assert(ids.last() == (a.len() - 1) as usize);
        assert(f((a.len() - 1) as usize) == a[a.len() - 1] * b[a.len() - 1]);
    } else {
        assert(identity_indices(0).len() == 0);
    }
}

} // verus!

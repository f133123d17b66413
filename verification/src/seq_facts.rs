//! Small facts about sequences of indices that the rest of the crate leans on.

use vstd::prelude::*;

verus! {

/// Every element of `s` is below `n`.
pub open spec fn all_below(s: Seq<usize>, n: nat) -> bool {
    forall|k: int| 0 <= k < s.len() ==> (#[trigger] s[k]) < n
}

/// No element occurs in both `a` and `b`.
pub open spec fn apart(a: Seq<usize>, b: Seq<usize>) -> bool {
    forall|x: usize| !(#[trigger] a.contains(x) && b.contains(x))
}

/// The sequence `0, 1, .., n - 1`.
pub open spec fn identity_indices(n: nat) -> Seq<usize> {
    Seq::new(n, |i: int| i as usize)
}

/// An element of a list below `n` is below `n`.
pub proof fn lemma_all_below_contains(s: Seq<usize>, n: nat, x: usize)
    requires
        all_below(s, n),
        s.contains(x),
    ensures
        x < n,
{
    let k = choose|k: int| 0 <= k < s.len() && s[k] == x;
    assert(s[k] < n);
}

/// A list is below `n` when each of its elements is.
pub proof fn lemma_all_below_from_contains(s: Seq<usize>, n: nat)
    requires
        forall|x: usize| s.contains(x) ==> x < n,
    ensures
        all_below(s, n),
{
    assert forall|k: int| 0 <= k < s.len() implies (#[trigger] s[k]) < n by {
        assert(s.contains(s[k]));
    }
}

/// A new element at the end keeps a list free of repetition.
pub proof fn lemma_push_no_duplicates(s: Seq<usize>, a: usize)
    requires
        s.no_duplicates(),
        !s.contains(a),
    ensures
        s.push(a).no_duplicates(),
{
    let t = s.push(a);
    assert forall|i: int, j: int| 0 <= i < t.len() && 0 <= j < t.len() && i != j implies t[i]
        != t[j] by {
        if i < s.len() {
            assert(s.contains(s[i]));
        }
        if j < s.len() {
            assert(s.contains(s[j]));
        }
    }
}

/// Two lists without repetition that share no element have a
/// concatenation without repetition.
pub proof fn lemma_concat_no_duplicates(a: Seq<usize>, b: Seq<usize>)
    requires
        a.no_duplicates(),
        b.no_duplicates(),
        apart(a, b),
    ensures
        (a + b).no_duplicates(),
{
    let t = a + b;
    assert forall|i: int, j: int| 0 <= i < t.len() && 0 <= j < t.len() && i != j implies t[i]
        != t[j] by {
        if i < a.len() {
            assert(a.contains(a[i]));
        } else {
            assert(b.contains(b[i - a.len()]));
        }
        if j < a.len() {
            assert(a.contains(a[j]));
        } else {
            assert(b.contains(b[j - a.len()]));
        }
    }
}

/// In a list without repetition the first element does not occur again,
/// and the rest does not repeat either.
pub proof fn lemma_drop_first_no_duplicates(part: Seq<usize>)
    requires
        part.len() >= 1,
        part.no_duplicates(),
    ensures
        part.drop_first().no_duplicates(),
        !part.drop_first().contains(part[0]),
{
    let rest = part.drop_first();
    assert forall|i: int, j: int|
        0 <= i < rest.len() && 0 <= j < rest.len() && i != j implies rest[i] != rest[j] by {
        assert(rest[i] == part[i + 1] && rest[j] == part[j + 1]);
    }
    if rest.contains(part[0]) {
        let j = choose|j: int| 0 <= j < rest.len() && rest[j] == part[0];
        assert(part[j + 1] == part[0]);
    }
}

/// What a filter keeps: the elements that satisfy the predicate, each as
/// often as before.
pub proof fn lemma_filter_keeps(s: Seq<usize>, pred: spec_fn(usize) -> bool)
    ensures
        forall|x: usize| #[trigger] s.filter(pred).contains(x) <==> s.contains(x) && pred(x),
        s.no_duplicates() ==> s.filter(pred).no_duplicates(),
    decreases s.len(),
{
    broadcast use vstd::seq_lib::lemma_seq_contains_after_push;

    reveal(Seq::filter);
    if s.len() > 0 {
        let front = s.drop_last();
        let last = s.last();
        lemma_filter_keeps(front, pred);
        assert(s == front.push(last));
        if s.no_duplicates() {
            assert(front.no_duplicates());
            assert(!front.contains(last)) by {
                if front.contains(last) {
                    let k = choose|k: int| 0 <= k < front.len() && front[k] == last;
                    assert(s[k] == s[s.len() - 1]);
                }
            }
            if pred(last) {
                lemma_push_no_duplicates(front.filter(pred), last);
            }
        }
    }
}

/// Two complementary filters share out the elements of a sequence.
pub proof fn lemma_filter_complement(
    s: Seq<usize>,
    pred: spec_fn(usize) -> bool,
    other: spec_fn(usize) -> bool,
)
    requires
        forall|x: usize| #[trigger] other(x) == !pred(x),
    ensures
        s.filter(pred).len() + s.filter(other).len() == s.len(),
    decreases s.len(),
{
    reveal(Seq::filter);
    if s.len() > 0 {
        lemma_filter_complement(s.drop_last(), pred, other);
    }
}

/// The list `0, .., n - 1` holds every index below `n` exactly once.
pub proof fn lemma_identity_indices(n: nat)
    requires
        n <= usize::MAX,
    ensures
        identity_indices(n).len() == n,
        identity_indices(n).no_duplicates(),
        all_below(identity_indices(n), n),
        forall|x: usize| identity_indices(n).contains(x) <==> x < n,
{
    let s = identity_indices(n);
    assert forall|x: usize| s.contains(x) <==> x < n by {
        if x < n {
            assert(s[x as int] == x);
        }
    }
}

/// The index list `0, 1, .., n - 1`.
pub(crate) fn index_range(n: usize) -> (ids: Vec<usize>)
    ensures
        ids@ == identity_indices(n as nat),
{
    let mut ids: Vec<usize> = Vec::new();
    let mut i: usize = 0;
    while i < n
        invariant
            i <= n,
            ids@ == identity_indices(i as nat),
        decreases n - i,
    {
        ids.push(i);
        assert(ids@ =~= identity_indices((i + 1) as nat));
        i += 1;
    }
    ids
}

} // verus!

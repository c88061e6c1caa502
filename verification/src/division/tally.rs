//! Counting the indices that satisfy a predicate: the arithmetic a bound on
//! rounds rests on.

use vstd::prelude::*;

use crate::attention::count_where;

verus! {

/// A count lies between zero and the range.
pub proof fn lemma_tally_bounds(n: int, f: spec_fn(int) -> bool)
    requires
        n >= 0,
    ensures
        0 <= count_where(n, f) <= n,
    decreases n,
{
    if n > 0 {
        lemma_tally_bounds(n - 1, f);
    }
}

/// Predicates that agree on the range count alike.
pub proof fn lemma_tally_ext(n: int, f: spec_fn(int) -> bool, g: spec_fn(int) -> bool)
    requires
        forall|i: int| 0 <= i < n ==> #[trigger] f(i) == g(i),
    ensures
        count_where(n, f) == count_where(n, g),
    decreases n,
{
    if n > 0 {
        lemma_tally_ext(n - 1, f, g);
    }
}

/// A predicate implied by another counts at least as many.
pub proof fn lemma_tally_le(n: int, f: spec_fn(int) -> bool, g: spec_fn(int) -> bool)
    requires
        forall|i: int| 0 <= i < n && #[trigger] f(i) ==> g(i),
    ensures
        count_where(n, f) <= count_where(n, g),
    decreases n,
{
    if n > 0 {
        lemma_tally_le(n - 1, f, g);
    }
}

/// Counting `f` splits into counting where `g` holds and where it does not.
pub proof fn lemma_tally_split(n: int, f: spec_fn(int) -> bool, g: spec_fn(int) -> bool)
    ensures
        count_where(n, f) == count_where(n, |i: int| f(i) && g(i)) + count_where(n, |i: int| f(i) && !g(i)),
    decreases n,
{
    if n > 0 {
        lemma_tally_split(n - 1, f, g);
    }
}

/// A longer range counts at least as many, and one more for each extra
/// index that satisfies the predicate.
pub proof fn lemma_tally_grows(m: int, n: int, f: spec_fn(int) -> bool)
    requires
        0 <= m <= n,
    ensures
        count_where(m, f) <= count_where(n, f),
        m < n && f(m) ==> count_where(m, f) + 1 <= count_where(n, f),
    decreases n - m,
{
    if m < n {
        lemma_tally_grows(m, n - 1, f);
        if m < n - 1 {
            lemma_tally_grows(m + 1, n - 1, f);
            lemma_tally_grows(m, m + 1, f);
        }
    }
}

/// Counting a prefix is counting the whole range below its end.
pub proof fn lemma_tally_prefix(m: int, n: int, f: spec_fn(int) -> bool)
    requires
        0 <= m <= n,
    ensures
        count_where(m, f) == count_where(n, |i: int| f(i) && i < m),
    decreases n - m,
{
    if m == n {
        lemma_tally_ext(n, f, |i: int| f(i) && i < m);
    } else {
        lemma_tally_prefix(m, n - 1, f);
    }
}

/// A predicate that at most one index satisfies counts at most one.
pub proof fn lemma_tally_at_most_one(n: int, f: spec_fn(int) -> bool)
    requires
        forall|i: int, j: int| 0 <= i < n && 0 <= j < n && #[trigger] f(i) && #[trigger] f(j) ==> i == j,
    ensures
        count_where(n, f) <= 1,
    decreases n,
{
    if n > 0 {
        lemma_tally_at_most_one(n - 1, f);
        if f(n - 1) {
            assert forall|i: int| 0 <= i < n - 1 implies !#[trigger] f(i) by {
                if f(i) {
                    assert(f(i) && f(n - 1));
                }
            }
            lemma_tally_le(n - 1, f, |i: int| false);
            lemma_tally_zero(n - 1);
        }
    }
}

/// Nothing satisfies the false predicate.
pub proof fn lemma_tally_zero(n: int)
    ensures
        count_where(n, |i: int| false) == 0,
    decreases n,
{
    if n > 0 {
        lemma_tally_zero(n - 1);
    }
}

/// Every index satisfies the true predicate.
pub proof fn lemma_tally_all(n: int)
    requires
        n >= 0,
    ensures
        count_where(n, |i: int| true) == n,
    decreases n,
{
    if n > 0 {
        lemma_tally_all(n - 1);
    }
}

/// The indices satisfying `f` whose key is `b`.
pub open spec fn in_bucket(f: spec_fn(int) -> bool, key: spec_fn(int) -> int, b: int) -> spec_fn(int) -> bool {
    |i: int| f(i) && key(i) == b
}

/// The indices satisfying `f` whose key is below `m`.
pub open spec fn below(f: spec_fn(int) -> bool, key: spec_fn(int) -> int, m: int) -> spec_fn(int) -> bool {
    |i: int| f(i) && key(i) < m
}

/// Sorting indices into `m` buckets by a key, each bucket holding at most
/// `cap` of them, holds at most `m * cap`.
pub proof fn lemma_tally_buckets(n: int, f: spec_fn(int) -> bool, key: spec_fn(int) -> int, m: int, cap: int)
    requires
        m >= 0,
        cap >= 0,
        forall|i: int| 0 <= i < n && #[trigger] f(i) ==> key(i) >= 0,
        forall|b: int| 0 <= b < m ==> #[trigger] count_where(n, in_bucket(f, key, b)) <= cap,
    ensures
        count_where(n, below(f, key, m)) <= m * cap,
    decreases m,
{
    if m == 0 {
        assert forall|i: int| 0 <= i < n && #[trigger] below(f, key, m)(i) implies false by {
            assert(f(i));
        }
        lemma_tally_le(n, below(f, key, m), |i: int| false);
        lemma_tally_zero(n);
    } else {
        lemma_tally_buckets(n, f, key, m - 1, cap);
        let all = below(f, key, m);
        let g = |i: int| key(i) < m - 1;
        lemma_tally_split(n, all, g);
        lemma_tally_ext(n, |i: int| all(i) && g(i), below(f, key, m - 1));
        lemma_tally_ext(n, |i: int| all(i) && !g(i), in_bucket(f, key, m - 1));
        assert(count_where(n, in_bucket(f, key, m - 1)) <= cap);
        assert((m - 1) * cap + cap == m * cap) by (nonlinear_arith);
    }
}

} // verus!

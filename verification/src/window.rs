//! The part of the medium a fold reads: the traces within a window back from
//! a sequence, ordered by where they were authored, one per address.
//!
//! A trace is addressed by `(sequence, offset)`. Ordering by that address and
//! keeping one trace per address is what makes every fold over the window
//! commutative and idempotent: a redelivered trace, or a caller that folds an
//! unordered list, lands in exactly the same place as one that saw the medium
//! in order.

use vstd::prelude::*;

use crate::trace::{Trace, alike, lemma_alike_at, lemma_view_fields, trace_view, trace_views};

verus! {

/// Where a trace was authored, as one integer ordered by sequence and then
/// by offset.
pub open spec fn key(t: Trace) -> int {
    t.sequence.0 * 18446744073709551616 + t.offset
}

/// Whether a trace is at or before `at` and no more than `window` back.
pub open spec fn in_window(t: Trace, at: u64, window: u32) -> bool {
    t.sequence.0 <= at && t.sequence.0 + window >= at
}

/// Whether `traces[k]` is the first trace of `traces` at its address.
pub open spec fn first_index(traces: Seq<Trace>, k: int) -> bool {
    0 <= k < traces.len() && forall|m: int| 0 <= m < k ==> key(#[trigger] traces[m]) != key(traces[k])
}

/// Whether `t` is the first trace of `traces` at its address.
pub open spec fn first_at_address(traces: Seq<Trace>, t: Trace) -> bool {
    exists|k: int| first_index(traces, k) && traces[k] == t
}

/// Whether a sequence of integers is strictly ascending.
pub open spec fn ascending(s: Seq<int>) -> bool {
    forall|i: int, j: int| 0 <= i < j < s.len() ==> s[i] < s[j]
}

/// The addresses of a sequence of traces.
pub open spec fn keys(r: Seq<Trace>) -> Seq<int> {
    r.map_values(|t: Trace| key(t))
}

/// Every trace of `r` is in the window and first at its address.
#[verifier::opaque]
pub open spec fn members_first(traces: Seq<Trace>, at: u64, window: u32, r: Seq<Trace>) -> bool {
    forall|i: int|
        0 <= i < r.len() ==> in_window(#[trigger] r[i], at, window) && first_at_address(traces, r[i])
}

/// Every address in the window appears in `r`.
#[verifier::opaque]
pub open spec fn covers(traces: Seq<Trace>, at: u64, window: u32, r: Seq<Trace>) -> bool {
    forall|k: int|
        0 <= k < traces.len() && in_window(#[trigger] traces[k], at, window) ==> keys(r).contains(
            key(traces[k]),
        )
}

/// Whether `r` is the window of `traces`: ascending by address, one trace
/// per address, each the first trace at that address, and every address in
/// the window present.
pub open spec fn is_window(traces: Seq<Trace>, at: u64, window: u32, r: Seq<Trace>) -> bool {
    &&& ascending(keys(r))
    &&& members_first(traces, at, window, r)
    &&& covers(traces, at, window, r)
}

/// The window of `traces` back from `at`.
pub open spec fn window_of(traces: Seq<Trace>, at: u64, window: u32) -> Seq<Trace> {
    choose|r: Seq<Trace>| is_window(traces, at, window, r)
}

/// The traces an index vector names.
pub open spec fn picked(traces: Seq<Trace>, idx: Seq<usize>) -> Seq<Trace> {
    idx.map_values(|i: usize| traces[i as int])
}

/// Two traces that are each first at one address are the same trace.
proof fn lemma_first_unique(traces: Seq<Trace>, a: Trace, b: Trace)
    requires
        first_at_address(traces, a),
        first_at_address(traces, b),
        key(a) == key(b),
    ensures
        a == b,
{
    let ka = choose|k: int| first_index(traces, k) && traces[k] == a;
    let kb = choose|k: int| first_index(traces, k) && traces[k] == b;
    if ka < kb {
        assert(key(traces[ka]) != key(traces[kb]));
    } else if kb < ka {
        assert(key(traces[kb]) != key(traces[ka]));
    }
}

/// Two strictly ascending sequences of integers with one set of elements are
/// equal.
proof fn lemma_sorted_same_set(a: Seq<int>, b: Seq<int>)
    requires
        ascending(a),
        ascending(b),
        forall|i: int| 0 <= i < a.len() ==> b.contains(#[trigger] a[i]),
        forall|j: int| 0 <= j < b.len() ==> a.contains(#[trigger] b[j]),
    ensures
        a == b,
    decreases a.len() + b.len(),
{
    if a.len() == 0 {
        if b.len() > 0 {
            assert(a.contains(b[0]));
        }
        assert(a =~= b);
        return;
    }
    if b.len() == 0 {
        assert(b.contains(a[0]));
        return;
    }
    let n = a.len() - 1;
    let m = b.len() - 1;
    assert(b.contains(a[n]));
    assert(a.contains(b[m]));
    let j = choose|j: int| 0 <= j < b.len() && b[j] == a[n];
    let i = choose|i: int| 0 <= i < a.len() && a[i] == b[m];
    assert(a[n] == b[m]) by {
        if j < m {
            assert(b[j] < b[m]);
            if i < n {
                assert(a[i] < a[n]);
            }
        }
    }
    let c = a.drop_last();
    let d = b.drop_last();
    assert forall|x: int| 0 <= x < c.len() implies d.contains(#[trigger] c[x]) by {
        assert(a[x] < a[n]);
        assert(b.contains(a[x]));
        let y = choose|y: int| 0 <= y < b.len() && b[y] == a[x];
        if y == m {
            assert(false);
        }
        assert(d[y] == c[x]);
    }
    assert forall|y: int| 0 <= y < d.len() implies c.contains(#[trigger] d[y]) by {
        assert(b[y] < b[m]);
        assert(a.contains(b[y]));
        let x = choose|x: int| 0 <= x < a.len() && a[x] == b[y];
        if x == n {
            assert(false);
        }
        assert(c[x] == d[y]);
    }
    lemma_sorted_same_set(c, d);
    assert(a =~= c.push(a[n]));
    assert(b =~= d.push(b[m]));
}

/// A window is unique: whatever satisfies `is_window` is `window_of`.
pub proof fn lemma_window_unique(traces: Seq<Trace>, at: u64, window: u32, r: Seq<Trace>)
    requires
        is_window(traces, at, window, r),
    ensures
        window_of(traces, at, window) == r,
{
    let w = window_of(traces, at, window);
    assert(is_window(traces, at, window, w));
    lemma_windows_agree(traces, at, window, r, w);
}

/// Any two windows of one medium are equal.
proof fn lemma_windows_agree(traces: Seq<Trace>, at: u64, window: u32, r: Seq<Trace>, w: Seq<Trace>)
    requires
        is_window(traces, at, window, r),
        is_window(traces, at, window, w),
    ensures
        r == w,
{
    reveal(members_first);
    reveal(covers);
    let a = keys(r);
    let b = keys(w);
    assert forall|i: int| 0 <= i < a.len() implies b.contains(#[trigger] a[i]) by {
        assert(in_window(r[i], at, window) && first_at_address(traces, r[i]));
        let k = choose|k: int| first_index(traces, k) && traces[k] == r[i];
        assert(in_window(traces[k], at, window));
    }
    assert forall|j: int| 0 <= j < b.len() implies a.contains(#[trigger] b[j]) by {
        assert(in_window(w[j], at, window) && first_at_address(traces, w[j]));
        let k = choose|k: int| first_index(traces, k) && traces[k] == w[j];
        assert(in_window(traces[k], at, window));
    }
    lemma_sorted_same_set(a, b);
    assert forall|i: int| 0 <= i < r.len() implies r[i] == w[i] by {
        assert(a[i] == b[i]);
        assert(first_at_address(traces, r[i]));
        assert(first_at_address(traces, w[i]));
        lemma_first_unique(traces, r[i], w[i]);
    }
    assert(r =~= w);
}

/// The first position of `a` whose element is not below `x`.
proof fn lemma_split_point(a: Seq<int>, x: int) -> (p: int)
    ensures
        0 <= p <= a.len(),
        forall|i: int| 0 <= i < p ==> a[i] < x,
        p < a.len() ==> a[p] >= x,
    decreases a.len(),
{
    if a.len() == 0 {
        0
    } else {
        let q = lemma_split_point(a.drop_last(), x);
        assert(forall|i: int| 0 <= i < q ==> a.drop_last()[i] == a[i]);
        if q < a.len() - 1 {
            q
        } else if a.last() < x {
            a.len() as int
        } else {
            q
        }
    }
}

/// A window of the first `n` traces, built the way `window_indices` builds
/// it.
proof fn window_witness(traces: Seq<Trace>, n: int, at: u64, window: u32) -> (idx: Seq<usize>)
    requires
        0 <= n <= traces.len(),
        traces.len() <= usize::MAX,
    ensures
        is_window(traces.take(n), at, window, picked(traces, idx)),
        forall|i: int| 0 <= i < idx.len() ==> idx[i] < n,
    decreases n,
{
    if n == 0 {
        reveal(members_first);
        reveal(covers);
        let idx = Seq::<usize>::empty();
        assert(picked(traces, idx) =~= Seq::<Trace>::empty());
        assert(keys(picked(traces, idx)) =~= Seq::<int>::empty());
        idx
    } else {
        let k = n - 1;
        let idx = window_witness(traces, k, at, window);
        let t = traces[k];
        if !in_window(t, at, window) {
            lemma_window_outside(traces, k, at, window, idx);
            idx
        } else {
            let r = picked(traces, idx);
            let p = lemma_split_point(keys(r), key(t));
            if p < idx.len() && key(r[p]) == key(t) {
                lemma_window_skip(traces, k, at, window, idx, p);
                idx
            } else {
                let after = idx.insert(p, k as usize);
                assert forall|i: int| 0 <= i < p implies key(#[trigger] r[i]) < key(t) by {
                    assert(keys(r)[i] == key(r[i]));
                }
                if p < idx.len() {
                    assert(keys(r)[p] == key(r[p]));
                }
                lemma_window_insert(traces, k, at, window, idx, p, after);
                after
            }
        }
    }
}

/// Every list of traces that fits in memory has a window.
pub proof fn lemma_window_exists(traces: Seq<Trace>, at: u64, window: u32)
    requires
        traces.len() <= usize::MAX,
    ensures
        is_window(traces, at, window, window_of(traces, at, window)),
{
    let idx = window_witness(traces, traces.len() as int, at, window);
    assert(traces.take(traces.len() as int) =~= traces);
    lemma_window_unique(traces, at, window, picked(traces, idx));
}

/// Whether two lists hold the same traces, in whatever order and however
/// often.
pub open spec fn same_traces(a: Seq<Trace>, b: Seq<Trace>) -> bool {
    &&& forall|i: int| 0 <= i < a.len() ==> b.contains(#[trigger] a[i])
    &&& forall|j: int| 0 <= j < b.len() ==> a.contains(#[trigger] b[j])
}

/// Whether no two different traces of a list share an address.
pub open spec fn addresses_identify(t: Seq<Trace>) -> bool {
    forall|i: int, j: int|
        0 <= i < t.len() && 0 <= j < t.len() && key(#[trigger] t[i]) == key(#[trigger] t[j]) ==> t[i]
            == t[j]
}

/// The first position at which a trace occurs in a list.
proof fn lemma_first_occurrence(s: Seq<Trace>, x: Trace, n: int) -> (k: int)
    requires
        0 <= n < s.len(),
        s[n] == x,
    ensures
        0 <= k <= n,
        s[k] == x,
        forall|m: int| 0 <= m < k ==> #[trigger] s[m] != x,
    decreases n,
{
    if exists|m: int| 0 <= m < n && s[m] == x {
        let m = choose|m: int| 0 <= m < n && s[m] == x;
        lemma_first_occurrence(s, x, m)
    } else {
        n
    }
}

/// When addresses identify traces, a trace of the list is first at its
/// address.
proof fn lemma_identified_first(t: Seq<Trace>, x: Trace)
    requires
        addresses_identify(t),
        t.contains(x),
    ensures
        first_at_address(t, x),
{
    let n = choose|n: int| 0 <= n < t.len() && t[n] == x;
    let k = lemma_first_occurrence(t, x, n);
    assert forall|m: int| 0 <= m < k implies key(#[trigger] t[m]) != key(t[k]) by {
        if key(t[m]) == key(t[k]) {
            assert(t[m] == t[k]);
            assert(t[m] != x);
        }
    }
    assert(first_index(t, k));
}

/// Two lists holding the same traces, each with one trace per address,
/// have one window.
pub proof fn lemma_window_same_medium(a: Seq<Trace>, b: Seq<Trace>, at: u64, window: u32)
    requires
        same_traces(a, b),
        addresses_identify(a),
        addresses_identify(b),
        a.len() <= usize::MAX,
    ensures
        window_of(a, at, window) == window_of(b, at, window),
{
    let r = window_of(a, at, window);
    lemma_window_exists(a, at, window);
    assert(is_window(a, at, window, r));
    reveal(members_first);
    reveal(covers);
    assert forall|i: int| 0 <= i < r.len() implies in_window(#[trigger] r[i], at, window)
        && first_at_address(b, r[i]) by {
        assert(first_at_address(a, r[i]));
        let k = choose|k: int| first_index(a, k) && a[k] == r[i];
        assert(b.contains(a[k]));
        lemma_identified_first(b, r[i]);
    }
    assert forall|k: int| 0 <= k < b.len() && in_window(#[trigger] b[k], at, window) implies keys(
        r,
    ).contains(key(b[k])) by {
        assert(a.contains(b[k]));
        let k1 = choose|k1: int| 0 <= k1 < a.len() && a[k1] == b[k];
        assert(in_window(a[k1], at, window));
    }
    assert(is_window(b, at, window, r));
    lemma_window_unique(b, at, window, r);
}

/// Folding traces a second time leaves the window as it was.
pub proof fn lemma_window_redelivered(traces: Seq<Trace>, extra: Seq<Trace>, at: u64, window: u32)
    requires
        forall|j: int| 0 <= j < extra.len() ==> traces.contains(#[trigger] extra[j]),
        traces.len() <= usize::MAX,
    ensures
        window_of(traces + extra, at, window) == window_of(traces, at, window),
{
    let all = traces + extra;
    let r = window_of(traces, at, window);
    lemma_window_exists(traces, at, window);
    assert(is_window(traces, at, window, r));
    reveal(members_first);
    reveal(covers);
    assert forall|i: int| 0 <= i < r.len() implies in_window(#[trigger] r[i], at, window)
        && first_at_address(all, r[i]) by {
        assert(first_at_address(traces, r[i]));
        let k = choose|k: int| first_index(traces, k) && traces[k] == r[i];
        assert forall|m: int| 0 <= m < k implies key(#[trigger] all[m]) != key(all[k]) by {
            assert(all[m] == traces[m]);
        }
        assert(all[k] == traces[k]);
        assert(first_index(all, k));
    }
    assert forall|k: int| 0 <= k < all.len() && in_window(#[trigger] all[k], at, window) implies keys(
        r,
    ).contains(key(all[k])) by {
        if k < traces.len() {
            assert(all[k] == traces[k]);
        } else {
            assert(all[k] == extra[k - traces.len()]);
            assert(traces.contains(extra[k - traces.len()]));
            let k1 = choose|k1: int| 0 <= k1 < traces.len() && traces[k1] == all[k];
            assert(in_window(traces[k1], at, window));
        }
    }
    assert(is_window(all, at, window, r));
    lemma_window_unique(all, at, window, r);
}

/// Whether `a` was authored strictly before `b`.
pub fn addressed_before(a: &Trace, b: &Trace) -> (before: bool)
    ensures
        before == (key(*a) < key(*b)),
{
    a.sequence.0 < b.sequence.0 || (a.sequence.0 == b.sequence.0 && a.offset < b.offset)
}

/// Whether two traces sit at one address.
pub fn same_address(a: &Trace, b: &Trace) -> (same: bool)
    ensures
        same == (key(*a) == key(*b)),
{
    a.sequence.0 == b.sequence.0 && a.offset == b.offset
}

/// Select the window of `traces` back from `at`, as indices into `traces`.
pub fn window_indices(traces: &[Trace], at: u64, window: u32) -> (idx: Vec<usize>)
    ensures
        is_window(traces@, at, window, picked(traces@, idx@)),
        picked(traces@, idx@) == window_of(traces@, at, window),
        forall|i: int| 0 <= i < idx@.len() ==> idx@[i] < traces@.len(),
        idx@.len() <= traces@.len(),
{
    let floor = at.saturating_sub(window as u64);
    let mut idx: Vec<usize> = Vec::new();
    proof {
        reveal(members_first);
        reveal(covers);
    }
    let mut k: usize = 0;
    while k < traces.len()
        invariant
            k <= traces@.len(),
            floor as int == if at >= window { at - window } else { 0 },
            forall|i: int| 0 <= i < idx@.len() ==> idx@[i] < k,
            idx@.len() <= k,
            is_window(traces@.take(k as int), at, window, picked(traces@, idx@)),
        decreases traces@.len() - k,
    {
        let ghost old_idx = idx@;
        let t = &traces[k];
        if t.sequence.0 >= floor && t.sequence.0 <= at {
            let mut p: usize = 0;
            while p < idx.len() && addressed_before(&traces[idx[p]], t)
                invariant
                    p <= idx@.len(),
                    idx@ == old_idx,
                    forall|i: int| 0 <= i < idx@.len() ==> idx@[i] < k,
                    k < traces@.len(),
                    *t == traces@[k as int],
                    forall|i: int| 0 <= i < p ==> key(#[trigger] picked(traces@, idx@)[i]) < key(*t),
                decreases idx@.len() - p,
            {
                assert(picked(traces@, idx@)[p as int] == traces@[idx@[p as int] as int]);
                p = p + 1;
            }
            let repeated = p < idx.len() && same_address(&traces[idx[p]], t);
            if !repeated {
                idx.insert(p, k);
                proof {
                    if p < old_idx.len() {
                        assert(picked(traces@, old_idx)[p as int] == traces@[old_idx[p as int] as int]);
                    }
                    lemma_window_insert(traces@, k as int, at, window, old_idx, p as int, idx@);
                }
            } else {
                proof {
                    assert(picked(traces@, old_idx)[p as int] == traces@[old_idx[p as int] as int]);
                    lemma_window_skip(traces@, k as int, at, window, old_idx, p as int);
                }
            }
        } else {
            proof {
                lemma_window_outside(traces@, k as int, at, window, old_idx);
            }
        }
        k = k + 1;
    }
    assert(traces@.take(traces@.len() as int) =~= traces@);
    proof {
        lemma_window_unique(traces@, at, window, picked(traces@, idx@));
    }
    idx
}

/// Whatever was first at its address in a prefix is still first in a longer
/// prefix.
proof fn lemma_first_extends(traces: Seq<Trace>, k: int, t: Trace)
    requires
        0 <= k < traces.len(),
        first_at_address(traces.take(k), t),
    ensures
        first_at_address(traces.take(k + 1), t),
{
    let prefix = traces.take(k);
    let next = traces.take(k + 1);
    let w = choose|w: int| first_index(prefix, w) && prefix[w] == t;
    assert(next[w] == t);
    assert forall|m: int| 0 <= m < w implies key(#[trigger] next[m]) != key(next[w]) by {
        assert(next[m] == prefix[m]);
    }
    assert(first_index(next, w));
}

/// Members of a window of a prefix stay first in the longer prefix.
proof fn lemma_members_extend(traces: Seq<Trace>, k: int, at: u64, window: u32, r: Seq<Trace>)
    requires
        0 <= k < traces.len(),
        members_first(traces.take(k), at, window, r),
    ensures
        forall|i: int|
            0 <= i < r.len() ==> in_window(#[trigger] r[i], at, window) && first_at_address(
                traces.take(k + 1),
                r[i],
            ),
{
    reveal(members_first);
    assert forall|i: int| 0 <= i < r.len() implies in_window(#[trigger] r[i], at, window)
        && first_at_address(traces.take(k + 1), r[i]) by {
        lemma_first_extends(traces, k, r[i]);
    }
}

/// A trace outside the window leaves the window unchanged.
proof fn lemma_window_outside(traces: Seq<Trace>, k: int, at: u64, window: u32, idx: Seq<usize>)
    requires
        0 <= k < traces.len(),
        !in_window(traces[k], at, window),
        is_window(traces.take(k), at, window, picked(traces, idx)),
    ensures
        is_window(traces.take(k + 1), at, window, picked(traces, idx)),
{
    let r = picked(traces, idx);
    let prefix = traces.take(k);
    let next = traces.take(k + 1);
    lemma_members_extend(traces, k, at, window, r);
    reveal(members_first);
    reveal(covers);
    assert forall|j: int| 0 <= j < next.len() && in_window(#[trigger] next[j], at, window) implies keys(
        r,
    ).contains(key(next[j])) by {
        assert(prefix[j] == next[j]);
    }
}

/// A trace at an address already kept leaves the window unchanged.
proof fn lemma_window_skip(
    traces: Seq<Trace>,
    k: int,
    at: u64,
    window: u32,
    idx: Seq<usize>,
    p: int,
)
    requires
        0 <= k < traces.len(),
        0 <= p < idx.len(),
        key(picked(traces, idx)[p]) == key(traces[k]),
        is_window(traces.take(k), at, window, picked(traces, idx)),
    ensures
        is_window(traces.take(k + 1), at, window, picked(traces, idx)),
{
    let r = picked(traces, idx);
    let prefix = traces.take(k);
    let next = traces.take(k + 1);
    lemma_members_extend(traces, k, at, window, r);
    reveal(members_first);
    reveal(covers);
    assert forall|j: int| 0 <= j < next.len() && in_window(#[trigger] next[j], at, window) implies keys(
        r,
    ).contains(key(next[j])) by {
        if j < k {
            assert(prefix[j] == next[j]);
        } else {
            assert(keys(r)[p] == key(next[j]));
        }
    }
}

/// A trace at a new address, inserted at its ordered position, extends the
/// window.
proof fn lemma_window_insert(
    traces: Seq<Trace>,
    k: int,
    at: u64,
    window: u32,
    idx: Seq<usize>,
    p: int,
    after: Seq<usize>,
)
    requires
        0 <= k < traces.len(),
        0 <= p <= idx.len(),
        in_window(traces[k], at, window),
        k <= usize::MAX,
        after == idx.insert(p, k as usize),
        forall|i: int| 0 <= i < p ==> key(#[trigger] picked(traces, idx)[i]) < key(traces[k]),
        p < idx.len() ==> key(picked(traces, idx)[p]) > key(traces[k]),
        forall|i: int| 0 <= i < idx.len() ==> idx[i] < k,
        is_window(traces.take(k), at, window, picked(traces, idx)),
    ensures
        is_window(traces.take(k + 1), at, window, picked(traces, after)),
        forall|i: int| 0 <= i < after.len() ==> after[i] < k + 1,
{
    let r = picked(traces, idx);
    let s = picked(traces, after);
    let t = traces[k];
    let prefix = traces.take(k);
    let next = traces.take(k + 1);
    assert forall|i: int| 0 <= i < s.len() implies #[trigger] s[i] == r.insert(p, t)[i] by {
        if i < p {
            assert(after[i] == idx[i]);
        } else if i == p {
            assert(after[i] == k as usize);
        } else {
            assert(after[i] == idx[i - 1]);
        }
    }
    assert(s =~= r.insert(p, t));
    let a = keys(r);
    assert(keys(s) =~= a.insert(p, key(t)));
    // The new address lands strictly between its neighbours.
    assert forall|i: int, j: int| 0 <= i < j < keys(s).len() implies keys(s)[i] < keys(s)[j] by {
        if j < p {
            assert(a[i] < a[j]);
        } else if j == p {
            assert(a[i] < key(t));
        } else if i < p {
            assert(a[i] < key(t));
            if j - 1 > p {
                assert(a[p] < a[j - 1]);
            }
        } else if i == p {
            if j - 1 > p {
                assert(a[p] < a[j - 1]);
            }
        } else {
            assert(a[i - 1] < a[j - 1]);
        }
    }
    // No kept trace shares the new address.
    assert(!a.contains(key(t))) by {
        if a.contains(key(t)) {
            let i = choose|i: int| 0 <= i < a.len() && a[i] == key(t);
            if i < p {
                assert(a[i] < key(t));
            } else if i > p {
                assert(a[p] < a[i]);
            }
        }
    }
    lemma_members_extend(traces, k, at, window, r);
    reveal(members_first);
    reveal(covers);
    assert forall|i: int| 0 <= i < s.len() implies in_window(#[trigger] s[i], at, window)
        && first_at_address(next, s[i]) by {
        if i == p {
            assert(next[k] == t);
            assert forall|m: int| 0 <= m < k implies key(#[trigger] next[m]) != key(next[k]) by {
                assert(next[m] == prefix[m]);
                if key(prefix[m]) == key(t) {
                    assert(in_window(prefix[m], at, window));
                }
            }
            assert(first_index(next, k));
        } else if i < p {
            assert(s[i] == r[i]);
        } else {
            assert(s[i] == r[i - 1]);
        }
    }
    assert forall|j: int| 0 <= j < next.len() && in_window(#[trigger] next[j], at, window) implies keys(
        s,
    ).contains(key(next[j])) by {
        if j < k {
            assert(prefix[j] == next[j]);
            assert(a.contains(key(next[j])));
            let q = choose|q: int| 0 <= q < a.len() && a[q] == key(next[j]);
            if q < p {
                assert(keys(s)[q] == a[q]);
            } else {
                assert(keys(s)[q + 1] == a[q]);
            }
        } else {
            assert(keys(s)[p] == key(next[j]));
        }
    }
}

/// Two lists that say the same things in the same order have windows that
/// do too.
pub proof fn lemma_window_alike(a: Seq<Trace>, b: Seq<Trace>, at: u64, window: u32)
    requires
        alike(a, b),
        a.len() <= usize::MAX,
    ensures
        alike(window_of(a, at, window), window_of(b, at, window)),
{
    reveal(members_first);
    reveal(covers);
    let r = window_of(a, at, window);
    lemma_window_exists(a, at, window);
    assert(trace_views(a).len() == trace_views(b).len());
    assert forall|k: int| 0 <= k < a.len() implies key(#[trigger] a[k]) == key(b[k]) && in_window(a[k], at, window)
        == in_window(b[k], at, window) by {
        lemma_alike_at(a, b, k);
        lemma_view_fields(a[k], b[k]);
    }
    let ks = Seq::new(r.len(), |i: int| choose|k: int| first_index(a, k) && a[k] == r[i]);
    assert forall|i: int| 0 <= i < r.len() implies first_index(a, #[trigger] ks[i]) && a[ks[i]] == r[i] by {
        assert(first_at_address(a, r[i]));
    }
    let w = Seq::new(r.len(), |i: int| b[ks[i]]);
    assert forall|i: int| 0 <= i < r.len() implies trace_view(#[trigger] w[i]) == trace_view(r[i]) && key(w[i])
        == key(r[i]) by {
        assert(first_index(a, ks[i]) && a[ks[i]] == r[i]);
        lemma_alike_at(a, b, ks[i]);
        lemma_view_fields(a[ks[i]], b[ks[i]]);
    }
    assert(keys(w) =~= keys(r));
    assert(members_first(b, at, window, w)) by {
        assert forall|i: int| 0 <= i < w.len() implies in_window(#[trigger] w[i], at, window) && first_at_address(b, w[i]) by {
            let k = ks[i];
            assert(first_index(a, k) && a[k] == r[i]);
            assert(in_window(r[i], at, window));
            assert(key(a[k]) == key(b[k]));
            assert forall|m: int| 0 <= m < k implies key(#[trigger] b[m]) != key(b[k]) by {
                assert(key(a[m]) == key(b[m]));
                assert(key(a[m]) != key(a[k]));
            }
            assert(first_index(b, k));
            assert(b[k] == w[i]);
        }
    }
    assert(covers(b, at, window, w)) by {
        assert forall|k: int| 0 <= k < b.len() && in_window(#[trigger] b[k], at, window) implies keys(w).contains(key(b[k])) by {
            assert(key(a[k]) == key(b[k]));
            assert(in_window(a[k], at, window));
            assert(keys(r).contains(key(a[k])));
        }
    }
    lemma_window_unique(b, at, window, w);
    assert(trace_views(r) =~= trace_views(w));
}

} // verus!

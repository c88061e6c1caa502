//! What holds of every round the market picks.

use vstd::prelude::*;

use super::spec::{
    BidView, Market, ahead, bids_of, dominance_penalty, exceeds, highest, member_share, outranks, pull, room_total,
    round_of, urge_of,
};
use super::types::BidReason;

verus! {

/// How many of the first `n` indices satisfy `f`.
pub open spec fn count_where(n: int, f: spec_fn(int) -> bool) -> int
    decreases n,
{
    if n <= 0 {
        0
    } else {
        count_where(n - 1, f) + if f(n - 1) {
            1int
        } else {
            0
        }
    }
}

/// Counting more is counting at least as many, and one more where the
/// larger predicate holds at a point the smaller does not.
proof fn lemma_count_monotone(n: int, f: spec_fn(int) -> bool, g: spec_fn(int) -> bool, extra: int)
    requires
        forall|j: int| 0 <= j < n && #[trigger] f(j) ==> g(j),
    ensures
        count_where(n, f) <= count_where(n, g),
        0 <= extra < n && g(extra) && !f(extra) ==> count_where(n, f) + 1 <= count_where(n, g),
    decreases n,
{
    if n > 0 {
        lemma_count_monotone(n - 1, f, g, extra);
    }
}

/// A count is at most the range, and not negative.
proof fn lemma_count_bounds(n: int, f: spec_fn(int) -> bool)
    ensures
        0 <= count_where(n, f),
        n >= 0 ==> count_where(n, f) <= n,
    decreases n,
{
    if n > 0 {
        lemma_count_bounds(n - 1, f);
    }
}

/// `ahead` counts the bids that outrank one bid.
proof fn lemma_ahead_counts(s: Seq<BidView>, i: int, n: int)
    ensures
        ahead(s, i, n) == count_where(n, |j: int| outranks(s, j, i)),
    decreases n,
{
    if n > 0 {
        lemma_ahead_counts(s, i, n - 1);
    }
}

/// A round counts the bids fewer than `width` bids rank ahead of.
proof fn lemma_round_counts(s: Seq<BidView>, width: int, n: int)
    ensures
        round_of(s, width, n).len() == count_where(n, |i: int| ahead(s, i, s.len() as int) < width),
    decreases n,
{
    if n > 0 {
        lemma_round_counts(s, width, n - 1);
    }
}

/// Ranking is a strict total order on bids.
proof fn lemma_outranks_order(s: Seq<BidView>, a: int, b: int, c: int)
    ensures
        !outranks(s, a, a),
        a != b ==> (outranks(s, a, b) || outranks(s, b, a)),
        !(outranks(s, a, b) && outranks(s, b, a)),
        outranks(s, a, b) && outranks(s, b, c) ==> outranks(s, a, c),
{
}

/// Among the first `n` indices satisfying `f`, one is ranked no higher than
/// any other: every other outranks it or it is the only one.
proof fn lemma_lowest(s: Seq<BidView>, n: int, f: spec_fn(int) -> bool) -> (x: int)
    requires
        count_where(n, f) > 0,
    ensures
        0 <= x < n,
        f(x),
        forall|y: int| 0 <= y < n && #[trigger] f(y) && y != x ==> outranks(s, y, x),
    decreases n,
{
    if count_where(n - 1, f) > 0 {
        let x0 = lemma_lowest(s, n - 1, f);
        if f(n - 1) && outranks(s, x0, n - 1) {
            assert forall|y: int| 0 <= y < n && #[trigger] f(y) && y != n - 1 implies outranks(s, y, n - 1) by {
                if y != x0 {
                    assert(outranks(s, y, x0));
                    lemma_outranks_order(s, y, x0, n - 1);
                }
            }
            n - 1
        } else {
            assert forall|y: int| 0 <= y < n && #[trigger] f(y) && y != x0 implies outranks(s, y, x0) by {
                if y == n - 1 {
                    lemma_outranks_order(s, y, x0, x0);
                }
            }
            x0
        }
    } else {
        lemma_count_bounds(n - 1, f);
        assert(f(n - 1));
        assert forall|y: int| 0 <= y < n && #[trigger] f(y) && y != n - 1 implies outranks(s, y, n - 1) by {
            lemma_count_monotone(n - 1, |j: int| false, f, y);
            assert(count_where(n - 1, |j: int| false) == 0) by {
                lemma_count_false(n - 1);
            }
        }
        n - 1
    }
}

/// Nothing satisfies the false predicate.
proof fn lemma_count_false(n: int)
    ensures
        count_where(n, |j: int| false) == 0,
    decreases n,
{
    if n > 0 {
        lemma_count_false(n - 1);
    }
}

/// A round is never wider than the width it was asked for: at most `width`
/// bids have fewer than `width` bids ranked ahead of them.
pub proof fn law_round_within_width(s: Seq<BidView>, width: int)
    requires
        width >= 0,
    ensures
        round_of(s, width, s.len() as int).len() <= width,
{
    let n = s.len() as int;
    let picked = |i: int| ahead(s, i, n) < width;
    lemma_round_counts(s, width, n);
    if count_where(n, picked) > width {
        let x = lemma_lowest(s, n, picked);
        let others = |y: int| picked(y) && y != x;
        let above = |j: int| outranks(s, j, x);
        lemma_count_monotone(n, others, above, x);
        lemma_ahead_counts(s, x, n);
        lemma_count_monotone(n, others, picked, x);
        assert(count_where(n, others) + 1 <= count_where(n, picked));
        lemma_drop_one(n, picked, x);
        assert(count_where(n, others) == count_where(n, picked) - 1);
        assert(ahead(s, x, n) >= count_where(n, picked) - 1);
        assert(false);
    }
}

/// Leaving one satisfying index out counts one fewer.
proof fn lemma_drop_one(n: int, f: spec_fn(int) -> bool, x: int)
    requires
        0 <= x < n,
        f(x),
    ensures
        count_where(n, |y: int| f(y) && y != x) == count_where(n, f) - 1,
    decreases n,
{
    if n - 1 > x {
        lemma_drop_one(n - 1, f, x);
    } else {
        lemma_count_same(n - 1, f, |y: int| f(y) && y != x);
    }
}

/// Predicates that agree on a range count alike there.
proof fn lemma_count_same(n: int, f: spec_fn(int) -> bool, g: spec_fn(int) -> bool)
    requires
        forall|j: int| 0 <= j < n ==> #[trigger] f(j) == g(j),
    ensures
        count_where(n, f) == count_where(n, g),
    decreases n,
{
    if n > 0 {
        lemma_count_same(n - 1, f, g);
    }
}

/// The floor goes to the first of the highest bids: there is a holder exactly
/// when some bid was made, its urge is at least every bid's, and every bid
/// before it bids strictly less.
pub proof fn law_floor_goes_to_the_first_highest(s: Seq<BidView>, n: int)
    requires
        0 <= n <= s.len(),
    ensures
        highest(s, n) is None <==> n == 0,
        highest(s, n) matches Some(h) ==> {
            &&& 0 <= h < n
            &&& forall|j: int| 0 <= j < n ==> #[trigger] s[j].urge <= s[h].urge
            &&& forall|j: int| 0 <= j < h ==> #[trigger] s[j].urge < s[h].urge
        },
    decreases n,
{
    if n > 0 {
        law_floor_goes_to_the_first_highest(s, n - 1);
    }
}

/// Every bid carries the reason its member's urge was given.
proof fn lemma_bid_reasons(k: Market, n: int)
    ensures
        forall|i: int| 0 <= i < bids_of(k, n).len() ==> (#[trigger] bids_of(k, n)[i]).reason == urge_of(
            k,
            bids_of(k, n)[i].agent,
        ).reason,
    decreases n,
{
    if n > 0 {
        lemma_bid_reasons(k, n - 1);
    }
}

/// A member somebody else answers is addressed: where another author's trace
/// objects to a row the member wrote, or cites one, the member's urge carries
/// the addressed bonus of two thousand on top of its pull (less the dominance
/// penalty where it holds too much of the room), its reason is `Addressed`,
/// and so is the reason of any bid it makes.
pub proof fn law_answered_member_is_addressed(k: Market, m: Seq<char>, i: int, j: int)
    requires
        0 <= i < k.traces.len(),
        0 <= j < k.traces.len(),
        k.traces[i].agent() != Some(m),
        k.traces[j].agent() == Some(m),
        k.traces[i].target == Some(k.traces[j].sequence) || k.traces[i].cites@.contains(k.traces[j].sequence),
    ensures
        urge_of(k, m).reason == BidReason::Addressed,
        urge_of(k, m).urge == pull(k.traces, k.standings, k.thresholds, m, k.at, k.weights, k.repetition_cap) + 2000
            - (if exceeds(member_share(k, m), room_total(k), k.dominance_cap) {
            dominance_penalty()
        } else {
            0
        }),
        forall|b: int|
            0 <= b < bids_of(k, k.members.len() as int).len() && (#[trigger] bids_of(k, k.members.len() as int)[b]).agent
                == m ==> bids_of(k, k.members.len() as int)[b].reason == BidReason::Addressed,
{
    let t = k.traces[i];
    let c = k.traces[j].sequence;
    assert(super::spec::authored(k.traces, m, c));
    if t.target != Some(c) {
        let x = choose|x: int| 0 <= x < t.cites@.len() && t.cites@[x] == c;
        assert(super::spec::authored(k.traces, m, t.cites@[x]));
    }
    assert(super::spec::addressed(k.traces, m));
    lemma_bid_reasons(k, k.members.len() as int);
}

/// A round is not empty when some bid was made and the width is positive:
/// the highest bid always has nobody ahead of it.
pub proof fn law_round_takes_the_top(s: Seq<BidView>, width: int)
    requires
        width >= 1,
        s.len() > 0,
    ensures
        round_of(s, width, s.len() as int).len() >= 1,
{
    let n = s.len() as int;
    let top = lemma_top(s, n);
    assert forall|j: int| 0 <= j < n implies #[trigger] outranks(s, j, top) == false by {
        lemma_outranks_order(s, j, top, top);
        if j != top {
            assert(outranks(s, top, j));
        }
    }
    lemma_ahead_counts(s, top, n);
    lemma_count_same(n, |j: int| outranks(s, j, top), |j: int| false);
    lemma_count_false(n);
    lemma_round_counts(s, width, n);
    let picked = |i: int| ahead(s, i, n) < width;
    lemma_count_monotone(n, |j: int| false, picked, top);
}

/// Among the first `n` bids, the one every other is outranked by.
proof fn lemma_top(s: Seq<BidView>, n: int) -> (x: int)
    requires
        0 < n <= s.len(),
    ensures
        0 <= x < n,
        forall|y: int| 0 <= y < n && y != x ==> #[trigger] outranks(s, x, y),
    decreases n,
{
    if n == 1 {
        0
    } else {
        let x0 = lemma_top(s, n - 1);
        if outranks(s, n - 1, x0) {
            assert forall|y: int| 0 <= y < n && y != n - 1 implies #[trigger] outranks(s, n - 1, y) by {
                if y != x0 {
                    lemma_outranks_order(s, n - 1, x0, y);
                }
            }
            n - 1
        } else {
            lemma_outranks_order(s, n - 1, x0, x0);
            x0
        }
    }
}

} // verus!

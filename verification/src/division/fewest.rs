//! The fewest rounds two bounds allow, and a packing that reaches them.
//!
//! No round runs more than `lane` assignments and no seat appears twice in a
//! round, so a division needs enough rounds to hold every facet at `lane` a
//! round and enough for its busiest seat to take one facet a round. That
//! many always suffice: group the facets by seat and deal them round-robin.

use vstd::prelude::*;

use super::tally::{
    below, in_bucket, lemma_tally_all, lemma_tally_at_most_one, lemma_tally_bounds, lemma_tally_buckets,
    lemma_tally_ext, lemma_tally_grows, lemma_tally_le, lemma_tally_prefix, lemma_tally_split,
};
use super::types::{Assignment, AssignmentView, assignment_views, depth_of, in_round, round_owners};
use crate::attention::count_where;
use crate::names::same_text;

verus! {

/// The owners of a list of assignments, in order.
pub open spec fn owners_of(a: Seq<AssignmentView>) -> Seq<Seq<char>> {
    a.map_values(|x: AssignmentView| x.owner)
}

/// The indices of `owners` held by `o`.
pub open spec fn held_by(owners: Seq<Seq<char>>, o: Seq<char>) -> spec_fn(int) -> bool {
    |j: int| owners[j] == o
}

/// How many facets `o` owns.
pub open spec fn owned_by(owners: Seq<Seq<char>>, o: Seq<char>) -> int {
    count_where(owners.len() as int, held_by(owners, o))
}

/// The most facets any one of the first `k` owners owns.
pub open spec fn most_owned(owners: Seq<Seq<char>>, k: int) -> int
    decreases k,
{
    if k <= 0 {
        0
    } else {
        let here = owned_by(owners, owners[k - 1]);
        let rest = most_owned(owners, k - 1);
        if here > rest {
            here
        } else {
            rest
        }
    }
}

/// How many rounds of `lane` it takes to hold `n` facets.
pub open spec fn rounds_to_hold(n: int, lane: int) -> int {
    n / lane + if n % lane == 0 {
        0int
    } else {
        1int
    }
}

/// The fewest rounds the two bounds allow: enough to hold every facet at
/// `lane` a round, and enough for the busiest seat to take one a round.
pub open spec fn fewest(owners: Seq<Seq<char>>, lane: int) -> int {
    let fill = rounds_to_hold(owners.len() as int, lane);
    let busiest = most_owned(owners, owners.len() as int);
    if fill > busiest {
        fill
    } else {
        busiest
    }
}

/// The first index from `k` on that `o` holds, or the length.
pub open spec fn first_from(owners: Seq<Seq<char>>, o: Seq<char>, k: int) -> int
    decreases owners.len() - k,
{
    if k < 0 || k >= owners.len() {
        owners.len() as int
    } else if owners[k] == o {
        k
    } else {
        first_from(owners, o, k + 1)
    }
}

/// The first index held by the owner of facet `i`.
pub open spec fn first_of(owners: Seq<Seq<char>>, i: int) -> int {
    first_from(owners, owners[i], 0)
}

/// The facets whose owner first appears before the owner of facet `i`.
pub open spec fn earlier_seats(owners: Seq<Seq<char>>, i: int) -> spec_fn(int) -> bool {
    |j: int| first_of(owners, j) < first_of(owners, i)
}

/// Where facet `i` sits once the facets are grouped by seat, seats in the
/// order they first appear and each seat's facets in order.
pub open spec fn grouped_at(owners: Seq<Seq<char>>, i: int) -> int {
    count_where(owners.len() as int, earlier_seats(owners, i)) + count_where(i, held_by(owners, owners[i]))
}

/// The assignments of `a`, grouped by seat, dealt round-robin over `d`
/// rounds.
pub open spec fn dealt(a: Seq<AssignmentView>, d: int) -> Seq<AssignmentView> {
    Seq::new(a.len(), |i: int| AssignmentView { round: grouped_at(owners_of(a), i) % d, ..a[i] })
}

/// The assignments of `a` that run in round `r`.
pub open spec fn in_round_at(a: Seq<AssignmentView>, r: int) -> spec_fn(int) -> bool {
    |i: int| a[i].round == r
}

/// Whether `a` places every facet in one of `depth` rounds, with no round
/// running more than `lane` of them and no seat appearing twice in a round.
pub open spec fn placement_ok(a: Seq<AssignmentView>, lane: int, depth: int) -> bool {
    &&& depth >= 0
    &&& forall|i: int| 0 <= i < a.len() ==> 0 <= #[trigger] a[i].round < depth
    &&& forall|i: int, j: int|
        0 <= i < a.len() && 0 <= j < a.len() && i != j && (#[trigger] a[i]).round == (#[trigger] a[j]).round
            ==> a[i].owner != a[j].owner
    &&& forall|r: int| 0 <= r < depth ==> #[trigger] count_where(a.len() as int, in_round_at(a, r)) <= lane
}

/// Whether no placement of the facets of `a`, each with the same owner and
/// under the same two bounds, takes fewer rounds than `a` does.
pub open spec fn fewest_rounds(a: Seq<AssignmentView>, lane: int) -> bool {
    forall|b: Seq<AssignmentView>, depth: int|
        #[trigger] placement_ok(b, lane, depth) && b.len() == a.len() && (forall|i: int|
            0 <= i < a.len() ==> (#[trigger] b[i]).owner == a[i].owner) ==> depth_of(a) <= depth
}

/// Holding `n` facets at `lane` a round takes no more rounds than any
/// count of rounds that holds them.
proof fn lemma_rounds_to_hold(n: int, lane: int, depth: int)
    requires
        n >= 0,
        lane >= 1,
    ensures
        rounds_to_hold(n, lane) * lane >= n,
        n <= depth * lane ==> rounds_to_hold(n, lane) <= depth,
        n >= 1 ==> rounds_to_hold(n, lane) >= 1,
        rounds_to_hold(n, lane) <= n,
{
    let q = n / lane;
    let r = n % lane;
    assert(n == q * lane + r && 0 <= r < lane) by {
        vstd::arithmetic::div_mod::lemma_fundamental_div_mod(n, lane);
    }
    assert(q >= 0) by (nonlinear_arith)
        requires
            n == q * lane + r,
            0 <= r < lane,
            n >= 0,
            lane >= 1,
    ;
    if n <= depth * lane {
        assert(rounds_to_hold(n, lane) <= depth) by (nonlinear_arith)
            requires
                n == q * lane + r,
                0 <= r < lane,
                n <= depth * lane,
                lane >= 1,
                q >= 0,
                rounds_to_hold(n, lane) == q + if r == 0 {
                    0int
                } else {
                    1int
                },
        ;
    }
    assert(rounds_to_hold(n, lane) * lane >= n) by (nonlinear_arith)
        requires
            n == q * lane + r,
            0 <= r < lane,
            lane >= 1,
            rounds_to_hold(n, lane) == q + if r == 0 {
                0int
            } else {
                1int
            },
    ;
    if n >= 1 && q == 0 {
        assert(r == n) by (nonlinear_arith)
            requires
                n == q * lane + r,
                q == 0,
        ;
    }
    assert(rounds_to_hold(n, lane) <= n) by (nonlinear_arith)
        requires
            n == q * lane + r,
            0 <= r < lane,
            lane >= 1,
            q >= 0,
            rounds_to_hold(n, lane) == q + if r == 0 {
                0int
            } else {
                1int
            },
    ;
}

/// The busiest seat owns at least what any one seat owns, and no more than
/// there are facets.
proof fn lemma_most_owned(owners: Seq<Seq<char>>, k: int)
    requires
        0 <= k <= owners.len(),
    ensures
        forall|i: int| 0 <= i < k ==> owned_by(owners, #[trigger] owners[i]) <= most_owned(owners, k),
        0 <= most_owned(owners, k) <= owners.len(),
    decreases k,
{
    if k > 0 {
        lemma_most_owned(owners, k - 1);
        lemma_tally_bounds(owners.len() as int, held_by(owners, owners[k - 1]));
    }
}

/// A seat owns at most as many facets as any placement has rounds.
proof fn lemma_seat_within(b: Seq<AssignmentView>, lane: int, depth: int, o: Seq<char>)
    requires
        placement_ok(b, lane, depth),
    ensures
        count_where(b.len() as int, |j: int| b[j].owner == o) <= depth,
{
    let n = b.len() as int;
    let f = |j: int| b[j].owner == o;
    let key = |j: int| b[j].round;
    assert forall|x: int| 0 <= x < depth implies #[trigger] count_where(n, in_bucket(f, key, x)) <= 1 by {
        assert forall|i: int, j: int|
            0 <= i < n && 0 <= j < n && #[trigger] in_bucket(f, key, x)(i) && #[trigger] in_bucket(f, key, x)(j) implies i
            == j by {
            if i != j {
                assert(b[i].round == b[j].round);
            }
        }
        lemma_tally_at_most_one(n, in_bucket(f, key, x));
    }
    assert forall|i: int| 0 <= i < n && #[trigger] f(i) implies key(i) >= 0 by {
        assert(0 <= b[i].round);
    }
    lemma_tally_buckets(n, f, key, depth, 1);
    assert forall|i: int| 0 <= i < n implies #[trigger] f(i) == below(f, key, depth)(i) by {
        assert(b[i].round < depth);
    }
    lemma_tally_ext(n, f, below(f, key, depth));
}

/// Any placement takes at least the fewest rounds.
pub proof fn lemma_fewest_is_least(b: Seq<AssignmentView>, owners: Seq<Seq<char>>, lane: int, depth: int)
    requires
        placement_ok(b, lane, depth),
        lane >= 1,
        b.len() == owners.len(),
        forall|i: int| 0 <= i < b.len() ==> (#[trigger] b[i]).owner == owners[i],
    ensures
        fewest(owners, lane) <= depth,
{
    let n = b.len() as int;
    let t = |i: int| true;
    let key = |j: int| b[j].round;
    assert forall|x: int| 0 <= x < depth implies #[trigger] count_where(n, in_bucket(t, key, x)) <= lane by {
        lemma_tally_ext(n, in_bucket(t, key, x), in_round_at(b, x));
    }
    lemma_tally_buckets(n, t, key, depth, lane);
    assert forall|i: int| 0 <= i < n implies #[trigger] t(i) == below(t, key, depth)(i) by {
        assert(b[i].round < depth);
    }
    lemma_tally_ext(n, t, below(t, key, depth));
    lemma_tally_all(n);
    assert(n <= depth * lane);
    lemma_rounds_to_hold(n, lane, depth);
    lemma_most_owned(owners, n);
    lemma_most_attained(owners, n);
    if most_owned(owners, n) != 0 {
        let i = choose|i: int| 0 <= i < n && most_owned(owners, n) == owned_by(owners, #[trigger] owners[i]);
        let o = owners[i];
        lemma_seat_within(b, lane, depth, o);
        assert forall|j: int| 0 <= j < n implies #[trigger] held_by(owners, o)(j) == (b[j].owner == o) by {
            assert(b[j].owner == owners[j]);
        }
        lemma_tally_ext(n, held_by(owners, o), |j: int| b[j].owner == o);
    }
}

/// The busiest count is some seat's count, or zero.
proof fn lemma_most_attained(owners: Seq<Seq<char>>, k: int)
    requires
        0 <= k <= owners.len(),
    ensures
        most_owned(owners, k) == 0 || exists|i: int| 0 <= i < k && most_owned(owners, k) == owned_by(owners, #[trigger] owners[i]),
    decreases k,
{
    if k > 0 {
        lemma_most_attained(owners, k - 1);
        if most_owned(owners, k) == owned_by(owners, owners[k - 1]) {
            assert(owners[k - 1] == owners[k - 1]);
        }
    }
}

/// The first index from `k` on held by `o`.
proof fn lemma_first_from(owners: Seq<Seq<char>>, o: Seq<char>, k: int)
    requires
        0 <= k <= owners.len(),
    ensures
        k <= first_from(owners, o, k) <= owners.len(),
        first_from(owners, o, k) < owners.len() ==> owners[first_from(owners, o, k)] == o,
        forall|j: int| k <= j < first_from(owners, o, k) ==> #[trigger] owners[j] != o,
    decreases owners.len() - k,
{
    if k < owners.len() && owners[k] != o {
        lemma_first_from(owners, o, k + 1);
    }
}

/// A facet's seat first appears at or before it.
proof fn lemma_first_of(owners: Seq<Seq<char>>, i: int)
    requires
        0 <= i < owners.len(),
    ensures
        0 <= first_of(owners, i) <= i,
        owners[first_of(owners, i)] == owners[i],
{
    lemma_first_from(owners, owners[i], 0);
}

/// Seats that first appear earlier come earlier in the grouping.
proof fn lemma_grouped_order(owners: Seq<Seq<char>>, x: int, y: int)
    requires
        0 <= x < owners.len(),
        0 <= y < owners.len(),
        first_of(owners, x) < first_of(owners, y),
    ensures
        grouped_at(owners, x) < grouped_at(owners, y),
{
    let n = owners.len() as int;
    let ax = earlier_seats(owners, x);
    let ay = earlier_seats(owners, y);
    let sx = held_by(owners, owners[x]);
    let sy = held_by(owners, owners[y]);
    let v = |k: int| ax(k) || sx(k);
    assert forall|k: int| 0 <= k < n && #[trigger] v(k) implies ay(k) by {
        if sx(k) {
            assert(first_of(owners, k) == first_of(owners, x));
        }
    }
    lemma_tally_le(n, v, ay);
    lemma_tally_split(n, v, ax);
    lemma_tally_ext(n, |k: int| v(k) && ax(k), ax);
    assert forall|k: int| 0 <= k < n implies (v(k) && !ax(k)) == #[trigger] sx(k) by {
        if sx(k) {
            assert(first_of(owners, k) == first_of(owners, x));
        }
    }
    lemma_tally_ext(n, |k: int| v(k) && !ax(k), sx);
    lemma_tally_grows(x, n, sx);
    lemma_tally_bounds(y, sy);
}

/// A facet's place in the grouping lies below the number of facets.
proof fn lemma_grouped_below(owners: Seq<Seq<char>>, i: int)
    requires
        0 <= i < owners.len(),
    ensures
        0 <= grouped_at(owners, i) < owners.len(),
{
    let n = owners.len() as int;
    let a = earlier_seats(owners, i);
    let s = held_by(owners, owners[i]);
    let u = |j: int| a(j) || (s(j) && j < i);
    lemma_tally_bounds(n, a);
    lemma_tally_bounds(i, s);
    lemma_tally_prefix(i, n, s);
    lemma_tally_split(n, u, a);
    lemma_tally_ext(n, |j: int| u(j) && a(j), a);
    assert forall|j: int| 0 <= j < n implies (u(j) && !a(j)) == (#[trigger] s(j) && j < i) by {
        if s(j) {
            assert(first_of(owners, j) == first_of(owners, i));
        }
    }
    lemma_tally_ext(n, |j: int| u(j) && !a(j), |j: int| s(j) && j < i);
    let other = |j: int| j != i;
    assert forall|j: int| 0 <= j < n && #[trigger] u(j) implies other(j) by {}
    lemma_tally_le(n, u, other);
    let here = |j: int| j == i;
    let t = |i: int| true;
    lemma_tally_all(n);
    lemma_tally_split(n, t, here);
    lemma_tally_ext(n, |j: int| t(j) && here(j), here);
    lemma_tally_ext(n, |j: int| t(j) && !here(j), other);
    lemma_tally_grows(i, n, here);
    lemma_tally_bounds(i, here);
    lemma_tally_at_most_one(n, here);
    assert(count_where(n, here) == 1);
    assert(count_where(n, other) == n - 1);
    assert(count_where(n, u) == count_where(n, a) + count_where(i, s));
}

/// Two facets of one seat, `i` before `j`, sit in order in the grouping and
/// fewer than the seat's count apart.
proof fn lemma_grouped_same_seat(owners: Seq<Seq<char>>, i: int, j: int)
    requires
        0 <= i < j < owners.len(),
        owners[i] == owners[j],
    ensures
        grouped_at(owners, i) < grouped_at(owners, j) < grouped_at(owners, i) + owned_by(owners, owners[i]),
{
    let n = owners.len() as int;
    let s = held_by(owners, owners[i]);
    assert(first_of(owners, i) == first_of(owners, j));
    lemma_tally_ext(n, earlier_seats(owners, i), earlier_seats(owners, j));
    lemma_tally_grows(i, j, s);
    lemma_tally_grows(j, n, s);
    lemma_tally_bounds(i, s);
}

/// Distinct facets sit at distinct places in the grouping.
proof fn lemma_grouped_distinct(owners: Seq<Seq<char>>, i: int, j: int)
    requires
        0 <= i < owners.len(),
        0 <= j < owners.len(),
        i != j,
    ensures
        grouped_at(owners, i) != grouped_at(owners, j),
{
    lemma_first_of(owners, i);
    lemma_first_of(owners, j);
    if owners[i] == owners[j] {
        if i < j {
            lemma_grouped_same_seat(owners, i, j);
        } else {
            lemma_grouped_same_seat(owners, j, i);
        }
    } else if first_of(owners, i) < first_of(owners, j) {
        lemma_grouped_order(owners, i, j);
    } else {
        assert(first_of(owners, i) != first_of(owners, j));
        lemma_grouped_order(owners, j, i);
    }
}

/// Two places closer together than `d` fall in different rounds.
proof fn lemma_apart_mod(x: int, y: int, d: int)
    requires
        0 <= x < y < x + d,
        d > 0,
    ensures
        x % d != y % d,
{
    vstd::arithmetic::div_mod::lemma_fundamental_div_mod(x, d);
    vstd::arithmetic::div_mod::lemma_fundamental_div_mod(y, d);
    let (qx, rx, qy, ry) = (x / d, x % d, y / d, y % d);
    assert(rx != ry) by (nonlinear_arith)
        requires
            x == d * qx + rx,
            y == d * qy + ry,
            0 <= rx < d,
            0 <= ry < d,
            0 <= x < y < x + d,
    ;
}

/// Dealing the grouped facets over the fewest rounds is a placement under
/// both bounds.
pub proof fn lemma_dealt_ok(owned: Seq<AssignmentView>, lane: int)
    requires
        lane >= 1,
        owned.len() >= 1,
    ensures
        placement_ok(dealt(owned, fewest(owners_of(owned), lane)), lane, fewest(owners_of(owned), lane)),
        fewest(owners_of(owned), lane) >= 1,
{
    let owners = owners_of(owned);
    let n = owners.len() as int;
    let d = fewest(owners, lane);
    let a = dealt(owned, d);
    lemma_rounds_to_hold(n, lane, d);
    lemma_most_owned(owners, n);
    assert(n <= d * lane) by (nonlinear_arith)
        requires
            rounds_to_hold(n, lane) * lane >= n,
            d >= rounds_to_hold(n, lane),
            lane >= 1,
    ;
    assert forall|i: int| 0 <= i < a.len() implies 0 <= #[trigger] a[i].round < d by {
        lemma_grouped_below(owners, i);
    }
    assert forall|i: int, j: int|
        0 <= i < a.len() && 0 <= j < a.len() && i != j && (#[trigger] a[i]).round == (#[trigger] a[j]).round implies a[i].owner
        != a[j].owner by {
        if owners[i] == owners[j] {
            assert(owned_by(owners, owners[i]) <= d);
            if i < j {
                lemma_grouped_same_seat(owners, i, j);
                lemma_grouped_below(owners, i);
                lemma_apart_mod(grouped_at(owners, i), grouped_at(owners, j), d);
            } else {
                lemma_grouped_same_seat(owners, j, i);
                lemma_grouped_below(owners, j);
                lemma_apart_mod(grouped_at(owners, j), grouped_at(owners, i), d);
            }
        }
    }
    assert forall|r: int| 0 <= r < d implies #[trigger] count_where(a.len() as int, in_round_at(a, r)) <= lane by {
        let f = |i: int| grouped_at(owners, i) % d == r;
        let key = |i: int| grouped_at(owners, i) / d;
        assert forall|b: int| 0 <= b < lane implies #[trigger] count_where(n, in_bucket(f, key, b)) <= 1 by {
            assert forall|i: int, j: int|
                0 <= i < n && 0 <= j < n && #[trigger] in_bucket(f, key, b)(i) && #[trigger] in_bucket(f, key, b)(j) implies i
                == j by {
                if i != j {
                    lemma_grouped_distinct(owners, i, j);
                    vstd::arithmetic::div_mod::lemma_fundamental_div_mod(grouped_at(owners, i), d);
                    vstd::arithmetic::div_mod::lemma_fundamental_div_mod(grouped_at(owners, j), d);
                }
            }
            lemma_tally_at_most_one(n, in_bucket(f, key, b));
        }
        assert forall|i: int| 0 <= i < n && #[trigger] f(i) implies key(i) >= 0 by {
            lemma_grouped_below(owners, i);
        }
        lemma_tally_buckets(n, f, key, lane, 1);
        assert forall|i: int| 0 <= i < n implies #[trigger] f(i) == below(f, key, lane)(i) by {
            lemma_grouped_below(owners, i);
            let g = grouped_at(owners, i);
            assert(g / d < lane) by (nonlinear_arith)
                requires
                    0 <= g < n,
                    n <= d * lane,
                    d >= 1,
            ;
        }
        lemma_tally_ext(n, f, below(f, key, lane));
        lemma_tally_ext(n, in_round_at(a, r), f);
    }
}

/// The owners of a round are as many as the assignments that run in it.
proof fn lemma_round_owners_len(a: Seq<AssignmentView>, r: int)
    ensures
        round_owners(a, r).len() == count_where(a.len() as int, in_round_at(a, r)),
    decreases a.len(),
{
    if a.len() > 0 {
        let rest = a.drop_last();
        lemma_round_owners_len(rest, r);
        assert forall|i: int| 0 <= i < rest.len() implies #[trigger] in_round_at(rest, r)(i) == in_round_at(a, r)(i) by {
            assert(rest[i] == a[i]);
        }
        lemma_tally_ext(rest.len() as int, in_round_at(rest, r), in_round_at(a, r));
    }
}

/// A seat among a round's owners has an assignment in that round.
proof fn lemma_round_owner_from(a: Seq<AssignmentView>, r: int, o: Seq<char>) -> (i: int)
    requires
        round_owners(a, r).contains(o),
    ensures
        0 <= i < a.len(),
        a[i].round == r,
        a[i].owner == o,
    decreases a.len(),
{
    let rest = a.drop_last();
    if a.last().round == r && a.last().owner == o {
        a.len() - 1
    } else {
        let all = round_owners(a, r);
        let k = choose|k: int| 0 <= k < all.len() && all[k] == o;
        if a.last().round == r {
            assert(all == round_owners(rest, r).push(a.last().owner));
            assert(round_owners(rest, r)[k] == o);
        }
        assert(round_owners(rest, r).contains(o));
        let i = lemma_round_owner_from(rest, r, o);
        assert(rest[i] == a[i]);
        i
    }
}

/// Where no round holds one seat twice, no round's owners repeat.
proof fn lemma_round_owners_distinct(a: Seq<AssignmentView>, r: int)
    requires
        forall|i: int, j: int|
            0 <= i < a.len() && 0 <= j < a.len() && i != j && (#[trigger] a[i]).round == (#[trigger] a[j]).round
                ==> a[i].owner != a[j].owner,
    ensures
        round_owners(a, r).no_duplicates(),
    decreases a.len(),
{
    if a.len() > 0 {
        let rest = a.drop_last();
        assert forall|i: int, j: int|
            0 <= i < rest.len() && 0 <= j < rest.len() && i != j && (#[trigger] rest[i]).round == (
            #[trigger] rest[j]).round implies rest[i].owner != rest[j].owner by {
            assert(rest[i] == a[i] && rest[j] == a[j]);
        }
        lemma_round_owners_distinct(rest, r);
        if a.last().round == r {
            let earlier = round_owners(rest, r);
            let o = a.last().owner;
            if earlier.contains(o) {
                let i = lemma_round_owner_from(rest, r, o);
                assert(rest[i] == a[i]);
                assert(a[i].round == a[a.len() - 1].round);
            }
            let all = earlier.push(o);
            assert forall|x: int, y: int| 0 <= x < all.len() && 0 <= y < all.len() && x != y implies all[x]
                != all[y] by {
                if x < earlier.len() && y < earlier.len() {
                    assert(all[x] == earlier[x] && all[y] == earlier[y]);
                } else if x < earlier.len() {
                    assert(all[x] == earlier[x]);
                    assert(earlier.contains(earlier[x]));
                } else if y < earlier.len() {
                    assert(all[y] == earlier[y]);
                    assert(earlier.contains(earlier[y]));
                }
            }
        }
    }
}

/// A list whose rounds all lie below `d` takes no more than `d` rounds.
proof fn lemma_depth_below(a: Seq<AssignmentView>, d: int)
    requires
        d >= 0,
        forall|i: int| 0 <= i < a.len() ==> 0 <= #[trigger] a[i].round < d,
    ensures
        depth_of(a) <= d,
    decreases a.len(),
{
    if a.len() > 0 {
        let rest = a.drop_last();
        assert forall|i: int| 0 <= i < rest.len() implies 0 <= #[trigger] rest[i].round < d by {
            assert(rest[i] == a[i]);
        }
        lemma_depth_below(rest, d);
        assert(a[a.len() - 1].round < d);
    }
}

/// A placement's rounds each hold distinct seats, no more than `lane`.
proof fn lemma_placement_rounds(a: Seq<AssignmentView>, lane: int, d: int, r: int)
    requires
        placement_ok(a, lane, d),
        lane >= 0,
    ensures
        round_owners(a, r).no_duplicates(),
        round_owners(a, r).len() <= lane,
{
    lemma_round_owners_distinct(a, r);
    lemma_round_owners_len(a, r);
    if r < 0 || r >= d {
        assert forall|i: int| 0 <= i < a.len() && #[trigger] in_round_at(a, r)(i) implies false by {
            assert(0 <= a[i].round < d);
        }
        lemma_tally_le(a.len() as int, in_round_at(a, r), |i: int| false);
        super::tally::lemma_tally_zero(a.len() as int);
    }
}

/// The packing a division uses: first fit where that already takes the
/// fewest rounds, as it does for every rotation, and otherwise the grouped
/// facets dealt over the fewest rounds.
pub open spec fn fewest_packing(packed: Seq<AssignmentView>, lane: int) -> Seq<AssignmentView> {
    if depth_of(packed) <= fewest(owners_of(packed), lane) {
        packed
    } else {
        dealt(packed, fewest(owners_of(packed), lane))
    }
}

/// The packing a division uses takes the fewest rounds, and keeps both
/// bounds in every round.
pub proof fn lemma_fewest_packing(packed: Seq<AssignmentView>, lane: int, r: int)
    requires
        lane >= 1,
        forall|q: int| #[trigger] round_owners(packed, q).no_duplicates() && round_owners(packed, q).len() <= lane,
    ensures
        fewest_rounds(fewest_packing(packed, lane), lane),
        round_owners(fewest_packing(packed, lane), r).no_duplicates(),
        round_owners(fewest_packing(packed, lane), r).len() <= lane,
        fewest_packing(packed, lane).len() == packed.len(),
        forall|i: int|
            0 <= i < packed.len() ==> (#[trigger] fewest_packing(packed, lane)[i]).owner == packed[i].owner
                && fewest_packing(packed, lane)[i].facet == packed[i].facet && fewest_packing(packed, lane)[i].reason
                == packed[i].reason,
{
    let owned = packed;
    let owners = owners_of(owned);
    let chosen = fewest_packing(packed, lane);
    if owned.len() == 0 {
        assert(depth_of(packed) == 0);
        lemma_most_owned(owners, 0);
        lemma_rounds_to_hold(0, lane, 0);
    } else if depth_of(packed) > fewest(owners, lane) {
        lemma_dealt_ok(owned, lane);
        lemma_placement_rounds(chosen, lane, fewest(owners, lane), r);
        lemma_depth_below(chosen, fewest(owners, lane));
    } else {
        assert(round_owners(packed, r).no_duplicates());
    }
    assert forall|b: Seq<AssignmentView>, depth: int|
        #[trigger] placement_ok(b, lane, depth) && b.len() == chosen.len() && (forall|i: int|
            0 <= i < chosen.len() ==> (#[trigger] b[i]).owner == chosen[i].owner) implies depth_of(chosen) <= depth by {
        assert forall|i: int| 0 <= i < b.len() implies (#[trigger] b[i]).owner == owners[i] by {
            assert(b[i].owner == chosen[i].owner);
        }
        lemma_fewest_is_least(b, owners, lane, depth);
        if owned.len() > 0 && depth_of(packed) > fewest(owners, lane) {
            lemma_dealt_ok(owned, lane);
            lemma_depth_below(chosen, fewest(owners, lane));
        }
    }
}

/// How many of the first `upto` assignments `o` owns.
fn count_owned(a: &[Assignment], o: &str, upto: usize) -> (c: usize)
    requires
        upto <= a@.len(),
    ensures
        c as int == count_where(upto as int, held_by(owners_of(assignment_views(a@)), o@)),
        c <= upto,
{
    let ghost os = owners_of(assignment_views(a@));
    let mut c: usize = 0;
    let mut j: usize = 0;
    while j < upto
        invariant
            j <= upto,
            upto <= a@.len(),
            os == owners_of(assignment_views(a@)),
            c as int == count_where(j as int, held_by(os, o@)),
            c <= j,
        decreases upto - j,
    {
        assert(os[j as int] == a@[j as int].owner@);
        if same_text(a[j].owner.as_str(), o) {
            c = c + 1;
        }
        j = j + 1;
    }
    c
}

/// The first index held by the owner of assignment `i`.
fn first_owner_index(a: &[Assignment], i: usize) -> (k: usize)
    requires
        i < a@.len(),
    ensures
        k as int == first_of(owners_of(assignment_views(a@)), i as int),
        k <= i,
{
    let ghost os = owners_of(assignment_views(a@));
    let ghost o = os[i as int];
    assert(o == a@[i as int].owner@);
    let mut k: usize = 0;
    while !same_text(a[k].owner.as_str(), a[i].owner.as_str())
        invariant
            k <= i,
            i < a@.len(),
            os == owners_of(assignment_views(a@)),
            o == os[i as int],
            o == a@[i as int].owner@,
            first_from(os, o, 0) == first_from(os, o, k as int),
        decreases i - k,
    {
        assert(os[k as int] == a@[k as int].owner@);
        assert(k != i);
        k = k + 1;
    }
    assert(os[k as int] == a@[k as int].owner@);
    k
}

/// The most assignments any one seat owns.
fn busiest(a: &[Assignment]) -> (m: usize)
    ensures
        m as int == most_owned(owners_of(assignment_views(a@)), a@.len() as int),
        m <= a@.len(),
{
    let ghost os = owners_of(assignment_views(a@));
    let mut m: usize = 0;
    let mut k: usize = 0;
    while k < a.len()
        invariant
            k <= a@.len(),
            os == owners_of(assignment_views(a@)),
            m as int == most_owned(os, k as int),
            m <= a@.len(),
        decreases a@.len() - k,
    {
        assert(os[k as int] == a@[k as int].owner@);
        let here = count_owned(a, a[k].owner.as_str(), a.len());
        if here > m {
            m = here;
        }
        k = k + 1;
    }
    m
}

/// The fewest rounds the assignments' owners allow at `lane` a round.
fn fewest_of(a: &[Assignment], lane: usize) -> (f: usize)
    requires
        lane >= 1,
    ensures
        f as int == fewest(owners_of(assignment_views(a@)), lane as int),
        f <= a@.len(),
{
    let ghost os = owners_of(assignment_views(a@));
    let n = a.len();
    proof {
        lemma_rounds_to_hold(n as int, lane as int, 0);
    }
    let q = n / lane;
    let fill = if n % lane == 0 {
        q
    } else {
        q + 1
    };
    let most = busiest(a);
    if fill > most {
        fill
    } else {
        most
    }
}

/// Where assignment `i` sits once the assignments are grouped by seat.
fn grouped_index(a: &[Assignment], firsts: &Vec<usize>, i: usize) -> (g: usize)
    requires
        i < a@.len(),
        firsts@.len() == a@.len(),
        forall|j: int| 0 <= j < a@.len() ==> #[trigger] firsts@[j] as int == first_of(owners_of(assignment_views(a@)), j),
    ensures
        g as int == grouped_at(owners_of(assignment_views(a@)), i as int),
        g < a@.len(),
{
    let ghost os = owners_of(assignment_views(a@));
    let mut c: usize = 0;
    let mut j: usize = 0;
    while j < a.len()
        invariant
            j <= a@.len(),
            i < a@.len(),
            firsts@.len() == a@.len(),
            os == owners_of(assignment_views(a@)),
            forall|x: int| 0 <= x < a@.len() ==> #[trigger] firsts@[x] as int == first_of(os, x),
            c as int == count_where(j as int, earlier_seats(os, i as int)),
            c <= j,
        decreases a@.len() - j,
    {
        assert(firsts@[j as int] as int == first_of(os, j as int));
        assert(firsts@[i as int] as int == first_of(os, i as int));
        if firsts[j] < firsts[i] {
            c = c + 1;
        }
        j = j + 1;
    }
    assert(os[i as int] == a@[i as int].owner@);
    let own = count_owned(a, a[i].owner.as_str(), i);
    proof {
        lemma_grouped_below(os, i as int);
    }
    c + own
}

/// The assignments grouped by seat and dealt round-robin over `d` rounds.
fn deal(a: &[Assignment], d: usize) -> (out: Vec<Assignment>)
    requires
        d >= 1,
        a@.len() <= u32::MAX,
    ensures
        assignment_views(out@) == dealt(assignment_views(a@), d as int),
{
    let ghost av = assignment_views(a@);
    let ghost os = owners_of(av);
    let mut firsts: Vec<usize> = Vec::new();
    let mut k: usize = 0;
    while k < a.len()
        invariant
            k <= a@.len(),
            os == owners_of(assignment_views(a@)),
            firsts@.len() == k,
            forall|j: int| 0 <= j < k ==> #[trigger] firsts@[j] as int == first_of(os, j),
        decreases a@.len() - k,
    {
        let f = first_owner_index(a, k);
        firsts.push(f);
        k = k + 1;
    }
    let mut out: Vec<Assignment> = Vec::new();
    let mut i: usize = 0;
    while i < a.len()
        invariant
            i <= a@.len(),
            a@.len() <= u32::MAX,
            d >= 1,
            av == assignment_views(a@),
            os == owners_of(av),
            firsts@.len() == a@.len(),
            forall|j: int| 0 <= j < a@.len() ==> #[trigger] firsts@[j] as int == first_of(os, j),
            assignment_views(out@) == dealt(av, d as int).take(i as int),
        decreases a@.len() - i,
    {
        let g = grouped_index(a, &firsts, i);
        assert(g % d <= g) by {
            vstd::arithmetic::div_mod::lemma_mod_decreases(g as nat, d as nat);
        }
        let round = (g % d) as u32;
        let held = &a[i];
        let made = Assignment { facet: held.facet.duplicate(), owner: held.owner.clone(), round, reason: held.reason };
        let ghost before = assignment_views(out@);
        out.push(made);
        proof {
            assert(made@.facet == av[i as int].facet);
            assert(made@.owner == av[i as int].owner);
            assert(made@.reason == av[i as int].reason);
            assert(made@.round == grouped_at(os, i as int) % (d as int));
            assert(made@ == dealt(av, d as int)[i as int]);
            assert(assignment_views(out@) =~= before.push(made@));
            assert(dealt(av, d as int).take(i + 1) =~= dealt(av, d as int).take(i as int).push(dealt(av, d as int)[i as int]));
        }
        i = i + 1;
    }
    assert(dealt(av, d as int).take(a@.len() as int) =~= dealt(av, d as int));
    out
}

/// Repack a first-fit division into the fewest rounds, when first fit took
/// more.
pub(crate) fn fewest_division(packed: &[Assignment], lane: usize) -> (out: Option<Vec<Assignment>>)
    requires
        lane >= 1,
        packed@.len() <= u32::MAX,
    ensures
        match out {
            Some(v) => assignment_views(v@) == fewest_packing(assignment_views(packed@), lane as int),
            None => fewest_packing(assignment_views(packed@), lane as int) == assignment_views(packed@),
        },
{
    let f = fewest_of(packed, lane);
    let mut depth: usize = 0;
    let mut i: usize = 0;
    let ghost av = assignment_views(packed@);
    while i < packed.len()
        invariant
            i <= packed@.len(),
            packed@.len() <= u32::MAX,
            av == assignment_views(packed@),
            depth as int == depth_of(av.take(i as int)),
            depth <= u32::MAX,
        decreases packed@.len() - i,
    {
        assert(av.take(i + 1).drop_last() =~= av.take(i as int));
        assert(av.take(i + 1).last() == packed@[i as int]@);
        let round = packed[i].round;
        let here: usize = if round == u32::MAX {
            u32::MAX as usize
        } else {
            round as usize + 1
        };
        if here > depth {
            depth = here;
        }
        i = i + 1;
    }
    assert(av.take(packed@.len() as int) =~= av);
    if depth <= f {
        None
    } else {
        proof {
            lemma_dealt_ok(av, lane as int);
        }
        Some(deal(packed, f))
    }
}

/// Every round an assignment runs in lies below the depth, unless the
/// depth saturated at `u32::MAX`.
proof fn lemma_depth_above(a: Seq<AssignmentView>, i: int)
    requires
        0 <= i < a.len(),
    ensures
        a[i].round < depth_of(a) || depth_of(a) >= u32::MAX,
    decreases a.len(),
{
    if i < a.len() - 1 {
        lemma_depth_above(a.drop_last(), i);
        assert(a.drop_last()[i] == a[i]);
    }
}

/// A depth is at least zero and never past `u32::MAX`.
proof fn lemma_depth_range(a: Seq<AssignmentView>)
    requires
        forall|i: int| 0 <= i < a.len() ==> 0 <= #[trigger] a[i].round,
    ensures
        0 <= depth_of(a) <= u32::MAX,
    decreases a.len(),
{
    if a.len() > 0 {
        let rest = a.drop_last();
        assert forall|i: int| 0 <= i < rest.len() implies 0 <= #[trigger] rest[i].round by {
            assert(rest[i] == a[i]);
        }
        lemma_depth_range(rest);
        assert(0 <= a[a.len() - 1].round);
    }
}

/// How many assignments the rounds below `d` hold together.
pub open spec fn rounds_total(a: Seq<AssignmentView>, d: int) -> int
    decreases d,
{
    if d <= 0 {
        0
    } else {
        rounds_total(a, d - 1) + in_round(a, d - 1).len()
    }
}

/// The indices of `a` whose round lies in `[0, d)`.
pub open spec fn below_round(a: Seq<AssignmentView>, d: int) -> spec_fn(int) -> bool {
    |i: int| 0 <= a[i].round < d
}

/// A round holds as many assignments as run in it.
proof fn lemma_in_round_len(a: Seq<AssignmentView>, r: int)
    ensures
        in_round(a, r).len() == count_where(a.len() as int, in_round_at(a, r)),
    decreases a.len(),
{
    if a.len() > 0 {
        let rest = a.drop_last();
        lemma_in_round_len(rest, r);
        assert forall|i: int| 0 <= i < rest.len() implies #[trigger] in_round_at(rest, r)(i) == in_round_at(a, r)(i) by {
            assert(rest[i] == a[i]);
        }
        lemma_tally_ext(rest.len() as int, in_round_at(rest, r), in_round_at(a, r));
    }
}

/// The rounds below `d` together hold the assignments whose round is below `d`.
proof fn lemma_rounds_total(a: Seq<AssignmentView>, d: int)
    requires
        d >= 0,
    ensures
        rounds_total(a, d) == count_where(a.len() as int, below_round(a, d)),
    decreases d,
{
    let n = a.len() as int;
    if d == 0 {
        lemma_tally_ext(n, below_round(a, d), |i: int| false);
        super::tally::lemma_tally_zero(n);
    } else {
        lemma_rounds_total(a, d - 1);
        lemma_in_round_len(a, d - 1);
        let g = |i: int| a[i].round < d - 1;
        lemma_tally_split(n, below_round(a, d), g);
        lemma_tally_ext(n, |i: int| below_round(a, d)(i) && g(i), below_round(a, d - 1));
        lemma_tally_ext(n, |i: int| below_round(a, d)(i) && !g(i), in_round_at(a, d - 1));
    }
}

/// The rounds of a division partition its assignments: each runs in the one
/// round it names, below the depth (as far as a `u32` counts rounds), each
/// round's owners are exactly its assignments' owners, as many of them,
/// every round from the depth on is empty, and where no assignment names the
/// last round a `u32` can count, the rounds below the depth hold every
/// assignment between them.
pub proof fn law_rounds_partition(a: Seq<AssignmentView>)
    requires
        forall|i: int| 0 <= i < a.len() ==> 0 <= #[trigger] a[i].round,
    ensures
        forall|i: int| 0 <= i < a.len() ==> #[trigger] a[i].round < depth_of(a) || depth_of(a) == u32::MAX,
        forall|r: int| #[trigger] round_owners(a, r).len() == count_where(a.len() as int, in_round_at(a, r)),
        forall|r: int, o: Seq<char>|
            #[trigger] round_owners(a, r).contains(o) ==> exists|i: int|
                0 <= i < a.len() && a[i].round == r && #[trigger] a[i].owner == o,
        forall|r: int| depth_of(a) <= r < u32::MAX ==> #[trigger] round_owners(a, r).len() == 0,
        (forall|i: int| 0 <= i < a.len() ==> #[trigger] a[i].round < u32::MAX) ==> rounds_total(a, depth_of(a)) == a.len(),
{
    assert forall|i: int| 0 <= i < a.len() implies #[trigger] a[i].round < depth_of(a) || depth_of(a) == u32::MAX by {
        lemma_depth_above(a, i);
        lemma_depth_range(a);
    }
    assert forall|r: int| #[trigger] round_owners(a, r).len() == count_where(a.len() as int, in_round_at(a, r)) by {
        lemma_round_owners_len(a, r);
    }
    assert forall|r: int, o: Seq<char>| #[trigger] round_owners(a, r).contains(o) implies exists|i: int|
        0 <= i < a.len() && a[i].round == r && #[trigger] a[i].owner == o by {
        let i = lemma_round_owner_from(a, r, o);
    }
    assert forall|r: int| depth_of(a) <= r < u32::MAX implies #[trigger] round_owners(a, r).len() == 0 by {
        lemma_round_owners_len(a, r);
        assert forall|i: int| 0 <= i < a.len() && #[trigger] in_round_at(a, r)(i) implies false by {
            lemma_depth_above(a, i);
            lemma_depth_range(a);
        }
        lemma_tally_le(a.len() as int, in_round_at(a, r), |i: int| false);
        super::tally::lemma_tally_zero(a.len() as int);
        lemma_tally_bounds(a.len() as int, in_round_at(a, r));
    }
    if forall|i: int| 0 <= i < a.len() ==> #[trigger] a[i].round < u32::MAX {
        let n = a.len() as int;
        lemma_depth_range(a);
        lemma_rounds_total(a, depth_of(a));
        assert forall|i: int| 0 <= i < n implies #[trigger] below_round(a, depth_of(a))(i) == (|j: int| true)(i) by {
            lemma_depth_above(a, i);
        }
        lemma_tally_ext(n, below_round(a, depth_of(a)), |j: int| true);
        lemma_tally_all(n);
    }
}

} // verus!

//! The market reads a set of traces: how they were ordered, and how often
//! each was delivered, moves no bid.

use vstd::prelude::*;

use super::spec::{
    Market, addressed, authored, bids_of, counts_toward, member_relevance, member_share, pull, quietest_in,
    repeats_address, room_count, room_total, saturated, scores_any, share_count, share_of, share_floor, urge_of,
};
use super::market::bids_outcome;
use crate::error::Result;
use crate::quorum::StandingView;
use crate::salience::{SalienceWeights, salience_value, standing_value};
use crate::session::Sequence;
use crate::names::{distinct, lemma_distinct_contains, lemma_distinct_no_repeats, lemma_distinct_push};
use crate::trace::{Trace, alike, lemma_alike_at, lemma_view_fields, trace_view, trace_views};
use crate::window::{addresses_identify, key, same_traces};

verus! {

/// The sum of `g` over the traces of `s` that are first at their address.
pub open spec fn fresh_sum(s: Seq<Trace>, g: spec_fn(Trace) -> int) -> int
    decreases s.len(),
{
    if s.len() == 0 {
        0
    } else {
        fresh_sum(s.drop_last(), g) + if repeats_address(s.drop_last(), s.last()) {
            0
        } else {
            g(s.last())
        }
    }
}

/// The sum of `g` over every trace of `s`.
pub open spec fn plain_sum(s: Seq<Trace>, g: spec_fn(Trace) -> int) -> int
    decreases s.len(),
{
    if s.len() == 0 {
        0
    } else {
        plain_sum(s.drop_last(), g) + g(s.last())
    }
}

/// Taking one trace out of a sum takes out its term.
proof fn lemma_sum_remove(q: Seq<Trace>, i: int, g: spec_fn(Trace) -> int)
    requires
        0 <= i < q.len(),
    ensures
        plain_sum(q, g) == plain_sum(q.remove(i), g) + g(q[i]),
    decreases q.len(),
{
    if i == q.len() - 1 {
        assert(q.remove(i) =~= q.drop_last());
    } else {
        lemma_sum_remove(q.drop_last(), i, g);
        assert(q.remove(i).drop_last() =~= q.drop_last().remove(i));
        assert(q.remove(i).last() == q.last());
    }
}

/// Two lists without repeats holding the same traces sum alike.
proof fn lemma_sum_permutation(p: Seq<Trace>, q: Seq<Trace>, g: spec_fn(Trace) -> int)
    requires
        p.no_duplicates(),
        q.no_duplicates(),
        forall|x: Trace| p.contains(x) <==> q.contains(x),
    ensures
        plain_sum(p, g) == plain_sum(q, g),
    decreases p.len(),
{
    if p.len() == 0 {
        if q.len() > 0 {
            assert(q.contains(q[0]));
        }
    } else {
        let x = p.last();
        assert(p.contains(x)) by {
            assert(p[p.len() - 1] == x);
        }
        let i = choose|i: int| 0 <= i < q.len() && q[i] == x;
        let pp = p.drop_last();
        let qq = q.remove(i);
        assert forall|y: Trace| pp.contains(y) <==> qq.contains(y) by {
            if pp.contains(y) {
                let a = choose|a: int| 0 <= a < pp.len() && pp[a] == y;
                assert(p[a] == y);
                assert(y != x) by {
                    assert(a != p.len() - 1);
                }
                assert(q.contains(y)) by {
                    assert(p.contains(y));
                }
                let b = choose|b: int| 0 <= b < q.len() && q[b] == y;
                assert(b != i);
                if b < i {
                    assert(qq[b] == y);
                } else {
                    assert(qq[b - 1] == y);
                }
            }
            if qq.contains(y) {
                let b = choose|b: int| 0 <= b < qq.len() && qq[b] == y;
                let c = if b < i { b } else { b + 1 };
                assert(q[c] == y);
                assert(c != i);
                assert(y != x);
                assert(p.contains(y)) by {
                    assert(q.contains(y));
                }
                let a = choose|a: int| 0 <= a < p.len() && p[a] == y;
                assert(a != p.len() - 1);
                assert(pp[a] == y);
            }
        }
        assert(pp.no_duplicates()) by {
            assert forall|a: int, b: int| 0 <= a < pp.len() && 0 <= b < pp.len() && a != b implies pp[a] != pp[b] by {
                assert(p[a] == pp[a] && p[b] == pp[b]);
            }
        }
        assert(qq.no_duplicates()) by {
            assert forall|a: int, b: int| 0 <= a < qq.len() && 0 <= b < qq.len() && a != b implies qq[a] != qq[b] by {
                let ca = if a < i { a } else { a + 1 };
                let cb = if b < i { b } else { b + 1 };
                assert(q[ca] == qq[a] && q[cb] == qq[b]);
            }
        }
        lemma_sum_permutation(pp, qq, g);
        lemma_sum_remove(q, i, g);
    }
}

/// Where addresses identify traces, summing each address once is summing
/// each distinct trace once.
proof fn lemma_fresh_is_distinct(s: Seq<Trace>, g: spec_fn(Trace) -> int)
    requires
        addresses_identify(s),
    ensures
        fresh_sum(s, g) == plain_sum(distinct(s), g),
    decreases s.len(),
{
    if s.len() > 0 {
        let p = s.drop_last();
        let x = s.last();
        assert(addresses_identify(p)) by {
            assert forall|i: int, j: int|
                0 <= i < p.len() && 0 <= j < p.len() && key(#[trigger] p[i]) == key(#[trigger] p[j]) implies p[i] == p[j] by {
                assert(s[i] == p[i] && s[j] == p[j]);
            }
        }
        lemma_fresh_is_distinct(p, g);
        assert(s =~= p.push(x));
        lemma_distinct_push(p, x);
        lemma_distinct_contains(p, x);
        assert(repeats_address(p, x) <==> p.contains(x)) by {
            if repeats_address(p, x) {
                let j = choose|j: int| 0 <= j < p.len() && key(#[trigger] p[j]) == key(x);
                assert(s[j] == p[j] && s[s.len() - 1] == x);
                assert(p[j] == x);
            }
            if p.contains(x) {
                let j = choose|j: int| 0 <= j < p.len() && p[j] == x;
                assert(key(p[j]) == key(x));
            }
        }
        if !distinct(p).contains(x) {
            assert(distinct(p).push(x).drop_last() =~= distinct(p));
        }
    }
}

/// The market's sums read a set: two lists holding the same traces, in any
/// order and however often, sum alike, as long as addresses identify traces.
pub proof fn lemma_fresh_sum_set(a: Seq<Trace>, b: Seq<Trace>, g: spec_fn(Trace) -> int)
    requires
        same_traces(a, b),
        addresses_identify(a),
        addresses_identify(b),
    ensures
        fresh_sum(a, g) == fresh_sum(b, g),
{
    lemma_fresh_is_distinct(a, g);
    lemma_fresh_is_distinct(b, g);
    lemma_distinct_no_repeats(a);
    lemma_distinct_no_repeats(b);
    assert forall|x: Trace| distinct(a).contains(x) <==> distinct(b).contains(x) by {
        lemma_distinct_contains(a, x);
        lemma_distinct_contains(b, x);
        if a.contains(x) {
            let i = choose|i: int| 0 <= i < a.len() && a[i] == x;
            assert(b.contains(a[i]));
        }
        if b.contains(x) {
            let j = choose|j: int| 0 <= j < b.len() && b[j] == x;
            assert(a.contains(b[j]));
        }
    }
    lemma_sum_permutation(distinct(a), distinct(b), g);
}

/// What one trace adds to a member's pull.
pub open spec fn pull_term(
    standings: Seq<StandingView>,
    thresholds: Seq<super::types::AgentThreshold>,
    m: Seq<char>,
    at: Sequence,
    weights: SalienceWeights,
    cap: u32,
) -> spec_fn(Trace) -> int {
    |t: Trace|
        if saturated(t, standings, cap) {
            0
        } else {
            salience_value(standing_value(t, at, weights), weights, member_relevance(thresholds, m, t.topic_name()))
        }
}

/// What one trace adds to a member's share.
pub open spec fn share_term(m: Seq<char>, floor: int, standings: Seq<StandingView>) -> spec_fn(Trace) -> int {
    |t: Trace|
        if counts_toward(t, m, floor, standings) {
            1int
        } else {
            0
        }
}

/// What one trace adds to the room's total share.
pub open spec fn room_term(members: Seq<Seq<char>>, floor: int, standings: Seq<StandingView>) -> spec_fn(
    Trace,
) -> int {
    |t: Trace|
        if t.agent() is Some && members.contains(t.agent()->0) && counts_toward(t, t.agent()->0, floor, standings) {
            1int
        } else {
            0
        }
}

/// A member's pull sums each address once.
proof fn lemma_pull_fresh(
    s: Seq<Trace>,
    standings: Seq<StandingView>,
    thresholds: Seq<super::types::AgentThreshold>,
    m: Seq<char>,
    at: Sequence,
    weights: SalienceWeights,
    cap: u32,
)
    ensures
        pull(s, standings, thresholds, m, at, weights, cap) == fresh_sum(
            s,
            pull_term(standings, thresholds, m, at, weights, cap),
        ),
    decreases s.len(),
{
    if s.len() > 0 {
        lemma_pull_fresh(s.drop_last(), standings, thresholds, m, at, weights, cap);
    }
}

/// A member's share counts each address once.
proof fn lemma_share_fresh(s: Seq<Trace>, m: Seq<char>, floor: int, standings: Seq<StandingView>)
    ensures
        share_count(s, m, floor, standings) == fresh_sum(s, share_term(m, floor, standings)),
    decreases s.len(),
{
    if s.len() > 0 {
        lemma_share_fresh(s.drop_last(), m, floor, standings);
    }
}

/// The room's total counts each address once.
proof fn lemma_room_fresh(s: Seq<Trace>, members: Seq<Seq<char>>, floor: int, standings: Seq<StandingView>)
    ensures
        room_count(s, members, floor, standings) == fresh_sum(s, room_term(members, floor, standings)),
    decreases s.len(),
{
    if s.len() > 0 {
        lemma_room_fresh(s.drop_last(), members, floor, standings);
    }
}

/// Whether a member wrote at a row does not depend on how the traces were
/// delivered.
proof fn lemma_authored_set(a: Seq<Trace>, b: Seq<Trace>, m: Seq<char>, c: Sequence)
    requires
        same_traces(a, b),
    ensures
        authored(a, m, c) == authored(b, m, c),
{
    if authored(a, m, c) {
        let k = choose|k: int| 0 <= k < a.len() && (#[trigger] a[k]).agent() == Some(m) && a[k].sequence == c;
        assert(b.contains(a[k]));
        let j = choose|j: int| 0 <= j < b.len() && b[j] == a[k];
        assert(b[j].agent() == Some(m) && b[j].sequence == c);
    }
    if authored(b, m, c) {
        let k = choose|k: int| 0 <= k < b.len() && (#[trigger] b[k]).agent() == Some(m) && b[k].sequence == c;
        assert(a.contains(b[k]));
        let j = choose|j: int| 0 <= j < a.len() && a[j] == b[k];
        assert(a[j].agent() == Some(m) && a[j].sequence == c);
    }
}

/// Whether a member was addressed does not depend on how the traces were
/// delivered.
proof fn lemma_addressed_set(a: Seq<Trace>, b: Seq<Trace>, m: Seq<char>)
    requires
        same_traces(a, b),
    ensures
        addressed(a, m) == addressed(b, m),
{
    assert forall|c: Sequence| #[trigger] authored(a, m, c) == authored(b, m, c) by {
        lemma_authored_set(a, b, m, c);
    }
    if addressed(a, m) {
        let k = choose|k: int|
            0 <= k < a.len() && (#[trigger] a[k]).agent() != Some(m) && ((a[k].target is Some && authored(
                a,
                m,
                a[k].target->0,
            )) || exists|j: int| 0 <= j < a[k].cites@.len() && authored(a, m, #[trigger] a[k].cites@[j]));
        assert(b.contains(a[k]));
        let i = choose|i: int| 0 <= i < b.len() && b[i] == a[k];
        if !(a[k].target is Some && authored(a, m, a[k].target->0)) {
            let j = choose|j: int| 0 <= j < a[k].cites@.len() && authored(a, m, #[trigger] a[k].cites@[j]);
            assert(authored(b, m, b[i].cites@[j]));
        }
    }
    if addressed(b, m) {
        let k = choose|k: int|
            0 <= k < b.len() && (#[trigger] b[k]).agent() != Some(m) && ((b[k].target is Some && authored(
                b,
                m,
                b[k].target->0,
            )) || exists|j: int| 0 <= j < b[k].cites@.len() && authored(b, m, #[trigger] b[k].cites@[j]));
        assert(a.contains(b[k]));
        let i = choose|i: int| 0 <= i < a.len() && a[i] == b[k];
        if !(b[k].target is Some && authored(b, m, b[k].target->0)) {
            let j = choose|j: int| 0 <= j < b[k].cites@.len() && authored(b, m, #[trigger] b[k].cites@[j]);
            assert(authored(a, m, a[i].cites@[j]));
        }
    }
}

/// Every member's share, and so the least-heard member, do not depend on
/// how the traces were delivered.
proof fn lemma_quietest_set(
    a: Seq<Trace>,
    b: Seq<Trace>,
    standings: Seq<StandingView>,
    members: Seq<Seq<char>>,
    floor: int,
    n: int,
)
    requires
        forall|m: Seq<char>| #[trigger] share_of(a, standings, members, m, floor) == share_of(b, standings, members, m, floor),
    ensures
        quietest_in(a, standings, members, floor, n) == quietest_in(b, standings, members, floor, n),
    decreases n,
{
    if n > 0 {
        lemma_quietest_set(a, b, standings, members, floor, n - 1);
    }
}

/// Every urge is the same over two deliveries of one set of traces.
proof fn lemma_urges_set(k: Market, a: Seq<Trace>, b: Seq<Trace>)
    requires
        same_traces(a, b),
        addresses_identify(a),
        addresses_identify(b),
    ensures
        forall|m: Seq<char>| #[trigger] urge_of(Market { traces: a, ..k }, m) == urge_of(Market { traces: b, ..k }, m),
{
    let ka = Market { traces: a, ..k };
    let kb = Market { traces: b, ..k };
    let floor = share_floor(k.at, k.window);
    assert forall|m: Seq<char>| #[trigger] share_of(a, k.standings, k.members, m, floor) == share_of(
        b,
        k.standings,
        k.members,
        m,
        floor,
    ) by {
        lemma_share_fresh(a, m, floor, k.standings);
        lemma_share_fresh(b, m, floor, k.standings);
        lemma_fresh_sum_set(a, b, share_term(m, floor, k.standings));
    }
    lemma_room_fresh(a, k.members, floor, k.standings);
    lemma_room_fresh(b, k.members, floor, k.standings);
    lemma_fresh_sum_set(a, b, room_term(k.members, floor, k.standings));
    assert(room_total(ka) == room_total(kb));
    assert forall|m: Seq<char>| #[trigger] member_share(ka, m) == member_share(kb, m) by {
        assert(share_of(a, k.standings, k.members, m, floor) == share_of(b, k.standings, k.members, m, floor));
    }
    lemma_quietest_set(a, b, k.standings, k.members, floor, k.members.len() as int);
    assert forall|m: Seq<char>| #[trigger] urge_of(ka, m) == urge_of(kb, m) by {
        lemma_pull_fresh(a, k.standings, k.thresholds, m, k.at, k.weights, k.repetition_cap);
        lemma_pull_fresh(b, k.standings, k.thresholds, m, k.at, k.weights, k.repetition_cap);
        lemma_fresh_sum_set(a, b, pull_term(k.standings, k.thresholds, m, k.at, k.weights, k.repetition_cap));
        lemma_addressed_set(a, b, m);
        assert(member_share(ka, m) == member_share(kb, m));
    }
}

/// The bids over the first `n` members are the same over two deliveries of
/// one set of traces.
proof fn lemma_bids_set(k: Market, a: Seq<Trace>, b: Seq<Trace>, n: int)
    requires
        forall|m: Seq<char>| #[trigger] urge_of(Market { traces: a, ..k }, m) == urge_of(Market { traces: b, ..k }, m),
    ensures
        bids_of(Market { traces: a, ..k }, n) == bids_of(Market { traces: b, ..k }, n),
    decreases n,
{
    if n > 0 {
        lemma_bids_set(k, a, b, n - 1);
        assert(urge_of(Market { traces: a, ..k }, k.members[n - 1]) == urge_of(Market { traces: b, ..k }, k.members[n - 1]));
    }
}

/// The attention market reads a set of traces: two transcripts holding the
/// same traces, in any order and however often each was delivered, admit
/// exactly the same bids, as long as no two different traces share an
/// address.
pub proof fn law_bids_read_a_set(k: Market, a: Seq<Trace>, b: Seq<Trace>, result: Result<Vec<super::types::Bid>>)
    requires
        same_traces(a, b),
        addresses_identify(a),
        addresses_identify(b),
    ensures
        bids_of(Market { traces: a, ..k }, k.members.len() as int) == bids_of(
            Market { traces: b, ..k },
            k.members.len() as int,
        ),
        scores_any(Market { traces: a, ..k }) == scores_any(Market { traces: b, ..k }),
        bids_outcome(result, Market { traces: a, ..k }) == bids_outcome(result, Market { traces: b, ..k }),
{
    let ka = Market { traces: a, ..k };
    let kb = Market { traces: b, ..k };
    lemma_urges_set(k, a, b);
    lemma_bids_set(k, a, b, k.members.len() as int);
    if scores_any(ka) {
        let i = choose|i: int| 0 <= i < a.len() && !saturated(#[trigger] a[i], k.standings, k.repetition_cap);
        assert(b.contains(a[i]));
        let j = choose|j: int| 0 <= j < b.len() && b[j] == a[i];
        assert(!saturated(kb.traces[j], kb.standings, kb.repetition_cap));
    }
    if scores_any(kb) {
        let i = choose|i: int| 0 <= i < b.len() && !saturated(#[trigger] b[i], k.standings, k.repetition_cap);
        assert(a.contains(b[i]));
        let j = choose|j: int| 0 <= j < a.len() && a[j] == b[i];
        assert(!saturated(ka.traces[j], ka.standings, ka.repetition_cap));
    }
}

/// The attention market is idempotent: redelivering traces it already read
/// moves no bid, so a host that meets a duplicate lands where one that did
/// not would have.
pub proof fn law_bids_idempotent(
    k: Market,
    traces: Seq<Trace>,
    redelivered: Seq<Trace>,
    result: Result<Vec<super::types::Bid>>,
)
    requires
        addresses_identify(traces),
        forall|j: int| 0 <= j < redelivered.len() ==> traces.contains(#[trigger] redelivered[j]),
    ensures
        bids_of(Market { traces: traces + redelivered, ..k }, k.members.len() as int) == bids_of(
            Market { traces, ..k },
            k.members.len() as int,
        ),
        bids_outcome(result, Market { traces: traces + redelivered, ..k }) == bids_outcome(
            result,
            Market { traces, ..k },
        ),
{
    let all = traces + redelivered;
    assert forall|i: int| 0 <= i < all.len() implies traces.contains(#[trigger] all[i]) by {
        if i < traces.len() {
            assert(all[i] == traces[i]);
        } else {
            assert(all[i] == redelivered[i - traces.len()]);
        }
    }
    assert forall|j: int| 0 <= j < traces.len() implies all.contains(#[trigger] traces[j]) by {
        assert(all[j] == traces[j]);
    }
    assert(addresses_identify(all)) by {
        assert forall|i: int, j: int|
            0 <= i < all.len() && 0 <= j < all.len() && key(#[trigger] all[i]) == key(#[trigger] all[j]) implies all[i]
                == all[j] by {
            assert(traces.contains(all[i]) && traces.contains(all[j]));
            let x = choose|x: int| 0 <= x < traces.len() && traces[x] == all[i];
            let y = choose|y: int| 0 <= y < traces.len() && traces[y] == all[j];
            assert(key(traces[x]) == key(traces[y]));
        }
    }
    law_bids_read_a_set(k, all, traces, result);
}

/// Alike lists sum alike, for a term that reads what a trace says.
proof fn lemma_fresh_sum_alike(a: Seq<Trace>, b: Seq<Trace>, g: spec_fn(Trace) -> int)
    requires
        alike(a, b),
        forall|i: int| 0 <= i < a.len() ==> #[trigger] g(a[i]) == g(b[i]),
    ensures
        fresh_sum(a, g) == fresh_sum(b, g),
    decreases a.len(),
{
    assert(trace_views(a).len() == trace_views(b).len());
    if a.len() > 0 {
        let pa = a.drop_last();
        let pb = b.drop_last();
        assert(trace_views(pa) =~= trace_views(a).drop_last());
        assert(trace_views(pb) =~= trace_views(b).drop_last());
        assert forall|i: int| 0 <= i < pa.len() implies #[trigger] g(pa[i]) == g(pb[i]) by {
            assert(pa[i] == a[i] && pb[i] == b[i]);
        }
        lemma_fresh_sum_alike(pa, pb, g);
        lemma_alike_at(a, b, a.len() - 1);
        lemma_view_fields(a.last(), b.last());
        assert forall|j: int| 0 <= j < pa.len() implies key(#[trigger] pa[j]) == key(pb[j]) by {
            lemma_alike_at(a, b, j);
            lemma_view_fields(a[j], b[j]);
        }
        if repeats_address(pa, a.last()) {
            let j = choose|j: int| 0 <= j < pa.len() && key(#[trigger] pa[j]) == key(a.last());
            assert(key(pb[j]) == key(b.last()));
        }
        if repeats_address(pb, b.last()) {
            let j = choose|j: int| 0 <= j < pb.len() && key(#[trigger] pb[j]) == key(b.last());
            assert(key(pa[j]) == key(a.last()));
        }
        assert(g(a[a.len() - 1]) == g(b[b.len() - 1]));
    }
}

/// Every urge is the same over two alike lists of traces.
proof fn lemma_urges_alike(k: Market, a: Seq<Trace>, b: Seq<Trace>)
    requires
        alike(a, b),
    ensures
        forall|m: Seq<char>| #[trigger] urge_of(Market { traces: a, ..k }, m) == urge_of(Market { traces: b, ..k }, m),
        scores_any(Market { traces: a, ..k }) == scores_any(Market { traces: b, ..k }),
{
    let ka = Market { traces: a, ..k };
    let kb = Market { traces: b, ..k };
    let floor = share_floor(k.at, k.window);
    assert(trace_views(a).len() == trace_views(b).len());
    assert forall|i: int| 0 <= i < a.len() implies trace_view(#[trigger] a[i]) == trace_view(b[i]) && a[i].sequence
        == b[i].sequence && a[i].kind == b[i].kind && a[i].topic_name() == b[i].topic_name() && a[i].agent()
        == b[i].agent() && a[i].is_grounded() == b[i].is_grounded() && a[i].target == b[i].target && a[i].cites@
        == b[i].cites@ && a[i].topic_name() == b[i].topic_name() by {
        lemma_alike_at(a, b, i);
        lemma_view_fields(a[i], b[i]);
    }
    assert forall|m: Seq<char>| #[trigger] share_of(a, k.standings, k.members, m, floor) == share_of(
        b,
        k.standings,
        k.members,
        m,
        floor,
    ) by {
        lemma_share_fresh(a, m, floor, k.standings);
        lemma_share_fresh(b, m, floor, k.standings);
        let g = share_term(m, floor, k.standings);
        assert forall|i: int| 0 <= i < a.len() implies #[trigger] g(a[i]) == g(b[i]) by {
            assert(trace_view(a[i]) == trace_view(b[i]));
        }
        lemma_fresh_sum_alike(a, b, g);
    }
    lemma_room_fresh(a, k.members, floor, k.standings);
    lemma_room_fresh(b, k.members, floor, k.standings);
    let rg = room_term(k.members, floor, k.standings);
    assert forall|i: int| 0 <= i < a.len() implies #[trigger] rg(a[i]) == rg(b[i]) by {
        assert(trace_view(a[i]) == trace_view(b[i]));
    }
    lemma_fresh_sum_alike(a, b, rg);
    assert(room_total(ka) == room_total(kb));
    assert forall|m: Seq<char>| #[trigger] member_share(ka, m) == member_share(kb, m) by {
        assert(share_of(a, k.standings, k.members, m, floor) == share_of(b, k.standings, k.members, m, floor));
    }
    lemma_quietest_set(a, b, k.standings, k.members, floor, k.members.len() as int);
    assert forall|m: Seq<char>, c: Sequence| #[trigger] authored(a, m, c) == authored(b, m, c) by {
        if authored(a, m, c) {
            let x = choose|x: int| 0 <= x < a.len() && (#[trigger] a[x]).agent() == Some(m) && a[x].sequence == c;
            assert(trace_view(a[x]) == trace_view(b[x]));
        }
        if authored(b, m, c) {
            let x = choose|x: int| 0 <= x < b.len() && (#[trigger] b[x]).agent() == Some(m) && b[x].sequence == c;
            assert(trace_view(a[x]) == trace_view(b[x]));
        }
    }
    assert forall|m: Seq<char>| #[trigger] urge_of(ka, m) == urge_of(kb, m) by {
        lemma_pull_fresh(a, k.standings, k.thresholds, m, k.at, k.weights, k.repetition_cap);
        lemma_pull_fresh(b, k.standings, k.thresholds, m, k.at, k.weights, k.repetition_cap);
        let pg = pull_term(k.standings, k.thresholds, m, k.at, k.weights, k.repetition_cap);
        assert forall|i: int| 0 <= i < a.len() implies #[trigger] pg(a[i]) == pg(b[i]) by {
            assert(trace_view(a[i]) == trace_view(b[i]));
        }
        lemma_fresh_sum_alike(a, b, pg);
        if addressed(a, m) {
            let x = choose|x: int|
                0 <= x < a.len() && (#[trigger] a[x]).agent() != Some(m) && ((a[x].target is Some && authored(
                    a,
                    m,
                    a[x].target->0,
                )) || exists|j: int| 0 <= j < a[x].cites@.len() && authored(a, m, #[trigger] a[x].cites@[j]));
            assert(trace_view(a[x]) == trace_view(b[x]));
            if !(a[x].target is Some && authored(a, m, a[x].target->0)) {
                let j = choose|j: int| 0 <= j < a[x].cites@.len() && authored(a, m, #[trigger] a[x].cites@[j]);
                assert(authored(b, m, b[x].cites@[j]));
            }
        }
        if addressed(b, m) {
            let x = choose|x: int|
                0 <= x < b.len() && (#[trigger] b[x]).agent() != Some(m) && ((b[x].target is Some && authored(
                    b,
                    m,
                    b[x].target->0,
                )) || exists|j: int| 0 <= j < b[x].cites@.len() && authored(b, m, #[trigger] b[x].cites@[j]));
            assert(trace_view(a[x]) == trace_view(b[x]));
            if !(b[x].target is Some && authored(b, m, b[x].target->0)) {
                let j = choose|j: int| 0 <= j < b[x].cites@.len() && authored(b, m, #[trigger] b[x].cites@[j]);
                assert(authored(a, m, a[x].cites@[j]));
            }
        }
        assert(member_share(ka, m) == member_share(kb, m));
    }
    if scores_any(ka) {
        let i = choose|i: int| 0 <= i < a.len() && !saturated(#[trigger] a[i], k.standings, k.repetition_cap);
        assert(trace_view(a[i]) == trace_view(b[i]));
        assert(!saturated(kb.traces[i], kb.standings, kb.repetition_cap));
    }
    if scores_any(kb) {
        let i = choose|i: int| 0 <= i < b.len() && !saturated(#[trigger] b[i], k.standings, k.repetition_cap);
        assert(trace_view(a[i]) == trace_view(b[i]));
        assert(!saturated(ka.traces[i], ka.standings, ka.repetition_cap));
    }
}

/// Bids depend on what the traces say, not on how each is held: two alike
/// lists admit the same bids.
pub proof fn lemma_bids_alike(k: Market, a: Seq<Trace>, b: Seq<Trace>, result: Result<Vec<super::types::Bid>>)
    requires
        alike(a, b),
    ensures
        bids_of(Market { traces: a, ..k }, k.members.len() as int) == bids_of(
            Market { traces: b, ..k },
            k.members.len() as int,
        ),
        scores_any(Market { traces: a, ..k }) == scores_any(Market { traces: b, ..k }),
        bids_outcome(result, Market { traces: a, ..k }) == bids_outcome(result, Market { traces: b, ..k }),
{
    lemma_urges_alike(k, a, b);
    lemma_bids_set(k, a, b, k.members.len() as int);
}

} // verus!

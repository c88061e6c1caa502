//! What the attention market computes, stated over plain values.

use vstd::prelude::*;

use super::types::{AgentThreshold, BidReason, neutral_relevance, relevance_of};
use crate::quorum::StandingView;
use crate::salience::{SalienceWeights, salience_value, standing_value};
use crate::session::Sequence;
use crate::trace::{Trace, TraceKind};
use crate::window::key;

verus! {

/// Whether some trace of `s` sits at `t`'s address: a redelivered trace
/// the market has already read.
pub open spec fn repeats_address(s: Seq<Trace>, t: Trace) -> bool {
    exists|j: int| 0 <= j < s.len() && key(#[trigger] s[j]) == key(t)
}

/// The bonus a member whose message was cited or objected to gets.
pub open spec fn addressed_bonus() -> int {
    2000
}

/// The bonus a member who backed neither deadlocked side gets.
pub open spec fn dissent_bonus() -> int {
    1500
}

/// Bonus applied to a member the directory names as holding a promoted
/// topic.
pub open spec fn knows_bonus() -> int {
    1750
}

/// The bonus the least-heard member of a lopsided room gets.
pub open spec fn quiet_bonus() -> int {
    1000
}

/// The penalty a member holding more than the dominance cap pays.
pub open spec fn dominance_penalty() -> int {
    3000
}

/// The oldest sequence share is measured from.
pub open spec fn share_floor(at: Sequence, window: u32) -> int {
    if at.0 >= window {
        at.0 - window
    } else {
        0
    }
}

/// Whether some standing still counts `m` as a supporter.
pub open spec fn survives(standings: Seq<StandingView>, m: Seq<char>) -> bool {
    exists|i: int| 0 <= i < standings.len() && (#[trigger] standings[i]).supporters.contains(m)
}

/// Whether a trace counts toward `m`'s grounded share.
pub open spec fn counts_toward(t: Trace, m: Seq<char>, floor: int, standings: Seq<StandingView>) -> bool {
    t.sequence.0 >= floor && t.is_grounded() && t.agent() == Some(m) && survives(standings, m)
}

/// How many traces of `s` count toward `m`'s share, each address once.
pub open spec fn share_count(s: Seq<Trace>, m: Seq<char>, floor: int, standings: Seq<StandingView>) -> int
    decreases s.len(),
{
    if s.len() == 0 {
        0
    } else {
        share_count(s.drop_last(), m, floor, standings) + if counts_toward(s.last(), m, floor, standings)
            && !repeats_address(s.drop_last(), s.last()) {
            1int
        } else {
            0
        }
    }
}

/// A member's grounded, surviving contributions; nobody else has a share.
pub open spec fn share_of(
    traces: Seq<Trace>,
    standings: Seq<StandingView>,
    members: Seq<Seq<char>>,
    m: Seq<char>,
    floor: int,
) -> int {
    if members.contains(m) {
        share_count(traces, m, floor, standings)
    } else {
        0
    }
}

/// How many traces of `s` count toward the share of the member who wrote
/// them, each address once: every member's share, summed.
pub open spec fn room_count(s: Seq<Trace>, members: Seq<Seq<char>>, floor: int, standings: Seq<StandingView>) -> int
    decreases s.len(),
{
    if s.len() == 0 {
        0
    } else {
        let t = s.last();
        room_count(s.drop_last(), members, floor, standings) + if t.agent() is Some && members.contains(
            t.agent()->0,
        ) && counts_toward(t, t.agent()->0, floor, standings) && !repeats_address(s.drop_last(), t) {
            1int
        } else {
            0
        }
    }
}

/// Whether a share is more than `cap` percent of the total.
pub open spec fn exceeds(share: int, total: int, cap: u32) -> bool {
    total > 0 && share * 100 > total * cap
}

/// Among the first `n` members, the index of the first of least share.
pub open spec fn quietest_in(
    traces: Seq<Trace>,
    standings: Seq<StandingView>,
    members: Seq<Seq<char>>,
    floor: int,
    n: int,
) -> Option<int>
    decreases n,
{
    if n <= 0 {
        None
    } else {
        let held = quietest_in(traces, standings, members, floor, n - 1);
        if held is None || share_of(traces, standings, members, members[n - 1], floor) < share_of(
            traces,
            standings,
            members,
            members[held->0],
            floor,
        ) {
            Some(n - 1)
        } else {
            held
        }
    }
}

/// The most supporters any standing has.
pub open spec fn most_supporters(standings: Seq<StandingView>) -> int
    decreases standings.len(),
{
    if standings.len() == 0 {
        0
    } else {
        let rest = most_supporters(standings.drop_last());
        let here = standings.last().supporters.len() as int;
        if here > rest {
            here
        } else {
            rest
        }
    }
}

/// How many standings have exactly `top` supporters.
pub open spec fn tied_count(standings: Seq<StandingView>, top: int) -> int
    decreases standings.len(),
{
    if standings.len() == 0 {
        0
    } else {
        tied_count(standings.drop_last(), top) + if standings.last().supporters.len() == top {
            1int
        } else {
            0
        }
    }
}

/// Whether the room is deadlocked: at least two standings, and two or more
/// of them share the greatest, non-zero, supporter count.
pub open spec fn deadlock(standings: Seq<StandingView>) -> bool {
    standings.len() >= 2 && most_supporters(standings) > 0 && tied_count(
        standings,
        most_supporters(standings),
    ) >= 2
}

/// Whether `m` backs one of the tied topics.
pub open spec fn backs_deadlock(standings: Seq<StandingView>, m: Seq<char>) -> bool {
    exists|i: int|
        0 <= i < standings.len() && (#[trigger] standings[i]).supporters.len() == most_supporters(
            standings,
        ) && standings[i].supporters.contains(m)
}

/// Whether restating this trace scores nothing: a support for a topic that
/// already has `cap` distinct supporters.
pub open spec fn saturated(t: Trace, standings: Seq<StandingView>, cap: u32) -> bool {
    cap != 0 && t.kind == TraceKind::Support && t.topic_name() is Some && exists|i: int|
        0 <= i < standings.len() && (#[trigger] standings[i]).topic == t.topic_name()->0
            && standings[i].supporters.len() <= u32::MAX && standings[i].supporters.len() >= cap
}

/// The first threshold record naming `m`.
pub open spec fn record_for(thresholds: Seq<AgentThreshold>, m: Seq<char>) -> Option<AgentThreshold>
    decreases thresholds.len(),
{
    if thresholds.len() == 0 {
        None
    } else if thresholds[0].agent_id@ == m {
        Some(thresholds[0])
    } else {
        record_for(thresholds.drop_first(), m)
    }
}

/// A member's threshold: its record's, or zero.
pub open spec fn threshold_of(thresholds: Seq<AgentThreshold>, m: Seq<char>) -> int {
    match record_for(thresholds, m) {
        Some(r) => r.threshold as int,
        None => 0,
    }
}

/// A member's relevance for a topic: its record's, or neutral.
pub open spec fn member_relevance(thresholds: Seq<AgentThreshold>, m: Seq<char>, topic: Option<Seq<char>>) -> u8 {
    match record_for(thresholds, m) {
        Some(r) => relevance_of(r, topic),
        None => neutral_relevance(),
    }
}

/// The salience pull of the unsaturated traces of `s` on member `m`, each
/// address read once.
pub open spec fn pull(
    s: Seq<Trace>,
    standings: Seq<StandingView>,
    thresholds: Seq<AgentThreshold>,
    m: Seq<char>,
    at: Sequence,
    weights: SalienceWeights,
    repetition_cap: u32,
) -> int
    decreases s.len(),
{
    if s.len() == 0 {
        0
    } else {
        let t = s.last();
        pull(s.drop_last(), standings, thresholds, m, at, weights, repetition_cap) + if saturated(
            t,
            standings,
            repetition_cap,
        ) || repeats_address(s.drop_last(), t) {
            0
        } else {
            salience_value(
                standing_value(t, at, weights),
                weights,
                member_relevance(thresholds, m, t.topic_name()),
            )
        }
    }
}

/// Whether another member's trace cited or objected to a message of `m`.
pub open spec fn addressed(traces: Seq<Trace>, m: Seq<char>) -> bool {
    exists|k: int|
        0 <= k < traces.len() && (#[trigger] traces[k]).agent() != Some(m) && ((traces[k].target is Some
            && authored(traces, m, traces[k].target->0)) || exists|j: int|
            0 <= j < traces[k].cites@.len() && authored(traces, m, #[trigger] traces[k].cites@[j]))
}

/// Whether `m` wrote some trace at row `c`.
pub open spec fn authored(traces: Seq<Trace>, m: Seq<char>, c: Sequence) -> bool {
    exists|k: int| 0 <= k < traces.len() && (#[trigger] traces[k]).agent() == Some(m) && traces[k].sequence == c
}

/// What one member bids, before its threshold is checked: its urge and why.
pub struct Urge {
    pub urge: int,
    pub reason: BidReason,
}

/// Everything the market reads, as plain values.
pub struct Market {
    pub traces: Seq<Trace>,
    pub standings: Seq<StandingView>,
    pub members: Seq<Seq<char>>,
    pub thresholds: Seq<AgentThreshold>,
    pub at: Sequence,
    pub weights: SalienceWeights,
    pub dominance_cap: u32,
    pub repetition_cap: u32,
    pub window: u32,
    pub knowers: Seq<Seq<char>>,
}

/// The total grounded share of the room.
pub open spec fn room_total(k: Market) -> int {
    room_count(k.traces, k.members, share_floor(k.at, k.window), k.standings)
}

/// A member's share of the room.
pub open spec fn member_share(k: Market, m: Seq<char>) -> int {
    share_of(k.traces, k.standings, k.members, m, share_floor(k.at, k.window))
}

/// Whether some member holds more than the dominance cap.
pub open spec fn lopsided(k: Market) -> bool {
    exists|i: int|
        0 <= i < k.members.len() && exceeds(member_share(k, #[trigger] k.members[i]), room_total(k), k.dominance_cap)
}

/// The least-heard member, by name.
pub open spec fn quiet_member(k: Market) -> Option<Seq<char>> {
    match quietest_in(k.traces, k.standings, k.members, share_floor(k.at, k.window), k.members.len() as int) {
        Some(i) => Some(k.members[i]),
        None => None,
    }
}

/// What member `m` wants the floor for, and how much.
pub open spec fn urge_of(k: Market, m: Seq<char>) -> Urge {
    let base = pull(k.traces, k.standings, k.thresholds, m, k.at, k.weights, k.repetition_cap);
    let (bonus, reason) = if addressed(k.traces, m) {
        (addressed_bonus(), BidReason::Addressed)
    } else if k.knowers.contains(m) {
        (knows_bonus(), BidReason::Knows)
    } else if deadlock(k.standings) && !backs_deadlock(k.standings, m) {
        (dissent_bonus(), BidReason::Dissent)
    } else if quiet_member(k) == Some(m) && lopsided(k) {
        (quiet_bonus(), BidReason::Quiet)
    } else {
        (0int, BidReason::Salience)
    };
    let penalty = if exceeds(member_share(k, m), room_total(k), k.dominance_cap) {
        dominance_penalty()
    } else {
        0
    };
    Urge { urge: base + bonus - penalty, reason }
}

/// `x` saturated into the range of an `i64`.
pub open spec fn saturate(x: int) -> int {
    if x > i64::MAX {
        i64::MAX as int
    } else if x < i64::MIN {
        i64::MIN as int
    } else {
        x
    }
}

/// A bid as plain values.
pub struct BidView {
    pub agent: Seq<char>,
    pub urge: int,
    pub reason: BidReason,
}

/// The bids of the first `n` members, in member order: each member whose urge
/// reaches its threshold bids the excess.
pub open spec fn bids_of(k: Market, n: int) -> Seq<BidView>
    decreases n,
{
    if n <= 0 {
        Seq::empty()
    } else {
        let earlier = bids_of(k, n - 1);
        let m = k.members[n - 1];
        let u = urge_of(k, m);
        let t = threshold_of(k.thresholds, m);
        if u.urge >= t {
            earlier.push(BidView { agent: m, urge: saturate(u.urge - t), reason: u.reason })
        } else {
            earlier
        }
    }
}

/// Whether some trace is one the market scores.
pub open spec fn scores_any(k: Market) -> bool {
    exists|i: int| 0 <= i < k.traces.len() && !saturated(#[trigger] k.traces[i], k.standings, k.repetition_cap)
}

/// Among the first `n` bids, the index of the first of greatest urge.
pub open spec fn highest(s: Seq<BidView>, n: int) -> Option<int>
    decreases n,
{
    if n <= 0 {
        None
    } else {
        let held = highest(s, n - 1);
        if held is None || s[n - 1].urge > s[held->0].urge {
            Some(n - 1)
        } else {
            held
        }
    }
}

/// Whether bid `j` ranks ahead of bid `i`: a greater urge, or an equal one
/// bid earlier.
pub open spec fn outranks(s: Seq<BidView>, j: int, i: int) -> bool {
    s[j].urge > s[i].urge || (s[j].urge == s[i].urge && j < i)
}

/// How many of the first `n` bids rank ahead of bid `i`.
pub open spec fn ahead(s: Seq<BidView>, i: int, n: int) -> int
    decreases n,
{
    if n <= 0 {
        0
    } else {
        ahead(s, i, n - 1) + if outranks(s, n - 1, i) {
            1int
        } else {
            0
        }
    }
}

/// The bids of the first `n` that fewer than `width` bids rank ahead of, in
/// bid order.
pub open spec fn round_of(s: Seq<BidView>, width: int, n: int) -> Seq<BidView>
    decreases n,
{
    if n <= 0 {
        Seq::empty()
    } else {
        let earlier = round_of(s, width, n - 1);
        if ahead(s, n - 1, s.len() as int) < width {
            earlier.push(s[n - 1])
        } else {
            earlier
        }
    }
}

} // verus!

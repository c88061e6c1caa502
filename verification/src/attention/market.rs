//! The bids: one per member whose urge reaches its threshold.

use vstd::prelude::*;

use super::spec::{
    ahead, highest, outranks, round_of, BidView, Market, Urge, addressed, authored, backs_deadlock, bids_of, counts_toward, deadlock,
    exceeds, lopsided, member_relevance, member_share, most_supporters, pull, quiet_member,
    quietest_in, record_for, repeats_address, room_count, room_total, saturate, saturated, scores_any, share_count,
    share_floor, share_of, survives, threshold_of, tied_count, urge_of,
};
use super::types::{AgentThreshold, Bid, BidReason};
use crate::directory::{member_names, repeats_at};
use crate::error::{Error, Result};
use crate::names::{holds, names, same_text};
use crate::quorum::{StandingView, TopicStanding, views};
use crate::salience::{SalienceWeights, salience_value, standing, standing_ceiling, standing_value, with_relevance};
use crate::session::Sequence;
use crate::trace::{Trace, TraceKind};
use crate::window::{key, same_address};

verus! {

/// The most traces a market holds: a member's share, and the total of the
/// shares, are counted in `u32`, so no more traces than a `u32` counts.
pub open spec fn attention_capacity() -> int {
    4_294_967_295
}

/// Everything the attention market reads, borrowed from the caller.
pub struct BidContext<'a> {
    /// Traces folded from the projected transcript.
    pub traces: &'a [Trace],
    /// Current standings, used for dissent and repetition.
    pub standings: &'a [TopicStanding],
    /// Active desk members, in desk order. Ties break by this order.
    pub members: &'a [&'a str],
    /// Per-member thresholds and affinities.
    pub thresholds: &'a [AgentThreshold],
    /// The sequence the room is deciding at.
    pub at: Sequence,
    /// Salience weights.
    pub weights: &'a SalienceWeights,
    /// Percent of grounded share above which a member is damped.
    pub dominance_cap: u32,
    /// Distinct supporters after which restating a topic scores nothing.
    pub repetition_cap: u32,
    /// How many sequences back to measure share over.
    pub window: u32,
    /// The members the directory names as holding a topic the room has
    /// promoted: one it is contesting, or one a member deferred.
    pub knowers: &'a [&'a str],
}

/// What a context says, as plain values.
pub open spec fn market(context: BidContext) -> Market {
    Market {
        traces: context.traces@,
        standings: views(context.standings@),
        members: member_names(context.members@),
        thresholds: context.thresholds@,
        at: context.at,
        weights: *context.weights,
        dominance_cap: context.dominance_cap,
        repetition_cap: context.repetition_cap,
        window: context.window,
        knowers: member_names(context.knowers@),
    }
}

/// A bid as plain values.
pub open spec fn bid_view(b: Bid) -> BidView {
    BidView { agent: b.agent_id@, urge: b.urge as int, reason: b.reason }
}

/// The plain values of a list of bids.
pub open spec fn bid_views(s: Seq<Bid>) -> Seq<BidView> {
    s.map_values(|b: Bid| bid_view(b))
}

/// What `bids` returns: a repeated threshold record, else a salience error
/// when a trace would be scored with a zero half-life, else the bids.
pub open spec fn bids_outcome(result: Result<Vec<Bid>>, k: Market) -> bool {
    if exists|i: int| repeats_at(k.thresholds, i) {
        exists|i: int|
            repeats_at(k.thresholds, i) && (forall|j: int| 0 <= j < i ==> !repeats_at(k.thresholds, j))
                && result == Err::<Vec<Bid>, Error>(
                Error::DuplicateAgentThreshold { agent_id: k.thresholds[i].agent_id },
            )
    } else if k.members.len() > 0 && scores_any(k) && k.weights.half_life == 0 {
        result == Err::<Vec<Bid>, Error>(Error::ZeroHalfLife)
    } else {
        result matches Ok(b) && bid_views(b@) == bids_of(k, k.members.len() as int)
    }
}

/// Whether `f` marks, for each trace of `s`, that no earlier trace shares its
/// address.
pub open spec fn fresh_for(f: Seq<bool>, s: Seq<Trace>) -> bool {
    &&& f.len() == s.len()
    &&& forall|i: int| 0 <= i < s.len() ==> #[trigger] f[i] == !repeats_address(s.take(i), s[i])
}

/// For each trace, whether it is the first at its address.
fn fresh_addresses(traces: &[Trace]) -> (fresh: Vec<bool>)
    ensures
        fresh_for(fresh@, traces@),
{
    let mut fresh: Vec<bool> = Vec::new();
    let mut i: usize = 0;
    while i < traces.len()
        invariant
            i <= traces@.len(),
            fresh@.len() == i,
            forall|x: int| 0 <= x < i ==> #[trigger] fresh@[x] == !repeats_address(traces@.take(x), traces@[x]),
        decreases traces@.len() - i,
    {
        let mut seen = false;
        let mut j: usize = 0;
        while j < i
            invariant
                j <= i < traces@.len(),
                seen == exists|y: int| 0 <= y < j && key(#[trigger] traces@[y]) == key(traces@[i as int]),
            decreases i - j,
        {
            if same_address(&traces[j], &traces[i]) {
                seen = true;
            }
            j = j + 1;
        }
        proof {
            let p = traces@.take(i as int);
            assert forall|y: int| 0 <= y < p.len() implies p[y] == traces@[y] by {}
            if seen {
                let y = choose|y: int| 0 <= y < i && key(#[trigger] traces@[y]) == key(traces@[i as int]);
                assert(p[y] == traces@[y]);
                assert(repeats_address(p, traces@[i as int]));
            }
        }
        fresh.push(!seen);
        i = i + 1;
    }
    fresh
}

/// Whether some standing still counts `m` as a supporter.
fn survives_in(standings: &[TopicStanding], m: &str) -> (found: bool)
    ensures
        found == survives(views(standings@), m@),
{
    let ghost v = views(standings@);
    let mut i: usize = 0;
    while i < standings.len()
        invariant
            i <= standings@.len(),
            v == views(standings@),
            forall|j: int| 0 <= j < i ==> !(#[trigger] v[j]).supporters.contains(m@),
        decreases standings@.len() - i,
    {
        assert(v[i as int] == standings@[i as int]@);
        if holds(&standings[i].supporters, m) {
            return true;
        }
        i = i + 1;
    }
    false
}

/// Whether a name is one of the members.
pub(crate) fn is_member(members: &[&str], m: &str) -> (found: bool)
    ensures
        found == member_names(members@).contains(m@),
{
    let ghost ms = member_names(members@);
    let mut i: usize = 0;
    while i < members.len()
        invariant
            i <= members@.len(),
            ms == member_names(members@),
            forall|j: int| 0 <= j < i ==> (#[trigger] ms[j]) != m@,
        decreases members@.len() - i,
    {
        assert(ms[i as int] == members@[i as int]@);
        if same_text(members[i], m) {
            return true;
        }
        i = i + 1;
    }
    false
}

/// A member's grounded, surviving contributions.
fn share(context: &BidContext, fresh: &Vec<bool>, floor: u64, m: &str) -> (count: u64)
    requires
        floor as int == share_floor(context.at, context.window),
        fresh_for(fresh@, context.traces@),
        context.traces@.len() <= attention_capacity(),
    ensures
        count as int == member_share(market(*context), m@),
        count <= context.traces@.len(),
{
    let ghost k = market(*context);
    if !is_member(context.members, m) {
        return 0;
    }
    let alive = survives_in(context.standings, m);
    let mut count: u64 = 0;
    let mut i: usize = 0;
    while i < context.traces.len()
        invariant
            i <= context.traces@.len(),
            k == market(*context),
            floor as int == share_floor(context.at, context.window),
            alive == survives(k.standings, m@),
            fresh_for(fresh@, context.traces@),
            count as int == share_count(k.traces.take(i as int), m@, floor as int, k.standings),
            count <= i,
        decreases context.traces@.len() - i,
    {
        let t = &context.traces[i];
        assert(k.traces.take(i + 1).drop_last() =~= k.traces.take(i as int));
        assert(k.traces.take(i + 1).last() == *t);
        let by = match t.agent_id() {
            Some(a) => same_text(a, m),
            None => false,
        };
        assert(fresh@[i as int] == !repeats_address(k.traces.take(i as int), *t));
        if t.sequence.0 >= floor && t.grounded() && by && alive && fresh[i] {
            count = count + 1;
        }
        i = i + 1;
    }
    assert(k.traces.take(context.traces@.len() as int) =~= k.traces);
    count
}

/// Every member's share, summed.
fn total(context: &BidContext, fresh: &Vec<bool>, floor: u64) -> (sum: u64)
    requires
        floor as int == share_floor(context.at, context.window),
        fresh_for(fresh@, context.traces@),
        context.traces@.len() <= attention_capacity(),
    ensures
        sum as int == room_total(market(*context)),
        sum <= context.traces@.len(),
{
    let ghost k = market(*context);
    let mut sum: u64 = 0;
    let mut i: usize = 0;
    while i < context.traces.len()
        invariant
            i <= context.traces@.len(),
            k == market(*context),
            floor as int == share_floor(context.at, context.window),
            sum as int == room_count(k.traces.take(i as int), k.members, floor as int, k.standings),
            sum <= i,
            fresh_for(fresh@, context.traces@),
        decreases context.traces@.len() - i,
    {
        let t = &context.traces[i];
        assert(k.traces.take(i + 1).drop_last() =~= k.traces.take(i as int));
        assert(k.traces.take(i + 1).last() == *t);
        assert(fresh@[i as int] == !repeats_address(k.traces.take(i as int), *t));
        match t.agent_id() {
            Some(a) => {
                if t.sequence.0 >= floor && t.grounded() && fresh[i] && is_member(context.members, a)
                    && survives_in(context.standings, a) {
                    sum = sum + 1;
                }
            },
            None => {},
        }
        i = i + 1;
    }
    assert(k.traces.take(context.traces@.len() as int) =~= k.traces);
    sum
}

/// Whether a share is more than `cap` percent of the total.
fn exceeds_cap(share: u64, total: u64, cap: u32) -> (over: bool)
    ensures
        over == exceeds(share as int, total as int, cap),
{
    if total == 0 {
        return false;
    }
    let t = total as u128;
    let c = cap as u128;
    assert(t * c <= 18446744073709551615 * 4294967295) by (nonlinear_arith)
        requires
            t <= 18446744073709551615,
            c <= 4294967295,
    ;
    (share as u128) * 100 > t * c
}

/// The first member of least share.
fn quietest(context: &BidContext, fresh: &Vec<bool>, floor: u64) -> (quiet: Option<usize>)
    requires
        floor as int == share_floor(context.at, context.window),
        fresh_for(fresh@, context.traces@),
        context.traces@.len() <= attention_capacity(),
    ensures
        match quiet {
            Some(i) => quietest_in(
                context.traces@,
                views(context.standings@),
                member_names(context.members@),
                floor as int,
                context.members@.len() as int,
            ) == Some(i as int) && i < context.members@.len(),
            None => quietest_in(
                context.traces@,
                views(context.standings@),
                member_names(context.members@),
                floor as int,
                context.members@.len() as int,
            ) is None,
        },
{
    let ghost k = market(*context);
    let mut held: Option<(usize, u64)> = None;
    let mut i: usize = 0;
    while i < context.members.len()
        invariant
            i <= context.members@.len(),
            k == market(*context),
            floor as int == share_floor(context.at, context.window),
            context.traces@.len() <= attention_capacity(),
            fresh_for(fresh@, context.traces@),
            match held {
                Some((h, s)) => quietest_in(k.traces, k.standings, k.members, floor as int, i as int)
                    == Some(h as int) && h < i && s as int == share_of(
                    k.traces,
                    k.standings,
                    k.members,
                    k.members[h as int],
                    floor as int,
                ),
                None => quietest_in(k.traces, k.standings, k.members, floor as int, i as int) is None,
            },
        decreases context.members@.len() - i,
    {
        assert(k.members[i as int] == context.members@[i as int]@);
        let s = share(context, fresh, floor, context.members[i]);
        match held {
            None => {
                held = Some((i, s));
            },
            Some((h, hs)) => {
                if s < hs {
                    held = Some((i, s));
                }
            },
        }
        i = i + 1;
    }
    match held {
        Some((h, _)) => Some(h),
        None => None,
    }
}

/// Whether some member holds more than the dominance cap.
fn is_lopsided(context: &BidContext, fresh: &Vec<bool>, floor: u64, total: u64) -> (over: bool)
    requires
        floor as int == share_floor(context.at, context.window),
        fresh_for(fresh@, context.traces@),
        total as int == room_total(market(*context)),
        context.traces@.len() <= attention_capacity(),
    ensures
        over == lopsided(market(*context)),
{
    let ghost k = market(*context);
    let mut i: usize = 0;
    while i < context.members.len()
        invariant
            i <= context.members@.len(),
            k == market(*context),
            floor as int == share_floor(context.at, context.window),
            total as int == room_total(k),
            context.traces@.len() <= attention_capacity(),
            fresh_for(fresh@, context.traces@),
            forall|j: int|
                0 <= j < i ==> !exceeds(member_share(k, #[trigger] k.members[j]), room_total(k), k.dominance_cap),
        decreases context.members@.len() - i,
    {
        assert(k.members[i as int] == context.members@[i as int]@);
        let s = share(context, fresh, floor, context.members[i]);
        if exceeds_cap(s, total, context.dominance_cap) {
            return true;
        }
        i = i + 1;
    }
    false
}

/// The most supporters any standing has.
fn most(standings: &[TopicStanding]) -> (top: usize)
    ensures
        top as int == most_supporters(views(standings@)),
{
    let ghost v = views(standings@);
    let mut top: usize = 0;
    let mut i: usize = 0;
    while i < standings.len()
        invariant
            i <= standings@.len(),
            v == views(standings@),
            top as int == most_supporters(v.take(i as int)),
        decreases standings@.len() - i,
    {
        assert(v.take(i + 1).drop_last() =~= v.take(i as int));
        assert(v.take(i + 1).last() == standings@[i as int]@);
        if standings[i].supporters.len() > top {
            top = standings[i].supporters.len();
        }
        i = i + 1;
    }
    assert(v.take(standings@.len() as int) =~= v);
    top
}

/// How many standings have exactly `top` supporters.
fn tied(standings: &[TopicStanding], top: usize) -> (count: usize)
    ensures
        count as int == tied_count(views(standings@), top as int),
{
    let ghost v = views(standings@);
    let mut count: usize = 0;
    let mut i: usize = 0;
    while i < standings.len()
        invariant
            i <= standings@.len(),
            v == views(standings@),
            count as int == tied_count(v.take(i as int), top as int),
            count <= i,
        decreases standings@.len() - i,
    {
        assert(v.take(i + 1).drop_last() =~= v.take(i as int));
        assert(v.take(i + 1).last() == standings@[i as int]@);
        if standings[i].supporters.len() == top {
            count = count + 1;
        }
        i = i + 1;
    }
    assert(v.take(standings@.len() as int) =~= v);
    count
}

/// Whether `m` backs one of the tied topics.
fn backs(standings: &[TopicStanding], top: usize, m: &str) -> (backing: bool)
    requires
        top as int == most_supporters(views(standings@)),
    ensures
        backing == backs_deadlock(views(standings@), m@),
{
    let ghost v = views(standings@);
    let mut i: usize = 0;
    while i < standings.len()
        invariant
            i <= standings@.len(),
            v == views(standings@),
            top as int == most_supporters(v),
            forall|j: int|
                0 <= j < i ==> !((#[trigger] v[j]).supporters.len() == most_supporters(v)
                    && v[j].supporters.contains(m@)),
        decreases standings@.len() - i,
    {
        assert(v[i as int] == standings@[i as int]@);
        if standings[i].supporters.len() == top && holds(&standings[i].supporters, m) {
            return true;
        }
        i = i + 1;
    }
    false
}

/// Whether restating a trace scores nothing.
fn is_saturated(t: &Trace, standings: &[TopicStanding], cap: u32) -> (done: bool)
    ensures
        done == saturated(*t, views(standings@), cap),
{
    if cap == 0 || t.kind != TraceKind::Support {
        return false;
    }
    let topic = match &t.topic {
        Some(topic) => topic,
        None => {
            return false;
        },
    };
    let ghost v = views(standings@);
    let mut i: usize = 0;
    while i < standings.len()
        invariant
            i <= standings@.len(),
            v == views(standings@),
            t.topic_name() == Some(topic@),
            cap != 0,
            t.kind == TraceKind::Support,
            forall|j: int|
                0 <= j < i ==> !((#[trigger] v[j]).topic == topic@ && v[j].supporters.len() <= u32::MAX
                    && v[j].supporters.len() >= cap),
        decreases standings@.len() - i,
    {
        assert(v[i as int] == standings@[i as int]@);
        let count = standings[i].supporters.len();
        if standings[i].topic.same(topic) && count <= u32::MAX as usize && count as u32 >= cap {
            return true;
        }
        i = i + 1;
    }
    false
}

/// Whether `m` wrote some trace at row `c`.
fn authored_at(traces: &[Trace], m: &str, c: Sequence) -> (found: bool)
    ensures
        found == authored(traces@, m@, c),
{
    let mut k: usize = 0;
    while k < traces.len()
        invariant
            k <= traces@.len(),
            forall|j: int| 0 <= j < k ==> !((#[trigger] traces@[j]).agent() == Some(m@) && traces@[j].sequence == c),
        decreases traces@.len() - k,
    {
        let t = &traces[k];
        let by = match t.agent_id() {
            Some(a) => same_text(a, m),
            None => false,
        };
        if by && t.sequence.0 == c.0 {
            return true;
        }
        k = k + 1;
    }
    false
}

/// Whether another member's trace cited or objected to a message of `m`.
fn is_addressed(traces: &[Trace], m: &str) -> (found: bool)
    ensures
        found == addressed(traces@, m@),
{
    let mut k: usize = 0;
    while k < traces.len()
        invariant
            k <= traces@.len(),
            forall|j: int|
                0 <= j < k ==> !((#[trigger] traces@[j]).agent() != Some(m@) && ((traces@[j].target is Some
                    && authored(traces@, m@, traces@[j].target->0)) || exists|x: int|
                    0 <= x < traces@[j].cites@.len() && authored(traces@, m@, #[trigger] traces@[j].cites@[x]))),
        decreases traces@.len() - k,
    {
        let t = &traces[k];
        assert(traces@[k as int] == *t);
        let other = match t.agent_id() {
            Some(a) => !same_text(a, m),
            None => true,
        };
        if other {
            let targeted = match t.target {
                Some(target) => authored_at(traces, m, target),
                None => false,
            };
            if targeted {
                return true;
            }
            let mut x: usize = 0;
            while x < t.cites.len()
                invariant
                    x <= t.cites@.len(),
                    k < traces@.len(),
                    traces@[k as int] == *t,
                    t.agent() != Some(m@),
                    forall|y: int| 0 <= y < x ==> !authored(traces@, m@, #[trigger] t.cites@[y]),
                decreases t.cites@.len() - x,
            {
                if authored_at(traces, m, t.cites[x]) {
                    assert(traces@[k as int] == *t);
                    assert(authored(traces@, m@, t.cites@[x as int]));
                    return true;
                }
                x = x + 1;
            }
        }
        assert(traces@[k as int] == *t);
        k = k + 1;
    }
    false
}

/// The threshold record naming `m`, if any.
pub(crate) fn record_of<'t>(thresholds: &'t [AgentThreshold], m: &str) -> (record: Option<&'t AgentThreshold>)
    ensures
        match record {
            Some(r) => record_for(thresholds@, m@) == Some(*r),
            None => record_for(thresholds@, m@) is None,
        },
{
    let mut i: usize = 0;
    assert(thresholds@.skip(0) =~= thresholds@);
    while i < thresholds.len()
        invariant
            i <= thresholds@.len(),
            record_for(thresholds@, m@) == record_for(thresholds@.skip(i as int), m@),
        decreases thresholds@.len() - i,
    {
        assert(thresholds@.skip(i as int).drop_first() =~= thresholds@.skip(i + 1));
        assert(thresholds@.skip(i as int)[0] == thresholds@[i as int]);
        if same_text(thresholds[i].agent_id.as_str(), m) {
            return Some(&thresholds[i]);
        }
        i = i + 1;
    }
    None
}

/// `a - b`, saturated into an `i64`.
fn saturating_minus(a: i64, b: i64) -> (d: i64)
    ensures
        d == saturate(a - b),
{
    let d = (a as i128) - (b as i128);
    if d > i64::MAX as i128 {
        i64::MAX
    } else if d < i64::MIN as i128 {
        i64::MIN
    } else {
        d as i64
    }
}

/// Compute one bid per member whose urge reaches its threshold.
///
/// A member whose urge does not reach its threshold does not bid at all, so
/// an empty result is a real outcome: nobody has anything to say.
///
/// The threshold competes rather than merely gating: a member that has just
/// spoken is measurably harder to rouse than one that has been quiet.
///
/// A bid folds the medium the way the standings do: each `(sequence,
/// offset)` address is read once, so a redelivered trace neither doubles a
/// member's urge nor its share.
///
/// Refuses two threshold records naming one agent, and salience weights with
/// a zero half-life once a trace is to be scored.
pub fn bids(context: &BidContext) -> (result: Result<Vec<Bid>>)
    requires
        context.traces@.len() <= attention_capacity(),
    ensures
        bids_outcome(result, market(*context)),
{
    let ghost k = market(*context);
    let thresholds = context.thresholds;
    let mut q: usize = 0;
    while q < thresholds.len()
        invariant
            q <= thresholds@.len(),
            k == market(*context),
            thresholds@ == k.thresholds,
            forall|m: int| 0 <= m < q ==> !repeats_at(thresholds@, m),
        decreases thresholds@.len() - q,
    {
        let mut j: usize = 0;
        while j < q
            invariant
                j <= q < thresholds@.len(),
                k == market(*context),
                thresholds@ == k.thresholds,
                forall|m: int| 0 <= m < q ==> !repeats_at(thresholds@, m),
                forall|m: int| 0 <= m < j ==> (#[trigger] thresholds@[m]).agent_id@ != thresholds@[q as int].agent_id@,
            decreases q - j,
        {
            if same_text(thresholds[j].agent_id.as_str(), thresholds[q].agent_id.as_str()) {
                assert(repeats_at(thresholds@, q as int));
                return Err(Error::DuplicateAgentThreshold { agent_id: thresholds[q].agent_id.clone() });
            }
            j = j + 1;
        }
        q = q + 1;
    }
    assert(!exists|i: int| repeats_at(k.thresholds, i));
    let floor = context.at.0.saturating_sub(context.window as u64);
    let fresh = fresh_addresses(context.traces);
    let total = total(context, &fresh, floor);
    let quiet = quietest(context, &fresh, floor);
    let top = most(context.standings);
    let deadlocked = context.standings.len() >= 2 && top > 0 && tied(context.standings, top) >= 2;
    let lopsided_room = is_lopsided(context, &fresh, floor, total);
    let traces = context.traces;
    let members = context.members;
    let mut bases: Vec<Option<i64>> = Vec::new();
    if members.len() > 0 {
        let mut i: usize = 0;
        while i < traces.len()
            invariant
                i <= traces@.len(),
                k == market(*context),
                traces == context.traces,
                members == context.members,
                members@.len() > 0,
                !exists|x: int| repeats_at(k.thresholds, x),
                traces@ == k.traces,
                bases@.len() == i,
                fresh_for(fresh@, context.traces@),
                forall|j: int|
                    0 <= j < i ==> (#[trigger] bases@[j]) == (if saturated(traces@[j], k.standings, k.repetition_cap)
                        || repeats_address(traces@.take(j), traces@[j]) {
                        None
                    } else {
                        Some(standing_value(traces@[j], k.at, k.weights) as i64)
                    }),
                forall|j: int|
                    0 <= j < i && (#[trigger] bases@[j]) is Some ==> 0 <= bases@[j]->0 <= standing_ceiling()
                        && bases@[j]->0 == standing_value(traces@[j], k.at, k.weights),
                k.weights.half_life == 0 ==> forall|j: int|
                    0 <= j < i ==> saturated(#[trigger] traces@[j], k.standings, k.repetition_cap),
            decreases traces@.len() - i,
        {
            if is_saturated(&traces[i], context.standings, context.repetition_cap) {
                bases.push(None);
            } else {
                match standing(&traces[i], context.at, context.weights) {
                    Err(e) => {
                        assert(scores_any(k)) by {
                            assert(!saturated(k.traces[i as int], k.standings, k.repetition_cap));
                        }
                        return Err(e);
                    },
                    Ok(b) => {
                        assert(fresh@[i as int] == !repeats_address(traces@.take(i as int), traces@[i as int]));
                        if fresh[i] {
                            bases.push(Some(b));
                        } else {
                            bases.push(None);
                        }
                    },
                }
            }
            i = i + 1;
        }
        proof {
            if k.weights.half_life == 0 {
                assert(!scores_any(k));
            }
        }
    }
    let mut out: Vec<Bid> = Vec::new();
    let mut i: usize = 0;
    while i < members.len()
        invariant
            i <= members@.len(),
            k == market(*context),
            traces == context.traces,
            members == context.members,
            !exists|x: int| repeats_at(k.thresholds, x),
            traces@ == k.traces,
            members@.len() == k.members.len(),
            context.traces@.len() <= attention_capacity(),
            floor as int == share_floor(context.at, context.window),
            total as int == room_total(k),
            lopsided_room == lopsided(k),
            deadlocked == deadlock(k.standings),
            top as int == most_supporters(k.standings),
            match quiet {
                Some(h) => quietest_in(k.traces, k.standings, k.members, floor as int, k.members.len() as int)
                    == Some(h as int) && h < members@.len(),
                None => quietest_in(k.traces, k.standings, k.members, floor as int, k.members.len() as int) is None,
            },
            members@.len() > 0 ==> bases@.len() == traces@.len(),
            fresh_for(fresh@, context.traces@),
            forall|j: int|
                0 <= j < bases@.len() ==> (#[trigger] bases@[j]) == (if saturated(traces@[j], k.standings, k.repetition_cap)
                        || repeats_address(traces@.take(j), traces@[j]) {
                    None
                } else {
                    Some(standing_value(traces@[j], k.at, k.weights) as i64)
                }),
            forall|j: int|
                0 <= j < bases@.len() && (#[trigger] bases@[j]) is Some ==> 0 <= bases@[j]->0 <= standing_ceiling()
                    && bases@[j]->0 == standing_value(traces@[j], k.at, k.weights),
            bid_views(out@) == bids_of(k, i as int),
        decreases members@.len() - i,
    {
        let m = members[i];
        assert(k.members[i as int] == m@);
        let record = record_of(context.thresholds, m);
        let mut urge: i64 = 0;
        let mut j: usize = 0;
        while j < traces.len()
            invariant
                j <= traces@.len(),
                k == market(*context),
                traces == context.traces,
                traces@ == k.traces,
                k.traces.len() <= attention_capacity(),
                bases@.len() == traces@.len(),
                forall|x: int|
                    0 <= x < bases@.len() ==> (#[trigger] bases@[x]) == (if saturated(traces@[x], k.standings, k.repetition_cap)
                        || repeats_address(traces@.take(x), traces@[x]) {
                        None
                    } else {
                        Some(standing_value(traces@[x], k.at, k.weights) as i64)
                    }),
                forall|x: int|
                    0 <= x < bases@.len() && (#[trigger] bases@[x]) is Some ==> 0 <= bases@[x]->0 <= standing_ceiling()
                        && bases@[x]->0 == standing_value(traces@[x], k.at, k.weights),
                match record {
                    Some(r) => record_for(k.thresholds, m@) == Some(*r),
                    None => record_for(k.thresholds, m@) is None,
                },
                urge == pull(k.traces.take(j as int), k.standings, k.thresholds, m@, k.at, k.weights, k.repetition_cap),
                0 <= urge <= j * standing_ceiling(),
            decreases traces@.len() - j,
        {
            assert(k.traces.take(j + 1).drop_last() =~= k.traces.take(j as int));
            assert(k.traces.take(j + 1).last() == traces@[j as int]);
            match bases[j] {
                Some(b) => {
                    let t = &traces[j];
                    let relevance = match record {
                        Some(r) => r.relevance(t.topic.as_ref()),
                        None => 50,
                    };
                    proof {
                        crate::salience::lemma_relevance_term(*context.weights, relevance);
                    }
                    let score = with_relevance(b, context.weights, relevance);
                    assert(0 <= urge + score.0 <= (j + 1) * standing_ceiling()) by (nonlinear_arith)
                        requires
                            0 <= urge <= j * standing_ceiling(),
                            0 <= score.0 <= standing_ceiling(),
                    ;
                    assert((j + 1) * standing_ceiling() <= attention_capacity() * standing_ceiling()) by (nonlinear_arith)
                        requires
                            j + 1 <= attention_capacity(),
                    ;
                    urge = urge + score.0;
                },
                None => {},
            }
            j = j + 1;
        }
        proof {
            if members@.len() == 0 {
                assert(false);
            }
        }
        assert(k.traces.take(traces@.len() as int) =~= k.traces);
        let mut reason = BidReason::Salience;
        if is_addressed(traces, m) {
            urge = urge + 2000;
            reason = BidReason::Addressed;
        } else if is_member(context.knowers, m) {
            urge = urge + 1750;
            reason = BidReason::Knows;
        } else if deadlocked && !backs(context.standings, top, m) {
            urge = urge + 1500;
            reason = BidReason::Dissent;
        } else {
            let is_quiet = match quiet {
                Some(h) => same_text(members[h], m),
                None => false,
            };
            proof {
                if let Some(h) = quiet {
                    assert(k.members[h as int] == members@[h as int]@);
                }
            }
            if is_quiet && lopsided_room {
                urge = urge + 1000;
                reason = BidReason::Quiet;
            }
        }
        let own = share(context, &fresh, floor, m);
        if exceeds_cap(own, total, context.dominance_cap) {
            urge = urge - 3000;
        }
        assert(urge as int == urge_of(k, m@).urge);
        assert(reason == urge_of(k, m@).reason);
        let threshold = match record {
            Some(r) => r.threshold,
            None => 0,
        };
        let ghost before = out@;
        if urge >= threshold {
            out.push(Bid { agent_id: m.to_owned(), urge: saturating_minus(urge, threshold), reason });
            assert(bid_views(out@) =~= bid_views(before).push(bid_view(out@[out@.len() - 1])));
        }
        i = i + 1;
    }
    Ok(out)
}

/// Take the single highest bid.
///
/// Ties break by the order the bids were produced in, which is desk order, so
/// the choice is deterministic for a given roster and transcript.
pub fn floor_holder(bids: &[Bid]) -> (held: Option<&Bid>)
    ensures
        match held {
            Some(b) => highest(bid_views(bids@), bids@.len() as int) matches Some(i) && bid_view(*b)
                == bid_views(bids@)[i],
            None => highest(bid_views(bids@), bids@.len() as int) is None,
        },
        held is None <==> bids@.len() == 0,
        held matches Some(b) ==> exists|h: int|
            0 <= h < bids@.len() && bid_view(*b) == #[trigger] bid_view(bids@[h]) && (forall|j: int|
                0 <= j < bids@.len() ==> (#[trigger] bids@[j]).urge <= bids@[h].urge) && (forall|j: int|
                0 <= j < h ==> (#[trigger] bids@[j]).urge < bids@[h].urge),
{
    proof {
        super::laws::law_floor_goes_to_the_first_highest(bid_views(bids@), bids@.len() as int);
    }
    let ghost s = bid_views(bids@);
    let mut held: Option<usize> = None;
    let mut i: usize = 0;
    while i < bids.len()
        invariant
            i <= bids@.len(),
            s == bid_views(bids@),
            match held {
                Some(h) => highest(s, i as int) == Some(h as int) && h < i,
                None => highest(s, i as int) is None,
            },
        decreases bids@.len() - i,
    {
        assert(s[i as int] == bid_view(bids@[i as int]));
        match held {
            None => {
                held = Some(i);
            },
            Some(h) => {
                assert(s[h as int] == bid_view(bids@[h as int]));
                if bids[i].urge > bids[h].urge {
                    held = Some(i);
                }
            },
        }
        i = i + 1;
    }
    match held {
        Some(h) => {
            assert(s[h as int] == bid_view(bids@[h as int]));
            assert forall|j: int| 0 <= j < bids@.len() implies (#[trigger] bids@[j]).urge <= bids@[h as int].urge by {
                assert(s[j] == bid_view(bids@[j]));
                assert(s[j].urge <= s[h as int].urge);
            }
            assert forall|j: int| 0 <= j < h implies (#[trigger] bids@[j]).urge < bids@[h as int].urge by {
                assert(s[j] == bid_view(bids@[j]));
                assert(s[j].urge < s[h as int].urge);
            }
            Some(&bids[h])
        },
        None => None,
    }
}

/// Take the `width` highest bids, in the order they were produced.
///
/// A bid takes a place when fewer than `width` bids rank ahead of it: a
/// greater urge, or an equal one produced earlier. At a width of one this is
/// exactly [`floor_holder`].
pub fn floor_round(bids: &[Bid], width: u32) -> (round: Vec<Bid>)
    ensures
        bid_views(round@) == round_of(bid_views(bids@), width as int, bids@.len() as int),
{
    let ghost s = bid_views(bids@);
    let mut round: Vec<Bid> = Vec::new();
    let mut i: usize = 0;
    while i < bids.len()
        invariant
            i <= bids@.len(),
            s == bid_views(bids@),
            bid_views(round@) == round_of(s, width as int, i as int),
        decreases bids@.len() - i,
    {
        let mut count: usize = 0;
        let mut j: usize = 0;
        while j < bids.len()
            invariant
                i < bids@.len(),
                j <= bids@.len(),
                s == bid_views(bids@),
                count as int == ahead(s, i as int, j as int),
                count <= j,
            decreases bids@.len() - j,
        {
            assert(s[j as int] == bid_view(bids@[j as int]));
            assert(s[i as int] == bid_view(bids@[i as int]));
            if bids[j].urge > bids[i].urge || (bids[j].urge == bids[i].urge && j < i) {
                count = count + 1;
            }
            j = j + 1;
        }
        if count < width as usize {
            let ghost before = round@;
            let b = Bid { agent_id: bids[i].agent_id.clone(), urge: bids[i].urge, reason: bids[i].reason };
            round.push(b);
            assert(s[i as int] == bid_view(bids@[i as int]));
            assert(bid_views(round@) =~= bid_views(before).push(s[i as int]));
        }
        i = i + 1;
    }
    round
}

} // verus!

//! One step of an episode.

use vstd::prelude::*;

use super::spec::{
    active_of, admits, backs_tied, candidates_of, charged_of, charged_record, clamp_i64, converges, decision, free_dissenter,
    heard, live_of, market_of, next_of, policy_error, quorum_error, recorded, repeat_error, round_at,
    setup_error, speak_cost, standing_named, step_outcome, stray_at, turns_of, unheard_of,
    visibility_of, width_for,
};
use super::types::{
    EpisodePolicy, EpisodeState, HiveStep, HiveTurn, Phase, StateView, StepView, TurnView, Visibility,
    turn_views,
};
use crate::attention::{
    AgentThreshold, Bid, BidContext, BidView, ThresholdView, bid_view, bid_views, bids, floor_round,
    is_member, market, record_for, record_of, round_of, threshold_views,
};
use crate::directory::{directory, member_names, repeats_at};
use crate::error::{Error, Result};
use crate::names::same_text;
use crate::quorum::{
    ConsensusState, ConsensusView, StandingView, TopicStanding, carried_topics, consensus, standings,
    topic_names, views,
};
use crate::session::{Sequence, SessionMessage};
use crate::trace::{
    TopicId, Trace, TraceKind, medium, picked_messages, read_picked, trace_views,
};

verus! {

/// Whether a step can fold a transcript: the traces its live rows deposit
/// fit the attention market, whose share counts are `u32`.
pub open spec fn step_accepts(transcript: Seq<SessionMessage>, watermark: Sequence, members: Seq<Seq<char>>) -> bool {
    medium(live_of(transcript, watermark, members)).len() <= crate::attention::attention_capacity()
}

/// The members of a desk who are active on the roster, in desk order: the
/// member list `step` takes.
pub fn active_members<'a>(desk: &[&'a str], active: &[&str]) -> (members: Vec<&'a str>)
    ensures
        member_names(members@) == active_of(member_names(desk@), member_names(active@)),
{
    let ghost ds = member_names(desk@);
    let ghost act = member_names(active@);
    let mut members: Vec<&'a str> = Vec::new();
    let mut i: usize = 0;
    while i < desk.len()
        invariant
            i <= desk@.len(),
            ds == member_names(desk@),
            act == member_names(active@),
            member_names(members@) == active_of(ds.take(i as int), act),
        decreases desk@.len() - i,
    {
        assert(ds.take(i + 1).drop_last() =~= ds.take(i as int));
        assert(ds.take(i + 1).last() == desk@[i as int]@);
        if is_member(active, desk[i]) {
            let ghost before = members@;
            members.push(desk[i]);
            assert(member_names(members@) =~= member_names(before).push(desk@[i as int]@));
        }
        i = i + 1;
    }
    assert(ds.take(desk@.len() as int) =~= ds);
    members
}

/// A step's result as plain values.
pub open spec fn step_result(result: Result<HiveStep>) -> core::result::Result<StepView, Error> {
    match result {
        Ok(s) => Ok(s@),
        Err(e) => Err(e),
    }
}

/// The first configuration error in the policy.
fn policy_check(policy: &EpisodePolicy) -> (error: Option<Error>)
    ensures
        error == policy_error(*policy),
{
    if policy.defer_cap == Some(0u32) {
        return Some(Error::ZeroDeferCap);
    }
    if policy.round_width == 0 || policy.revealed_width == 0 {
        return Some(Error::ZeroRoundWidth);
    }
    match policy.directory {
        Some(d) => {
            if d.half_life == 0 {
                Some(Error::ZeroDirectoryHalfLife)
            } else if d.window == 0 {
                Some(Error::ZeroDirectoryWindow)
            } else {
                None
            }
        },
        None => None,
    }
}

/// The first threshold record naming somebody who is not an active member.
fn first_stray(thresholds: &[AgentThreshold], members: &[&str]) -> (stray: Option<usize>)
    ensures
        match stray {
            Some(k) => stray_at(thresholds@, member_names(members@), k as int) && forall|j: int|
                0 <= j < k ==> !stray_at(thresholds@, member_names(members@), j),
            None => forall|j: int| !stray_at(thresholds@, member_names(members@), j),
        },
{
    let mut k: usize = 0;
    while k < thresholds.len()
        invariant
            k <= thresholds@.len(),
            forall|j: int| 0 <= j < k ==> !stray_at(thresholds@, member_names(members@), j),
        decreases thresholds@.len() - k,
    {
        if !is_member(members, thresholds[k].agent_id.as_str()) {
            return Some(k);
        }
        k = k + 1;
    }
    None
}

/// The rows the episode folds, as indices into the transcript.
fn live_rows(transcript: &[SessionMessage], watermark: Sequence, members: &[&str]) -> (idx: Vec<usize>)
    ensures
        picked_messages(transcript@, idx@) == live_of(transcript@, watermark, member_names(members@)),
        forall|k: int| 0 <= k < idx@.len() ==> idx@[k] < transcript@.len(),
        idx@.len() <= transcript@.len(),
{
    let ghost ms = member_names(members@);
    let mut idx: Vec<usize> = Vec::new();
    let mut i: usize = 0;
    while i < transcript.len()
        invariant
            i <= transcript@.len(),
            ms == member_names(members@),
            picked_messages(transcript@, idx@) == live_of(transcript@.take(i as int), watermark, ms),
            forall|k: int| 0 <= k < idx@.len() ==> idx@[k] < i,
            idx@.len() <= i,
        decreases transcript@.len() - i,
    {
        let m = &transcript[i];
        assert(transcript@.take(i + 1).drop_last() =~= transcript@.take(i as int));
        assert(transcript@.take(i + 1).last() == *m);
        let author_ok = match m.author.agent_id() {
            Some(id) => is_member(members, id),
            None => true,
        };
        if m.sequence.0 > watermark.0 && m.audience.is_desk() && author_ok {
            let ghost before = idx@;
            idx.push(i);
            assert(picked_messages(transcript@, idx@) =~= picked_messages(transcript@, before).push(*m));
        }
        i = i + 1;
    }
    assert(transcript@.take(transcript@.len() as int) =~= transcript@);
    idx
}

/// Whether a `!commit` on `topic` landed strictly after `boundary`.
fn commit_recorded(traces: &[Trace], topic: &TopicId, boundary: Sequence) -> (found: bool)
    ensures
        found == recorded(traces@, topic@, boundary),
{
    let mut k: usize = 0;
    while k < traces.len()
        invariant
            k <= traces@.len(),
            forall|j: int|
                0 <= j < k ==> !((#[trigger] traces@[j]).kind == TraceKind::Commit && traces@[j].topic_name()
                    == Some(topic@) && traces@[j].sequence.0 > boundary.0),
        decreases traces@.len() - k,
    {
        let t = &traces[k];
        let named = match &t.topic {
            Some(x) => x.same(topic),
            None => false,
        };
        if t.kind == TraceKind::Commit && named && t.sequence.0 > boundary.0 {
            return true;
        }
        k = k + 1;
    }
    false
}

/// The first standing on `topic`, copied.
fn standing_on(standings: &[TopicStanding], topic: &TopicId) -> (found: Option<TopicStanding>)
    ensures
        match found {
            Some(s) => standing_named(views(standings@), topic@) == Some(s@),
            None => standing_named(views(standings@), topic@) is None,
        },
{
    let ghost v = views(standings@);
    let mut i: usize = 0;
    assert(v.skip(0) =~= v);
    while i < standings.len()
        invariant
            i <= standings@.len(),
            v == views(standings@),
            standing_named(v, topic@) == standing_named(v.skip(i as int), topic@),
        decreases standings@.len() - i,
    {
        assert(v.skip(i as int).drop_first() =~= v.skip(i + 1));
        assert(v.skip(i as int)[0] == standings@[i as int]@);
        if standings[i].topic.same(topic) {
            return Some(standings[i].duplicate());
        }
        i = i + 1;
    }
    None
}

/// Whether some member has backed none of the tied topics.
fn has_free_dissenter(members: &[&str], standings: &[TopicStanding], topics: &Vec<TopicId>) -> (free: bool)
    ensures
        free == free_dissenter(member_names(members@), views(standings@), topic_names(topics@)),
{
    let ghost ms = member_names(members@);
    let ghost st = views(standings@);
    let ghost tn = topic_names(topics@);
    let mut m: usize = 0;
    while m < members.len()
        invariant
            m <= members@.len(),
            ms == member_names(members@),
            st == views(standings@),
            tn == topic_names(topics@),
            forall|x: int| 0 <= x < m ==> backs_tied(st, tn, #[trigger] ms[x]),
        decreases members@.len() - m,
    {
        assert(ms[m as int] == members@[m as int]@);
        let mut backed = false;
        let mut i: usize = 0;
        while i < standings.len()
            invariant
                i <= standings@.len(),
                m < members@.len(),
                ms == member_names(members@),
                st == views(standings@),
                tn == topic_names(topics@),
                backed == exists|j: int|
                    0 <= j < i && tn.contains((#[trigger] st[j]).topic) && st[j].supporters.contains(ms[m as int]),
            decreases standings@.len() - i,
        {
            assert(st[i as int] == standings@[i as int]@);
            let mut tied = false;
            let mut t: usize = 0;
            while t < topics.len()
                invariant
                    t <= topics@.len(),
                    i < standings@.len(),
                    st == views(standings@),
                    tn == topic_names(topics@),
                    tied == exists|y: int| 0 <= y < t && tn[y] == st[i as int].topic,
                decreases topics@.len() - t,
            {
                assert(tn[t as int] == topics@[t as int]@);
                if topics[t].same(&standings[i].topic) {
                    tied = true;
                }
                t = t + 1;
            }
            if tied && crate::names::holds(&standings[i].supporters, members[m]) {
                backed = true;
            }
            i = i + 1;
        }
        if !backed {
            assert(!backs_tied(st, tn, ms[m as int]));
            return true;
        }
        m = m + 1;
    }
    false
}

/// The members, in order, who have not authored a live row.
fn unheard_members<'a>(transcript: &[SessionMessage], live: &Vec<usize>, members: &[&'a str]) -> (unheard: Vec<
    &'a str,
>)
    requires
        forall|k: int| 0 <= k < live@.len() ==> live@[k] < transcript@.len(),
    ensures
        member_names(unheard@) == unheard_of(picked_messages(transcript@, live@), member_names(members@)),
{
    let ghost l = picked_messages(transcript@, live@);
    let ghost ms = member_names(members@);
    let mut unheard: Vec<&'a str> = Vec::new();
    let mut m: usize = 0;
    while m < members.len()
        invariant
            m <= members@.len(),
            l == picked_messages(transcript@, live@),
            ms == member_names(members@),
            forall|k: int| 0 <= k < live@.len() ==> live@[k] < transcript@.len(),
            member_names(unheard@) == unheard_of(l, ms.take(m as int)),
        decreases members@.len() - m,
    {
        assert(ms.take(m + 1).drop_last() =~= ms.take(m as int));
        assert(ms.take(m + 1).last() == members@[m as int]@);
        let mut spoke = false;
        let mut k: usize = 0;
        while k < live.len()
            invariant
                k <= live@.len(),
                m < members@.len(),
                l == picked_messages(transcript@, live@),
                forall|x: int| 0 <= x < live@.len() ==> live@[x] < transcript@.len(),
                spoke == exists|x: int| 0 <= x < k && (#[trigger] l[x]).author.agent_view() == Some(members@[m as int]@),
            decreases live@.len() - k,
        {
            let message = &transcript[live[k]];
            assert(l[k as int] == *message);
            let by = match message.author.agent_id() {
                Some(id) => same_text(id, members[m]),
                None => false,
            };
            if by {
                spoke = true;
            }
            k = k + 1;
        }
        if !spoke {
            let ghost before = unheard@;
            unheard.push(members[m]);
            assert(member_names(unheard@) =~= member_names(before).push(members@[m as int]@));
        }
        m = m + 1;
    }
    assert(ms.take(members@.len() as int) =~= ms);
    unheard
}

/// The bids a round picks from.
fn candidates(all: Vec<Bid>, concurrent_blind: bool, unheard: &Vec<&str>) -> (pool: Vec<Bid>)
    ensures
        bid_views(pool@) == candidates_of(bid_views(all@), concurrent_blind, member_names(unheard@)),
{
    let ghost s = bid_views(all@);
    let ghost un = member_names(unheard@);
    let mut pool: Vec<Bid> = Vec::new();
    let mut i: usize = 0;
    while i < all.len()
        invariant
            i <= all@.len(),
            s == bid_views(all@),
            un == member_names(unheard@),
            bid_views(pool@) == candidates_of(s.take(i as int), concurrent_blind, un),
        decreases all@.len() - i,
    {
        assert(s.take(i + 1).drop_last() =~= s.take(i as int));
        assert(s.take(i + 1).last() == bid_view(all@[i as int]));
        let keep = !concurrent_blind || is_member(unheard.as_slice(), all[i].agent_id.as_str());
        if keep {
            let ghost before = pool@;
            pool.push(Bid { agent_id: all[i].agent_id.clone(), urge: all[i].urge, reason: all[i].reason });
            assert(bid_views(pool@) =~= bid_views(before).push(s[i as int]));
        }
        i = i + 1;
    }
    assert(s.take(all@.len() as int) =~= s);
    pool
}

/// `a + b`, saturated into an `i64`.
fn clamp_add(a: i64, b: i64) -> (c: i64)
    ensures
        c == clamp_i64(a + b),
{
    let c = (a as i128) + (b as i128);
    if c > i64::MAX as i128 {
        i64::MAX
    } else if c < i64::MIN as i128 {
        i64::MIN
    } else {
        c as i64
    }
}

/// Raise the speakers' thresholds and lower everyone else's.
///
/// Speaking costs; silence accrues standing. That rotates the floor around
/// the desk rather than fixing a priority order. Only `threshold` moves, the
/// same amount whatever the turn was about.
fn charged(thresholds: &[AgentThreshold], members: &[&str], speakers: &Vec<Bid>) -> (records: Vec<AgentThreshold>)
    ensures
        threshold_views(records@) == charged_of(
            thresholds@,
            member_names(members@),
            bid_views(speakers@).map_values(|b: BidView| b.agent),
        ),
{
    let ghost ms = member_names(members@);
    let ghost said = bid_views(speakers@).map_values(|b: BidView| b.agent);
    let mut records: Vec<AgentThreshold> = Vec::new();
    let mut m: usize = 0;
    while m < members.len()
        invariant
            m <= members@.len(),
            ms == member_names(members@),
            said == bid_views(speakers@).map_values(|b: BidView| b.agent),
            threshold_views(records@) == charged_of(thresholds@, ms.take(m as int), said),
        decreases members@.len() - m,
    {
        let member = members[m];
        assert(ms[m as int] == member@);
        let mut spoke = false;
        let mut j: usize = 0;
        while j < speakers.len()
            invariant
                j <= speakers@.len(),
                said == bid_views(speakers@).map_values(|b: BidView| b.agent),
                spoke == exists|x: int| 0 <= x < j && said[x] == member@,
            decreases speakers@.len() - j,
        {
            assert(said[j as int] == speakers@[j as int].agent_id@);
            if same_text(speakers[j].agent_id.as_str(), member) {
                spoke = true;
            }
            j = j + 1;
        }
        assert(spoke == said.contains(member@));
        let mut record = match record_of(thresholds, member) {
            Some(r) => r.duplicate(),
            None => AgentThreshold::new(member, 0),
        };
        proof {
            if record_for(thresholds@, member@) is None {
                assert(record@.affinity =~= Seq::<(Seq<char>, u8)>::empty());
            }
        }
        let ghost base = record@;
        record.threshold = if spoke {
            clamp_add(record.threshold, 500)
        } else {
            clamp_add(record.threshold, -250)
        };
        let ghost before = records@;
        records.push(record);
        proof {
            assert(record@ == charged_record(thresholds@, member@, spoke));
            assert(threshold_views(records@) =~= threshold_views(before).push(record@));
            assert(ms.take(m + 1) =~= ms.take(m as int).push(member@));
            assert(charged_of(thresholds@, ms.take(m + 1), said) =~= charged_of(thresholds@, ms.take(m as int), said).push(
                charged_record(thresholds@, member@, said.contains(member@)),
            ));
        }
        m = m + 1;
    }
    assert(ms.take(members@.len() as int) =~= ms);
    records
}

/// A copy of a list of topics.
fn copy_topics(topics: &Vec<TopicId>) -> (copy: Vec<TopicId>)
    ensures
        topic_names(copy@) == topic_names(topics@),
{
    let mut copy: Vec<TopicId> = Vec::new();
    let mut i: usize = 0;
    while i < topics.len()
        invariant
            i <= topics@.len(),
            topic_names(copy@) == topic_names(topics@.take(i as int)),
        decreases topics@.len() - i,
    {
        let ghost before = copy@;
        copy.push(topics[i].duplicate());
        assert(topic_names(copy@) =~= topic_names(before).push(topics@[i as int]@));
        assert(topics@.take(i + 1) =~= topics@.take(i as int).push(topics@[i as int]));
        assert(topic_names(topics@.take(i + 1)) =~= topic_names(topics@.take(i as int)).push(topics@[i as int]@));
        i = i + 1;
    }
    assert(topics@.take(topics@.len() as int) =~= topics@);
    copy
}

/// The turns a round authorizes.
fn turns_for(speaking: &Vec<Bid>, phase: Phase, visibility: Visibility, watermark: Sequence, at: Sequence) -> (turns:
    Vec<HiveTurn>)
    ensures
        turn_views(turns@) == turns_of(bid_views(speaking@), phase, visibility, watermark, at),
{
    let ghost s = bid_views(speaking@);
    let mut turns: Vec<HiveTurn> = Vec::new();
    let mut i: usize = 0;
    while i < speaking.len()
        invariant
            i <= speaking@.len(),
            s == bid_views(speaking@),
            turn_views(turns@) == turns_of(s.take(i as int), phase, visibility, watermark, at),
        decreases speaking@.len() - i,
    {
        let ghost before = turns@;
        turns.push(
            HiveTurn {
                agent_id: speaking[i].agent_id.clone(),
                phase,
                visibility,
                reason: speaking[i].reason,
                watermark,
                round_start: at,
            },
        );
        assert(s[i as int] == bid_view(speaking@[i as int]));
        assert(s.take(i + 1) =~= s.take(i as int).push(s[i as int]));
        let ghost tv = TurnView {
            agent: s[i as int].agent,
            phase,
            visibility,
            reason: s[i as int].reason,
            watermark,
            round_start: at,
        };
        assert(turn_views(turns@) =~= turn_views(before).push(tv));
        assert(turns_of(s.take(i + 1), phase, visibility, watermark, at) =~= turns_of(s.take(i as int), phase, visibility, watermark, at).push(tv));
        i = i + 1;
    }
    assert(s.take(speaking@.len() as int) =~= s);
    turns
}

/// Of two first-found indices, the one a `choose` picks is the one found.
proof fn lemma_first_repeat(thresholds: Seq<AgentThreshold>, k: int)
    requires
        repeats_at(thresholds, k),
        forall|j: int| 0 <= j < k ==> !repeats_at(thresholds, j),
    ensures
        repeat_error(thresholds) == Some(Error::DuplicateAgentThreshold { agent_id: thresholds[k].agent_id }),
{
    let c = choose|c: int| repeats_at(thresholds, c) && forall|j: int| 0 <= j < c ==> !repeats_at(thresholds, j);
    if c < k {
        assert(!repeats_at(thresholds, c));
    } else if k < c {
        assert(!repeats_at(thresholds, k));
    }
}

/// Decide the next step of a deliberation episode.
///
/// `members` are the episode's desk's active members, in desk order. The
/// order of evaluation is fixed, and each rung is checked before the next:
///
/// 1. the policy, and every carried threshold naming an active member;
/// 2. a spent budget returns `Exhausted`;
/// 3. the live rows are folded into traces and standings at one sequence;
/// 4. quorum in the commit phase, once a `!commit` recorded it, converges;
/// 5. a deadlock nobody is left to break is terminal;
/// 6. otherwise the highest bids take the floor, a round at a time, or the
///    room is idle. With a directory in the policy, the member it names as
///    the top holder of a promoted topic (one the room contests, or one a
///    member deferred, short of `defer_cap` deferrals) bids `Knows`.
///
/// Only rows above the watermark, addressed to the desk, and not written by
/// an agent outside it are folded: an episode does not inherit the votes of
/// the conversation before it, and an aside carries information, never
/// support.
pub fn step(state: &EpisodeState, transcript: &[SessionMessage], members: &[&str], policy: &EpisodePolicy) -> (result:
    Result<HiveStep>)
    requires
        step_accepts(transcript@, state.watermark, member_names(members@)),
    ensures
        step_outcome(step_result(result), state@, state.thresholds@, transcript@, member_names(members@), *policy),
{
    let ghost ms = member_names(members@);
    match policy_check(policy) {
        Some(e) => {
            return Err(e);
        },
        None => {},
    }
    match first_stray(&state.thresholds, members) {
        Some(k) => {
            proof {
                let c = choose|c: int|
                    stray_at(state.thresholds@, ms, c) && forall|j: int| 0 <= j < c ==> !stray_at(state.thresholds@, ms, j);
                if c < k {
                    assert(!stray_at(state.thresholds@, ms, c));
                } else if k < c {
                    assert(!stray_at(state.thresholds@, ms, k as int));
                }
            }
            return Err(
                Error::UnknownThresholdMember {
                    agent_id: state.thresholds[k].agent_id.clone(),
                    desk_id: state.conversation.desk_id.clone(),
                },
            );
        },
        None => {},
    }
    assert(setup_error(state@, state.thresholds@, ms, *policy) is None);
    if state.spent >= policy.turn_budget {
        return Ok(HiveStep::Exhausted { spent: state.spent });
    }
    let live = live_rows(transcript, state.watermark, members);
    let ghost lv = live_of(transcript@, state.watermark, ms);
    let traces = read_picked(transcript, &live);
    assert(traces@.len() <= crate::attention::attention_capacity()) by {
        assert(picked_messages(transcript@, live@) == lv);
        assert(trace_views(traces@).len() == traces@.len());
    }
    let at = if live.len() == 0 {
        state.watermark
    } else {
        transcript[live[live.len() - 1]].sequence
    };
    assert(at == round_at(lv, state.watermark)) by {
        if live@.len() > 0 {
            assert(lv.last() == transcript@[live@[live@.len() - 1] as int]);
        }
    }
    let ghost tr = traces@;
    let ghost d = decision(state@, state.thresholds@, lv, tr, ms, *policy);
    let standings = match standings(&traces, at, &policy.quorum) {
        Ok(s) => s,
        Err(e) => {
            assert(step_result(Err::<HiveStep, Error>(e)) == d);
            return Err(e);
        },
    };
    let ghost st = views(standings@);
    let ghost carried = carried_topics(st, policy.quorum);
    let agreed = consensus(&standings, &policy.quorum);
    match &agreed {
        ConsensusState::Quorum { topic } => {
            if state.phase == Phase::Commit {
                match state.commit_boundary {
                    Some(b) => {
                        if commit_recorded(&traces, topic, b) {
                            match standing_on(&standings, topic) {
                                Some(s) => {
                                    let result = HiveStep::Converged { topic: topic.duplicate(), standing: Box::new(s) };
                                    assert(step_result(Ok::<HiveStep, Error>(result)) == d);
                                    return Ok(result);
                                },
                                None => {},
                            }
                        }
                    },
                    None => {},
                }
            }
        },
        ConsensusState::Deadlocked { topics } => {
            if !has_free_dissenter(members, &standings, topics) {
                let result = HiveStep::Deadlocked { topics: copy_topics(topics) };
                assert(step_result(Ok::<HiveStep, Error>(result)) == d);
                return Ok(result);
            }
        },
        ConsensusState::Deliberating => {},
    }
    assert(!(carried.len() == 1 && converges(state@, tr, carried[0]) && standing_named(st, carried[0]) is Some));
    assert(!(carried.len() >= 2 && !free_dissenter(ms, st, carried)));
    let knowers: Vec<&str> = match policy.directory {
        Some(dp) => {
            match directory(&traces, at, &dp, &state.thresholds) {
                Err(e) => {
                    proof {
                        let k = choose|k: int|
                            repeats_at(state.thresholds@, k) && (forall|j: int| 0 <= j < k ==> !repeats_at(state.thresholds@, j))
                                && Err::<crate::directory::Directory, Error>(e) == Err::<crate::directory::Directory, Error>(
                                Error::DuplicateAgentThreshold { agent_id: state.thresholds@[k].agent_id },
                            );
                        lemma_first_repeat(state.thresholds@, k);
                    }
                    assert(step_result(Err::<HiveStep, Error>(e)) == d);
                    return Err(e);
                },
                Ok(known) => {
                    proof {
                        let w = crate::window::window_of(tr, at.0, dp.window);
                        assert(crate::directory::is_directory(known@, w, state.thresholds@, at, dp));
                        let c = choose|r: Seq<crate::directory::EntryView>| crate::directory::is_directory(r, w, state.thresholds@, at, dp);
                        crate::directory::lemma_directory_unique(c, known@, w, state.thresholds@, at, dp);
                        assert(super::delegation::folded_directory(tr, at, state.thresholds@, *policy) == Some(known@));
                    }
                    super::delegation::knowers(&known, &dp, &traces, &standings, members, policy)
                },
            }
        },
        None => Vec::new(),
    };
    let context = BidContext {
        traces: traces.as_slice(),
        standings: standings.as_slice(),
        members,
        thresholds: state.thresholds.as_slice(),
        at,
        weights: &policy.weights,
        dominance_cap: policy.dominance_cap,
        repetition_cap: policy.repetition_cap,
        window: policy.quorum.window,
        knowers: knowers.as_slice(),
    };
    proof {
        if policy.directory is None {
            assert(member_names(context.knowers@) =~= Seq::<Seq<char>>::empty());
        }
    }
    assert(market(context) == market_of(tr, st, ms, state.thresholds@, at, *policy));
    let all = match bids(&context) {
        Ok(b) => b,
        Err(e) => {
            proof {
                if exists|i: int| repeats_at(state.thresholds@, i) {
                    let k = choose|k: int|
                        repeats_at(state.thresholds@, k) && (forall|j: int| 0 <= j < k ==> !repeats_at(state.thresholds@, j))
                            && Err::<Vec<Bid>, Error>(e) == Err::<Vec<Bid>, Error>(
                            Error::DuplicateAgentThreshold { agent_id: state.thresholds@[k].agent_id },
                        );
                    lemma_first_repeat(state.thresholds@, k);
                }
            }
            assert(step_result(Err::<HiveStep, Error>(e)) == d);
            return Err(e);
        },
    };
    proof {
        if exists|i: int| repeats_at(state.thresholds@, i) {
            let k = choose|k: int| repeats_at(state.thresholds@, k);
            assert(false);
        }
    }
    let quorum = match &agreed {
        ConsensusState::Quorum { .. } => true,
        _ => false,
    };
    let phase = if quorum {
        Phase::Commit
    } else {
        state.phase
    };
    let unheard = unheard_members(transcript, &live, members);
    let visibility = if unheard.len() == 0 || !policy.blind_round {
        Visibility::Full
    } else {
        Visibility::Blind
    };
    let concurrent_blind = match visibility {
        Visibility::Blind => policy.round_width > 1,
        Visibility::Full => false,
    };
    let pool = candidates(all, concurrent_blind, &unheard);
    let remaining = policy.turn_budget - state.spent;
    let cap = match visibility {
        Visibility::Blind => {
            let w = if (policy.round_width as usize) < unheard.len() {
                policy.round_width
            } else {
                unheard.len() as u32
            };
            if w < 1 {
                1
            } else {
                w
            }
        },
        Visibility::Full => policy.revealed_width,
    };
    let committing = match phase {
        Phase::Commit => true,
        Phase::Deliberate => false,
    };
    let width = if committing {
        1
    } else if cap < remaining {
        cap
    } else {
        remaining
    };
    assert(width as int == width_for(*policy, phase, visibility, unheard@.len() as int, state.spent));
    let speaking = floor_round(&pool, width);
    if speaking.len() == 0 {
        assert(step_result(Ok::<HiveStep, Error>(HiveStep::Idle)) == d);
        return Ok(HiveStep::Idle);
    }
    let turns = turns_for(&speaking, phase, visibility, state.watermark, at);
    let records = charged(&state.thresholds, members, &speaking);
    let total = (state.spent as u128) + (speaking.len() as u128);
    let spent = if total > u32::MAX as u128 {
        u32::MAX
    } else {
        total as u32
    };
    let boundary = if committing {
        Some(
            match state.commit_boundary {
                Some(b) => b,
                None => at,
            },
        )
    } else {
        None
    };
    let next = EpisodeState {
        conversation: state.conversation.duplicate(),
        spent,
        phase,
        thresholds: records,
        watermark: state.watermark,
        commit_boundary: boundary,
    };
    let result = HiveStep::Speak { turns, next_state: Box::new(next) };
    assert(step_result(Ok::<HiveStep, Error>(result)) == d);
    Ok(result)
}

} // verus!

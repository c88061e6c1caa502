//! What one step of an episode decides, stated over plain values.

use vstd::prelude::*;

use super::types::{EpisodePolicy, Phase, StateView, StepView, TurnView, Visibility};
use crate::attention::{
    AgentThreshold, BidView, Market, ThresholdView, bids_of, record_for, round_of, scores_any,
    threshold_views,
};
use crate::directory::repeats_at;
use crate::error::Error;
use crate::quorum::{StandingView, carried_topics, standings_spec, valid_quorum};
use crate::session::{Audience, Sequence, SessionAuthor, SessionMessage};
use crate::trace::{Trace, TraceKind, medium, trace_views};

verus! {

/// What speaking costs the speaker's threshold.
pub open spec fn speak_cost() -> int {
    500
}

/// The first configuration error in an episode policy, if any.
pub open spec fn policy_error(policy: EpisodePolicy) -> Option<Error> {
    if policy.defer_cap == Some(0u32) {
        Some(Error::ZeroDeferCap)
    } else if policy.round_width == 0 || policy.revealed_width == 0 {
        Some(Error::ZeroRoundWidth)
    } else {
        match policy.directory {
            Some(d) => if d.half_life == 0 {
                Some(Error::ZeroDirectoryHalfLife)
            } else if d.window == 0 {
                Some(Error::ZeroDirectoryWindow)
            } else {
                None
            },
            None => None,
        }
    }
}

/// The desk's members the roster lists as active, in desk order.
pub open spec fn active_of(desk: Seq<Seq<char>>, active: Seq<Seq<char>>) -> Seq<Seq<char>>
    decreases desk.len(),
{
    if desk.len() == 0 {
        Seq::empty()
    } else {
        let earlier = active_of(desk.drop_last(), active);
        if active.contains(desk.last()) {
            earlier.push(desk.last())
        } else {
            earlier
        }
    }
}

/// Whether threshold record `k` names somebody who is not an active member.
pub open spec fn stray_at(thresholds: Seq<AgentThreshold>, members: Seq<Seq<char>>, k: int) -> bool {
    0 <= k < thresholds.len() && !members.contains(thresholds[k].agent_id@)
}

/// Whether a message is one the episode folds: above the watermark,
/// addressed to the desk, and not authored by an agent outside it.
pub open spec fn admits(m: SessionMessage, watermark: Sequence, members: Seq<Seq<char>>) -> bool {
    &&& m.sequence.0 > watermark.0
    &&& m.audience is Desk
    &&& match m.author.agent_view() {
        Some(id) => members.contains(id),
        None => true,
    }
}

/// The messages the episode folds, in transcript order.
pub open spec fn live_of(transcript: Seq<SessionMessage>, watermark: Sequence, members: Seq<Seq<char>>) -> Seq<
    SessionMessage,
>
    decreases transcript.len(),
{
    if transcript.len() == 0 {
        Seq::empty()
    } else {
        let earlier = live_of(transcript.drop_last(), watermark, members);
        if admits(transcript.last(), watermark, members) {
            earlier.push(transcript.last())
        } else {
            earlier
        }
    }
}

/// The sequence a round is folded at: the last live row, or the watermark.
pub open spec fn round_at(live: Seq<SessionMessage>, watermark: Sequence) -> Sequence {
    if live.len() == 0 {
        watermark
    } else {
        live.last().sequence
    }
}

/// Whether member `m` authored some live row.
pub open spec fn heard(live: Seq<SessionMessage>, m: Seq<char>) -> bool {
    exists|k: int| 0 <= k < live.len() && (#[trigger] live[k]).author.agent_view() == Some(m)
}

/// The members, in order, who have not authored a live row.
pub open spec fn unheard_of(live: Seq<SessionMessage>, members: Seq<Seq<char>>) -> Seq<Seq<char>>
    decreases members.len(),
{
    if members.len() == 0 {
        Seq::empty()
    } else {
        let earlier = unheard_of(live, members.drop_last());
        if heard(live, members.last()) {
            earlier
        } else {
            earlier.push(members.last())
        }
    }
}

/// Whether the round is blind: the policy opens blind and somebody is still
/// unheard.
pub open spec fn visibility_of(policy: EpisodePolicy, live: Seq<SessionMessage>, members: Seq<Seq<char>>) -> Visibility {
    if unheard_of(live, members).len() == 0 || !policy.blind_round {
        Visibility::Full
    } else {
        Visibility::Blind
    }
}

/// The bids a round picks from: in a concurrent blind round only the
/// unheard members', so a heard member cannot crowd out one still owed a
/// turn; otherwise every bid.
pub open spec fn candidates_of(bids: Seq<BidView>, concurrent_blind: bool, unheard: Seq<Seq<char>>) -> Seq<BidView>
    decreases bids.len(),
{
    if bids.len() == 0 {
        Seq::empty()
    } else {
        let earlier = candidates_of(bids.drop_last(), concurrent_blind, unheard);
        if !concurrent_blind || unheard.contains(bids.last().agent) {
            earlier.push(bids.last())
        } else {
            earlier
        }
    }
}

/// How many turns a round may authorize.
pub open spec fn width_for(
    policy: EpisodePolicy,
    phase: Phase,
    visibility: Visibility,
    unheard: int,
    spent: u32,
) -> int {
    let remaining = if policy.turn_budget >= spent {
        policy.turn_budget - spent
    } else {
        0
    };
    let cap = match visibility {
        Visibility::Blind => {
            let w = if policy.round_width < unheard {
                policy.round_width as int
            } else {
                unheard
            };
            if w < 1 {
                1
            } else {
                w
            }
        },
        Visibility::Full => policy.revealed_width as int,
    };
    if phase == Phase::Commit {
        1
    } else if cap < remaining {
        cap
    } else {
        remaining
    }
}

/// `x` saturated into the range of an `i64`.
pub open spec fn clamp_i64(x: int) -> int {
    if x > i64::MAX {
        i64::MAX as int
    } else if x < i64::MIN {
        i64::MIN as int
    } else {
        x
    }
}

/// One member's record after a round: its carried record, or a fresh one at
/// zero, raised by the speaking cost if it spoke and lowered by half of it if
/// it stayed silent.
pub open spec fn charged_record(thresholds: Seq<AgentThreshold>, m: Seq<char>, spoke: bool) -> ThresholdView {
    let base = match record_for(thresholds, m) {
        Some(r) => r@,
        None => ThresholdView { agent: m, threshold: 0, affinity: Seq::empty() },
    };
    ThresholdView {
        threshold: if spoke {
            clamp_i64(base.threshold + speak_cost())
        } else {
            clamp_i64(base.threshold - speak_cost() / 2)
        },
        ..base
    }
}

/// Every member's record after a round, in member order.
pub open spec fn charged_of(thresholds: Seq<AgentThreshold>, members: Seq<Seq<char>>, speakers: Seq<Seq<char>>) -> Seq<
    ThresholdView,
> {
    members.map_values(|m: Seq<char>| charged_record(thresholds, m, speakers.contains(m)))
}

/// Whether a `!commit` on `topic` was recorded strictly after `boundary`.
pub open spec fn recorded(traces: Seq<Trace>, topic: Seq<char>, boundary: Sequence) -> bool {
    exists|k: int|
        0 <= k < traces.len() && (#[trigger] traces[k]).kind == TraceKind::Commit && traces[k].topic_name()
            == Some(topic) && traces[k].sequence.0 > boundary.0
}

/// Whether the commit turn has recorded the carried topic.
pub open spec fn converges(state: StateView, traces: Seq<Trace>, topic: Seq<char>) -> bool {
    state.phase == Phase::Commit && state.commit_boundary is Some && recorded(
        traces,
        topic,
        state.commit_boundary->0,
    )
}

/// The first standing on `topic`.
pub open spec fn standing_named(st: Seq<StandingView>, topic: Seq<char>) -> Option<StandingView>
    decreases st.len(),
{
    if st.len() == 0 {
        None
    } else if st[0].topic == topic {
        Some(st[0])
    } else {
        standing_named(st.drop_first(), topic)
    }
}

/// Whether `name` supports one of the tied topics.
pub open spec fn backs_tied(st: Seq<StandingView>, topics: Seq<Seq<char>>, name: Seq<char>) -> bool {
    exists|i: int| 0 <= i < st.len() && topics.contains((#[trigger] st[i]).topic) && st[i].supporters.contains(name)
}

/// Whether some member has backed none of the tied topics.
pub open spec fn free_dissenter(members: Seq<Seq<char>>, st: Seq<StandingView>, topics: Seq<Seq<char>>) -> bool {
    exists|m: int| 0 <= m < members.len() && !backs_tied(st, topics, #[trigger] members[m])
}

/// The first configuration error for this state and roster: the policy's,
/// then a threshold naming a non-member.
pub open spec fn setup_error(state: StateView, thresholds: Seq<AgentThreshold>, members: Seq<Seq<char>>, policy: EpisodePolicy) -> Option<Error> {
    match policy_error(policy) {
        Some(e) => Some(e),
        None => if exists|k: int| stray_at(thresholds, members, k) {
            let k = choose|k: int|
                stray_at(thresholds, members, k) && forall|j: int| 0 <= j < k ==> !stray_at(thresholds, members, j);
            Some(
                Error::UnknownThresholdMember {
                    agent_id: thresholds[k].agent_id,
                    desk_id: state.conversation.desk_id,
                },
            )
        } else {
            None
        },
    }
}

/// The first quorum policy error, if any.
pub open spec fn quorum_error(policy: EpisodePolicy) -> Option<Error> {
    if policy.quorum.threshold == 0 {
        Some(Error::ZeroQuorumThreshold)
    } else if policy.quorum.window == 0 {
        Some(Error::ZeroQuorumWindow)
    } else if policy.quorum.refutation_cap == Some(0u32) {
        Some(Error::ZeroRefutationCap)
    } else {
        None
    }
}

/// The first repeated threshold record's error, if any.
pub open spec fn repeat_error(thresholds: Seq<AgentThreshold>) -> Option<Error> {
    if exists|k: int| repeats_at(thresholds, k) {
        let k = choose|k: int| repeats_at(thresholds, k) && forall|j: int| 0 <= j < k ==> !repeats_at(thresholds, j);
        Some(Error::DuplicateAgentThreshold { agent_id: thresholds[k].agent_id })
    } else {
        None
    }
}

/// The market a step bids in.
pub open spec fn market_of(
    traces: Seq<Trace>,
    st: Seq<StandingView>,
    members: Seq<Seq<char>>,
    thresholds: Seq<AgentThreshold>,
    at: Sequence,
    policy: EpisodePolicy,
) -> Market {
    Market {
        traces,
        standings: st,
        members,
        thresholds,
        at,
        weights: policy.weights,
        dominance_cap: policy.dominance_cap,
        repetition_cap: policy.repetition_cap,
        window: policy.quorum.window,
        knowers: super::delegation::knowers_of(traces, st, members, thresholds, at, policy),
    }
}

/// The turns a round authorizes, one per picked bid.
pub open spec fn turns_of(speaking: Seq<BidView>, phase: Phase, visibility: Visibility, watermark: Sequence, at: Sequence) -> Seq<
    TurnView,
> {
    speaking.map_values(
        |b: BidView|
            TurnView { agent: b.agent, phase, visibility, reason: b.reason, watermark, round_start: at },
    )
}

/// The state the episode commits after a round.
pub open spec fn next_of(
    state: StateView,
    thresholds: Seq<AgentThreshold>,
    members: Seq<Seq<char>>,
    speaking: Seq<BidView>,
    phase: Phase,
    at: Sequence,
) -> StateView {
    StateView {
        conversation: state.conversation,
        spent: (if state.spent + speaking.len() > u32::MAX {
            u32::MAX as int
        } else {
            state.spent + speaking.len()
        }) as u32,
        phase,
        thresholds: charged_of(thresholds, members, speaking.map_values(|b: BidView| b.agent)),
        watermark: state.watermark,
        commit_boundary: if phase == Phase::Commit {
            Some(
                match state.commit_boundary {
                    Some(b) => b,
                    None => at,
                },
            )
        } else {
            None
        },
    }
}

/// What one step decides, once the policy, the roster and the budget have
/// let it fold the live traces `traces`.
pub open spec fn decision(
    state: StateView,
    thresholds: Seq<AgentThreshold>,
    live: Seq<SessionMessage>,
    traces: Seq<Trace>,
    members: Seq<Seq<char>>,
    policy: EpisodePolicy,
) -> Result<StepView, Error> {
    let at = round_at(live, state.watermark);
    match quorum_error(policy) {
        Some(e) => Err(e),
        None => {
            let st = standings_spec(traces, at, policy.quorum);
            let carried = carried_topics(st, policy.quorum);
            if carried.len() == 1 && converges(state, traces, carried[0]) && standing_named(
                st,
                carried[0],
            ) is Some {
                Ok(StepView::Converged { topic: carried[0], standing: standing_named(st, carried[0])->0 })
            } else if carried.len() >= 2 && !free_dissenter(members, st, carried) {
                Ok(StepView::Deadlocked { topics: carried })
            } else {
                let k = market_of(traces, st, members, thresholds, at, policy);
                match repeat_error(thresholds) {
                    Some(e) => Err(e),
                    None => if members.len() > 0 && scores_any(k) && policy.weights.half_life == 0 {
                        Err(Error::ZeroHalfLife)
                    } else {
                        let bids = bids_of(k, members.len() as int);
                        let phase = if carried.len() == 1 {
                            Phase::Commit
                        } else {
                            state.phase
                        };
                        let visibility = visibility_of(policy, live, members);
                        let unheard = unheard_of(live, members);
                        let concurrent_blind = visibility == Visibility::Blind && policy.round_width > 1;
                        let pool = candidates_of(bids, concurrent_blind, unheard);
                        let width = width_for(policy, phase, visibility, unheard.len() as int, state.spent);
                        let speaking = round_of(pool, width, pool.len() as int);
                        if speaking.len() == 0 {
                            Ok(StepView::Idle)
                        } else {
                            Ok(
                                StepView::Speak {
                                    turns: turns_of(speaking, phase, visibility, state.watermark, at),
                                    next: next_of(state, thresholds, members, speaking, phase, at),
                                },
                            )
                        }
                    },
                }
            }
        },
    }
}

/// What one step returns: a configuration error, else `Exhausted` once the
/// budget is spent, else the decision the live rows fold to.
///
/// The decision is stated over some list of traces whose plain values are
/// the medium the live rows deposit: the traces the step read.
pub open spec fn step_outcome(
    result: Result<StepView, Error>,
    state: StateView,
    thresholds: Seq<AgentThreshold>,
    transcript: Seq<SessionMessage>,
    members: Seq<Seq<char>>,
    policy: EpisodePolicy,
) -> bool {
    match setup_error(state, thresholds, members, policy) {
        Some(e) => result == Err::<StepView, Error>(e),
        None => if state.spent >= policy.turn_budget {
            result == Ok::<StepView, Error>(StepView::Exhausted { spent: state.spent })
        } else {
            exists|traces: Seq<Trace>|
                trace_views(traces) == medium(live_of(transcript, state.watermark, members)) && result
                    == decision(
                    state,
                    thresholds,
                    live_of(transcript, state.watermark, members),
                    traces,
                    members,
                    policy,
                )
        },
    }
}

} // verus!

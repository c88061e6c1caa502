//! What holds of every step an episode takes.

use vstd::prelude::*;

use super::spec::{admits, decision, live_of, market_of, policy_error, recorded, round_at, step_outcome};
use super::types::{EpisodePolicy, Phase, StateView, StepView, Visibility};
use crate::attention::{AgentThreshold, law_round_within_width};
use crate::error::Error;
use crate::session::{Sequence, SessionMessage};
use crate::attention::{law_bids_read_a_set, lemma_bids_alike};
use crate::quorum::{law_standings_order_independent, lemma_standings_alike};
use crate::window::{addresses_identify, same_traces};
use crate::trace::{Trace, alike, desk_rows, lemma_alike_at, lemma_view_fields, medium, trace_views};

verus! {

/// A round is bounded, and the budget bounds the episode: a step that
/// authorizes turns authorizes at least one and no more than the round's
/// width (one while committing, the blind width while blind, the revealed
/// width once revealed), charges exactly the turns it authorizes, and never
/// carries `spent` past `turn_budget`. So every step either terminates the
/// episode or strictly advances a count that cannot pass the budget.
pub proof fn law_round_bounded(
    state: StateView,
    thresholds: Seq<AgentThreshold>,
    live: Seq<SessionMessage>,
    traces: Seq<Trace>,
    members: Seq<Seq<char>>,
    policy: EpisodePolicy,
)
    requires
        policy_error(policy) is None,
        state.spent < policy.turn_budget,
        decision(state, thresholds, live, traces, members, policy) is Ok,
        decision(state, thresholds, live, traces, members, policy)->Ok_0 is Speak,
    ensures
        ({
            let step = decision(state, thresholds, live, traces, members, policy)->Ok_0;
            let turns = step->Speak_turns;
            let next = step->Speak_next;
            &&& 1 <= turns.len()
            &&& next.phase == Phase::Commit ==> turns.len() == 1
            &&& forall|i: int|
                0 <= i < turns.len() ==> (#[trigger] turns[i]).visibility == turns[0].visibility
                    && turns[i].phase == next.phase
            &&& turns[0].visibility == Visibility::Blind ==> turns.len() <= policy.round_width
            &&& turns[0].visibility == Visibility::Full ==> turns.len() <= policy.revealed_width
            &&& next.spent == state.spent + turns.len()
            &&& next.spent <= policy.turn_budget
            &&& state.phase == Phase::Commit ==> next.phase == Phase::Commit
            &&& (state.commit_boundary is Some && next.phase == Phase::Commit) ==> next.commit_boundary
                == state.commit_boundary
        }),
{
    let step = decision(state, thresholds, live, traces, members, policy)->Ok_0;
    let d = decision(state, thresholds, live, traces, members, policy);
    assert(d is Ok);
    // Unfold the decision down to the round it picks.
    let at = super::spec::round_at(live, state.watermark);
    let st = crate::quorum::standings_spec(traces, at, policy.quorum);
    let carried = crate::quorum::carried_topics(st, policy.quorum);
    let k = super::spec::market_of(traces, st, members, thresholds, at, policy);
    let bids = crate::attention::bids_of(k, members.len() as int);
    let phase = if carried.len() == 1 {
        Phase::Commit
    } else {
        state.phase
    };
    let visibility = super::spec::visibility_of(policy, live, members);
    let unheard = super::spec::unheard_of(live, members);
    let concurrent_blind = visibility == Visibility::Blind && policy.round_width > 1;
    let pool = super::spec::candidates_of(bids, concurrent_blind, unheard);
    let width = super::spec::width_for(policy, phase, visibility, unheard.len() as int, state.spent);
    let speaking = crate::attention::round_of(pool, width, pool.len() as int);
    assert(width >= 0);
    law_round_within_width(pool, width);
    assert(step->Speak_turns.len() == speaking.len());
    assert(step->Speak_next.phase == phase);
}

/// The rows a step folds are already all the rows it folds: folding the live
/// rows again keeps every one of them.
proof fn lemma_live_idempotent(transcript: Seq<SessionMessage>, watermark: Sequence, members: Seq<Seq<char>>)
    ensures
        live_of(live_of(transcript, watermark, members), watermark, members) == live_of(
            transcript,
            watermark,
            members,
        ),
    decreases transcript.len(),
{
    if transcript.len() > 0 {
        let earlier = live_of(transcript.drop_last(), watermark, members);
        lemma_live_idempotent(transcript.drop_last(), watermark, members);
        if admits(transcript.last(), watermark, members) {
            let live = earlier.push(transcript.last());
            assert(live.drop_last() =~= earlier);
        }
    }
}

/// Dropping the asides from a transcript drops no live row.
proof fn lemma_live_of_desk_rows(transcript: Seq<SessionMessage>, watermark: Sequence, members: Seq<Seq<char>>)
    ensures
        live_of(desk_rows(transcript), watermark, members) == live_of(transcript, watermark, members),
    decreases transcript.len(),
{
    if transcript.len() > 0 {
        lemma_live_of_desk_rows(transcript.drop_last(), watermark, members);
        if transcript.last().audience is Desk {
            let rows = desk_rows(transcript.drop_last()).push(transcript.last());
            assert(rows.drop_last() =~= desk_rows(transcript.drop_last()));
        }
    }
}

/// A step reads only the rows the episode folds: a transcript and its live
/// rows (above the watermark, addressed to the desk, and not written by an
/// agent outside it) admit exactly the same outcomes. Rows from before the
/// episode, asides, and rows by non-members move nothing.
pub proof fn law_step_reads_only_live_rows(
    result: core::result::Result<StepView, Error>,
    state: StateView,
    thresholds: Seq<AgentThreshold>,
    transcript: Seq<SessionMessage>,
    members: Seq<Seq<char>>,
    policy: EpisodePolicy,
)
    ensures
        step_outcome(result, state, thresholds, transcript, members, policy) == step_outcome(
            result,
            state,
            thresholds,
            live_of(transcript, state.watermark, members),
            members,
            policy,
        ),
{
    lemma_live_idempotent(transcript, state.watermark, members);
}

/// An aside carries information, never support: a transcript and the same
/// transcript with every aside removed admit exactly the same outcomes, so
/// asides interleaved anywhere in a transcript do not move the episode.
pub proof fn law_asides_do_not_move_the_step(
    result: core::result::Result<StepView, Error>,
    state: StateView,
    thresholds: Seq<AgentThreshold>,
    transcript: Seq<SessionMessage>,
    members: Seq<Seq<char>>,
    policy: EpisodePolicy,
)
    ensures
        step_outcome(result, state, thresholds, transcript, members, policy) == step_outcome(
            result,
            state,
            thresholds,
            desk_rows(transcript),
            members,
            policy,
        ),
{
    lemma_live_of_desk_rows(transcript, state.watermark, members);
}

/// A decision depends on what the traces say, not on how each is held.
pub(crate) proof fn lemma_decision_alike(
    state: StateView,
    thresholds: Seq<AgentThreshold>,
    live: Seq<SessionMessage>,
    t1: Seq<Trace>,
    t2: Seq<Trace>,
    members: Seq<Seq<char>>,
    policy: EpisodePolicy,
)
    requires
        alike(t1, t2),
        t1.len() <= usize::MAX,
    ensures
        decision(state, thresholds, live, t1, members, policy) == decision(state, thresholds, live, t2, members, policy),
{
    let at = round_at(live, state.watermark);
    lemma_standings_alike(t1, t2, at, policy.quorum);
    assert(trace_views(t1).len() == trace_views(t2).len());
    assert forall|topic: Seq<char>, boundary: Sequence| #[trigger] recorded(t1, topic, boundary) == recorded(t2, topic, boundary) by {
        if recorded(t1, topic, boundary) {
            let k = choose|k: int|
                0 <= k < t1.len() && (#[trigger] t1[k]).kind == crate::trace::TraceKind::Commit && t1[k].topic_name()
                    == Some(topic) && t1[k].sequence.0 > boundary.0;
            lemma_alike_at(t1, t2, k);
            lemma_view_fields(t1[k], t2[k]);
        }
        if recorded(t2, topic, boundary) {
            let k = choose|k: int|
                0 <= k < t2.len() && (#[trigger] t2[k]).kind == crate::trace::TraceKind::Commit && t2[k].topic_name()
                    == Some(topic) && t2[k].sequence.0 > boundary.0;
            lemma_alike_at(t1, t2, k);
            lemma_view_fields(t1[k], t2[k]);
        }
    }
    let st = crate::quorum::standings_spec(t1, at, policy.quorum);
    let k = market_of(t1, st, members, thresholds, at, policy);
    super::delegation::lemma_knowers_alike(t1, t2, st, members, thresholds, at, policy);
    lemma_bids_alike(k, t1, t2, Err(Error::ZeroHalfLife));
    assert(market_of(t2, st, members, thresholds, at, policy) == (crate::attention::Market { traces: t2, ..k }));
}

/// A room converges only on a commit it recorded: a step that answers
/// `Converged` on a topic was taken in the commit phase, with a boundary, and
/// among the traces its live rows deposit is a `!commit` naming that very
/// topic, written strictly after the boundary.
pub proof fn law_converges_on_a_recorded_commit(
    result: core::result::Result<StepView, Error>,
    state: StateView,
    thresholds: Seq<AgentThreshold>,
    transcript: Seq<SessionMessage>,
    members: Seq<Seq<char>>,
    policy: EpisodePolicy,
    topic: Seq<char>,
    standing: crate::quorum::StandingView,
)
    requires
        step_outcome(result, state, thresholds, transcript, members, policy),
        result == Ok::<StepView, Error>(StepView::Converged { topic, standing }),
    ensures
        state.phase == Phase::Commit,
        state.commit_boundary is Some,
        exists|k: int|
            0 <= k < medium(live_of(transcript, state.watermark, members)).len() && {
                let (sequence, _, mark) = #[trigger] medium(live_of(transcript, state.watermark, members))[k];
                &&& mark.kind == crate::trace::TraceKind::Commit
                &&& mark.topic == Some(topic)
                &&& sequence.0 > (state.commit_boundary->0).0
            },
{
    let live = live_of(transcript, state.watermark, members);
    let traces = choose|traces: Seq<Trace>|
        trace_views(traces) == medium(live) && result == decision(state, thresholds, live, traces, members, policy);
    let boundary = state.commit_boundary->0;
    let k = choose|k: int|
        0 <= k < traces.len() && (#[trigger] traces[k]).kind == crate::trace::TraceKind::Commit && traces[k].topic_name()
            == Some(topic) && traces[k].sequence.0 > boundary.0;
    assert(medium(live)[k] == crate::trace::trace_view(traces[k]));
}

/// An episode replays exactly: one transcript, one state, one roster and
/// one policy admit exactly one outcome of a step.
pub proof fn law_step_deterministic(
    first: core::result::Result<StepView, Error>,
    second: core::result::Result<StepView, Error>,
    state: StateView,
    thresholds: Seq<AgentThreshold>,
    transcript: Seq<SessionMessage>,
    members: Seq<Seq<char>>,
    policy: EpisodePolicy,
)
    requires
        super::run::step_accepts(transcript, state.watermark, members),
        step_outcome(first, state, thresholds, transcript, members, policy),
        step_outcome(second, state, thresholds, transcript, members, policy),
    ensures
        first == second,
{
    if super::spec::setup_error(state, thresholds, members, policy) is None && state.spent < policy.turn_budget {
        let live = live_of(transcript, state.watermark, members);
        let t1 = choose|traces: Seq<Trace>|
            trace_views(traces) == medium(live) && first == decision(state, thresholds, live, traces, members, policy);
        let t2 = choose|traces: Seq<Trace>|
            trace_views(traces) == medium(live) && second == decision(state, thresholds, live, traces, members, policy);
        assert(trace_views(t1).len() == t1.len());
        assert(t1.len() <= usize::MAX);
        lemma_decision_alike(state, thresholds, live, t1, t2, members, policy);
    }
}

/// A decision reads a set of traces: two lists holding the same traces, in
/// any order and however often each was delivered, decide alike, as long as
/// no two different traces share an address.
pub proof fn law_decision_reads_a_set(
    state: StateView,
    thresholds: Seq<AgentThreshold>,
    live: Seq<SessionMessage>,
    a: Seq<Trace>,
    b: Seq<Trace>,
    members: Seq<Seq<char>>,
    policy: EpisodePolicy,
)
    requires
        same_traces(a, b),
        addresses_identify(a),
        addresses_identify(b),
        a.len() <= usize::MAX,
    ensures
        decision(state, thresholds, live, a, members, policy) == decision(state, thresholds, live, b, members, policy),
{
    let at = round_at(live, state.watermark);
    law_standings_order_independent(a, b, at, policy.quorum);
    assert forall|topic: Seq<char>, boundary: Sequence| #[trigger] recorded(a, topic, boundary) == recorded(b, topic, boundary) by {
        if recorded(a, topic, boundary) {
            let k = choose|k: int|
                0 <= k < a.len() && (#[trigger] a[k]).kind == crate::trace::TraceKind::Commit && a[k].topic_name()
                    == Some(topic) && a[k].sequence.0 > boundary.0;
            assert(b.contains(a[k]));
            let j = choose|j: int| 0 <= j < b.len() && b[j] == a[k];
            assert(b[j].kind == crate::trace::TraceKind::Commit);
        }
        if recorded(b, topic, boundary) {
            let k = choose|k: int|
                0 <= k < b.len() && (#[trigger] b[k]).kind == crate::trace::TraceKind::Commit && b[k].topic_name()
                    == Some(topic) && b[k].sequence.0 > boundary.0;
            assert(a.contains(b[k]));
            let j = choose|j: int| 0 <= j < a.len() && a[j] == b[k];
            assert(a[j].kind == crate::trace::TraceKind::Commit);
        }
    }
    let st = crate::quorum::standings_spec(a, at, policy.quorum);
    let k = market_of(a, st, members, thresholds, at, policy);
    super::delegation::lemma_knowers_set(a, b, st, members, thresholds, at, policy);
    law_bids_read_a_set(k, a, b, Err(Error::ZeroHalfLife));
    assert(market_of(b, st, members, thresholds, at, policy) == (crate::attention::Market { traces: b, ..k }));
}

} // verus!

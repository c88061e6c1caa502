//! A host that meets every row twice steps exactly as one that met each once.

use vstd::prelude::*;

use super::laws::{law_decision_reads_a_set, lemma_decision_alike};
use super::spec::{admits, decision, heard, live_of, round_at, setup_error, step_outcome, unheard_of, visibility_of};
use super::types::{EpisodePolicy, StateView, StepView};
use crate::attention::AgentThreshold;
use crate::error::Error;
use crate::session::{Sequence, SessionAuthor, SessionMessage};
use crate::trace::{
    Mark, Trace, addresses_determine, bodies_fit, lemma_deposits_determine, lemma_deposits_redelivered,
    lemma_medium_holds_deposits, medium, redelivered, sequences_name_rows, trace_view,
    trace_views, view_key,
};
use crate::window::{addresses_identify, key, same_traces};

verus! {

/// Redelivering a list with one more row redelivers that row last, twice.
proof fn lemma_redelivered_push(s: Seq<SessionMessage>, x: SessionMessage)
    ensures
        redelivered(s.push(x)) == redelivered(s).push(x).push(x),
{
    assert(redelivered(s.push(x)) =~= redelivered(s).push(x).push(x));
}

/// The live rows of a redelivered transcript are its live rows, redelivered.
proof fn lemma_live_redelivered(transcript: Seq<SessionMessage>, watermark: Sequence, members: Seq<Seq<char>>)
    ensures
        live_of(redelivered(transcript), watermark, members) == redelivered(live_of(transcript, watermark, members)),
    decreases transcript.len(),
{
    if transcript.len() == 0 {
        assert(redelivered(transcript) =~= transcript);
        assert(redelivered(live_of(transcript, watermark, members)) =~= Seq::<SessionMessage>::empty());
    } else {
        let rest = transcript.drop_last();
        let x = transcript.last();
        lemma_live_redelivered(rest, watermark, members);
        assert(transcript =~= rest.push(x));
        lemma_redelivered_push(rest, x);
        let once = redelivered(rest).push(x);
        let twice = once.push(x);
        assert(twice.drop_last() =~= once);
        assert(once.drop_last() =~= redelivered(rest));
        assert(twice.last() == x && once.last() == x);
        let earlier = live_of(redelivered(rest), watermark, members);
        if admits(x, watermark, members) {
            lemma_redelivered_push(live_of(rest, watermark, members), x);
            assert(live_of(once, watermark, members) == earlier.push(x));
            assert(live_of(twice, watermark, members) == earlier.push(x).push(x));
        } else {
            assert(live_of(once, watermark, members) == earlier);
            assert(live_of(twice, watermark, members) == earlier);
        }
    }
}

/// Every live row is a row of the transcript.
proof fn lemma_live_rows(transcript: Seq<SessionMessage>, watermark: Sequence, members: Seq<Seq<char>>)
    ensures
        forall|k: int|
            0 <= k < live_of(transcript, watermark, members).len() ==> transcript.contains(
                #[trigger] live_of(transcript, watermark, members)[k],
            ),
    decreases transcript.len(),
{
    if transcript.len() > 0 {
        let rest = transcript.drop_last();
        lemma_live_rows(rest, watermark, members);
        let live = live_of(transcript, watermark, members);
        assert forall|k: int| 0 <= k < live.len() implies transcript.contains(#[trigger] live[k]) by {
            if k < live_of(rest, watermark, members).len() {
                let row = live_of(rest, watermark, members)[k];
                assert(live[k] == row);
                let j = choose|j: int| 0 <= j < rest.len() && rest[j] == row;
                assert(transcript[j] == row);
            } else {
                assert(transcript[transcript.len() - 1] == live[k]);
            }
        }
    }
}

/// The live rows keep what the law asks of the transcript.
proof fn lemma_live_well_named(transcript: Seq<SessionMessage>, watermark: Sequence, members: Seq<Seq<char>>)
    requires
        sequences_name_rows(transcript),
        bodies_fit(transcript),
    ensures
        sequences_name_rows(live_of(transcript, watermark, members)),
        bodies_fit(live_of(transcript, watermark, members)),
{
    let live = live_of(transcript, watermark, members);
    lemma_live_rows(transcript, watermark, members);
    assert forall|i: int, j: int|
        0 <= i < live.len() && 0 <= j < live.len() && (#[trigger] live[i]).sequence == (#[trigger] live[j]).sequence implies live[i]
        == live[j] by {
        assert(transcript.contains(live[i]) && transcript.contains(live[j]));
        let a = choose|a: int| 0 <= a < transcript.len() && transcript[a] == live[i];
        let b = choose|b: int| 0 <= b < transcript.len() && transcript[b] == live[j];
        assert(transcript[a].sequence == transcript[b].sequence);
    }
    assert forall|i: int| 0 <= i < live.len() implies encode_utf8_fits(#[trigger] live[i]) by {
        assert(transcript.contains(live[i]));
        let a = choose|a: int| 0 <= a < transcript.len() && transcript[a] == live[i];
        assert(encode_utf8_fits(transcript[a]));
    }
}

/// Whether one row's body fits, as `bodies_fit` asks of every row.
spec fn encode_utf8_fits(m: SessionMessage) -> bool {
    vstd::utf8::encode_utf8(m.content@).len() <= usize::MAX
}

/// A member is heard in a redelivered list exactly when heard in the list.
proof fn lemma_heard_redelivered(live: Seq<SessionMessage>, m: Seq<char>)
    ensures
        heard(redelivered(live), m) == heard(live, m),
{
    let twice = redelivered(live);
    if heard(live, m) {
        let k = choose|k: int| 0 <= k < live.len() && (#[trigger] live[k]).author.agent_view() == Some(m);
        assert(twice[2 * k] == live[k]);
    }
    if heard(twice, m) {
        let k = choose|k: int| 0 <= k < twice.len() && (#[trigger] twice[k]).author.agent_view() == Some(m);
        assert(twice[k] == live[k / 2]);
    }
}

/// The members still unheard are the same in a redelivered list.
proof fn lemma_unheard_redelivered(live: Seq<SessionMessage>, members: Seq<Seq<char>>)
    ensures
        unheard_of(redelivered(live), members) == unheard_of(live, members),
    decreases members.len(),
{
    if members.len() > 0 {
        lemma_unheard_redelivered(live, members.drop_last());
        lemma_heard_redelivered(live, members.last());
    }
}

/// A decision reads the live rows only through where the round is folded
/// and who is still unheard, and redelivery moves neither.
proof fn lemma_decision_redelivered(
    state: StateView,
    thresholds: Seq<AgentThreshold>,
    live: Seq<SessionMessage>,
    traces: Seq<Trace>,
    members: Seq<Seq<char>>,
    policy: EpisodePolicy,
)
    ensures
        decision(state, thresholds, redelivered(live), traces, members, policy) == decision(
            state,
            thresholds,
            live,
            traces,
            members,
            policy,
        ),
{
    let twice = redelivered(live);
    if live.len() > 0 {
        assert(twice.last() == live[(2 * live.len() - 1) / 2]);
        assert((2 * live.len() - 1) / 2 == live.len() - 1);
    }
    assert(round_at(twice, state.watermark) == round_at(live, state.watermark));
    lemma_unheard_redelivered(live, members);
    assert(visibility_of(policy, twice, members) == visibility_of(policy, live, members));
}

/// An index of `m` holding the deposit `v`, the same one for the same `v`.
spec fn holder(m: Seq<(Sequence, SessionAuthor, Mark)>, v: (Sequence, SessionAuthor, Mark)) -> int {
    choose|i: int| 0 <= i < m.len() && m[i] == v
}

/// The trace of `traces` held for each deposit of `target`.
spec fn gathered(traces: Seq<Trace>, m: Seq<(Sequence, SessionAuthor, Mark)>, target: Seq<(Sequence, SessionAuthor, Mark)>) -> Seq<Trace> {
    Seq::new(target.len(), |j: int| traces[holder(m, target[j])])
}

/// Gathering from traces that say `m`, for deposits all held in `m`, says
/// `target`; and where one address names one deposit of `target`, traces
/// gathered at one address are one trace.
proof fn lemma_gathered(traces: Seq<Trace>, m: Seq<(Sequence, SessionAuthor, Mark)>, target: Seq<(Sequence, SessionAuthor, Mark)>)
    requires
        trace_views(traces) == m,
        forall|j: int| 0 <= j < target.len() ==> m.contains(#[trigger] target[j]),
    ensures
        trace_views(gathered(traces, m, target)) == target,
        addresses_determine(target) ==> addresses_identify(gathered(traces, m, target)),
        forall|j: int|
            0 <= j < target.len() ==> 0 <= #[trigger] holder(m, target[j]) < m.len() && m[holder(m, target[j])]
                == target[j],
{
    let g = gathered(traces, m, target);
    assert forall|j: int| 0 <= j < target.len() implies 0 <= #[trigger] holder(m, target[j]) < m.len() && m[holder(
        m,
        target[j],
    )] == target[j] by {
        assert(m.contains(target[j]));
    }
    assert forall|j: int| 0 <= j < target.len() implies trace_view(#[trigger] g[j]) == target[j] by {
        let i = holder(m, target[j]);
        assert(trace_views(traces)[i] == trace_view(traces[i]));
    }
    assert(trace_views(g) =~= target);
    if addresses_determine(target) {
        assert forall|a: int, b: int|
            0 <= a < g.len() && 0 <= b < g.len() && key(#[trigger] g[a]) == key(#[trigger] g[b]) implies g[a]
            == g[b] by {
            assert(trace_view(g[a]) == target[a] && trace_view(g[b]) == target[b]);
            assert(view_key(target[a]) == key(g[a]));
            assert(view_key(target[b]) == key(g[b]));
        }
    }
}

/// An address names one deposit in any list of deposits drawn from a list in
/// which it does.
proof fn lemma_determine_within(a: Seq<(Sequence, SessionAuthor, Mark)>, b: Seq<(Sequence, SessionAuthor, Mark)>)
    requires
        addresses_determine(a),
        forall|v: (Sequence, SessionAuthor, Mark)| #[trigger] b.contains(v) ==> a.contains(v),
    ensures
        addresses_determine(b),
{
    assert forall|i: int, j: int|
        0 <= i < b.len() && 0 <= j < b.len() && view_key(#[trigger] b[i]) == view_key(#[trigger] b[j]) implies b[i]
        == b[j] by {
        assert(b.contains(b[i]) && b.contains(b[j]));
        let x = choose|x: int| 0 <= x < a.len() && a[x] == b[i];
        let y = choose|y: int| 0 <= y < a.len() && a[y] == b[j];
        assert(view_key(a[x]) == view_key(a[y]));
    }
}

/// What the law needs of the two media: each holds the other's deposits, and
/// in each an address names one deposit.
proof fn lemma_media(live: Seq<SessionMessage>)
    requires
        sequences_name_rows(live),
        bodies_fit(live),
    ensures
        forall|v: (Sequence, SessionAuthor, Mark)|
            #[trigger] medium(redelivered(live)).contains(v) == medium(live).contains(v),
        addresses_determine(medium(live)),
        addresses_determine(medium(redelivered(live))),
{
    let d = crate::trace::deposits_of(live);
    lemma_deposits_determine(live);
    lemma_medium_holds_deposits(live);
    lemma_medium_holds_deposits(redelivered(live));
    lemma_deposits_redelivered(live);
    assert forall|v: (Sequence, SessionAuthor, Mark)|
        #[trigger] medium(redelivered(live)).contains(v) == medium(live).contains(v) by {
        assert(medium(redelivered(live)).contains(v) == crate::trace::deposits_of(redelivered(live)).contains(v));
        assert(medium(live).contains(v) == d.contains(v));
    }
    assert forall|v: (Sequence, SessionAuthor, Mark)| #[trigger] medium(live).contains(v) implies d.contains(v) by {}
    lemma_determine_within(d, medium(live));
    assert forall|v: (Sequence, SessionAuthor, Mark)| #[trigger] medium(redelivered(live)).contains(v) implies d.contains(
        v,
    ) by {
        assert(medium(live).contains(v));
    }
    lemma_determine_within(d, medium(redelivered(live)));
}

/// From traces that say the live medium, traces that say the redelivered
/// medium and decide alike over the redelivered rows.
proof fn lemma_replay_traces(
    state: StateView,
    thresholds: Seq<AgentThreshold>,
    live: Seq<SessionMessage>,
    traces: Seq<Trace>,
    members: Seq<Seq<char>>,
    policy: EpisodePolicy,
) -> (again: Seq<Trace>)
    requires
        sequences_name_rows(live),
        bodies_fit(live),
        trace_views(traces) == medium(live),
        traces.len() <= usize::MAX,
    ensures
        trace_views(again) == medium(redelivered(live)),
        decision(state, thresholds, redelivered(live), again, members, policy) == decision(
            state,
            thresholds,
            live,
            traces,
            members,
            policy,
        ),
{
    let m = medium(live);
    let r = medium(redelivered(live));
    lemma_media(live);
    assert forall|j: int| 0 <= j < m.len() implies m.contains(#[trigger] m[j]) by {}
    assert forall|j: int| 0 <= j < r.len() implies m.contains(#[trigger] r[j]) by {
        assert(r.contains(r[j]));
    }
    let canon = gathered(traces, m, m);
    let again = gathered(traces, m, r);
    lemma_gathered(traces, m, m);
    lemma_gathered(traces, m, r);
    assert(canon.len() == traces.len()) by {
        assert(trace_views(traces).len() == traces.len());
    }
    // Both lists hold the same traces: each is the one held for its deposit.
    assert forall|j: int| 0 <= j < again.len() implies canon.contains(#[trigger] again[j]) by {
        let i = holder(m, r[j]);
        assert(m[i] == r[j]);
        assert(canon[i] == again[j]);
    }
    assert forall|i: int| 0 <= i < canon.len() implies again.contains(#[trigger] canon[i]) by {
        assert(r.contains(m[i]));
        let j = choose|j: int| 0 <= j < r.len() && r[j] == m[i];
        assert(again[j] == canon[i]);
    }
    assert(same_traces(canon, again));
    lemma_decision_alike(state, thresholds, live, canon, traces, members, policy);
    law_decision_reads_a_set(state, thresholds, live, canon, again, members, policy);
    lemma_decision_redelivered(state, thresholds, live, again, members, policy);
    again
}

/// A host that meets every row twice in a row steps exactly as one that met
/// each row once: a transcript and the same transcript with each row
/// redelivered admit exactly the same outcomes, as long as a sequence names
/// one row and a step can fold both.
pub proof fn law_redelivery_does_not_move_the_step(
    result: core::result::Result<StepView, Error>,
    state: StateView,
    thresholds: Seq<AgentThreshold>,
    transcript: Seq<SessionMessage>,
    members: Seq<Seq<char>>,
    policy: EpisodePolicy,
)
    requires
        sequences_name_rows(transcript),
        bodies_fit(transcript),
        super::run::step_accepts(transcript, state.watermark, members),
        super::run::step_accepts(redelivered(transcript), state.watermark, members),
    ensures
        step_outcome(result, state, thresholds, redelivered(transcript), members, policy) == step_outcome(
            result,
            state,
            thresholds,
            transcript,
            members,
            policy,
        ),
{
    if setup_error(state, thresholds, members, policy) is None && state.spent < policy.turn_budget {
        let w = state.watermark;
        let live = live_of(transcript, w, members);
        let twice = redelivered(live);
        lemma_live_redelivered(transcript, w, members);
        lemma_live_well_named(transcript, w, members);
        assert(medium(live).len() <= usize::MAX);
        assert(medium(twice).len() <= usize::MAX);
        if step_outcome(result, state, thresholds, transcript, members, policy) {
            let t = choose|t: Seq<Trace>|
                trace_views(t) == medium(live) && result == decision(state, thresholds, live, t, members, policy);
            assert(trace_views(t).len() == t.len());
            let again = lemma_replay_traces(state, thresholds, live, t, members, policy);
            assert(trace_views(again) == medium(live_of(redelivered(transcript), w, members)));
        }
        if step_outcome(result, state, thresholds, redelivered(transcript), members, policy) {
            let t = choose|t: Seq<Trace>|
                trace_views(t) == medium(twice) && result == decision(state, thresholds, twice, t, members, policy);
            let m = medium(live);
            lemma_media(live);
            assert forall|i: int| 0 <= i < m.len() implies medium(twice).contains(#[trigger] m[i]) by {
                assert(m.contains(m[i]));
            }
            let once = gathered(t, medium(twice), m);
            lemma_gathered(t, medium(twice), m);
            assert(trace_views(once).len() == once.len());
            let again = lemma_replay_traces(state, thresholds, live, once, members, policy);
            assert(trace_views(t).len() == t.len());
            assert(trace_views(again).len() == again.len());
            lemma_decision_alike(state, thresholds, twice, again, t, members, policy);
            assert(trace_views(once) == medium(live_of(transcript, w, members)));
        }
    }
}

} // verus!

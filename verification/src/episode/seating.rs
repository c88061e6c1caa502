//! A round's turns come in the order the members sit at the desk.

use vstd::prelude::*;

use super::spec::{candidates_of, decision, market_of, round_at, unheard_of, visibility_of, width_for};
use super::types::{EpisodePolicy, Phase, StateView, TurnView, Visibility};
use crate::attention::{AgentThreshold, BidView, Market, bids_of, round_of};
use crate::error::Error;
use crate::session::SessionMessage;
use crate::trace::Trace;

verus! {

/// Whether `idx` picks increasing positions below `bound`.
pub open spec fn increasing_below(idx: Seq<int>, bound: int) -> bool {
    &&& forall|j: int| 0 <= j < idx.len() ==> 0 <= #[trigger] idx[j] < bound
    &&& forall|j: int, l: int| 0 <= j < l < idx.len() ==> #[trigger] idx[j] < #[trigger] idx[l]
}

/// Whether `names` are members of the desk, in the order they sit, no seat
/// named twice.
pub open spec fn in_desk_order(names: Seq<Seq<char>>, members: Seq<Seq<char>>) -> bool {
    exists|idx: Seq<int>|
        idx.len() == names.len() && increasing_below(idx, members.len() as int) && forall|j: int|
            0 <= j < names.len() ==> #[trigger] names[j] == members[idx[j]]
}

/// The bids come in member order.
proof fn lemma_bids_in_order(k: Market, n: int) -> (idx: Seq<int>)
    requires
        n <= k.members.len(),
    ensures
        idx.len() == bids_of(k, n).len(),
        increasing_below(idx, if n < 0 { 0 } else { n }),
        forall|j: int| 0 <= j < idx.len() ==> (#[trigger] bids_of(k, n)[j]).agent == k.members[idx[j]],
    decreases n,
{
    if n <= 0 {
        Seq::empty()
    } else {
        let idx = lemma_bids_in_order(k, n - 1);
        let earlier = bids_of(k, n - 1);
        let all = bids_of(k, n);
        if all.len() == earlier.len() {
            assert(all == earlier);
            idx
        } else {
            let grown = idx.push(n - 1);
            assert forall|j: int| 0 <= j < grown.len() implies (#[trigger] all[j]).agent == k.members[grown[j]] by {
                if j < idx.len() {
                    assert(all[j] == earlier[j]);
                }
            }
            grown
        }
    }
}

/// The candidates of a round keep the order of the bids.
proof fn lemma_candidates_in_order(bids: Seq<BidView>, concurrent_blind: bool, unheard: Seq<Seq<char>>) -> (idx: Seq<int>)
    ensures
        idx.len() == candidates_of(bids, concurrent_blind, unheard).len(),
        increasing_below(idx, bids.len() as int),
        forall|j: int|
            0 <= j < idx.len() ==> #[trigger] candidates_of(bids, concurrent_blind, unheard)[j] == bids[idx[j]],
    decreases bids.len(),
{
    if bids.len() == 0 {
        Seq::empty()
    } else {
        let rest = bids.drop_last();
        let idx = lemma_candidates_in_order(rest, concurrent_blind, unheard);
        let earlier = candidates_of(rest, concurrent_blind, unheard);
        let all = candidates_of(bids, concurrent_blind, unheard);
        if all.len() == earlier.len() {
            assert(all == earlier);
            assert forall|j: int| 0 <= j < idx.len() implies #[trigger] all[j] == bids[idx[j]] by {
                assert(rest[idx[j]] == bids[idx[j]]);
            }
            idx
        } else {
            let grown = idx.push(bids.len() - 1);
            assert forall|j: int| 0 <= j < grown.len() implies #[trigger] all[j] == bids[grown[j]] by {
                if j < idx.len() {
                    assert(all[j] == earlier[j]);
                    assert(rest[idx[j]] == bids[idx[j]]);
                }
            }
            grown
        }
    }
}

/// A round keeps the order of the bids it picks from.
proof fn lemma_round_in_order(s: Seq<BidView>, width: int, n: int) -> (idx: Seq<int>)
    requires
        n <= s.len(),
    ensures
        idx.len() == round_of(s, width, n).len(),
        increasing_below(idx, if n < 0 { 0 } else { n }),
        forall|j: int| 0 <= j < idx.len() ==> #[trigger] round_of(s, width, n)[j] == s[idx[j]],
    decreases n,
{
    if n <= 0 {
        Seq::empty()
    } else {
        let idx = lemma_round_in_order(s, width, n - 1);
        let earlier = round_of(s, width, n - 1);
        let all = round_of(s, width, n);
        if all.len() == earlier.len() {
            assert(all == earlier);
            idx
        } else {
            let grown = idx.push(n - 1);
            assert forall|j: int| 0 <= j < grown.len() implies #[trigger] all[j] == s[grown[j]] by {
                if j < idx.len() {
                    assert(all[j] == earlier[j]);
                }
            }
            grown
        }
    }
}

/// A round's turns come in desk order: they name members of the desk, no
/// seat twice, in the order `members` lists them.
pub proof fn law_round_in_desk_order(
    state: StateView,
    thresholds: Seq<AgentThreshold>,
    live: Seq<SessionMessage>,
    traces: Seq<Trace>,
    members: Seq<Seq<char>>,
    policy: EpisodePolicy,
)
    requires
        decision(state, thresholds, live, traces, members, policy) is Ok,
        decision(state, thresholds, live, traces, members, policy)->Ok_0 is Speak,
    ensures
        in_desk_order(
            decision(state, thresholds, live, traces, members, policy)->Ok_0->Speak_turns.map_values(
                |t: TurnView| t.agent,
            ),
            members,
        ),
{
    let step = decision(state, thresholds, live, traces, members, policy)->Ok_0;
    let at = round_at(live, state.watermark);
    let st = crate::quorum::standings_spec(traces, at, policy.quorum);
    let carried = crate::quorum::carried_topics(st, policy.quorum);
    let k = market_of(traces, st, members, thresholds, at, policy);
    let bids = bids_of(k, members.len() as int);
    let phase = if carried.len() == 1 {
        Phase::Commit
    } else {
        state.phase
    };
    let visibility = visibility_of(policy, live, members);
    let unheard = unheard_of(live, members);
    let concurrent_blind = visibility == Visibility::Blind && policy.round_width > 1;
    let pool = candidates_of(bids, concurrent_blind, unheard);
    let width = width_for(policy, phase, visibility, unheard.len() as int, state.spent);
    let speaking = round_of(pool, width, pool.len() as int);
    let names = step->Speak_turns.map_values(|t: TurnView| t.agent);
    assert(names.len() == speaking.len());
    let a = lemma_bids_in_order(k, members.len() as int);
    let b = lemma_candidates_in_order(bids, concurrent_blind, unheard);
    let c = lemma_round_in_order(pool, width, pool.len() as int);
    let idx = Seq::new(c.len(), |j: int| a[b[c[j]]]);
    assert forall|j: int| 0 <= j < names.len() implies #[trigger] names[j] == members[idx[j]] by {
        assert(speaking[j] == pool[c[j]]);
        assert(pool[c[j]] == bids[b[c[j]]]);
        assert(bids[b[c[j]]].agent == members[a[b[c[j]]]]);
    }
    assert forall|j: int, l: int| 0 <= j < l < idx.len() implies #[trigger] idx[j] < #[trigger] idx[l] by {
        assert(c[j] < c[l]);
        assert(b[c[j]] < b[c[l]]);
    }
    assert forall|j: int| 0 <= j < idx.len() implies 0 <= #[trigger] idx[j] < members.len() by {
        assert(0 <= c[j] < pool.len());
        assert(0 <= b[c[j]] < bids.len());
    }
    assert(idx.len() == names.len());
    assert(increasing_below(idx, members.len() as int));
    assert(in_desk_order(names, members));
}

} // verus!

//! What holds of every fold, whatever the medium.

use vstd::prelude::*;

use super::spec::{counted, counted_in, counts, hits, objects, standing_of, standings_of};
use super::standings_spec;
use super::types::QuorumPolicy;
use crate::session::Sequence;
use crate::trace::Trace;
use crate::window::{addresses_identify, lemma_window_redelivered, lemma_window_same_medium, same_traces};

verus! {

/// Quorum is order-independent: two transcripts holding the same traces, in
/// any order and however often, fold to the same standings, as long as no two
/// different traces share an address.
pub proof fn law_standings_order_independent(
    a: Seq<Trace>,
    b: Seq<Trace>,
    at: Sequence,
    policy: QuorumPolicy,
)
    requires
        same_traces(a, b),
        addresses_identify(a),
        addresses_identify(b),
        a.len() <= usize::MAX,
    ensures
        standings_spec(a, at, policy) == standings_spec(b, at, policy),
{
    lemma_window_same_medium(a, b, at.0, policy.window);
}

/// Quorum is idempotent: folding traces that were already folded leaves
/// every standing as it was, so a participant that catches up late lands
/// where one that watched live did.
pub proof fn law_standings_idempotent(
    traces: Seq<Trace>,
    redelivered: Seq<Trace>,
    at: Sequence,
    policy: QuorumPolicy,
)
    requires
        forall|j: int| 0 <= j < redelivered.len() ==> traces.contains(#[trigger] redelivered[j]),
        traces.len() <= usize::MAX,
    ensures
        standings_spec(traces + redelivered, at, policy) == standings_spec(traces, at, policy),
{
    lemma_window_redelivered(traces, redelivered, at.0, policy.window);
}

/// Two policies that ask for grounds alike and for evidence alike count
/// the same traces.
proof fn lemma_counted_alike(live: Seq<Trace>, p: QuorumPolicy, q: QuorumPolicy, s: Seq<Trace>)
    requires
        p.require_grounded || p.require_evidential <==> q.require_grounded || q.require_evidential,
        p.require_evidential == q.require_evidential,
    ensures
        counted_in(live, p, s) == counted_in(live, q, s),
    decreases s.len(),
{
    if s.len() > 0 {
        lemma_counted_alike(live, p, q, s.drop_last());
        assert(counts(live, p, s.last()) == counts(live, q, s.last()));
    }
}

/// The same two policies strike the same advocates.
proof fn lemma_hits_alike(live: Seq<Trace>, p: QuorumPolicy, q: QuorumPolicy, s: Seq<Trace>, topic: Seq<char>)
    requires
        p.require_grounded || p.require_evidential <==> q.require_grounded || q.require_evidential,
        p.require_evidential == q.require_evidential,
    ensures
        hits(live, p, s, topic) == hits(live, q, s, topic),
    decreases s.len(),
{
    if s.len() > 0 {
        lemma_hits_alike(live, p, q, s.drop_last(), topic);
        lemma_counted_alike(live, p, q, live);
        assert(objects(live, p, s.last()) == objects(live, q, s.last()));
    }
}

/// Requiring evidential grounds implies requiring grounds at all: with
/// `require_evidential` set, whether `require_grounded` is also set changes
/// no standing.
pub proof fn law_evidential_implies_grounded(traces: Seq<Trace>, at: Sequence, policy: QuorumPolicy)
    requires
        policy.require_evidential,
    ensures
        standings_spec(traces, at, QuorumPolicy { require_grounded: false, ..policy }) == standings_spec(
            traces,
            at,
            QuorumPolicy { require_grounded: true, ..policy },
        ),
{
    let p = QuorumPolicy { require_grounded: false, ..policy };
    let q = QuorumPolicy { require_grounded: true, ..policy };
    let live = super::window_of(traces, at.0, policy.window);
    lemma_counted_alike(live, p, q, live);
    assert(counted(live, p) == counted(live, q));
    assert forall|topic: Seq<char>| #[trigger] standing_of(live, p, topic) == standing_of(live, q, topic) by {
        lemma_hits_alike(live, p, q, live, topic);
    }
    assert(standings_of(live, p) =~= standings_of(live, q));
}

} // verus!

//! What the standings of a window are, stated over the window's traces.

use vstd::prelude::*;

use super::types::{QuorumPolicy, StandingView};
use crate::names::distinct;
use crate::salience::importance_of;
use crate::session::Sequence;
use crate::trace::{Trace, TraceKind};

verus! {

/// The agent who wrote a trace, as characters (empty when no agent did).
pub open spec fn agent_of(t: Trace) -> Seq<char> {
    match t.agent() {
        Some(a) => a,
        None => Seq::empty(),
    }
}

/// The topic a trace names, as characters (empty when it names none).
pub open spec fn topic_of(t: Trace) -> Seq<char> {
    match t.topic_name() {
        Some(n) => n,
        None => Seq::empty(),
    }
}

/// The agents behind a sequence of traces, in order.
pub open spec fn agents(s: Seq<Trace>) -> Seq<Seq<char>> {
    s.map_values(|t: Trace| agent_of(t))
}

/// The topics a sequence of traces names, in order.
pub open spec fn topics(s: Seq<Trace>) -> Seq<Seq<char>> {
    s.map_values(|t: Trace| topic_of(t))
}

/// Whether a trace backs a topic on its author's behalf.
pub open spec fn advocates(t: Trace) -> bool {
    (t.kind == TraceKind::Propose || t.kind == TraceKind::Support) && t.topic is Some
        && t.agent() is Some
}

/// Whether support must cite something at all.
pub open spec fn grounds_required(policy: QuorumPolicy) -> bool {
    policy.require_grounded || policy.require_evidential
}

/// Whether a trace is a grounded refutation by an agent of a named topic.
pub open spec fn refutes(t: Trace) -> bool {
    t.kind == TraceKind::Refute && t.is_grounded() && t.agent() is Some && t.topic is Some
}

/// Whether `agent` refuted `topic` somewhere in the window.
pub open spec fn refuted_by_member(live: Seq<Trace>, agent: Seq<char>, topic: Seq<char>) -> bool {
    exists|i: int|
        0 <= i < live.len() && refutes(#[trigger] live[i]) && agent_of(live[i]) == agent
            && topic_of(live[i]) == topic
}

/// Whether some trace at row `q` of the window cites row `x`.
pub open spec fn cites_at(live: Seq<Trace>, q: u64, x: u64) -> bool {
    exists|i: int|
        0 <= i < live.len() && (#[trigger] live[i]).sequence.0 == q && live[i].cites@.contains(
            Sequence(x),
        )
}

/// Whether some trace at row `q` of the window states a fact.
pub open spec fn evidence_at(live: Seq<Trace>, q: u64) -> bool {
    exists|i: int|
        0 <= i < live.len() && (#[trigger] live[i]).sequence.0 == q && live[i].kind
            == TraceKind::Evidence
}

/// Whether `path` is a citation chain through the window starting from one
/// of `start`.
pub open spec fn is_chain(live: Seq<Trace>, start: Seq<Sequence>, path: Seq<u64>) -> bool {
    &&& path.len() > 0
    &&& start.contains(Sequence(path[0]))
    &&& forall|i: int| 0 <= i < path.len() - 1 ==> cites_at(live, #[trigger] path[i], path[i + 1])
}

/// Whether row `q` is reachable from `start` by citations inside the window.
pub open spec fn reachable(live: Seq<Trace>, start: Seq<Sequence>, q: u64) -> bool {
    exists|path: Seq<u64>| is_chain(live, start, path) && path.last() == q
}

/// Whether a trace's citation chain, followed only inside the window, reaches
/// a stated fact.
pub open spec fn reaches_evidence(live: Seq<Trace>, t: Trace) -> bool {
    exists|q: u64| reachable(live, t.cites@, q) && evidence_at(live, q)
}

/// Whether a trace adds its author to a topic's supporters.
pub open spec fn counts(live: Seq<Trace>, policy: QuorumPolicy, t: Trace) -> bool {
    &&& advocates(t)
    &&& !(grounds_required(policy) && t.kind == TraceKind::Support && !t.is_grounded())
    &&& !(policy.require_evidential && t.kind == TraceKind::Support && !reaches_evidence(live, t))
    &&& !refuted_by_member(live, agent_of(t), topic_of(t))
}

/// The traces of `s` that count as support, in order.
pub open spec fn counted_in(live: Seq<Trace>, policy: QuorumPolicy, s: Seq<Trace>) -> Seq<Trace>
    decreases s.len(),
{
    if s.len() == 0 {
        Seq::empty()
    } else {
        let earlier = counted_in(live, policy, s.drop_last());
        if counts(live, policy, s.last()) {
            earlier.push(s.last())
        } else {
            earlier
        }
    }
}

/// The window's supporting traces, in order.
pub open spec fn counted(live: Seq<Trace>, policy: QuorumPolicy) -> Seq<Trace> {
    counted_in(live, policy, live)
}

/// The traces of `s` naming `topic`, in order.
pub open spec fn on_topic(s: Seq<Trace>, topic: Seq<char>) -> Seq<Trace>
    decreases s.len(),
{
    if s.len() == 0 {
        Seq::empty()
    } else {
        let earlier = on_topic(s.drop_last(), topic);
        if s.last().topic_name() == Some(topic) {
            earlier.push(s.last())
        } else {
            earlier
        }
    }
}

/// Whether an agent deposited a fact in the window.
pub open spec fn evidenced(live: Seq<Trace>, agent: Seq<char>) -> bool {
    exists|i: int|
        0 <= i < live.len() && (#[trigger] live[i]).kind == TraceKind::Evidence && live[i].agent()
            == Some(agent)
}

/// Whether a trace is an objection the policy lets silence anybody.
pub open spec fn objects(live: Seq<Trace>, policy: QuorumPolicy, o: Trace) -> bool {
    &&& o.kind == TraceKind::Object
    &&& !(grounds_required(policy) && !o.is_grounded())
    &&& !(policy.require_evidential && !(o.agent() is Some && evidenced(live, agent_of(o))))
    &&& o.target is Some
}

/// The supporting traces of `s` an objection strikes on `topic`: those in the
/// row it targets, naming the topic, by someone other than the objector.
pub open spec fn struck(s: Seq<Trace>, o: Trace, topic: Seq<char>) -> Seq<Trace>
    decreases s.len(),
{
    if s.len() == 0 {
        Seq::empty()
    } else {
        let earlier = struck(s.drop_last(), o, topic);
        let c = s.last();
        if Some(c.sequence) == o.target && c.topic_name() == Some(topic) && c.agent() != o.agent() {
            earlier.push(c)
        } else {
            earlier
        }
    }
}

/// Every advocate the objections among `s` strike on `topic`, objection by
/// objection, in order.
pub open spec fn hits(
    live: Seq<Trace>,
    policy: QuorumPolicy,
    s: Seq<Trace>,
    topic: Seq<char>,
) -> Seq<Seq<char>>
    decreases s.len(),
{
    if s.len() == 0 {
        Seq::empty()
    } else {
        let earlier = hits(live, policy, s.drop_last(), topic);
        if objects(live, policy, s.last()) {
            earlier + agents(struck(counted(live, policy), s.last(), topic))
        } else {
            earlier
        }
    }
}

/// The grounded refutations among `s` of `topic`, in order.
pub open spec fn refuting(s: Seq<Trace>, topic: Seq<char>) -> Seq<Trace>
    decreases s.len(),
{
    if s.len() == 0 {
        Seq::empty()
    } else {
        let earlier = refuting(s.drop_last(), topic);
        if refutes(s.last()) && s.last().topic_name() == Some(topic) {
            earlier.push(s.last())
        } else {
            earlier
        }
    }
}

/// The names of `s` that `out` does not hold, in order.
pub open spec fn without(s: Seq<Seq<char>>, out: Seq<Seq<char>>) -> Seq<Seq<char>>
    decreases s.len(),
{
    if s.len() == 0 {
        Seq::empty()
    } else {
        let earlier = without(s.drop_last(), out);
        if out.contains(s.last()) {
            earlier
        } else {
            earlier.push(s.last())
        }
    }
}

/// The importance of the traces of `s` whose author `out` does not hold.
pub open spec fn weight_of(s: Seq<Trace>, out: Seq<Seq<char>>) -> int
    decreases s.len(),
{
    if s.len() == 0 {
        0
    } else {
        weight_of(s.drop_last(), out) + if out.contains(agent_of(s.last())) {
            0
        } else {
            importance_of(s.last().kind)
        }
    }
}

/// The topics some counted trace advocates, in first-advocacy order.
pub open spec fn topic_order(live: Seq<Trace>, policy: QuorumPolicy) -> Seq<Seq<char>> {
    distinct(topics(counted(live, policy)))
}

/// Advocates an objection silenced on `topic`, in first-silenced order.
pub open spec fn silenced_on(live: Seq<Trace>, policy: QuorumPolicy, topic: Seq<char>) -> Seq<
    Seq<char>,
> {
    distinct(hits(live, policy, live, topic))
}

/// Where `topic` stands in the window.
pub open spec fn standing_of(live: Seq<Trace>, policy: QuorumPolicy, topic: Seq<char>) -> StandingView {
    let backing = on_topic(counted(live, policy), topic);
    let silenced = silenced_on(live, policy, topic);
    StandingView {
        topic,
        supporters: without(distinct(agents(backing)), silenced),
        silenced,
        refuted_by: distinct(agents(refuting(live, topic))),
        support: weight_of(backing, silenced),
    }
}

/// One standing per advocated topic, in first-advocacy order.
pub open spec fn standings_of(live: Seq<Trace>, policy: QuorumPolicy) -> Seq<StandingView> {
    topic_order(live, policy).map_values(|topic: Seq<char>| standing_of(live, policy, topic))
}

/// The topics of `s` that carry, in order.
pub open spec fn carried_topics(s: Seq<StandingView>, policy: QuorumPolicy) -> Seq<Seq<char>>
    decreases s.len(),
{
    if s.len() == 0 {
        Seq::empty()
    } else {
        let earlier = carried_topics(s.drop_last(), policy);
        if super::types::carries(s.last(), policy) {
            earlier.push(s.last().topic)
        } else {
            earlier
        }
    }
}

/// One more trace extends the traces naming a topic by it, when it names it.
pub proof fn lemma_on_topic_step(s: Seq<Trace>, i: int, topic: Seq<char>)
    requires
        0 <= i < s.len(),
    ensures
        on_topic(s.take(i + 1), topic) == (if s[i].topic_name() == Some(topic) {
            on_topic(s.take(i), topic).push(s[i])
        } else {
            on_topic(s.take(i), topic)
        }),
{
    assert(s.take(i + 1).drop_last() =~= s.take(i));
}

/// One more trace extends the struck advocates by it, when it is struck.
pub proof fn lemma_struck_step(s: Seq<Trace>, i: int, o: Trace, topic: Seq<char>)
    requires
        0 <= i < s.len(),
    ensures
        struck(s.take(i + 1), o, topic) == (if Some(s[i].sequence) == o.target && s[i].topic_name()
            == Some(topic) && s[i].agent() != o.agent() {
            struck(s.take(i), o, topic).push(s[i])
        } else {
            struck(s.take(i), o, topic)
        }),
{
    assert(s.take(i + 1).drop_last() =~= s.take(i));
}

/// One more trace extends the refutations of a topic by it, when it is one.
pub proof fn lemma_refuting_step(s: Seq<Trace>, i: int, topic: Seq<char>)
    requires
        0 <= i < s.len(),
    ensures
        refuting(s.take(i + 1), topic) == (if refutes(s[i]) && s[i].topic_name() == Some(topic) {
            refuting(s.take(i), topic).push(s[i])
        } else {
            refuting(s.take(i), topic)
        }),
{
    assert(s.take(i + 1).drop_last() =~= s.take(i));
}

/// One more trace extends the counted traces by it, when it counts.
pub proof fn lemma_counted_step(live: Seq<Trace>, policy: QuorumPolicy, s: Seq<Trace>, i: int)
    requires
        0 <= i < s.len(),
    ensures
        counted_in(live, policy, s.take(i + 1)) == (if counts(live, policy, s[i]) {
            counted_in(live, policy, s.take(i)).push(s[i])
        } else {
            counted_in(live, policy, s.take(i))
        }),
{
    assert(s.take(i + 1).drop_last() =~= s.take(i));
}

/// One more trace extends the objections' hits by what it strikes, when it
/// objects.
pub proof fn lemma_hits_step(live: Seq<Trace>, policy: QuorumPolicy, s: Seq<Trace>, i: int, topic: Seq<char>)
    requires
        0 <= i < s.len(),
    ensures
        hits(live, policy, s.take(i + 1), topic) == (if objects(live, policy, s[i]) {
            hits(live, policy, s.take(i), topic) + agents(struck(counted(live, policy), s[i], topic))
        } else {
            hits(live, policy, s.take(i), topic)
        }),
{
    assert(s.take(i + 1).drop_last() =~= s.take(i));
}

/// One more trace adds its importance to the weight, unless its author is out.
pub proof fn lemma_weight_step(s: Seq<Trace>, t: Trace, out: Seq<Seq<char>>)
    ensures
        weight_of(s.push(t), out) == weight_of(s, out) + if out.contains(agent_of(t)) {
            0
        } else {
            importance_of(t.kind)
        },
{
    assert(s.push(t).drop_last() =~= s);
}

/// The agents of a sequence with one more trace.
pub proof fn lemma_agents_push(s: Seq<Trace>, t: Trace)
    ensures
        agents(s.push(t)) == agents(s).push(agent_of(t)),
{
    assert(agents(s.push(t)) =~= agents(s).push(agent_of(t)));
}

} // verus!

//! Standings depend on what the traces say, not on how each is held: two
//! lists that say the same things in the same order fold alike.

use vstd::prelude::*;

use super::spec::{
    agent_of, agents, cites_at, counted, counted_in, counts, evidence_at, evidenced, hits, is_chain, objects,
    on_topic, reachable, reaches_evidence, refuted_by_member, refutes, refuting, standing_of, standings_of, struck,
    topic_order, topics, weight_of,
};
use super::standings_spec;
use super::types::QuorumPolicy;
use crate::session::Sequence;
use crate::trace::{Trace, TraceKind, alike, lemma_alike_at, lemma_view_fields, trace_view, trace_views};
use crate::window::{lemma_window_alike, window_of};

verus! {

/// Alike lists agree on every per-row question the standings ask.
proof fn lemma_live_alike(l1: Seq<Trace>, l2: Seq<Trace>)
    requires
        alike(l1, l2),
    ensures
        l1.len() == l2.len(),
        forall|a: Seq<char>, tp: Seq<char>| #[trigger] refuted_by_member(l1, a, tp) == refuted_by_member(l2, a, tp),
        forall|q: u64, x: u64| #[trigger] cites_at(l1, q, x) == cites_at(l2, q, x),
        forall|q: u64| #[trigger] evidence_at(l1, q) == evidence_at(l2, q),
        forall|a: Seq<char>| #[trigger] evidenced(l1, a) == evidenced(l2, a),
{
    assert(trace_views(l1).len() == trace_views(l2).len());
    assert forall|i: int| 0 <= i < l1.len() implies trace_view(#[trigger] l1[i]) == trace_view(l2[i]) by {
        lemma_alike_at(l1, l2, i);
    }
    assert forall|i: int| 0 <= i < l1.len() implies (#[trigger] l1[i]).sequence == l2[i].sequence && l1[i].kind
        == l2[i].kind && l1[i].cites@ == l2[i].cites@ && refutes(l1[i]) == refutes(l2[i]) && agent_of(l1[i])
        == agent_of(l2[i]) && l1[i].topic_name() == l2[i].topic_name() && l1[i].agent() == l2[i].agent()
        && super::spec::topic_of(l1[i]) == super::spec::topic_of(l2[i]) by {
        lemma_view_fields(l1[i], l2[i]);
    }
    assert forall|a: Seq<char>, tp: Seq<char>| #[trigger] refuted_by_member(l1, a, tp) == refuted_by_member(l2, a, tp) by {
        if refuted_by_member(l1, a, tp) {
            let i = choose|i: int|
                0 <= i < l1.len() && refutes(#[trigger] l1[i]) && agent_of(l1[i]) == a && super::spec::topic_of(l1[i])
                    == tp;
            assert(refutes(l2[i]) && agent_of(l2[i]) == a && super::spec::topic_of(l2[i]) == tp);
        }
        if refuted_by_member(l2, a, tp) {
            let i = choose|i: int|
                0 <= i < l2.len() && refutes(#[trigger] l2[i]) && agent_of(l2[i]) == a && super::spec::topic_of(l2[i])
                    == tp;
            assert(refutes(l1[i]) && agent_of(l1[i]) == a && super::spec::topic_of(l1[i]) == tp);
        }
    }
    assert forall|q: u64, x: u64| #[trigger] cites_at(l1, q, x) == cites_at(l2, q, x) by {
        if cites_at(l1, q, x) {
            let i = choose|i: int| 0 <= i < l1.len() && (#[trigger] l1[i]).sequence.0 == q && l1[i].cites@.contains(Sequence(x));
            assert(l2[i].sequence.0 == q && l2[i].cites@.contains(Sequence(x)));
        }
        if cites_at(l2, q, x) {
            let i = choose|i: int| 0 <= i < l2.len() && (#[trigger] l2[i]).sequence.0 == q && l2[i].cites@.contains(Sequence(x));
            assert(l1[i].sequence.0 == q && l1[i].cites@.contains(Sequence(x)));
        }
    }
    assert forall|q: u64| #[trigger] evidence_at(l1, q) == evidence_at(l2, q) by {
        if evidence_at(l1, q) {
            let i = choose|i: int| 0 <= i < l1.len() && (#[trigger] l1[i]).sequence.0 == q && l1[i].kind == TraceKind::Evidence;
            assert(l2[i].sequence.0 == q && l2[i].kind == TraceKind::Evidence);
        }
        if evidence_at(l2, q) {
            let i = choose|i: int| 0 <= i < l2.len() && (#[trigger] l2[i]).sequence.0 == q && l2[i].kind == TraceKind::Evidence;
            assert(l1[i].sequence.0 == q && l1[i].kind == TraceKind::Evidence);
        }
    }
    assert forall|a: Seq<char>| #[trigger] evidenced(l1, a) == evidenced(l2, a) by {
        if evidenced(l1, a) {
            let i = choose|i: int| 0 <= i < l1.len() && (#[trigger] l1[i]).kind == TraceKind::Evidence && l1[i].agent() == Some(a);
            assert(l2[i].kind == TraceKind::Evidence && l2[i].agent() == Some(a));
        }
        if evidenced(l2, a) {
            let i = choose|i: int| 0 <= i < l2.len() && (#[trigger] l2[i]).kind == TraceKind::Evidence && l2[i].agent() == Some(a);
            assert(l1[i].kind == TraceKind::Evidence && l1[i].agent() == Some(a));
        }
    }
}

/// Alike lists reach the same facts from the same citations.
proof fn lemma_reaches_alike(l1: Seq<Trace>, l2: Seq<Trace>, t1: Trace, t2: Trace)
    requires
        alike(l1, l2),
        trace_view(t1) == trace_view(t2),
    ensures
        reaches_evidence(l1, t1) == reaches_evidence(l2, t2),
{
    lemma_live_alike(l1, l2);
    lemma_view_fields(t1, t2);
    assert forall|start: Seq<Sequence>, path: Seq<u64>| #[trigger] is_chain(l1, start, path) == is_chain(l2, start, path) by {
        if is_chain(l1, start, path) {
            assert forall|i: int| 0 <= i < path.len() - 1 implies cites_at(l2, #[trigger] path[i], path[i + 1]) by {
                assert(cites_at(l1, path[i], path[i + 1]));
            }
        }
        if is_chain(l2, start, path) {
            assert forall|i: int| 0 <= i < path.len() - 1 implies cites_at(l1, #[trigger] path[i], path[i + 1]) by {
                assert(cites_at(l2, path[i], path[i + 1]));
            }
        }
    }
    assert forall|q: u64| #[trigger] reachable(l1, t1.cites@, q) == reachable(l2, t2.cites@, q) by {
        if reachable(l1, t1.cites@, q) {
            let path = choose|path: Seq<u64>| is_chain(l1, t1.cites@, path) && path.last() == q;
            assert(is_chain(l2, t2.cites@, path));
        }
        if reachable(l2, t2.cites@, q) {
            let path = choose|path: Seq<u64>| is_chain(l2, t2.cites@, path) && path.last() == q;
            assert(is_chain(l1, t1.cites@, path));
        }
    }
    if reaches_evidence(l1, t1) {
        let q = choose|q: u64| reachable(l1, t1.cites@, q) && evidence_at(l1, q);
        assert(reachable(l2, t2.cites@, q) && evidence_at(l2, q));
    }
    if reaches_evidence(l2, t2) {
        let q = choose|q: u64| reachable(l2, t2.cites@, q) && evidence_at(l2, q);
        assert(reachable(l1, t1.cites@, q) && evidence_at(l1, q));
    }
}

/// A trace counts, or objects, alike in alike lists.
proof fn lemma_counts_alike(l1: Seq<Trace>, l2: Seq<Trace>, p: QuorumPolicy, t1: Trace, t2: Trace)
    requires
        alike(l1, l2),
        trace_view(t1) == trace_view(t2),
    ensures
        counts(l1, p, t1) == counts(l2, p, t2),
        objects(l1, p, t1) == objects(l2, p, t2),
{
    lemma_live_alike(l1, l2);
    lemma_view_fields(t1, t2);
    lemma_reaches_alike(l1, l2, t1, t2);
    assert(agent_of(t1) == agent_of(t2));
}

/// The support counted in alike lists is alike.
proof fn lemma_counted_alike(l1: Seq<Trace>, l2: Seq<Trace>, p: QuorumPolicy, s1: Seq<Trace>, s2: Seq<Trace>)
    requires
        alike(l1, l2),
        alike(s1, s2),
    ensures
        alike(counted_in(l1, p, s1), counted_in(l2, p, s2)),
    decreases s1.len(),
{
    assert(trace_views(s1).len() == trace_views(s2).len());
    if s1.len() > 0 {
        assert(trace_views(s1.drop_last()) =~= trace_views(s1).drop_last());
        assert(trace_views(s2.drop_last()) =~= trace_views(s2).drop_last());
        lemma_counted_alike(l1, l2, p, s1.drop_last(), s2.drop_last());
        lemma_alike_at(s1, s2, s1.len() - 1);
        lemma_counts_alike(l1, l2, p, s1.last(), s2.last());
        let e1 = counted_in(l1, p, s1.drop_last());
        let e2 = counted_in(l2, p, s2.drop_last());
        assert(trace_views(e1.push(s1.last())) =~= trace_views(e1).push(trace_view(s1.last())));
        assert(trace_views(e2.push(s2.last())) =~= trace_views(e2).push(trace_view(s2.last())));
    }
}

/// The traces naming a topic in alike lists are alike.
proof fn lemma_on_topic_alike(s1: Seq<Trace>, s2: Seq<Trace>, tp: Seq<char>)
    requires
        alike(s1, s2),
    ensures
        alike(on_topic(s1, tp), on_topic(s2, tp)),
    decreases s1.len(),
{
    assert(trace_views(s1).len() == trace_views(s2).len());
    if s1.len() > 0 {
        assert(trace_views(s1.drop_last()) =~= trace_views(s1).drop_last());
        assert(trace_views(s2.drop_last()) =~= trace_views(s2).drop_last());
        lemma_on_topic_alike(s1.drop_last(), s2.drop_last(), tp);
        lemma_alike_at(s1, s2, s1.len() - 1);
        lemma_view_fields(s1.last(), s2.last());
        let e1 = on_topic(s1.drop_last(), tp);
        let e2 = on_topic(s2.drop_last(), tp);
        assert(trace_views(e1.push(s1.last())) =~= trace_views(e1).push(trace_view(s1.last())));
        assert(trace_views(e2.push(s2.last())) =~= trace_views(e2).push(trace_view(s2.last())));
    }
}

/// The grounded refutations in alike lists are alike.
proof fn lemma_refuting_alike(s1: Seq<Trace>, s2: Seq<Trace>, tp: Seq<char>)
    requires
        alike(s1, s2),
    ensures
        alike(refuting(s1, tp), refuting(s2, tp)),
    decreases s1.len(),
{
    assert(trace_views(s1).len() == trace_views(s2).len());
    if s1.len() > 0 {
        assert(trace_views(s1.drop_last()) =~= trace_views(s1).drop_last());
        assert(trace_views(s2.drop_last()) =~= trace_views(s2).drop_last());
        lemma_refuting_alike(s1.drop_last(), s2.drop_last(), tp);
        lemma_alike_at(s1, s2, s1.len() - 1);
        lemma_view_fields(s1.last(), s2.last());
        let e1 = refuting(s1.drop_last(), tp);
        let e2 = refuting(s2.drop_last(), tp);
        assert(trace_views(e1.push(s1.last())) =~= trace_views(e1).push(trace_view(s1.last())));
        assert(trace_views(e2.push(s2.last())) =~= trace_views(e2).push(trace_view(s2.last())));
    }
}

/// The advocates one objection strikes in alike lists are alike.
proof fn lemma_struck_alike(s1: Seq<Trace>, s2: Seq<Trace>, o1: Trace, o2: Trace, tp: Seq<char>)
    requires
        alike(s1, s2),
        trace_view(o1) == trace_view(o2),
    ensures
        alike(struck(s1, o1, tp), struck(s2, o2, tp)),
    decreases s1.len(),
{
    assert(trace_views(s1).len() == trace_views(s2).len());
    lemma_view_fields(o1, o2);
    if s1.len() > 0 {
        assert(trace_views(s1.drop_last()) =~= trace_views(s1).drop_last());
        assert(trace_views(s2.drop_last()) =~= trace_views(s2).drop_last());
        lemma_struck_alike(s1.drop_last(), s2.drop_last(), o1, o2, tp);
        lemma_alike_at(s1, s2, s1.len() - 1);
        lemma_view_fields(s1.last(), s2.last());
        let e1 = struck(s1.drop_last(), o1, tp);
        let e2 = struck(s2.drop_last(), o2, tp);
        assert(trace_views(e1.push(s1.last())) =~= trace_views(e1).push(trace_view(s1.last())));
        assert(trace_views(e2.push(s2.last())) =~= trace_views(e2).push(trace_view(s2.last())));
    }
}

/// Alike lists name the same agents and topics, and weigh the same.
proof fn lemma_names_alike(s1: Seq<Trace>, s2: Seq<Trace>, out: Seq<Seq<char>>)
    requires
        alike(s1, s2),
    ensures
        agents(s1) == agents(s2),
        topics(s1) == topics(s2),
        weight_of(s1, out) == weight_of(s2, out),
    decreases s1.len(),
{
    assert(trace_views(s1).len() == trace_views(s2).len());
    assert forall|i: int| 0 <= i < s1.len() implies agents(s1)[i] == agents(s2)[i] && topics(s1)[i] == topics(s2)[i] by {
        lemma_alike_at(s1, s2, i);
        lemma_view_fields(s1[i], s2[i]);
    }
    assert(agents(s1) =~= agents(s2));
    assert(topics(s1) =~= topics(s2));
    if s1.len() > 0 {
        assert(trace_views(s1.drop_last()) =~= trace_views(s1).drop_last());
        assert(trace_views(s2.drop_last()) =~= trace_views(s2).drop_last());
        lemma_names_alike(s1.drop_last(), s2.drop_last(), out);
        lemma_alike_at(s1, s2, s1.len() - 1);
        lemma_view_fields(s1.last(), s2.last());
        assert(agent_of(s1.last()) == agent_of(s2.last()));
    }
}

/// The objections' hits in alike lists are the same names.
proof fn lemma_hits_alike(
    l1: Seq<Trace>,
    l2: Seq<Trace>,
    p: QuorumPolicy,
    s1: Seq<Trace>,
    s2: Seq<Trace>,
    tp: Seq<char>,
)
    requires
        alike(l1, l2),
        alike(s1, s2),
    ensures
        hits(l1, p, s1, tp) == hits(l2, p, s2, tp),
    decreases s1.len(),
{
    assert(trace_views(s1).len() == trace_views(s2).len());
    if s1.len() > 0 {
        assert(trace_views(s1.drop_last()) =~= trace_views(s1).drop_last());
        assert(trace_views(s2.drop_last()) =~= trace_views(s2).drop_last());
        lemma_hits_alike(l1, l2, p, s1.drop_last(), s2.drop_last(), tp);
        lemma_alike_at(s1, s2, s1.len() - 1);
        lemma_counts_alike(l1, l2, p, s1.last(), s2.last());
        lemma_counted_alike(l1, l2, p, l1, l2);
        lemma_struck_alike(counted(l1, p), counted(l2, p), s1.last(), s2.last(), tp);
        lemma_names_alike(struck(counted(l1, p), s1.last(), tp), struck(counted(l2, p), s2.last(), tp), Seq::empty());
    }
}

/// Alike windows stand alike.
proof fn lemma_standings_of_alike(l1: Seq<Trace>, l2: Seq<Trace>, p: QuorumPolicy)
    requires
        alike(l1, l2),
    ensures
        standings_of(l1, p) == standings_of(l2, p),
{
    lemma_counted_alike(l1, l2, p, l1, l2);
    let c1 = counted(l1, p);
    let c2 = counted(l2, p);
    lemma_names_alike(c1, c2, Seq::empty());
    assert(topic_order(l1, p) == topic_order(l2, p));
    assert forall|tp: Seq<char>| #[trigger] standing_of(l1, p, tp) == standing_of(l2, p, tp) by {
        lemma_hits_alike(l1, l2, p, l1, l2, tp);
        lemma_on_topic_alike(c1, c2, tp);
        lemma_refuting_alike(l1, l2, tp);
        let silenced = super::spec::silenced_on(l1, p, tp);
        lemma_names_alike(on_topic(c1, tp), on_topic(c2, tp), silenced);
        lemma_names_alike(refuting(l1, tp), refuting(l2, tp), silenced);
    }
    assert(standings_of(l1, p) =~= standings_of(l2, p));
}

/// Standings depend on what the traces say: two lists saying the same things
/// in the same order stand alike.
pub proof fn lemma_standings_alike(a: Seq<Trace>, b: Seq<Trace>, at: Sequence, policy: QuorumPolicy)
    requires
        alike(a, b),
        a.len() <= usize::MAX,
    ensures
        standings_spec(a, at, policy) == standings_spec(b, at, policy),
{
    lemma_window_alike(a, b, at.0, policy.window);
    lemma_standings_of_alike(window_of(a, at.0, policy.window), window_of(b, at.0, policy.window), policy);
}

} // verus!

//! What cross-inhibition and refutation can and cannot do to a standing.

use vstd::prelude::*;

use super::spec::{
    agent_of, agents, counted, counted_in, counts, hits, objects, standing_of, standings_of, struck, topic_of,
    topics, without,
};
use super::standings_spec;
use super::types::QuorumPolicy;
use crate::names::lemma_distinct_contains;
use crate::session::Sequence;
use crate::trace::Trace;
use crate::window::window_of;

verus! {

/// A name left after removing `out` is not in `out`.
pub(super) proof fn lemma_without_excludes(s: Seq<Seq<char>>, out: Seq<Seq<char>>, name: Seq<char>)
    requires
        without(s, out).contains(name),
    ensures
        !out.contains(name),
    decreases s.len(),
{
    let earlier = without(s.drop_last(), out);
    if out.contains(s.last()) {
        lemma_without_excludes(s.drop_last(), out, name);
    } else {
        let i = choose|i: int| 0 <= i < without(s, out).len() && without(s, out)[i] == name;
        if i < earlier.len() {
            assert(earlier[i] == name);
            lemma_without_excludes(s.drop_last(), out, name);
        }
    }
}

/// Every trace the window counts is one of its traces and counts.
proof fn lemma_counted_from(live: Seq<Trace>, policy: QuorumPolicy, s: Seq<Trace>, k: int)
    requires
        0 <= k < counted_in(live, policy, s).len(),
    ensures
        s.contains(counted_in(live, policy, s)[k]),
        counts(live, policy, counted_in(live, policy, s)[k]),
    decreases s.len(),
{
    let rest = s.drop_last();
    let earlier = counted_in(live, policy, rest);
    if k < earlier.len() {
        lemma_counted_from(live, policy, rest, k);
        let j = choose|j: int| 0 <= j < rest.len() && rest[j] == earlier[k];
        assert(s[j] == earlier[k]);
    } else {
        assert(s[s.len() - 1] == s.last());
    }
}

/// A name an objection strikes belongs to a struck trace.
proof fn lemma_struck_agent(s: Seq<Trace>, o: Trace, topic: Seq<char>, name: Seq<char>) -> (c: Trace)
    requires
        agents(struck(s, o, topic)).contains(name),
    ensures
        s.contains(c),
        Some(c.sequence) == o.target,
        c.topic_name() == Some(topic),
        c.agent() != o.agent(),
        agent_of(c) == name,
    decreases s.len(),
{
    let rest = s.drop_last();
    let earlier = struck(rest, o, topic);
    let all = struck(s, o, topic);
    let i = choose|i: int| 0 <= i < agents(all).len() && agents(all)[i] == name;
    let last = s.last();
    if Some(last.sequence) == o.target && last.topic_name() == Some(topic) && last.agent() != o.agent() && i
        == all.len() - 1 {
        assert(all[i] == last);
        assert(s[s.len() - 1] == last);
        last
    } else {
        assert(all[i] == earlier[i]);
        assert(agents(earlier)[i] == name);
        let c = lemma_struck_agent(rest, o, topic, name);
        let j = choose|j: int| 0 <= j < rest.len() && rest[j] == c;
        assert(s[j] == c);
        c
    }
}

/// Whom the objections among `s` silence on `topic`: each has a counted
/// advocacy of the topic in a row that an objection by somebody else targets.
proof fn lemma_hit_by_another(
    live: Seq<Trace>,
    policy: QuorumPolicy,
    s: Seq<Trace>,
    topic: Seq<char>,
    name: Seq<char>,
) -> (found: (Trace, Trace))
    requires
        hits(live, policy, s, topic).contains(name),
    ensures
        s.contains(found.0),
        objects(live, policy, found.0),
        counted(live, policy).contains(found.1),
        Some(found.1.sequence) == found.0.target,
        found.1.topic_name() == Some(topic),
        found.1.agent() == Some(name),
        found.0.agent() != Some(name),
    decreases s.len(),
{
    let rest = s.drop_last();
    let o = s.last();
    let earlier = hits(live, policy, rest, topic);
    let c_all = counted(live, policy);
    let mine = agents(struck(c_all, o, topic));
    let here = objects(live, policy, o) && !earlier.contains(name);
    if here {
        assert(hits(live, policy, s, topic) == earlier + mine);
        let i = choose|i: int| 0 <= i < (earlier + mine).len() && (earlier + mine)[i] == name;
        if i < earlier.len() {
            assert(earlier[i] == name);
        }
        assert(mine[i - earlier.len()] == name);
        let c = lemma_struck_agent(c_all, o, topic, name);
        let k = choose|k: int| 0 <= k < c_all.len() && c_all[k] == c;
        lemma_counted_from(live, policy, live, k);
        assert(s[s.len() - 1] == o);
        (o, c)
    } else {
        if objects(live, policy, o) {
            assert(hits(live, policy, s, topic) == earlier + mine);
        } else {
            assert(hits(live, policy, s, topic) == earlier);
        }
        let found = lemma_hit_by_another(live, policy, rest, topic, name);
        let j = choose|j: int| 0 <= j < rest.len() && rest[j] == found.0;
        assert(s[j] == found.0);
        found
    }
}

/// Cross-inhibition removes a silenced advocate and never puts them back:
/// no standing counts among its supporters a member it lists as silenced.
pub proof fn law_silenced_never_supports(traces: Seq<Trace>, at: Sequence, policy: QuorumPolicy)
    ensures
        forall|i: int, name: Seq<char>|
            0 <= i < standings_spec(traces, at, policy).len()
                && #[trigger] standings_spec(traces, at, policy)[i].supporters.contains(name) ==> !standings_spec(
                traces,
                at,
                policy,
            )[i].silenced.contains(name),
{
    let live = window_of(traces, at.0, policy.window);
    let st = standings_spec(traces, at, policy);
    assert forall|i: int, name: Seq<char>|
        0 <= i < st.len() && #[trigger] st[i].supporters.contains(name) implies !st[i].silenced.contains(name) by {
        let topic = super::spec::topic_order(live, policy)[i];
        assert(st[i] == standing_of(live, policy, topic));
        let backing = super::spec::on_topic(counted(live, policy), topic);
        lemma_without_excludes(crate::names::distinct(agents(backing)), st[i].silenced, name);
    }
}

/// Whether an objection the policy honours, by somebody other than `name`,
/// targets a row in which `name`'s counted advocacy of `topic` stands.
pub open spec fn struck_by_another(live: Seq<Trace>, policy: QuorumPolicy, topic: Seq<char>, name: Seq<char>) -> bool {
    exists|o: Trace, c: Trace|
        #![trigger live.contains(o), counted(live, policy).contains(c)]
        live.contains(o) && objects(live, policy, o) && counted(live, policy).contains(c) && Some(c.sequence)
            == o.target && c.topic_name() == Some(topic) && c.agent() == Some(name) && o.agent() != Some(name)
}

/// An objection cannot silence its own author: a member silenced on a
/// topic advocated it, counted, in a row that an objection the policy
/// honours targets, and that objection is somebody else's.
pub proof fn law_objection_never_silences_its_author(traces: Seq<Trace>, at: Sequence, policy: QuorumPolicy)
    ensures
        forall|i: int, name: Seq<char>|
            0 <= i < standings_spec(traces, at, policy).len()
                && #[trigger] standings_spec(traces, at, policy)[i].silenced.contains(name) ==> struck_by_another(
                window_of(traces, at.0, policy.window),
                policy,
                standings_spec(traces, at, policy)[i].topic,
                name,
            ),
{
    let live = window_of(traces, at.0, policy.window);
    let st = standings_spec(traces, at, policy);
    assert forall|i: int, name: Seq<char>|
        0 <= i < st.len() && #[trigger] st[i].silenced.contains(name) implies struck_by_another(
        live,
        policy,
        st[i].topic,
        name,
    ) by {
        let topic = super::spec::topic_order(live, policy)[i];
        assert(st[i] == standing_of(live, policy, topic));
        lemma_distinct_contains(hits(live, policy, live, topic), name);
        let (o, c) = lemma_hit_by_another(live, policy, live, topic, name);
        assert(live.contains(o) && counted(live, policy).contains(c));
    }
}

/// Whether some counted trace of the window advocates `topic`.
pub open spec fn advocated(live: Seq<Trace>, policy: QuorumPolicy, topic: Seq<char>) -> bool {
    exists|c: Trace| #[trigger] counted(live, policy).contains(c) && c.topic_name() == Some(topic)
}

/// A refutation cannot manufacture a standing: every topic that stands has
/// a counted advocacy in the window, so refuting a topic nobody put on the
/// floor is inert.
pub proof fn law_standings_need_advocacy(traces: Seq<Trace>, at: Sequence, policy: QuorumPolicy)
    ensures
        forall|i: int|
            0 <= i < standings_spec(traces, at, policy).len() ==> advocated(
                window_of(traces, at.0, policy.window),
                policy,
                (#[trigger] standings_spec(traces, at, policy)[i]).topic,
            ),
{
    let live = window_of(traces, at.0, policy.window);
    let st = standings_spec(traces, at, policy);
    let c_all = counted(live, policy);
    assert forall|i: int| 0 <= i < st.len() implies advocated(live, policy, (#[trigger] st[i]).topic) by {
        let order = super::spec::topic_order(live, policy);
        let topic = order[i];
        assert(st[i] == standing_of(live, policy, topic));
        assert(order.contains(topic));
        lemma_distinct_contains(topics(c_all), topic);
        let k = choose|k: int| 0 <= k < topics(c_all).len() && topics(c_all)[k] == topic;
        assert(topic_of(c_all[k]) == topic);
        lemma_counted_from(live, policy, live, k);
        assert(c_all.contains(c_all[k]));
    }
}

} // verus!

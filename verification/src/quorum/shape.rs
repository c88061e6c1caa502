//! The shape every fold of standings has, whatever the window holds.

use vstd::prelude::*;

use super::spec::{
    agent_of, agents, counted, counts, on_topic, refuted_by_member, refutes, refuting, standing_of, topic_of, weight_of,
    without,
};
use super::standings_spec;
use super::types::QuorumPolicy;
use crate::names::{distinct, lemma_distinct_contains, lemma_distinct_no_repeats};
use crate::session::Sequence;
use crate::trace::Trace;
use crate::window::window_of;

verus! {

/// A name left after removing `out` was a name of `s`.
proof fn lemma_without_from(s: Seq<Seq<char>>, out: Seq<Seq<char>>, name: Seq<char>)
    requires
        without(s, out).contains(name),
    ensures
        s.contains(name),
    decreases s.len(),
{
    let rest = s.drop_last();
    let earlier = without(rest, out);
    let all = without(s, out);
    let i = choose|i: int| 0 <= i < all.len() && all[i] == name;
    if i < earlier.len() {
        assert(earlier[i] == name);
        lemma_without_from(rest, out, name);
        let j = choose|j: int| 0 <= j < rest.len() && rest[j] == name;
        assert(s[j] == name);
    } else {
        assert(s[s.len() - 1] == name);
    }
}

/// Removing names from a list without repeats leaves a list without repeats.
proof fn lemma_without_no_repeats(s: Seq<Seq<char>>, out: Seq<Seq<char>>)
    requires
        s.no_duplicates(),
    ensures
        without(s, out).no_duplicates(),
    decreases s.len(),
{
    if s.len() > 0 {
        let rest = s.drop_last();
        assert(rest.no_duplicates()) by {
            assert forall|i: int, j: int| 0 <= i < rest.len() && 0 <= j < rest.len() && i != j implies rest[i]
                != rest[j] by {
                assert(rest[i] == s[i] && rest[j] == s[j]);
            }
        }
        lemma_without_no_repeats(rest, out);
        let earlier = without(rest, out);
        if !out.contains(s.last()) {
            if earlier.contains(s.last()) {
                lemma_without_from(rest, out, s.last());
                let j = choose|j: int| 0 <= j < rest.len() && rest[j] == s.last();
                assert(s[j] == s[s.len() - 1]);
            }
            let all = earlier.push(s.last());
            assert forall|i: int, j: int| 0 <= i < all.len() && 0 <= j < all.len() && i != j implies all[i]
                != all[j] by {
                if i < earlier.len() && j < earlier.len() {
                    assert(all[i] == earlier[i] && all[j] == earlier[j]);
                } else if i < earlier.len() {
                    assert(all[i] == earlier[i]);
                    assert(earlier.contains(earlier[i]));
                } else if j < earlier.len() {
                    assert(all[j] == earlier[j]);
                    assert(earlier.contains(earlier[j]));
                }
            }
        }
    }
}

/// The traces naming a topic are traces of the list, and name it.
proof fn lemma_on_topic_from(s: Seq<Trace>, topic: Seq<char>, k: int)
    requires
        0 <= k < on_topic(s, topic).len(),
    ensures
        s.contains(on_topic(s, topic)[k]),
        on_topic(s, topic)[k].topic_name() == Some(topic),
    decreases s.len(),
{
    let rest = s.drop_last();
    if k < on_topic(rest, topic).len() {
        lemma_on_topic_from(rest, topic, k);
        let j = choose|j: int| 0 <= j < rest.len() && rest[j] == on_topic(rest, topic)[k];
        assert(s[j] == rest[j]);
    } else {
        assert(s[s.len() - 1] == s.last());
    }
}

/// The refutations of a topic are refutations of the list, of that topic.
proof fn lemma_refuting_from(s: Seq<Trace>, topic: Seq<char>, k: int)
    requires
        0 <= k < refuting(s, topic).len(),
    ensures
        s.contains(refuting(s, topic)[k]),
        refutes(refuting(s, topic)[k]),
        refuting(s, topic)[k].topic_name() == Some(topic),
    decreases s.len(),
{
    let rest = s.drop_last();
    if k < refuting(rest, topic).len() {
        lemma_refuting_from(rest, topic, k);
        let j = choose|j: int| 0 <= j < rest.len() && rest[j] == refuting(rest, topic)[k];
        assert(s[j] == rest[j]);
    } else {
        assert(s[s.len() - 1] == s.last());
    }
}

/// Every trace the window counts counts.
proof fn lemma_counted_counts(live: Seq<Trace>, policy: QuorumPolicy, s: Seq<Trace>, k: int)
    requires
        0 <= k < super::spec::counted_in(live, policy, s).len(),
    ensures
        counts(live, policy, super::spec::counted_in(live, policy, s)[k]),
    decreases s.len(),
{
    let rest = s.drop_last();
    if k < super::spec::counted_in(live, policy, rest).len() {
        lemma_counted_counts(live, policy, rest, k);
    }
}

/// Weight is never negative.
proof fn lemma_weight_nonnegative(s: Seq<Trace>, out: Seq<Seq<char>>)
    ensures
        weight_of(s, out) >= 0,
    decreases s.len(),
{
    if s.len() > 0 {
        lemma_weight_nonnegative(s.drop_last(), out);
    }
}

/// Whether a standing is well formed: its name lists hold no repeats, nobody
/// silenced or refuting it supports it, and its support is not negative.
pub open spec fn well_formed_standing(s: super::types::StandingView) -> bool {
    &&& s.supporters.no_duplicates()
    &&& s.silenced.no_duplicates()
    &&& s.refuted_by.no_duplicates()
    &&& forall|name: Seq<char>| #[trigger] s.supporters.contains(name) ==> !s.silenced.contains(name)
    &&& forall|name: Seq<char>| #[trigger] s.supporters.contains(name) ==> !s.refuted_by.contains(name)
    &&& s.support >= 0
}

/// One standing of a window is well formed.
proof fn lemma_standing_well_formed(live: Seq<Trace>, policy: QuorumPolicy, topic: Seq<char>)
    ensures
        well_formed_standing(standing_of(live, policy, topic)),
{
    let s = standing_of(live, policy, topic);
    let backing = on_topic(counted(live, policy), topic);
    let backers = distinct(agents(backing));
    lemma_distinct_no_repeats(agents(backing));
    lemma_without_no_repeats(backers, s.silenced);
    lemma_distinct_no_repeats(super::spec::hits(live, policy, live, topic));
    lemma_distinct_no_repeats(agents(refuting(live, topic)));
    lemma_weight_nonnegative(backing, s.silenced);
    assert forall|name: Seq<char>| #[trigger] s.supporters.contains(name) implies !s.silenced.contains(name) by {
        super::inhibition::lemma_without_excludes(backers, s.silenced, name);
    }
    assert forall|name: Seq<char>| #[trigger] s.supporters.contains(name) implies !s.refuted_by.contains(name) by {
        lemma_without_from(backers, s.silenced, name);
        lemma_distinct_contains(agents(backing), name);
        let k = choose|k: int| 0 <= k < agents(backing).len() && agents(backing)[k] == name;
        let c = backing[k];
        lemma_on_topic_from(counted(live, policy), topic, k);
        let j = choose|j: int| 0 <= j < counted(live, policy).len() && counted(live, policy)[j] == c;
        lemma_counted_counts(live, policy, live, j);
        assert(topic_of(c) == topic);
        assert(agent_of(c) == name);
        assert(!refuted_by_member(live, name, topic));
        if s.refuted_by.contains(name) {
            lemma_distinct_contains(agents(refuting(live, topic)), name);
            let r = choose|r: int| 0 <= r < agents(refuting(live, topic)).len() && agents(refuting(live, topic))[r] == name;
            lemma_refuting_from(live, topic, r);
            let t = refuting(live, topic)[r];
            let x = choose|x: int| 0 <= x < live.len() && live[x] == t;
            assert(refutes(live[x]) && agent_of(live[x]) == name && topic_of(live[x]) == topic);
        }
    }
}

/// Standings are well formed: each topic stands once, no name list repeats a
/// name, a member silenced on a topic or refuting it is never among its
/// supporters, and support is never negative.
pub proof fn law_standings_well_formed(traces: Seq<Trace>, at: Sequence, policy: QuorumPolicy)
    ensures
        ({
            let st = standings_spec(traces, at, policy);
            &&& forall|i: int, j: int| 0 <= i < j < st.len() ==> (#[trigger] st[i]).topic != (#[trigger] st[j]).topic
            &&& forall|i: int| 0 <= i < st.len() ==> well_formed_standing(#[trigger] st[i])
        }),
{
    let live = window_of(traces, at.0, policy.window);
    let st = standings_spec(traces, at, policy);
    let order = super::spec::topic_order(live, policy);
    lemma_distinct_no_repeats(super::spec::topics(counted(live, policy)));
    assert forall|i: int, j: int| 0 <= i < j < st.len() implies (#[trigger] st[i]).topic != (#[trigger] st[j]).topic by {
        assert(st[i] == standing_of(live, policy, order[i]));
        assert(st[j] == standing_of(live, policy, order[j]));
    }
    assert forall|i: int| 0 <= i < st.len() implies well_formed_standing(#[trigger] st[i]) by {
        assert(st[i] == standing_of(live, policy, order[i]));
        lemma_standing_well_formed(live, policy, order[i]);
    }
}

} // verus!

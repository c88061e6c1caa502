//! Quorum as a local decaying count, and cross-inhibition that silences an
//! advocate rather than debiting an option.
//!
//! **Quorum is local.** A topic carries when `threshold` distinct
//! participants have supported it within the last `window` sequences. The
//! count is order-independent and idempotent, so a participant that catches
//! up late folds to the same standing as one that watched live.
//!
//! **Cross-inhibition targets the advocate, not the option.** An objection
//! naming a message removes that message's author from the supporter set of
//! every topic they advocated there.
//!
//! **Refutation targets the option, not the advocate.** `!refute #topic ^N`
//! records its author against the topic, and a policy may let enough distinct
//! refuters cap the topic out of contention.
//!
//! **Grounds are weighed, not counted.** Under `require_evidential` a support
//! counts only if its citation chain reaches a stated fact.

mod alike;
mod evidence;
mod inhibition;
mod laws;
mod shape;
mod spec;
mod types;

pub use spec::{
    advocates, agent_of, agents, carried_topics, cites_at, counted, counted_in, counts, evidence_at, evidenced, grounds_required, hits, is_chain, objects, on_topic, reachable, reaches_evidence, refuted_by_member, refutes, refuting, standing_of, standings_of, struck, topic_of, topic_order, topics, weight_of, without, silenced_on,
};
pub use alike::lemma_standings_alike;
pub use shape::{law_standings_well_formed, well_formed_standing};
pub use inhibition::{advocated, law_objection_never_silences_its_author, law_silenced_never_supports, law_standings_need_advocacy, struck_by_another};
pub use laws::{law_evidential_implies_grounded, law_standings_idempotent, law_standings_order_independent};
pub use types::{
    ConsensusState, ConsensusView, QuorumPolicy, StandingView, TopicStanding, carries,
    default_quorum, room_threshold, topic_names,
};

use vstd::prelude::*;

use crate::error::{Error, Result};
use crate::names::{distinct, holds, lemma_distinct_push, names, push_distinct, same_text};
use crate::salience::{importance, importance_of};
use crate::session::Sequence;
use crate::trace::{TopicId, Trace, TraceKind};
use crate::window::{picked, window_indices, window_of};
use evidence::{has_evidence_by, reaches};
use spec::{
    lemma_agents_push, lemma_counted_step, lemma_hits_step, lemma_on_topic_step, lemma_refuting_step,
    lemma_struck_step, lemma_weight_step,
};

verus! {

/// The standings of `traces` folded at `at`, as plain values.
pub open spec fn standings_spec(traces: Seq<Trace>, at: Sequence, policy: QuorumPolicy) -> Seq<
    StandingView,
> {
    standings_of(window_of(traces, at.0, policy.window), policy)
}

/// The plain values of a vector of standings.
pub open spec fn views(s: Seq<TopicStanding>) -> Seq<StandingView> {
    s.map_values(|x: TopicStanding| x@)
}

/// Whether a policy makes the count meaningful.
pub open spec fn valid_quorum(policy: QuorumPolicy) -> bool {
    policy.threshold != 0 && policy.window != 0 && policy.refutation_cap != Some(0u32)
}

/// The largest transcript the fold's fixed-point weights can sum over.
pub open spec fn fold_capacity() -> int {
    9_000_000_000_000_000
}

/// The indices `live` names are all inside `traces`.
pub open spec fn indexes(traces: Seq<Trace>, live: Seq<usize>) -> bool {
    forall|i: int| 0 <= i < live.len() ==> live[i] < traces.len()
}

/// Whether `agent` refuted `topic` in the window.
fn refuted_by_agent(traces: &[Trace], live: &Vec<usize>, agent: &str, topic: &TopicId) -> (found:
    bool)
    requires
        indexes(traces@, live@),
    ensures
        found == refuted_by_member(picked(traces@, live@), agent@, topic@),
{
    let ghost l = picked(traces@, live@);
    let mut j: usize = 0;
    while j < live.len()
        invariant
            j <= live@.len(),
            indexes(traces@, live@),
            l == picked(traces@, live@),
            forall|m: int|
                0 <= m < j ==> !(refutes(#[trigger] l[m]) && agent_of(l[m]) == agent@ && topic_of(
                    l[m],
                ) == topic@),
        decreases live@.len() - j,
    {
        let u = &traces[live[j]];
        assert(l[j as int] == *u);
        if u.kind == TraceKind::Refute && u.grounded() {
            match (u.agent_id(), &u.topic) {
                (Some(a), Some(tp)) => {
                    if same_text(a, agent) && tp.same(topic) {
                        assert(refutes(l[j as int]));
                        return true;
                    }
                },
                _ => {},
            }
        }
        j = j + 1;
    }
    false
}

/// Whether a trace counts as support in the window.
fn counts_in(traces: &[Trace], live: &Vec<usize>, policy: &QuorumPolicy, t: &Trace) -> (counting:
    bool)
    requires
        indexes(traces@, live@),
    ensures
        counting == counts(picked(traces@, live@), *policy, *t),
{
    if !(t.kind == TraceKind::Propose || t.kind == TraceKind::Support) {
        return false;
    }
    let (agent, topic) = match (t.agent_id(), &t.topic) {
        (Some(agent), Some(topic)) => (agent, topic),
        _ => {
            return false;
        },
    };
    let grounds = policy.require_grounded || policy.require_evidential;
    if grounds && t.kind == TraceKind::Support && !t.grounded() {
        return false;
    }
    if policy.require_evidential && t.kind == TraceKind::Support && !reaches(traces, live, t) {
        return false;
    }
    !refuted_by_agent(traces, live, agent, topic)
}

/// Whether an objection is one the policy lets silence anybody.
fn objects_in(traces: &[Trace], live: &Vec<usize>, policy: &QuorumPolicy, o: &Trace) -> (objecting:
    bool)
    requires
        indexes(traces@, live@),
    ensures
        objecting == objects(picked(traces@, live@), *policy, *o),
{
    if o.kind != TraceKind::Object {
        return false;
    }
    let grounds = policy.require_grounded || policy.require_evidential;
    if grounds && !o.grounded() {
        return false;
    }
    if policy.require_evidential {
        match o.agent_id() {
            Some(agent) => {
                if !has_evidence_by(traces, live, agent) {
                    return false;
                }
            },
            None => {
                return false;
            },
        }
    }
    o.target.is_some()
}

/// Whether two optional agent ids are the same.
fn same_agent(a: Option<&str>, b: Option<&str>) -> (same: bool)
    ensures
        same == (match (a, b) {
            (Some(x), Some(y)) => x@ == y@,
            (None, None) => true,
            _ => false,
        }),
{
    match (a, b) {
        (Some(x), Some(y)) => same_text(x, y),
        (None, None) => true,
        _ => false,
    }
}

/// Whether a trace names `topic`.
fn names_topic(t: &Trace, topic: &TopicId) -> (named: bool)
    ensures
        named == (t.topic_name() == Some(topic@)),
{
    match &t.topic {
        Some(tp) => tp.same(topic),
        None => false,
    }
}

/// Fold one topic's standing out of the window.
fn standing_for(
    traces: &[Trace],
    live: &Vec<usize>,
    counted_idx: &Vec<usize>,
    policy: &QuorumPolicy,
    topic: &TopicId,
) -> (standing: TopicStanding)
    requires
        indexes(traces@, live@),
        indexes(traces@, counted_idx@),
        picked(traces@, counted_idx@) == counted(picked(traces@, live@), *policy),
        forall|i: int|
            0 <= i < counted_idx@.len() ==> #[trigger] advocates(picked(traces@, counted_idx@)[i]),
        counted_idx@.len() <= fold_capacity(),
    ensures
        standing@ == standing_of(picked(traces@, live@), *policy, topic@),
{
    let ghost l = picked(traces@, live@);
    let ghost c = picked(traces@, counted_idx@);
    let ghost t = topic@;
    // Every distinct advocate of the topic, before silencing.
    let mut backers: Vec<String> = Vec::new();
    let mut i: usize = 0;
    while i < counted_idx.len()
        invariant
            t == topic@,
            i <= counted_idx@.len(),
            indexes(traces@, counted_idx@),
            c == picked(traces@, counted_idx@),
            forall|k: int| 0 <= k < c.len() ==> #[trigger] advocates(c[k]),
            names(backers@) == distinct(agents(on_topic(c.take(i as int), t))),
        decreases counted_idx@.len() - i,
    {
        let u = &traces[counted_idx[i]];
        assert(c[i as int] == *u);
        assert(advocates(c[i as int]));
        proof {
            lemma_on_topic_step(c, i as int, t);
        }
        if names_topic(u, topic) {
            let agent = u.agent_id().unwrap();
            proof {
                lemma_agents_push(on_topic(c.take(i as int), t), *u);
                lemma_distinct_push(agents(on_topic(c.take(i as int), t)), agent@);
            }
            assert(agent_of(*u) == agent@);
            assert(on_topic(c.take(i + 1), t) == on_topic(c.take(i as int), t).push(*u));
            assert(agents(on_topic(c.take(i + 1), t)) == agents(on_topic(c.take(i as int), t)).push(agent@));
            push_distinct(&mut backers, agent);
            assert(names(backers@) == distinct(agents(on_topic(c.take(i + 1), t))));
        } else {
            assert(on_topic(c.take(i + 1), t) == on_topic(c.take(i as int), t));
        }
        i = i + 1;
    }
    assert(c.take(c.len() as int) =~= c);
    // Cross-inhibition: whom the objections in the window silence.
    let mut silenced: Vec<String> = Vec::new();
    let mut j: usize = 0;
    while j < live.len()
        invariant
            t == topic@,
            j <= live@.len(),
            indexes(traces@, live@),
            indexes(traces@, counted_idx@),
            l == picked(traces@, live@),
            c == picked(traces@, counted_idx@),
            c == counted(l, *policy),
            forall|m: int| 0 <= m < c.len() ==> #[trigger] advocates(c[m]),
            names(silenced@) == distinct(hits(l, *policy, l.take(j as int), t)),
        decreases live@.len() - j,
    {
        let o = &traces[live[j]];
        assert(l[j as int] == *o);
        proof {
            lemma_hits_step(l, *policy, l, j as int, t);
        }
        if objects_in(traces, live, policy, o) {
            let target = o.target.unwrap();
            let objector = o.agent_id();
            let ghost before = hits(l, *policy, l.take(j as int), t);
            let mut k: usize = 0;
            while k < counted_idx.len()
                invariant
                    t == topic@,
            t == topic@,
                    k <= counted_idx@.len(),
                    indexes(traces@, counted_idx@),
                    c == picked(traces@, counted_idx@),
                    forall|m: int| 0 <= m < c.len() ==> #[trigger] advocates(c[m]),
                    o.target == Some(target),
                    match objector {
                        Some(x) => o.agent() == Some(x@),
                        None => o.agent() is None,
                    },
                    names(silenced@) == distinct(before + agents(struck(c.take(k as int), *o, t))),
                decreases counted_idx@.len() - k,
            {
                let u = &traces[counted_idx[k]];
                assert(c[k as int] == *u);
                proof {
                    lemma_struck_step(c, k as int, *o, t);
                }
                if u.sequence.0 == target.0 && names_topic(u, topic) && !same_agent(
                    u.agent_id(),
                    objector,
                ) {
                    match u.agent_id() {
                        Some(agent) => {
                            proof {
                                lemma_agents_push(struck(c.take(k as int), *o, t), *u);
                                assert(before + agents(struck(c.take(k + 1), *o, t)) =~= (before
                                    + agents(struck(c.take(k as int), *o, t))).push(agent@));
                                lemma_distinct_push(
                                    before + agents(struck(c.take(k as int), *o, t)),
                                    agent@,
                                );
                            }
                            push_distinct(&mut silenced, agent);
                        },
                        None => {
                            proof {
                                assert(advocates(c[k as int]));
                            }
                        },
                    }
                }
                k = k + 1;
            }
            assert(c.take(c.len() as int) =~= c);
        }
        j = j + 1;
    }
    assert(l.take(l.len() as int) =~= l);
    // Refutations are recorded whatever the policy caps.
    let mut refuted_by: Vec<String> = Vec::new();
    let mut j: usize = 0;
    while j < live.len()
        invariant
            t == topic@,
            j <= live@.len(),
            indexes(traces@, live@),
            l == picked(traces@, live@),
            names(refuted_by@) == distinct(agents(refuting(l.take(j as int), t))),
        decreases live@.len() - j,
    {
        let u = &traces[live[j]];
        assert(l[j as int] == *u);
        proof {
            lemma_refuting_step(l, j as int, t);
        }
        if u.kind == TraceKind::Refute && u.grounded() && u.topic.is_some() && names_topic(
            u,
            topic,
        ) {
            match u.agent_id() {
                Some(agent) => {
                    proof {
                        lemma_agents_push(refuting(l.take(j as int), t), *u);
                        lemma_distinct_push(agents(refuting(l.take(j as int), t)), agent@);
                    }
                    push_distinct(&mut refuted_by, agent);
                },
                None => {},
            }
        }
        j = j + 1;
    }
    assert(l.take(l.len() as int) =~= l);
    // The survivors, and the weight they still carry.
    let mut supporters: Vec<String> = Vec::new();
    let mut i: usize = 0;
    while i < backers.len()
        invariant
            t == topic@,
            i <= backers@.len(),
            names(supporters@) == without(names(backers@).take(i as int), names(silenced@)),
        decreases backers@.len() - i,
    {
        assert(names(backers@).take(i + 1).drop_last() =~= names(backers@).take(i as int));
        assert(names(backers@)[i as int] == backers@[i as int]@);
        if !holds(&silenced, backers[i].as_str()) {
            supporters.push(backers[i].clone());
            assert(names(supporters@) =~= without(names(backers@).take(i as int), names(silenced@)).push(
                backers@[i as int]@,
            ));
        }
        i = i + 1;
    }
    assert(names(backers@).take(names(backers@).len() as int) =~= names(backers@));
    let mut support: i64 = 0;
    let mut i: usize = 0;
    while i < counted_idx.len()
        invariant
            t == topic@,
            i <= counted_idx@.len(),
            counted_idx@.len() <= fold_capacity(),
            indexes(traces@, counted_idx@),
            c == picked(traces@, counted_idx@),
            forall|k: int| 0 <= k < c.len() ==> #[trigger] advocates(c[k]),
            support == weight_of(on_topic(c.take(i as int), t), names(silenced@)),
            0 <= support <= 1000 * i,
        decreases counted_idx@.len() - i,
    {
        let u = &traces[counted_idx[i]];
        assert(c[i as int] == *u);
        proof {
            lemma_on_topic_step(c, i as int, t);
        }
        if names_topic(u, topic) {
            assert(advocates(c[i as int]));
            let kept = !holds(&silenced, u.agent_id().unwrap());
            proof {
                lemma_weight_step(on_topic(c.take(i as int), t), *u, names(silenced@));
            }
            if kept {
                support = support + importance(u.kind);
            }
        }
        i = i + 1;
    }
    TopicStanding { topic: topic.duplicate(), supporters, silenced, refuted_by, support }
}

/// Fold traces into one standing per topic.
///
/// Only `Propose` and `Support` add a supporter, and only within
/// `policy.window` sequences of `at`. Under `require_grounded`, support that
/// cites nothing joins neither the supporter set nor the weight. Under
/// `require_evidential`, which implies `require_grounded`, support counts only
/// when its citation chain reaches a fact, and an objection silences nobody
/// unless its own author deposited a fact in the window.
///
/// A grounded `Refute` adds its author to the topic's `refuted_by`, attaches
/// only to a topic some member advocated, and makes a member that both
/// supports and refutes one topic a refuter only.
pub fn standings(traces: &[Trace], at: Sequence, policy: &QuorumPolicy) -> (result: Result<
    Vec<TopicStanding>,
>)
    requires
        traces@.len() <= fold_capacity(),
    ensures
        policy.threshold == 0 ==> result == Err::<Vec<TopicStanding>, Error>(
            Error::ZeroQuorumThreshold,
        ),
        policy.threshold != 0 && policy.window == 0 ==> result == Err::<Vec<TopicStanding>, Error>(
            Error::ZeroQuorumWindow,
        ),
        policy.threshold != 0 && policy.window != 0 && policy.refutation_cap == Some(0u32)
            ==> result == Err::<Vec<TopicStanding>, Error>(Error::ZeroRefutationCap),
        valid_quorum(*policy) ==> (result matches Ok(r) && views(r@) == standings_spec(
            traces@,
            at,
            *policy,
        )),
{
    if policy.threshold == 0 {
        return Err(Error::ZeroQuorumThreshold);
    }
    if policy.window == 0 {
        return Err(Error::ZeroQuorumWindow);
    }
    if policy.refutation_cap == Some(0) {
        return Err(Error::ZeroRefutationCap);
    }
    let live = window_indices(traces, at.0, policy.window);
    let ghost l = picked(traces@, live@);
    let mut counted_idx: Vec<usize> = Vec::new();
    let mut j: usize = 0;
    while j < live.len()
        invariant
            j <= live@.len(),
            indexes(traces@, live@),
            live@.len() <= fold_capacity(),
            l == picked(traces@, live@),
            indexes(traces@, counted_idx@),
            counted_idx@.len() <= j,
            picked(traces@, counted_idx@) == counted_in(l, *policy, l.take(j as int)),
            forall|i: int|
                0 <= i < counted_idx@.len() ==> #[trigger] advocates(
                    picked(traces@, counted_idx@)[i],
                ),
        decreases live@.len() - j,
    {
        let u = &traces[live[j]];
        assert(l[j as int] == *u);
        proof {
            lemma_counted_step(l, *policy, l, j as int);
        }
        if counts_in(traces, &live, policy, u) {
            let ghost before = counted_idx@;
            counted_idx.push(live[j]);
            assert(picked(traces@, counted_idx@) =~= picked(traces@, before).push(*u));
        }
        j = j + 1;
    }
    assert(l.take(l.len() as int) =~= l);
    let ghost c = picked(traces@, counted_idx@);
    // Topics in first-advocacy order.
    let mut order: Vec<TopicId> = Vec::new();
    let mut i: usize = 0;
    while i < counted_idx.len()
        invariant
            i <= counted_idx@.len(),
            indexes(traces@, counted_idx@),
            c == picked(traces@, counted_idx@),
            forall|k: int| 0 <= k < c.len() ==> #[trigger] advocates(c[k]),
            topic_names(order@) == distinct(topics(c.take(i as int))),
        decreases counted_idx@.len() - i,
    {
        let u = &traces[counted_idx[i]];
        assert(c[i as int] == *u);
        assert(advocates(c[i as int]));
        assert(topics(c.take(i + 1)) =~= topics(c.take(i as int)).push(topic_of(*u)));
        let topic = u.topic.as_ref().unwrap();
        proof {
            lemma_distinct_push(topics(c.take(i as int)), topic@);
        }
        let mut seen = false;
        let mut k: usize = 0;
        while k < order.len()
            invariant
                k <= order@.len(),
                seen == exists|m: int| 0 <= m < k && order@[m]@ == topic@,
            decreases order@.len() - k,
        {
            if order[k].same(topic) {
                seen = true;
            }
            k = k + 1;
        }
        proof {
            if seen {
                let m = choose|m: int| 0 <= m < k && order@[m]@ == topic@;
                assert(topic_names(order@)[m] == topic@);
            } else {
                assert forall|m: int| 0 <= m < topic_names(order@).len() implies topic_names(
                    order@,
                )[m] != topic@ by {
                    assert(topic_names(order@)[m] == order@[m]@);
                }
            }
        }
        if !seen {
            let ghost before = order@;
            order.push(topic.duplicate());
            assert(topic_names(order@) =~= topic_names(before).push(topic@));
        }
        i = i + 1;
    }
    assert(c.take(c.len() as int) =~= c);
    let ghost order_view = topic_order(l, *policy);
    let mut result: Vec<TopicStanding> = Vec::new();
    let mut k: usize = 0;
    while k < order.len()
        invariant
            k <= order@.len(),
            topic_names(order@) == order_view,
            order_view == topic_order(l, *policy),
            indexes(traces@, live@),
            indexes(traces@, counted_idx@),
            l == picked(traces@, live@),
            c == picked(traces@, counted_idx@),
            c == counted(l, *policy),
            forall|m: int| 0 <= m < c.len() ==> #[trigger] advocates(c[m]),
            counted_idx@.len() <= fold_capacity(),
            result@.len() == k,
            forall|m: int| 0 <= m < k ==> #[trigger] result@[m]@ == standing_of(l, *policy, order_view[m]),
        decreases order@.len() - k,
    {
        let standing = standing_for(traces, &live, &counted_idx, policy, &order[k]);
        let ghost before = result@;
        result.push(standing);
        assert(order_view[k as int] == order@[k as int]@);
        assert forall|m: int| 0 <= m < k + 1 implies #[trigger] result@[m]@ == standing_of(
            l,
            *policy,
            order_view[m],
        ) by {
            if m < k {
                assert(before[m] == result@[m]);
            }
        }
        k = k + 1;
    }
    assert(views(result@) =~= standings_of(l, *policy));
    Ok(result)
}

/// Decide what the standings add up to.
///
/// Exactly one carried topic is a quorum; two or more is a deadlock, which is
/// a real outcome rather than an error.
pub fn consensus(standings: &[TopicStanding], policy: &QuorumPolicy) -> (state: ConsensusState)
    ensures
        state@ == (if carried_topics(views(standings@), *policy).len() == 0 {
            ConsensusView::Deliberating
        } else if carried_topics(views(standings@), *policy).len() == 1 {
            ConsensusView::Quorum(carried_topics(views(standings@), *policy)[0])
        } else {
            ConsensusView::Deadlocked(carried_topics(views(standings@), *policy))
        }),
{
    let ghost v = views(standings@);
    let mut carried: Vec<TopicId> = Vec::new();
    let mut i: usize = 0;
    while i < standings.len()
        invariant
            i <= standings@.len(),
            v == views(standings@),
            topic_names(carried@) == carried_topics(v.take(i as int), *policy),
        decreases standings@.len() - i,
    {
        assert(v.take(i + 1).drop_last() =~= v.take(i as int));
        assert(v[i as int] == standings@[i as int]@);
        if standings[i].carried(policy) {
            let ghost before = carried@;
            carried.push(standings[i].topic.duplicate());
            assert(topic_names(carried@) =~= topic_names(before).push(standings@[i as int].topic@));
        }
        i = i + 1;
    }
    assert(v.take(v.len() as int) =~= v);
    if carried.len() == 0 {
        ConsensusState::Deliberating
    } else if carried.len() == 1 {
        assert(topic_names(carried@)[0] == carried@[0]@);
        ConsensusState::Quorum { topic: carried[0].duplicate() }
    } else {
        ConsensusState::Deadlocked { topics: carried }
    }
}

} // verus!

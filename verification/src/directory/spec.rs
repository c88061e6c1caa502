//! What the directory fold computes, stated over the window's traces.
//!
//! Every sum here runs over `s`, a prefix of the window, while lookups that a
//! single trace depends on (who holds a deposit at a sequence, what a deposit
//! was read as being about) range over the whole window `all`.

use vstd::prelude::*;

use super::types::{DirectoryPolicy, EntryView, WEIGHT_CEILING, entries_sorted};
use crate::attention::{AgentThreshold, declared_in};
use crate::salience::{decay_value, distance_back};
use crate::session::Sequence;
use crate::trace::{Trace, TraceKind};

verus! {

/// What one trace put on the floor that another member could build on: a
/// fact a thousand, a grounded position six hundred, anything else nothing.
pub open spec fn deposit_value(t: Trace) -> int {
    match t.kind {
        TraceKind::Evidence => 1000,
        TraceKind::Propose | TraceKind::Support | TraceKind::Refute => if t.is_grounded() {
            600
        } else {
            0
        },
        _ => 0,
    }
}

/// The decay curve applied to a trace's age at `at`.
pub open spec fn aged(t: Trace, at: Sequence, half_life: u32) -> int {
    decay_value(distance_back(at, t.sequence), half_life as nat)
}

/// Whether a trace is a member's deposit.
pub open spec fn is_deposit(t: Trace) -> bool {
    t.agent() is Some && deposit_value(t) > 0
}

/// Whether `t` is by agent `a` and names topic `tp`.
pub open spec fn by_on(t: Trace, a: Seq<char>, tp: Seq<char>) -> bool {
    t.agent() == Some(a) && t.topic_name() == Some(tp)
}

/// What one trace adds to its author's specialisation on its topic.
pub open spec fn specialisation_term(t: Trace, a: Seq<char>, tp: Seq<char>, at: Sequence, half_life: u32) -> int {
    if is_deposit(t) && by_on(t, a, tp) {
        deposit_value(t) * aged(t, at, half_life) / 1000
    } else {
        0
    }
}

/// Decayed weight of `a`'s own deposits on `tp` among `s`.
pub open spec fn specialisation_sum(s: Seq<Trace>, a: Seq<char>, tp: Seq<char>, at: Sequence, half_life: u32) -> int
    decreases s.len(),
{
    if s.len() == 0 {
        0
    } else {
        specialisation_sum(s.drop_last(), a, tp, at, half_life) + specialisation_term(
            s.last(),
            a,
            tp,
            at,
            half_life,
        )
    }
}

/// Whether `a` made a deposit in `all` at sequence `c`.
pub open spec fn holds_at(all: Seq<Trace>, a: Seq<char>, c: u64) -> bool {
    exists|k: int|
        0 <= k < all.len() && is_deposit(#[trigger] all[k]) && all[k].agent() == Some(a)
            && all[k].sequence.0 == c
}

/// Whether `t`, written by somebody else, cites a deposit of `a`.
pub open spec fn credits(all: Seq<Trace>, t: Trace, a: Seq<char>) -> bool {
    &&& t.agent() is Some
    &&& t.agent() != Some(a)
    &&& exists|j: int| 0 <= j < t.cites@.len() && holds_at(all, a, (#[trigger] t.cites@[j]).0)
}

/// What one citing trace adds to `a`'s credibility on `tp`: its decayed
/// worth, once, however many of `a`'s deposits it names.
pub open spec fn credit_term(all: Seq<Trace>, t: Trace, a: Seq<char>, tp: Seq<char>, at: Sequence, half_life: u32) -> int {
    if t.topic_name() == Some(tp) && credits(all, t, a) {
        aged(t, at, half_life)
    } else {
        0
    }
}

/// Decayed citations of `a` by other members among `s`, on `tp`.
pub open spec fn credit_sum(all: Seq<Trace>, s: Seq<Trace>, a: Seq<char>, tp: Seq<char>, at: Sequence, half_life: u32) -> int
    decreases s.len(),
{
    if s.len() == 0 {
        0
    } else {
        credit_sum(all, s.drop_last(), a, tp, at, half_life) + credit_term(
            all,
            s.last(),
            a,
            tp,
            at,
            half_life,
        )
    }
}

/// Whether `a`'s deposit at sequence `c` was read as being about `tp`: it
/// named `tp` itself, or another member citing it did.
pub open spec fn attributed(all: Seq<Trace>, a: Seq<char>, c: u64, tp: Seq<char>) -> bool {
    &&& holds_at(all, a, c)
    &&& {
        ||| exists|k: int|
            0 <= k < all.len() && is_deposit(#[trigger] all[k]) && by_on(all[k], a, tp)
                && all[k].sequence.0 == c
        ||| exists|k: int|
            0 <= k < all.len() && (#[trigger] all[k]).agent() is Some && all[k].agent() != Some(a)
                && all[k].topic_name() == Some(tp) && exists|j: int|
                0 <= j < all[k].cites@.len() && (#[trigger] all[k].cites@[j]).0 == c
    }
}

/// What one objection takes from `a`'s credibility on `tp`.
pub open spec fn debit_term(
    all: Seq<Trace>,
    o: Trace,
    a: Seq<char>,
    tp: Seq<char>,
    at: Sequence,
    policy: DirectoryPolicy,
) -> int {
    if o.kind == TraceKind::Object && o.agent() is Some && o.agent() != Some(a) && o.target is Some
        && attributed(all, a, (o.target->0).0, tp) {
        policy.discredit * 1000 * aged(o, at, policy.half_life) / 10000
    } else {
        0
    }
}

/// Objections among `s` aimed at `a`'s deposits read as being about `tp`.
pub open spec fn debit_sum(
    all: Seq<Trace>,
    s: Seq<Trace>,
    a: Seq<char>,
    tp: Seq<char>,
    at: Sequence,
    policy: DirectoryPolicy,
) -> int
    decreases s.len(),
{
    if s.len() == 0 {
        0
    } else {
        debit_sum(all, s.drop_last(), a, tp, at, policy) + debit_term(all, s.last(), a, tp, at, policy)
    }
}

/// Credibility before it is floored at zero.
pub open spec fn credibility_raw(all: Seq<Trace>, a: Seq<char>, tp: Seq<char>, at: Sequence, policy: DirectoryPolicy) -> int {
    credit_sum(all, all, a, tp, at, policy.half_life) - debit_sum(all, all, a, tp, at, policy)
}

/// Credibility, never below zero.
pub open spec fn credibility_of(all: Seq<Trace>, a: Seq<char>, tp: Seq<char>, at: Sequence, policy: DirectoryPolicy) -> int {
    let raw = credibility_raw(all, a, tp, at, policy);
    if raw > 0 {
        raw
    } else {
        0
    }
}

/// The first prior record naming `a`.
pub open spec fn prior_record(priors: Seq<AgentThreshold>, a: Seq<char>) -> Option<AgentThreshold>
    decreases priors.len(),
{
    if priors.len() == 0 {
        None
    } else if priors[0].agent_id@ == a {
        Some(priors[0])
    } else {
        prior_record(priors.drop_first(), a)
    }
}

/// The host's declared affinity of `a` for `tp`, in thousandths: declared
/// relevance capped at a hundred, times ten, and nothing where nothing was
/// declared.
pub open spec fn prior_value(priors: Seq<AgentThreshold>, a: Seq<char>, tp: Seq<char>) -> int {
    match prior_record(priors, a) {
        None => 0,
        Some(r) => match declared_in(r.affinity@, tp) {
            None => 0,
            Some(v) => (if v > 100 {
                100
            } else {
                v as int
            }) * 10,
        },
    }
}

/// Whether `a` deferred `tp` in the window.
pub open spec fn deferred(all: Seq<Trace>, a: Seq<char>, tp: Seq<char>) -> bool {
    exists|k: int|
        0 <= k < all.len() && (#[trigger] all[k]).kind == TraceKind::Defer && by_on(all[k], a, tp)
}

/// The three terms combined, in tenths, and clamped to the ceiling.
pub open spec fn weigh_value(specialisation: int, credibility: int, prior: int, policy: DirectoryPolicy) -> int {
    let total = specialisation * policy.specialisation + credibility * policy.credibility + prior
        * policy.prior;
    let w = total / 10;
    if w > WEIGHT_CEILING {
        WEIGHT_CEILING as int
    } else if w < 0 {
        0
    } else {
        w
    }
}

/// The entry the fold makes for `a` on `tp`.
pub open spec fn entry_for(
    all: Seq<Trace>,
    priors: Seq<AgentThreshold>,
    a: Seq<char>,
    tp: Seq<char>,
    at: Sequence,
    policy: DirectoryPolicy,
) -> EntryView {
    let s = specialisation_sum(all, a, tp, at, policy.half_life);
    let c = credibility_of(all, a, tp, at, policy);
    let p = prior_value(priors, a, tp);
    EntryView {
        agent: a,
        topic: tp,
        specialisation: s,
        credibility: c,
        weight: if deferred(all, a, tp) {
            0
        } else {
            weigh_value(s, c, p, policy)
        },
    }
}

/// Whether any term scored `a` on `tp`.
pub open spec fn holder(
    all: Seq<Trace>,
    priors: Seq<AgentThreshold>,
    a: Seq<char>,
    tp: Seq<char>,
    at: Sequence,
    policy: DirectoryPolicy,
) -> bool {
    specialisation_sum(all, a, tp, at, policy.half_life) != 0 || credibility_of(all, a, tp, at, policy)
        != 0 || prior_value(priors, a, tp) != 0
}

/// Whether `r` is the directory of the window `all`: one entry per holder,
/// each as the fold computes it, in `(topic, agent_id)` order.
pub open spec fn is_directory(
    r: Seq<EntryView>,
    all: Seq<Trace>,
    priors: Seq<AgentThreshold>,
    at: Sequence,
    policy: DirectoryPolicy,
) -> bool {
    &&& entries_sorted(r)
    &&& forall|i: int|
        0 <= i < r.len() ==> holder(all, priors, (#[trigger] r[i]).agent, r[i].topic, at, policy)
            && r[i] == entry_for(all, priors, r[i].agent, r[i].topic, at, policy)
    &&& forall|a: Seq<char>, tp: Seq<char>|
        #[trigger] holder(all, priors, a, tp, at, policy) ==> exists|i: int|
            0 <= i < r.len() && (#[trigger] r[i]).agent == a && r[i].topic == tp
}

/// Whether prior record `k` names an agent an earlier record already named.
pub open spec fn repeats_at(priors: Seq<AgentThreshold>, k: int) -> bool {
    0 <= k < priors.len() && exists|j: int|
        0 <= j < k && (#[trigger] priors[j]).agent_id@ == priors[k].agent_id@
}

/// A specialisation that is not zero has a deposit behind it.
pub proof fn lemma_specialisation_witness(s: Seq<Trace>, a: Seq<char>, tp: Seq<char>, at: Sequence, half_life: u32)
    ensures
        specialisation_sum(s, a, tp, at, half_life) != 0 ==> exists|k: int|
            0 <= k < s.len() && by_on(#[trigger] s[k], a, tp),
    decreases s.len(),
{
    if s.len() > 0 {
        lemma_specialisation_witness(s.drop_last(), a, tp, at, half_life);
        if specialisation_sum(s.drop_last(), a, tp, at, half_life) != 0 {
            let k = choose|k: int| 0 <= k < s.drop_last().len() && by_on(#[trigger] s.drop_last()[k], a, tp);
            assert(s[k] == s.drop_last()[k]);
        } else if specialisation_term(s.last(), a, tp, at, half_life) != 0 {
            assert(by_on(s[s.len() - 1], a, tp));
        }
    }
}

/// Credit that is not zero has a citing trace behind it.
pub proof fn lemma_credit_witness(all: Seq<Trace>, s: Seq<Trace>, a: Seq<char>, tp: Seq<char>, at: Sequence, half_life: u32)
    ensures
        credit_sum(all, s, a, tp, at, half_life) != 0 ==> exists|k: int|
            0 <= k < s.len() && (#[trigger] s[k]).topic_name() == Some(tp) && credits(all, s[k], a),
    decreases s.len(),
{
    if s.len() > 0 {
        lemma_credit_witness(all, s.drop_last(), a, tp, at, half_life);
        if credit_sum(all, s.drop_last(), a, tp, at, half_life) != 0 {
            let k = choose|k: int|
                0 <= k < s.drop_last().len() && (#[trigger] s.drop_last()[k]).topic_name() == Some(tp)
                    && credits(all, s.drop_last()[k], a);
            assert(s[k] == s.drop_last()[k]);
        } else if credit_term(all, s.last(), a, tp, at, half_life) != 0 {
            assert(s[s.len() - 1].topic_name() == Some(tp));
        }
    }
}

/// A debit that is not zero has an objection behind it.
pub proof fn lemma_debit_witness(all: Seq<Trace>, s: Seq<Trace>, a: Seq<char>, tp: Seq<char>, at: Sequence, policy: DirectoryPolicy)
    ensures
        debit_sum(all, s, a, tp, at, policy) != 0 ==> exists|k: int|
            0 <= k < s.len() && (#[trigger] s[k]).target is Some && attributed(all, a, (s[k].target->0).0, tp),
    decreases s.len(),
{
    if s.len() > 0 {
        lemma_debit_witness(all, s.drop_last(), a, tp, at, policy);
        if debit_sum(all, s.drop_last(), a, tp, at, policy) != 0 {
            let k = choose|k: int|
                0 <= k < s.drop_last().len() && (#[trigger] s.drop_last()[k]).target is Some && attributed(
                    all,
                    a,
                    (s.drop_last()[k].target->0).0,
                    tp,
                );
            assert(s[k] == s.drop_last()[k]);
        } else if debit_term(all, s.last(), a, tp, at, policy) != 0 {
            assert(s[s.len() - 1].target is Some);
        }
    }
}

/// The record `prior_record` finds is one of the records, and names `a`.
pub proof fn lemma_prior_record(priors: Seq<AgentThreshold>, a: Seq<char>)
    ensures
        prior_record(priors, a) matches Some(r) ==> exists|p: int|
            0 <= p < priors.len() && #[trigger] priors[p] == r && r.agent_id@ == a,
    decreases priors.len(),
{
    if priors.len() > 0 && priors[0].agent_id@ != a {
        lemma_prior_record(priors.drop_first(), a);
        if let Some(r) = prior_record(priors.drop_first(), a) {
            let p = choose|p: int| 0 <= p < priors.drop_first().len() && #[trigger] priors.drop_first()[p] == r && r.agent_id@ == a;
            assert(priors[p + 1] == r);
        }
    } else if priors.len() > 0 {
        assert(priors[0] == prior_record(priors, a)->0);
    }
}

/// A declared relevance is declared by one entry of the list.
pub proof fn lemma_declared(affinity: Seq<(crate::trace::TopicId, u8)>, tp: Seq<char>)
    ensures
        declared_in(affinity, tp) is Some ==> exists|q: int| 0 <= q < affinity.len() && (#[trigger] affinity[q]).0@ == tp,
    decreases affinity.len(),
{
    if affinity.len() > 0 && affinity[0].0@ != tp {
        lemma_declared(affinity.drop_first(), tp);
        if declared_in(affinity.drop_first(), tp) is Some {
            let q = choose|q: int| 0 <= q < affinity.drop_first().len() && (#[trigger] affinity.drop_first()[q]).0@ == tp;
            assert(affinity[q + 1] == affinity.drop_first()[q]);
        }
    }
}

/// A holder is somebody the window or the priors name, on a topic the
/// window or the priors name.
pub proof fn lemma_holder_named(
    all: Seq<Trace>,
    priors: Seq<AgentThreshold>,
    a: Seq<char>,
    tp: Seq<char>,
    at: Sequence,
    policy: DirectoryPolicy,
)
    requires
        holder(all, priors, a, tp, at, policy),
    ensures
        (exists|k: int| 0 <= k < all.len() && (#[trigger] all[k]).agent() == Some(a)) || (exists|p: int|
            0 <= p < priors.len() && (#[trigger] priors[p]).agent_id@ == a),
        (exists|k: int| 0 <= k < all.len() && (#[trigger] all[k]).topic_name() == Some(tp)) || (exists|p: int, q: int|
            0 <= p < priors.len() && 0 <= q < priors[p].affinity@.len() && (#[trigger] priors[p].affinity@[q]).0@ == tp),
{
    lemma_specialisation_witness(all, a, tp, at, policy.half_life);
    lemma_credit_witness(all, all, a, tp, at, policy.half_life);
    lemma_debit_witness(all, all, a, tp, at, policy);
    lemma_prior_record(priors, a);
    if specialisation_sum(all, a, tp, at, policy.half_life) != 0 {
        let k = choose|k: int| 0 <= k < all.len() && by_on(#[trigger] all[k], a, tp);
        assert(all[k].agent() == Some(a));
        assert(all[k].topic_name() == Some(tp));
    } else if credit_sum(all, all, a, tp, at, policy.half_life) != 0 {
        let k = choose|k: int|
            0 <= k < all.len() && (#[trigger] all[k]).topic_name() == Some(tp) && credits(all, all[k], a);
        let j = choose|j: int| 0 <= j < all[k].cites@.len() && holds_at(all, a, (#[trigger] all[k].cites@[j]).0);
        let c = all[k].cites@[j].0;
        let m = choose|m: int| 0 <= m < all.len() && is_deposit(#[trigger] all[m]) && all[m].agent() == Some(a) && all[m].sequence.0 == c;
        assert(all[m].agent() == Some(a));
    } else if debit_sum(all, all, a, tp, at, policy) != 0 {
        let k = choose|k: int|
            0 <= k < all.len() && (#[trigger] all[k]).target is Some && attributed(all, a, (all[k].target->0).0, tp);
        let c = (all[k].target->0).0;
        let m = choose|m: int| 0 <= m < all.len() && is_deposit(#[trigger] all[m]) && all[m].agent() == Some(a) && all[m].sequence.0 == c;
        assert(all[m].agent() == Some(a));
        if exists|n: int| 0 <= n < all.len() && is_deposit(#[trigger] all[n]) && by_on(all[n], a, tp) && all[n].sequence.0 == c {
            let n = choose|n: int| 0 <= n < all.len() && is_deposit(#[trigger] all[n]) && by_on(all[n], a, tp) && all[n].sequence.0 == c;
            assert(all[n].topic_name() == Some(tp));
        } else {
            let n = choose|n: int|
                0 <= n < all.len() && (#[trigger] all[n]).agent() is Some && all[n].agent() != Some(a)
                    && all[n].topic_name() == Some(tp) && exists|j: int|
                    0 <= j < all[n].cites@.len() && (#[trigger] all[n].cites@[j]).0 == c;
            assert(all[n].topic_name() == Some(tp));
        }
    } else {
        assert(credibility_raw(all, a, tp, at, policy) == 0);
        assert(prior_value(priors, a, tp) != 0);
        let r = prior_record(priors, a)->0;
        let p = choose|p: int| 0 <= p < priors.len() && #[trigger] priors[p] == r && r.agent_id@ == a;
        lemma_declared(r.affinity@, tp);
        let q = choose|q: int| 0 <= q < r.affinity@.len() && (#[trigger] r.affinity@[q]).0@ == tp;
        assert(priors[p].affinity@[q].0@ == tp);
    }
}

} // verus!

//! The directory reads what traces say, not how each is held: two windows
//! whose traces say the same things, in the same order, fold alike.

use vstd::prelude::*;

use super::spec::{
    aged, attributed, by_on, credibility_of, credit_sum, credit_term, credits, debit_sum, debit_term, deferred,
    deposit_value, entry_for, holder, holds_at, is_deposit, is_directory, specialisation_sum, specialisation_term,
};
use super::types::{DirectoryPolicy, EntryView};
use crate::attention::AgentThreshold;
use crate::session::Sequence;
use crate::trace::{Trace, alike, lemma_alike_at, lemma_view_fields, trace_view, trace_views};

verus! {

/// Alike lists stay alike without their last trace.
proof fn lemma_alike_drop_last(x: Seq<Trace>, y: Seq<Trace>)
    requires
        alike(x, y),
        x.len() > 0,
    ensures
        alike(x.drop_last(), y.drop_last()),
        trace_view(x.last()) == trace_view(y.last()),
        x.len() == y.len(),
{
    lemma_alike_at(x, y, x.len() - 1);
    assert(trace_views(x.drop_last()) =~= trace_views(x).drop_last());
    assert(trace_views(y.drop_last()) =~= trace_views(y).drop_last());
}

/// A deposit's own specialisation term depends only on what it says.
proof fn lemma_term_alike(t: Trace, u: Trace, a: Seq<char>, tp: Seq<char>, at: Sequence, half_life: u32)
    requires
        trace_view(t) == trace_view(u),
    ensures
        deposit_value(t) == deposit_value(u),
        aged(t, at, half_life) == aged(u, at, half_life),
        is_deposit(t) == is_deposit(u),
        by_on(t, a, tp) == by_on(u, a, tp),
        specialisation_term(t, a, tp, at, half_life) == specialisation_term(u, a, tp, at, half_life),
{
    lemma_view_fields(t, u);
}

/// Specialisation sums alike over alike lists.
proof fn lemma_specialisation_alike(x: Seq<Trace>, y: Seq<Trace>, a: Seq<char>, tp: Seq<char>, at: Sequence, half_life: u32)
    requires
        alike(x, y),
    ensures
        specialisation_sum(x, a, tp, at, half_life) == specialisation_sum(y, a, tp, at, half_life),
    decreases x.len(),
{
    assert(trace_views(x).len() == trace_views(y).len());
    if x.len() > 0 {
        lemma_alike_drop_last(x, y);
        lemma_specialisation_alike(x.drop_last(), y.drop_last(), a, tp, at, half_life);
        lemma_term_alike(x.last(), y.last(), a, tp, at, half_life);
    }
}

/// Who holds a deposit at a sequence is read alike off alike windows.
proof fn lemma_holds_alike(x: Seq<Trace>, y: Seq<Trace>, a: Seq<char>, c: u64)
    requires
        alike(x, y),
    ensures
        holds_at(x, a, c) == holds_at(y, a, c),
{
    assert(trace_views(x).len() == trace_views(y).len());
    if holds_at(x, a, c) {
        let k = choose|k: int| 0 <= k < x.len() && is_deposit(#[trigger] x[k]) && x[k].agent() == Some(a) && x[k].sequence.0 == c;
        lemma_alike_at(x, y, k);
        lemma_term_alike(x[k], y[k], a, a, Sequence(0), 1);
        lemma_view_fields(x[k], y[k]);
    }
    if holds_at(y, a, c) {
        let k = choose|k: int| 0 <= k < y.len() && is_deposit(#[trigger] y[k]) && y[k].agent() == Some(a) && y[k].sequence.0 == c;
        lemma_alike_at(x, y, k);
        lemma_term_alike(x[k], y[k], a, a, Sequence(0), 1);
        lemma_view_fields(x[k], y[k]);
    }
}

/// Whether a trace credits `a` is read alike off alike windows and traces
/// that say the same thing.
proof fn lemma_credits_alike(x: Seq<Trace>, y: Seq<Trace>, t: Trace, u: Trace, a: Seq<char>)
    requires
        alike(x, y),
        trace_view(t) == trace_view(u),
    ensures
        credits(x, t, a) == credits(y, u, a),
{
    lemma_view_fields(t, u);
    assert forall|j: int| 0 <= j < t.cites@.len() implies holds_at(x, a, (#[trigger] t.cites@[j]).0) == holds_at(
        y,
        a,
        u.cites@[j].0,
    ) by {
        lemma_holds_alike(x, y, a, t.cites@[j].0);
    }
    if credits(x, t, a) {
        let j = choose|j: int| 0 <= j < t.cites@.len() && holds_at(x, a, (#[trigger] t.cites@[j]).0);
        assert(holds_at(y, a, u.cites@[j].0));
    }
    if credits(y, u, a) {
        let j = choose|j: int| 0 <= j < u.cites@.len() && holds_at(y, a, (#[trigger] u.cites@[j]).0);
        assert(holds_at(x, a, t.cites@[j].0));
    }
}

/// Credit sums alike over alike windows and alike lists.
proof fn lemma_credit_alike(
    x: Seq<Trace>,
    y: Seq<Trace>,
    s: Seq<Trace>,
    v: Seq<Trace>,
    a: Seq<char>,
    tp: Seq<char>,
    at: Sequence,
    half_life: u32,
)
    requires
        alike(x, y),
        alike(s, v),
    ensures
        credit_sum(x, s, a, tp, at, half_life) == credit_sum(y, v, a, tp, at, half_life),
    decreases s.len(),
{
    assert(trace_views(s).len() == trace_views(v).len());
    if s.len() > 0 {
        lemma_alike_drop_last(s, v);
        lemma_credit_alike(x, y, s.drop_last(), v.drop_last(), a, tp, at, half_life);
        lemma_credits_alike(x, y, s.last(), v.last(), a);
        lemma_term_alike(s.last(), v.last(), a, tp, at, half_life);
        lemma_view_fields(s.last(), v.last());
        assert(credit_term(x, s.last(), a, tp, at, half_life) == credit_term(y, v.last(), a, tp, at, half_life));
    }
}

/// Whether a deposit was read as being about a topic is read alike off
/// alike windows.
proof fn lemma_attributed_alike(x: Seq<Trace>, y: Seq<Trace>, a: Seq<char>, c: u64, tp: Seq<char>)
    requires
        alike(x, y),
    ensures
        attributed(x, a, c, tp) == attributed(y, a, c, tp),
{
    assert(trace_views(x).len() == trace_views(y).len());
    lemma_holds_alike(x, y, a, c);
    assert forall|k: int| 0 <= k < x.len() implies #[trigger] is_deposit(x[k]) == is_deposit(y[k]) && by_on(x[k], a, tp)
        == by_on(y[k], a, tp) && x[k].sequence == y[k].sequence && x[k].agent() == y[k].agent() && x[k].topic_name()
        == y[k].topic_name() && x[k].cites@ == y[k].cites@ by {
        lemma_alike_at(x, y, k);
        lemma_term_alike(x[k], y[k], a, tp, Sequence(0), 1);
        lemma_view_fields(x[k], y[k]);
    }
    let first_x = exists|k: int| 0 <= k < x.len() && is_deposit(#[trigger] x[k]) && by_on(x[k], a, tp) && x[k].sequence.0 == c;
    let first_y = exists|k: int| 0 <= k < y.len() && is_deposit(#[trigger] y[k]) && by_on(y[k], a, tp) && y[k].sequence.0 == c;
    if first_x {
        let k = choose|k: int| 0 <= k < x.len() && is_deposit(#[trigger] x[k]) && by_on(x[k], a, tp) && x[k].sequence.0 == c;
        assert(is_deposit(x[k]) == is_deposit(y[k]));
    }
    if first_y {
        let k = choose|k: int| 0 <= k < y.len() && is_deposit(#[trigger] y[k]) && by_on(y[k], a, tp) && y[k].sequence.0 == c;
        assert(is_deposit(x[k]) == is_deposit(y[k]));
    }
    let second_x = exists|k: int|
        0 <= k < x.len() && (#[trigger] x[k]).agent() is Some && x[k].agent() != Some(a) && x[k].topic_name() == Some(tp)
            && exists|j: int| 0 <= j < x[k].cites@.len() && (#[trigger] x[k].cites@[j]).0 == c;
    let second_y = exists|k: int|
        0 <= k < y.len() && (#[trigger] y[k]).agent() is Some && y[k].agent() != Some(a) && y[k].topic_name() == Some(tp)
            && exists|j: int| 0 <= j < y[k].cites@.len() && (#[trigger] y[k].cites@[j]).0 == c;
    if second_x {
        let k = choose|k: int|
            0 <= k < x.len() && (#[trigger] x[k]).agent() is Some && x[k].agent() != Some(a) && x[k].topic_name() == Some(tp)
                && exists|j: int| 0 <= j < x[k].cites@.len() && (#[trigger] x[k].cites@[j]).0 == c;
        assert(is_deposit(x[k]) == is_deposit(y[k]));
        let j = choose|j: int| 0 <= j < x[k].cites@.len() && (#[trigger] x[k].cites@[j]).0 == c;
        assert(y[k].cites@[j].0 == c);
    }
    if second_y {
        let k = choose|k: int|
            0 <= k < y.len() && (#[trigger] y[k]).agent() is Some && y[k].agent() != Some(a) && y[k].topic_name() == Some(tp)
                && exists|j: int| 0 <= j < y[k].cites@.len() && (#[trigger] y[k].cites@[j]).0 == c;
        assert(is_deposit(x[k]) == is_deposit(y[k]));
        let j = choose|j: int| 0 <= j < y[k].cites@.len() && (#[trigger] y[k].cites@[j]).0 == c;
        assert(x[k].cites@[j].0 == c);
    }
}

/// Debit sums alike over alike windows and alike lists.
proof fn lemma_debit_alike(
    x: Seq<Trace>,
    y: Seq<Trace>,
    s: Seq<Trace>,
    v: Seq<Trace>,
    a: Seq<char>,
    tp: Seq<char>,
    at: Sequence,
    policy: DirectoryPolicy,
)
    requires
        alike(x, y),
        alike(s, v),
    ensures
        debit_sum(x, s, a, tp, at, policy) == debit_sum(y, v, a, tp, at, policy),
    decreases s.len(),
{
    assert(trace_views(s).len() == trace_views(v).len());
    if s.len() > 0 {
        lemma_alike_drop_last(s, v);
        lemma_debit_alike(x, y, s.drop_last(), v.drop_last(), a, tp, at, policy);
        let o = s.last();
        let p = v.last();
        lemma_view_fields(o, p);
        lemma_term_alike(o, p, a, tp, at, policy.half_life);
        if o.target is Some {
            lemma_attributed_alike(x, y, a, (o.target->0).0, tp);
        }
        assert(debit_term(x, o, a, tp, at, policy) == debit_term(y, p, a, tp, at, policy));
    }
}

/// Whether a member deferred a topic is read alike off alike windows.
proof fn lemma_deferred_alike(x: Seq<Trace>, y: Seq<Trace>, a: Seq<char>, tp: Seq<char>)
    requires
        alike(x, y),
    ensures
        deferred(x, a, tp) == deferred(y, a, tp),
{
    assert(trace_views(x).len() == trace_views(y).len());
    if deferred(x, a, tp) {
        let k = choose|k: int| 0 <= k < x.len() && (#[trigger] x[k]).kind == crate::trace::TraceKind::Defer && by_on(x[k], a, tp);
        lemma_alike_at(x, y, k);
        lemma_term_alike(x[k], y[k], a, tp, Sequence(0), 1);
        lemma_view_fields(x[k], y[k]);
    }
    if deferred(y, a, tp) {
        let k = choose|k: int| 0 <= k < y.len() && (#[trigger] y[k]).kind == crate::trace::TraceKind::Defer && by_on(y[k], a, tp);
        lemma_alike_at(x, y, k);
        lemma_term_alike(x[k], y[k], a, tp, Sequence(0), 1);
        lemma_view_fields(x[k], y[k]);
    }
}

/// Two windows whose traces say the same things admit the same directory.
pub proof fn lemma_directory_alike(
    x: Seq<Trace>,
    y: Seq<Trace>,
    priors: Seq<AgentThreshold>,
    at: Sequence,
    policy: DirectoryPolicy,
)
    requires
        alike(x, y),
    ensures
        forall|r: Seq<EntryView>| #[trigger] is_directory(r, x, priors, at, policy) == is_directory(r, y, priors, at, policy),
{
    assert forall|a: Seq<char>, tp: Seq<char>|
        #[trigger] holder(x, priors, a, tp, at, policy) == holder(y, priors, a, tp, at, policy) && entry_for(
            x,
            priors,
            a,
            tp,
            at,
            policy,
        ) == entry_for(y, priors, a, tp, at, policy) by {
        lemma_specialisation_alike(x, y, a, tp, at, policy.half_life);
        lemma_credit_alike(x, y, x, y, a, tp, at, policy.half_life);
        lemma_debit_alike(x, y, x, y, a, tp, at, policy);
        lemma_deferred_alike(x, y, a, tp);
        assert(credibility_of(x, a, tp, at, policy) == credibility_of(y, a, tp, at, policy));
    }
    assert forall|r: Seq<EntryView>| #[trigger] is_directory(r, x, priors, at, policy) == is_directory(r, y, priors, at, policy) by {
        if is_directory(r, x, priors, at, policy) {
            assert forall|a: Seq<char>, tp: Seq<char>| #[trigger] holder(y, priors, a, tp, at, policy) implies exists|i: int|
                0 <= i < r.len() && (#[trigger] r[i]).agent == a && r[i].topic == tp by {
                assert(holder(x, priors, a, tp, at, policy));
            }
            assert forall|i: int| 0 <= i < r.len() implies holder(y, priors, (#[trigger] r[i]).agent, r[i].topic, at, policy)
                && r[i] == entry_for(y, priors, r[i].agent, r[i].topic, at, policy) by {
                assert(holder(x, priors, r[i].agent, r[i].topic, at, policy));
            }
        }
        if is_directory(r, y, priors, at, policy) {
            assert forall|a: Seq<char>, tp: Seq<char>| #[trigger] holder(x, priors, a, tp, at, policy) implies exists|i: int|
                0 <= i < r.len() && (#[trigger] r[i]).agent == a && r[i].topic == tp by {
                assert(holder(y, priors, a, tp, at, policy));
            }
            assert forall|i: int| 0 <= i < r.len() implies holder(x, priors, (#[trigger] r[i]).agent, r[i].topic, at, policy)
                && r[i] == entry_for(x, priors, r[i].agent, r[i].topic, at, policy) by {
                assert(holder(y, priors, r[i].agent, r[i].topic, at, policy));
            }
        }
    }
}

} // verus!

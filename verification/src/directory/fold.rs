//! The directory fold.

use vstd::prelude::*;

use super::spec::{
    lemma_holder_named, aged, attributed, by_on, credibility_of, credibility_raw, credit_sum, credit_term, credits,
    debit_sum, debit_term, deferred, deposit_value, entry_for, holder, holds_at, is_deposit,
    is_directory, prior_record, prior_value, repeats_at, specialisation_sum, specialisation_term,
    weigh_value,
};
use super::types::{
    Directory, DirectoryEntry, DirectoryPolicy, EntryView, WEIGHT_CEILING, entries_sorted, entry_lt,
    entry_views, weights_in_range,
};
use crate::attention::{AgentThreshold, declared_in};
use crate::error::{Error, Result};
use crate::names::{names, same_text};
use crate::order::{ascending_names, insert_name, text_lt};
use crate::quorum::indexes;
use crate::salience::{decay, decay_value, distance_back};
use crate::session::Sequence;
use crate::trace::{TopicId, Trace, TraceKind};
use crate::window::{picked, window_indices, window_of};

verus! {

/// The largest transcript the directory's fixed-point sums are sized for.
pub open spec fn directory_capacity() -> int {
    1_000_000_000_000
}

/// What `directory` returns: the first policy or prior error, else the
/// directory of the window.
pub open spec fn directory_outcome(
    result: Result<Directory>,
    traces: Seq<Trace>,
    at: Sequence,
    policy: DirectoryPolicy,
    priors: Seq<AgentThreshold>,
) -> bool {
    if policy.half_life == 0 {
        result == Err::<Directory, Error>(Error::ZeroDirectoryHalfLife)
    } else if policy.window == 0 {
        result == Err::<Directory, Error>(Error::ZeroDirectoryWindow)
    } else if exists|k: int| repeats_at(priors, k) {
        exists|k: int|
            repeats_at(priors, k) && (forall|m: int| 0 <= m < k ==> !repeats_at(priors, m))
                && result == Err::<Directory, Error>(
                Error::DuplicateAgentThreshold { agent_id: priors[k].agent_id },
            )
    } else {
        result matches Ok(d) && is_directory(d@, window_of(traces, at.0, policy.window), priors, at, policy)
    }
}

/// What one trace put on the floor.
fn deposit(t: &Trace) -> (value: i64)
    ensures
        value == deposit_value(*t),
{
    match t.kind {
        TraceKind::Evidence => 1000,
        TraceKind::Propose | TraceKind::Support | TraceKind::Refute => if t.grounded() {
            600
        } else {
            0
        },
        _ => 0,
    }
}

/// The decay curve applied to a trace's age.
fn aged_at(t: &Trace, at: Sequence, half_life: u32) -> (value: i64)
    requires
        half_life > 0,
    ensures
        value == aged(*t, at, half_life),
        0 <= value <= 1000,
{
    decay(at.0.saturating_sub(t.sequence.0), half_life)
}

/// Whether agent `a` wrote `t`.
fn written_by(t: &Trace, a: &str) -> (by: bool)
    ensures
        by == (t.agent() == Some(a@)),
{
    match t.agent_id() {
        Some(x) => same_text(x, a),
        None => false,
    }
}

/// Whether `t` names `tp`.
fn about(t: &Trace, tp: &TopicId) -> (named: bool)
    ensures
        named == (t.topic_name() == Some(tp@)),
{
    match &t.topic {
        Some(x) => x.same(tp),
        None => false,
    }
}

/// Whether `t` cites row `c`.
fn cites_row(t: &Trace, c: u64) -> (found: bool)
    ensures
        found == exists|j: int| 0 <= j < t.cites@.len() && (#[trigger] t.cites@[j]).0 == c,
{
    let mut j: usize = 0;
    while j < t.cites.len()
        invariant
            j <= t.cites@.len(),
            forall|m: int| 0 <= m < j ==> (#[trigger] t.cites@[m]).0 != c,
        decreases t.cites@.len() - j,
    {
        if t.cites[j].0 == c {
            return true;
        }
        j = j + 1;
    }
    false
}

/// Decayed weight of `a`'s deposits on `tp` in the window.
fn specialisation(
    traces: &[Trace],
    live: &Vec<usize>,
    a: &str,
    tp: &TopicId,
    at: Sequence,
    half_life: u32,
) -> (value: i64)
    requires
        indexes(traces@, live@),
        live@.len() <= directory_capacity(),
        half_life > 0,
    ensures
        value == specialisation_sum(picked(traces@, live@), a@, tp@, at, half_life),
        0 <= value <= 1000 * live@.len(),
{
    let ghost l = picked(traces@, live@);
    let mut acc: i64 = 0;
    let mut k: usize = 0;
    while k < live.len()
        invariant
            k <= live@.len(),
            l == picked(traces@, live@),
            indexes(traces@, live@),
            live@.len() <= directory_capacity(),
            half_life > 0,
            acc == specialisation_sum(l.take(k as int), a@, tp@, at, half_life),
            0 <= acc <= 1000 * k,
        decreases live@.len() - k,
    {
        let t = &traces[live[k]];
        assert(l[k as int] == *t);
        assert(l.take(k + 1).drop_last() =~= l.take(k as int));
        let value = deposit(t);
        if value > 0 && written_by(t, a) && about(t, tp) {
            let d = aged_at(t, at, half_life);
            assert(0 <= value * d <= 1000000) by (nonlinear_arith)
                requires
                    0 <= value <= 1000,
                    0 <= d <= 1000,
            ;
            let term = value * d / 1000;
            acc = acc + term;
        }
        k = k + 1;
    }
    assert(l.take(live@.len() as int) =~= l);
    acc
}

/// Whether `a` made a deposit at row `c` in the window.
fn holds(traces: &[Trace], live: &Vec<usize>, a: &str, c: u64) -> (found: bool)
    requires
        indexes(traces@, live@),
    ensures
        found == holds_at(picked(traces@, live@), a@, c),
{
    let ghost l = picked(traces@, live@);
    let mut k: usize = 0;
    while k < live.len()
        invariant
            k <= live@.len(),
            l == picked(traces@, live@),
            indexes(traces@, live@),
            forall|m: int|
                0 <= m < k ==> !(is_deposit(#[trigger] l[m]) && l[m].agent() == Some(a@) && l[m].sequence.0
                    == c),
        decreases live@.len() - k,
    {
        let t = &traces[live[k]];
        assert(l[k as int] == *t);
        if deposit(t) > 0 && written_by(t, a) && t.sequence.0 == c {
            return true;
        }
        k = k + 1;
    }
    false
}

/// Whether `t`, written by somebody else, cites a deposit of `a`.
fn credits_member(traces: &[Trace], live: &Vec<usize>, t: &Trace, a: &str) -> (credited: bool)
    requires
        indexes(traces@, live@),
    ensures
        credited == credits(picked(traces@, live@), *t, a@),
{
    match t.agent_id() {
        None => false,
        Some(author) => {
            if same_text(author, a) {
                return false;
            }
            let mut j: usize = 0;
            while j < t.cites.len()
                invariant
                    j <= t.cites@.len(),
                    indexes(traces@, live@),
                    t.agent() is Some,
                    t.agent() != Some(a@),
                    forall|m: int|
                        0 <= m < j ==> !holds_at(picked(traces@, live@), a@, (#[trigger] t.cites@[m]).0),
                decreases t.cites@.len() - j,
            {
                if holds(traces, live, a, t.cites[j].0) {
                    assert(holds_at(picked(traces@, live@), a@, t.cites@[j as int].0));
                    return true;
                }
                j = j + 1;
            }
            false
        },
    }
}

/// Decayed citations of `a` by other members on `tp`.
fn credit_total(
    traces: &[Trace],
    live: &Vec<usize>,
    a: &str,
    tp: &TopicId,
    at: Sequence,
    half_life: u32,
) -> (value: i64)
    requires
        indexes(traces@, live@),
        live@.len() <= directory_capacity(),
        half_life > 0,
    ensures
        value == credit_sum(picked(traces@, live@), picked(traces@, live@), a@, tp@, at, half_life),
        0 <= value <= 1000 * live@.len(),
{
    let ghost l = picked(traces@, live@);
    let mut acc: i64 = 0;
    let mut k: usize = 0;
    while k < live.len()
        invariant
            k <= live@.len(),
            l == picked(traces@, live@),
            indexes(traces@, live@),
            live@.len() <= directory_capacity(),
            half_life > 0,
            acc == credit_sum(l, l.take(k as int), a@, tp@, at, half_life),
            0 <= acc <= 1000 * k,
        decreases live@.len() - k,
    {
        let t = &traces[live[k]];
        assert(l[k as int] == *t);
        assert(l.take(k + 1).drop_last() =~= l.take(k as int));
        if about(t, tp) && credits_member(traces, live, t, a) {
            acc = acc + aged_at(t, at, half_life);
        }
        k = k + 1;
    }
    assert(l.take(live@.len() as int) =~= l);
    acc
}

/// Whether `a`'s deposit at row `c` was read as being about `tp`.
fn attributed_to(traces: &[Trace], live: &Vec<usize>, a: &str, c: u64, tp: &TopicId) -> (read_as: bool)
    requires
        indexes(traces@, live@),
    ensures
        read_as == attributed(picked(traces@, live@), a@, c, tp@),
{
    let ghost l = picked(traces@, live@);
    if !holds(traces, live, a, c) {
        return false;
    }
    let mut k: usize = 0;
    while k < live.len()
        invariant
            k <= live@.len(),
            l == picked(traces@, live@),
            indexes(traces@, live@),
            holds_at(l, a@, c),
            forall|m: int|
                0 <= m < k ==> !(is_deposit(#[trigger] l[m]) && by_on(l[m], a@, tp@) && l[m].sequence.0
                    == c),
            forall|m: int|
                0 <= m < k ==> !((#[trigger] l[m]).agent() is Some && l[m].agent() != Some(a@)
                    && l[m].topic_name() == Some(tp@) && exists|j: int|
                    0 <= j < l[m].cites@.len() && (#[trigger] l[m].cites@[j]).0 == c),
        decreases live@.len() - k,
    {
        let t = &traces[live[k]];
        assert(l[k as int] == *t);
        if deposit(t) > 0 && written_by(t, a) && about(t, tp) && t.sequence.0 == c {
            return true;
        }
        let other = match t.agent_id() {
            Some(x) => !same_text(x, a),
            None => false,
        };
        if other && about(t, tp) && cites_row(t, c) {
            proof {
                let j = choose|j: int| 0 <= j < t.cites@.len() && (#[trigger] t.cites@[j]).0 == c;
                assert(l[k as int].cites@[j].0 == c);
            }
            return true;
        }
        k = k + 1;
    }
    false
}

/// Objections aimed at `a`'s deposits read as being about `tp`.
fn debit_total(
    traces: &[Trace],
    live: &Vec<usize>,
    a: &str,
    tp: &TopicId,
    at: Sequence,
    policy: &DirectoryPolicy,
) -> (value: i64)
    requires
        indexes(traces@, live@),
        live@.len() <= directory_capacity(),
        policy.half_life > 0,
    ensures
        value == debit_sum(picked(traces@, live@), picked(traces@, live@), a@, tp@, at, *policy),
        0 <= value <= 6553500 * live@.len(),
{
    let ghost l = picked(traces@, live@);
    let mut acc: i64 = 0;
    let mut k: usize = 0;
    while k < live.len()
        invariant
            k <= live@.len(),
            l == picked(traces@, live@),
            indexes(traces@, live@),
            live@.len() <= directory_capacity(),
            policy.half_life > 0,
            acc == debit_sum(l, l.take(k as int), a@, tp@, at, *policy),
            0 <= acc <= 6553500 * k,
        decreases live@.len() - k,
    {
        let o = &traces[live[k]];
        assert(l[k as int] == *o);
        assert(l.take(k + 1).drop_last() =~= l.take(k as int));
        let other = match o.agent_id() {
            Some(x) => !same_text(x, a),
            None => false,
        };
        if o.kind == TraceKind::Object && other {
            match o.target {
                Some(target) => {
                    if attributed_to(traces, live, a, target.0, tp) {
                        let d = aged_at(o, at, policy.half_life);
                        let discredit = policy.discredit as i64;
                        assert(0 <= discredit * 1000 * d <= 65535000000) by (nonlinear_arith)
                            requires
                                0 <= discredit <= 65535,
                                0 <= d <= 1000,
                        ;
                        let term = discredit * 1000 * d / 10000;
                        acc = acc + term;
                    }
                },
                None => {},
            }
        }
        k = k + 1;
    }
    assert(l.take(live@.len() as int) =~= l);
    acc
}

/// The host's declared affinity of `a` for `tp`, in thousandths.
fn prior_of(priors: &[AgentThreshold], a: &str, tp: &TopicId) -> (value: i64)
    ensures
        value == prior_value(priors@, a@, tp@),
        0 <= value <= 1000,
{
    let mut i: usize = 0;
    assert(priors@.skip(0) =~= priors@);
    while i < priors.len()
        invariant
            i <= priors@.len(),
            prior_record(priors@, a@) == prior_record(priors@.skip(i as int), a@),
        decreases priors@.len() - i,
    {
        assert(priors@.skip(i as int).drop_first() =~= priors@.skip(i + 1));
        assert(priors@.skip(i as int)[0] == priors@[i as int]);
        if same_text(priors[i].agent_id.as_str(), a) {
            return match priors[i].declared_relevance(tp) {
                None => 0,
                Some(v) => (if v > 100 {
                    100
                } else {
                    v as i64
                }) * 10,
            };
        }
        i = i + 1;
    }
    0
}

/// Whether `a` deferred `tp` in the window.
fn deferred_in(traces: &[Trace], live: &Vec<usize>, a: &str, tp: &TopicId) -> (found: bool)
    requires
        indexes(traces@, live@),
    ensures
        found == deferred(picked(traces@, live@), a@, tp@),
{
    let ghost l = picked(traces@, live@);
    let mut k: usize = 0;
    while k < live.len()
        invariant
            k <= live@.len(),
            l == picked(traces@, live@),
            indexes(traces@, live@),
            forall|m: int| 0 <= m < k ==> !((#[trigger] l[m]).kind == TraceKind::Defer && by_on(l[m], a@, tp@)),
        decreases live@.len() - k,
    {
        let t = &traces[live[k]];
        assert(l[k as int] == *t);
        if t.kind == TraceKind::Defer && written_by(t, a) && about(t, tp) {
            return true;
        }
        k = k + 1;
    }
    false
}

/// Combine the three terms into one clamped weight.
fn weigh(specialisation: i64, credibility: i64, prior: i64, policy: &DirectoryPolicy) -> (weight: i64)
    requires
        0 <= specialisation <= 1_000_000_000_000_000,
        0 <= credibility <= 1_000_000_000_000_000,
        0 <= prior <= 1000,
    ensures
        weight == weigh_value(specialisation as int, credibility as int, prior as int, *policy),
{
    let s = specialisation as i128;
    let c = credibility as i128;
    let p = prior as i128;
    let ps = policy.specialisation as i128;
    let pc = policy.credibility as i128;
    let pp = policy.prior as i128;
    assert(0 <= s * ps <= 1_000_000_000_000_000 * 65535) by (nonlinear_arith)
        requires
            0 <= s <= 1_000_000_000_000_000,
            0 <= ps <= 65535,
    ;
    assert(0 <= c * pc <= 1_000_000_000_000_000 * 65535) by (nonlinear_arith)
        requires
            0 <= c <= 1_000_000_000_000_000,
            0 <= pc <= 65535,
    ;
    assert(0 <= p * pp <= 1000 * 65535) by (nonlinear_arith)
        requires
            0 <= p <= 1000,
            0 <= pp <= 65535,
    ;
    let total = s * ps + c * pc + p * pp;
    let w = total / 10;
    if w > 1_000_000 {
        1_000_000
    } else if w < 0 {
        0
    } else {
        w as i64
    }
}

/// The entry the fold makes for `a` on `tp`, unless no term scored them.
fn entry_of(
    traces: &[Trace],
    live: &Vec<usize>,
    priors: &[AgentThreshold],
    a: &str,
    tp: &TopicId,
    at: Sequence,
    policy: &DirectoryPolicy,
) -> (entry: Option<DirectoryEntry>)
    requires
        indexes(traces@, live@),
        live@.len() <= directory_capacity(),
        policy.half_life > 0,
    ensures
        match entry {
            Some(e) => holder(picked(traces@, live@), priors@, a@, tp@, at, *policy) && e@ == entry_for(
                picked(traces@, live@),
                priors@,
                a@,
                tp@,
                at,
                *policy,
            ),
            None => !holder(picked(traces@, live@), priors@, a@, tp@, at, *policy),
        },
{
    let s = specialisation(traces, live, a, tp, at, policy.half_life);
    let plus = credit_total(traces, live, a, tp, at, policy.half_life);
    let minus = debit_total(traces, live, a, tp, at, policy);
    let raw = plus - minus;
    let c = if raw > 0 {
        raw
    } else {
        0
    };
    let p = prior_of(priors, a, tp);
    if s == 0 && c == 0 && p == 0 {
        return None;
    }
    let weight = if deferred_in(traces, live, a, tp) {
        0
    } else {
        weigh(s, c, p, policy)
    };
    Some(
        DirectoryEntry {
            agent_id: a.to_owned(),
            topic: tp.duplicate(),
            specialisation: s,
            credibility: c,
            weight,
        },
    )
}

/// Every agent the window or the priors name, ascending and distinct.
fn agent_names(traces: &[Trace], live: &Vec<usize>, priors: &[AgentThreshold]) -> (v: Vec<String>)
    requires
        indexes(traces@, live@),
    ensures
        ascending_names(names(v@)),
        forall|k: int|
            0 <= k < live@.len() && (#[trigger] picked(traces@, live@)[k]).agent() is Some ==> names(
                v@,
            ).contains(picked(traces@, live@)[k].agent()->0),
        forall|p: int| 0 <= p < priors@.len() ==> names(v@).contains((#[trigger] priors@[p]).agent_id@),
{
    let ghost l = picked(traces@, live@);
    let mut v: Vec<String> = Vec::new();
    let mut k: usize = 0;
    while k < live.len()
        invariant
            k <= live@.len(),
            l == picked(traces@, live@),
            indexes(traces@, live@),
            ascending_names(names(v@)),
            forall|m: int|
                0 <= m < k && (#[trigger] l[m]).agent() is Some ==> names(v@).contains(l[m].agent()->0),
        decreases live@.len() - k,
    {
        let t = &traces[live[k]];
        assert(l[k as int] == *t);
        match t.agent_id() {
            Some(a) => {
                let ghost before = names(v@);
                insert_name(&mut v, a);
                assert forall|m: int|
                    0 <= m < k + 1 && (#[trigger] l[m]).agent() is Some implies names(v@).contains(
                    l[m].agent()->0,
                ) by {
                    if m < k {
                        assert(before.contains(l[m].agent()->0));
                    }
                }
            },
            None => {},
        }
        k = k + 1;
    }
    let mut p: usize = 0;
    while p < priors.len()
        invariant
            p <= priors@.len(),
            l == picked(traces@, live@),
            ascending_names(names(v@)),
            forall|m: int|
                0 <= m < live@.len() && (#[trigger] l[m]).agent() is Some ==> names(v@).contains(
                    l[m].agent()->0,
                ),
            forall|q: int| 0 <= q < p ==> names(v@).contains((#[trigger] priors@[q]).agent_id@),
        decreases priors@.len() - p,
    {
        let ghost before = names(v@);
        insert_name(&mut v, priors[p].agent_id.as_str());
        assert forall|m: int|
            0 <= m < live@.len() && (#[trigger] l[m]).agent() is Some implies names(v@).contains(
            l[m].agent()->0,
        ) by {
            assert(before.contains(l[m].agent()->0));
        }
        assert forall|q: int| 0 <= q < p + 1 implies names(v@).contains((#[trigger] priors@[q]).agent_id@) by {
            if q < p {
                assert(before.contains(priors@[q].agent_id@));
            }
        }
        p = p + 1;
    }
    v
}

/// Every topic the window or the priors name, ascending and distinct.
fn topic_names(traces: &[Trace], live: &Vec<usize>, priors: &[AgentThreshold]) -> (v: Vec<String>)
    requires
        indexes(traces@, live@),
    ensures
        ascending_names(names(v@)),
        forall|k: int|
            0 <= k < live@.len() && (#[trigger] picked(traces@, live@)[k]).topic_name() is Some ==> names(
                v@,
            ).contains(picked(traces@, live@)[k].topic_name()->0),
        forall|p: int, q: int|
            0 <= p < priors@.len() && 0 <= q < priors@[p].affinity@.len() ==> names(v@).contains(
                (#[trigger] priors@[p].affinity@[q]).0@,
            ),
{
    let ghost l = picked(traces@, live@);
    let mut v: Vec<String> = Vec::new();
    let mut k: usize = 0;
    while k < live.len()
        invariant
            k <= live@.len(),
            l == picked(traces@, live@),
            indexes(traces@, live@),
            ascending_names(names(v@)),
            forall|m: int|
                0 <= m < k && (#[trigger] l[m]).topic_name() is Some ==> names(v@).contains(
                    l[m].topic_name()->0,
                ),
        decreases live@.len() - k,
    {
        let t = &traces[live[k]];
        assert(l[k as int] == *t);
        match &t.topic {
            Some(tp) => {
                let ghost before = names(v@);
                insert_name(&mut v, tp.as_str());
                assert forall|m: int|
                    0 <= m < k + 1 && (#[trigger] l[m]).topic_name() is Some implies names(v@).contains(
                    l[m].topic_name()->0,
                ) by {
                    if m < k {
                        assert(before.contains(l[m].topic_name()->0));
                    }
                }
            },
            None => {},
        }
        k = k + 1;
    }
    let mut p: usize = 0;
    while p < priors.len()
        invariant
            p <= priors@.len(),
            l == picked(traces@, live@),
            ascending_names(names(v@)),
            forall|m: int|
                0 <= m < live@.len() && (#[trigger] l[m]).topic_name() is Some ==> names(v@).contains(
                    l[m].topic_name()->0,
                ),
            forall|x: int, q: int|
                0 <= x < p && 0 <= q < priors@[x].affinity@.len() ==> names(v@).contains(
                    (#[trigger] priors@[x].affinity@[q]).0@,
                ),
        decreases priors@.len() - p,
    {
        let mut q: usize = 0;
        while q < priors[p].affinity.len()
            invariant
                p < priors@.len(),
                q <= priors@[p as int].affinity@.len(),
                l == picked(traces@, live@),
                ascending_names(names(v@)),
                forall|m: int|
                    0 <= m < live@.len() && (#[trigger] l[m]).topic_name() is Some ==> names(v@).contains(
                        l[m].topic_name()->0,
                    ),
                forall|x: int, y: int|
                    0 <= x < p && 0 <= y < priors@[x].affinity@.len() ==> names(v@).contains(
                        (#[trigger] priors@[x].affinity@[y]).0@,
                    ),
                forall|y: int|
                    0 <= y < q ==> names(v@).contains((#[trigger] priors@[p as int].affinity@[y]).0@),
            decreases priors@[p as int].affinity@.len() - q,
        {
            let ghost before = names(v@);
            insert_name(&mut v, priors[p].affinity[q].0.as_str());
            assert forall|m: int|
                0 <= m < live@.len() && (#[trigger] l[m]).topic_name() is Some implies names(v@).contains(
                l[m].topic_name()->0,
            ) by {
                assert(before.contains(l[m].topic_name()->0));
            }
            assert forall|x: int, y: int|
                0 <= x < p && 0 <= y < priors@[x].affinity@.len() implies names(v@).contains(
                (#[trigger] priors@[x].affinity@[y]).0@,
            ) by {
                assert(before.contains(priors@[x].affinity@[y].0@));
            }
            assert forall|y: int| 0 <= y < q + 1 implies names(v@).contains(
                (#[trigger] priors@[p as int].affinity@[y]).0@,
            ) by {
                if y < q {
                    assert(before.contains(priors@[p as int].affinity@[y].0@));
                }
            }
            q = q + 1;
        }
        p = p + 1;
    }
    v
}

/// Entry `e` sits at position `p` of the lists, before `(x, y)`.
spec fn placed_at(e: EntryView, p: (int, int), agents: Seq<Seq<char>>, topics: Seq<Seq<char>>, x: int, y: int) -> bool {
    &&& 0 <= p.0
    &&& p.0 < topics.len()
    &&& 0 <= p.1
    &&& p.1 < agents.len()
    &&& e.topic == topics[p.0]
    &&& e.agent == agents[p.1]
    &&& (p.0 < x || (p.0 == x && p.1 < y))
}

/// Entries placed along the topic and agent lists, each at a `(topic,
/// agent)` position before `(x, y)`, positions strictly increasing.
spec fn laid_out(
    e: Seq<EntryView>,
    pos: Seq<(int, int)>,
    agents: Seq<Seq<char>>,
    topics: Seq<Seq<char>>,
    x: int,
    y: int,
) -> bool {
    &&& pos.len() == e.len()
    &&& forall|i: int|
        #![trigger e[i]]
        0 <= i < e.len() ==> placed_at(e[i], pos[i], agents, topics, x, y)
    &&& forall|i: int, j: int|
        #![trigger pos[i], pos[j]]
        0 <= i < j < e.len() ==> (pos[i].0 < pos[j].0 || (pos[i].0 == pos[j].0 && pos[i].1 < pos[j].1))
}

/// Every holder at a position before `(x, y)` has an entry.
spec fn covered(
    e: Seq<EntryView>,
    agents: Seq<Seq<char>>,
    topics: Seq<Seq<char>>,
    all: Seq<Trace>,
    priors: Seq<AgentThreshold>,
    at: Sequence,
    policy: DirectoryPolicy,
    x: int,
    y: int,
) -> bool {
    forall|t: int, u: int|
        0 <= t < topics.len() && 0 <= u < agents.len() && (t < x || (t == x && u < y)) && #[trigger] holder(
            all,
            priors,
            agents[u],
            topics[t],
            at,
            policy,
        ) ==> exists|i: int| 0 <= i < e.len() && (#[trigger] e[i]).agent == agents[u] && e[i].topic == topics[t]
}

/// Entries each as the fold computes them for a holder.
spec fn computed(
    e: Seq<EntryView>,
    all: Seq<Trace>,
    priors: Seq<AgentThreshold>,
    at: Sequence,
    policy: DirectoryPolicy,
) -> bool {
    forall|i: int|
        0 <= i < e.len() ==> holder(all, priors, (#[trigger] e[i]).agent, e[i].topic, at, policy) && e[i]
            == entry_for(all, priors, e[i].agent, e[i].topic, at, policy)
}

/// Laid out along ascending lists, the entries are sorted.
proof fn lemma_laid_out_sorted(
    e: Seq<EntryView>,
    pos: Seq<(int, int)>,
    agents: Seq<Seq<char>>,
    topics: Seq<Seq<char>>,
    x: int,
    y: int,
)
    requires
        laid_out(e, pos, agents, topics, x, y),
        ascending_names(agents),
        ascending_names(topics),
    ensures
        entries_sorted(e),
{
    assert forall|i: int, j: int| 0 <= i < j < e.len() implies entry_lt(#[trigger] e[i], #[trigger] e[j]) by {
        let pi = pos[i];
        let pj = pos[j];
        assert(pi.0 < pj.0 || (pi.0 == pj.0 && pi.1 < pj.1));
        let ei = e[i];
        let ej = e[j];
        assert(placed_at(ei, pi, agents, topics, x, y));
        assert(placed_at(ej, pj, agents, topics, x, y));
        assert(ei.topic == topics[pi.0]);
        assert(ej.topic == topics[pj.0]);
        assert(ei.agent == agents[pi.1]);
        assert(ej.agent == agents[pj.1]);
        if pi.0 < pj.0 {
            let (ta, tb) = (topics[pi.0], topics[pj.0]);
            assert(text_lt(ta, tb));
        } else {
            let (aa, ab) = (agents[pi.1], agents[pj.1]);
            assert(text_lt(aa, ab));
        }
    }
}

/// Computed entries carry weights in range.
proof fn lemma_computed_in_range(
    e: Seq<EntryView>,
    all: Seq<Trace>,
    priors: Seq<AgentThreshold>,
    at: Sequence,
    policy: DirectoryPolicy,
)
    requires
        computed(e, all, priors, at, policy),
    ensures
        weights_in_range(e),
{
    assert forall|i: int| 0 <= i < e.len() implies 0 <= (#[trigger] e[i]).weight <= WEIGHT_CEILING by {
        assert(e[i] == entry_for(all, priors, e[i].agent, e[i].topic, at, policy));
    }
}

/// Whether `now` is `before` with the entry for position `(ti, ai)` made,
/// if it is a holder's.
spec fn placed(
    before: Seq<EntryView>,
    now: Seq<EntryView>,
    pos_before: Seq<(int, int)>,
    pos_now: Seq<(int, int)>,
    an: Seq<Seq<char>>,
    tn: Seq<Seq<char>>,
    l: Seq<Trace>,
    priors: Seq<AgentThreshold>,
    at: Sequence,
    policy: DirectoryPolicy,
    ti: int,
    ai: int,
) -> bool {
    ||| (holder(l, priors, an[ai], tn[ti], at, policy) && now == before.push(
        entry_for(l, priors, an[ai], tn[ti], at, policy),
    ) && pos_now == pos_before.push((ti, ai)))
    ||| (!holder(l, priors, an[ai], tn[ti], at, policy) && now == before && pos_now == pos_before)
}

/// Placing the next position keeps every holder before it covered.
proof fn lemma_place_covered(
    before: Seq<EntryView>,
    now: Seq<EntryView>,
    pos_before: Seq<(int, int)>,
    pos_now: Seq<(int, int)>,
    an: Seq<Seq<char>>,
    tn: Seq<Seq<char>>,
    l: Seq<Trace>,
    priors: Seq<AgentThreshold>,
    at: Sequence,
    policy: DirectoryPolicy,
    ti: int,
    ai: int,
)
    requires
        0 <= ti < tn.len(),
        0 <= ai < an.len(),
        covered(before, an, tn, l, priors, at, policy, ti, ai),
        placed(before, now, pos_before, pos_now, an, tn, l, priors, at, policy, ti, ai),
    ensures
        covered(now, an, tn, l, priors, at, policy, ti, ai + 1),
{
    assert forall|t: int, u: int|
        0 <= t < tn.len() && 0 <= u < an.len() && (t < ti || (t == ti && u < ai + 1))
            && #[trigger] holder(l, priors, an[u], tn[t], at, policy) implies exists|i: int|
        0 <= i < now.len() && (#[trigger] now[i]).agent == an[u] && now[i].topic == tn[t] by {
        if t < ti || (t == ti && u < ai) {
            let i = choose|i: int|
                0 <= i < before.len() && (#[trigger] before[i]).agent == an[u] && before[i].topic == tn[t];
            assert(now[i] == before[i]);
        } else {
            assert(now[now.len() - 1].agent == an[u]);
        }
    }
}

/// Placing the next position keeps the layout.
proof fn lemma_place_laid_out(
    before: Seq<EntryView>,
    now: Seq<EntryView>,
    pos_before: Seq<(int, int)>,
    pos_now: Seq<(int, int)>,
    an: Seq<Seq<char>>,
    tn: Seq<Seq<char>>,
    l: Seq<Trace>,
    priors: Seq<AgentThreshold>,
    at: Sequence,
    policy: DirectoryPolicy,
    ti: int,
    ai: int,
)
    requires
        0 <= ti < tn.len(),
        0 <= ai < an.len(),
        laid_out(before, pos_before, an, tn, ti, ai),
        placed(before, now, pos_before, pos_now, an, tn, l, priors, at, policy, ti, ai),
    ensures
        laid_out(now, pos_now, an, tn, ti, ai + 1),
{
    assert forall|i: int| #![trigger now[i]] 0 <= i < now.len() implies placed_at(now[i], pos_now[i], an, tn, ti, ai + 1) by {
        if i < before.len() {
            assert(now[i] == before[i]);
            assert(pos_now[i] == pos_before[i]);
            assert(placed_at(before[i], pos_before[i], an, tn, ti, ai));
        }
    }
    assert forall|i: int, j: int| #![trigger pos_now[i], pos_now[j]] 0 <= i < j < now.len() implies (
    pos_now[i].0 < pos_now[j].0 || (pos_now[i].0 == pos_now[j].0 && pos_now[i].1 < pos_now[j].1)) by {
        assert(pos_now[i] == pos_before[i]);
        if j < before.len() {
            assert(pos_now[j] == pos_before[j]);
        } else {
            assert(placed_at(before[i], pos_before[i], an, tn, ti, ai));
        }
    }
}

/// Placing the next position keeps every entry as the fold computes it.
proof fn lemma_place_computed(
    before: Seq<EntryView>,
    now: Seq<EntryView>,
    pos_before: Seq<(int, int)>,
    pos_now: Seq<(int, int)>,
    an: Seq<Seq<char>>,
    tn: Seq<Seq<char>>,
    l: Seq<Trace>,
    priors: Seq<AgentThreshold>,
    at: Sequence,
    policy: DirectoryPolicy,
    ti: int,
    ai: int,
)
    requires
        0 <= ti < tn.len(),
        0 <= ai < an.len(),
        computed(before, l, priors, at, policy),
        placed(before, now, pos_before, pos_now, an, tn, l, priors, at, policy, ti, ai),
    ensures
        computed(now, l, priors, at, policy),
{
    assert forall|i: int| 0 <= i < now.len() implies holder(l, priors, (#[trigger] now[i]).agent, now[i].topic, at, policy)
        && now[i] == entry_for(l, priors, now[i].agent, now[i].topic, at, policy) by {
        if i < before.len() {
            assert(now[i] == before[i]);
        }
    }
}

/// Every agent considered for one topic: the layout moves on to the next.
proof fn lemma_next_topic(
    e: Seq<EntryView>,
    pos: Seq<(int, int)>,
    an: Seq<Seq<char>>,
    tn: Seq<Seq<char>>,
    l: Seq<Trace>,
    priors: Seq<AgentThreshold>,
    at: Sequence,
    policy: DirectoryPolicy,
    ti: int,
)
    requires
        laid_out(e, pos, an, tn, ti, an.len() as int),
        covered(e, an, tn, l, priors, at, policy, ti, an.len() as int),
    ensures
        laid_out(e, pos, an, tn, ti + 1, 0),
        covered(e, an, tn, l, priors, at, policy, ti + 1, 0),
{
    assert forall|i: int| #![trigger e[i]] 0 <= i < e.len() implies placed_at(e[i], pos[i], an, tn, ti + 1, 0) by {
        assert(placed_at(e[i], pos[i], an, tn, ti, an.len() as int));
    }
    assert forall|t: int, u: int|
        0 <= t < tn.len() && 0 <= u < an.len() && (t < ti + 1 || (t == ti + 1 && u < 0))
            && #[trigger] holder(l, priors, an[u], tn[t], at, policy) implies exists|i: int|
        0 <= i < e.len() && (#[trigger] e[i]).agent == an[u] && e[i].topic == tn[t] by {
        assert(t < ti || (t == ti && u < an.len()));
    }
}

/// A holder has an entry, once every position was considered and every name
/// of the window and the priors is on the lists.
proof fn lemma_holder_entered(
    e: Seq<EntryView>,
    an: Seq<Seq<char>>,
    tn: Seq<Seq<char>>,
    l: Seq<Trace>,
    priors: Seq<AgentThreshold>,
    at: Sequence,
    policy: DirectoryPolicy,
    a: Seq<char>,
    tp: Seq<char>,
)
    requires
        holder(l, priors, a, tp, at, policy),
        covered(e, an, tn, l, priors, at, policy, tn.len() as int, 0),
        forall|k: int| 0 <= k < l.len() && (#[trigger] l[k]).agent() is Some ==> an.contains(l[k].agent()->0),
        forall|p: int| 0 <= p < priors.len() ==> an.contains((#[trigger] priors[p]).agent_id@),
        forall|k: int| 0 <= k < l.len() && (#[trigger] l[k]).topic_name() is Some ==> tn.contains(l[k].topic_name()->0),
        forall|p: int, q: int|
            0 <= p < priors.len() && 0 <= q < priors[p].affinity@.len() ==> tn.contains(
                (#[trigger] priors[p].affinity@[q]).0@,
            ),
    ensures
        exists|i: int| 0 <= i < e.len() && (#[trigger] e[i]).agent == a && e[i].topic == tp,
{
    lemma_holder_named(l, priors, a, tp, at, policy);
    assert(an.contains(a)) by {
        if exists|k: int| 0 <= k < l.len() && (#[trigger] l[k]).agent() == Some(a) {
            let k = choose|k: int| 0 <= k < l.len() && (#[trigger] l[k]).agent() == Some(a);
            assert(l[k].agent() is Some);
        } else {
            let p = choose|p: int| 0 <= p < priors.len() && (#[trigger] priors[p]).agent_id@ == a;
            assert(an.contains(priors[p].agent_id@));
        }
    }
    assert(tn.contains(tp)) by {
        if exists|k: int| 0 <= k < l.len() && (#[trigger] l[k]).topic_name() == Some(tp) {
            let k = choose|k: int| 0 <= k < l.len() && (#[trigger] l[k]).topic_name() == Some(tp);
            assert(l[k].topic_name() is Some);
        } else {
            let (p, q) = choose|p: int, q: int|
                0 <= p < priors.len() && 0 <= q < priors[p].affinity@.len() && (#[trigger] priors[p].affinity@[q]).0@ == tp;
            assert(tn.contains(priors[p].affinity@[q].0@));
        }
    }
    let u = choose|u: int| 0 <= u < an.len() && an[u] == a;
    let t = choose|t: int| 0 <= t < tn.len() && tn[t] == tp;
    assert(holder(l, priors, an[u], tn[t], at, policy));
}

/// Laid out over every position, with every name of the window and the
/// priors on the lists, the entries are the directory.
proof fn lemma_complete(
    e: Seq<EntryView>,
    pos: Seq<(int, int)>,
    an: Seq<Seq<char>>,
    tn: Seq<Seq<char>>,
    l: Seq<Trace>,
    priors: Seq<AgentThreshold>,
    at: Sequence,
    policy: DirectoryPolicy,
)
    requires
        ascending_names(an),
        ascending_names(tn),
        laid_out(e, pos, an, tn, tn.len() as int, 0),
        covered(e, an, tn, l, priors, at, policy, tn.len() as int, 0),
        computed(e, l, priors, at, policy),
        forall|k: int| 0 <= k < l.len() && (#[trigger] l[k]).agent() is Some ==> an.contains(l[k].agent()->0),
        forall|p: int| 0 <= p < priors.len() ==> an.contains((#[trigger] priors[p]).agent_id@),
        forall|k: int| 0 <= k < l.len() && (#[trigger] l[k]).topic_name() is Some ==> tn.contains(l[k].topic_name()->0),
        forall|p: int, q: int|
            0 <= p < priors.len() && 0 <= q < priors[p].affinity@.len() ==> tn.contains(
                (#[trigger] priors[p].affinity@[q]).0@,
            ),
    ensures
        is_directory(e, l, priors, at, policy),
{
    lemma_laid_out_sorted(e, pos, an, tn, tn.len() as int, 0);
    assert forall|a: Seq<char>, tp: Seq<char>| #[trigger] holder(l, priors, a, tp, at, policy) implies exists|i: int|
        0 <= i < e.len() && (#[trigger] e[i]).agent == a && e[i].topic == tp by {
        lemma_holder_entered(e, an, tn, l, priors, at, policy, a, tp);
    }
}

/// Fold the transcript into an estimate of who knows what.
///
/// `priors` are the same threshold records the attention market reads. Only
/// their `affinity` is used here, and only where a member actually declared a
/// topic: an undeclared topic contributes nothing rather than the neutral
/// fifty `relevance` substitutes, because "unknown" and "moderately expert"
/// are different claims.
///
/// Entries come back in `(topic, agent_id)` order. A pair every term scored
/// zero on is dropped, so the result names only holders.
///
/// Refuses a zero half-life or window, and two prior records naming one
/// agent.
pub fn directory(traces: &[Trace], at: Sequence, policy: &DirectoryPolicy, priors: &[AgentThreshold]) -> (result:
    Result<Directory>)
    requires
        traces@.len() <= directory_capacity(),
    ensures
        directory_outcome(result, traces@, at, *policy, priors@),
{
    if policy.half_life == 0 {
        return Err(Error::ZeroDirectoryHalfLife);
    }
    if policy.window == 0 {
        return Err(Error::ZeroDirectoryWindow);
    }
    let mut k: usize = 0;
    while k < priors.len()
        invariant
            k <= priors@.len(),
            policy.half_life != 0,
            policy.window != 0,
            forall|m: int| 0 <= m < k ==> !repeats_at(priors@, m),
        decreases priors@.len() - k,
    {
        let mut j: usize = 0;
        while j < k
            invariant
                j <= k < priors@.len(),
                policy.half_life != 0,
                policy.window != 0,
                forall|m: int| 0 <= m < k ==> !repeats_at(priors@, m),
                forall|m: int| 0 <= m < j ==> (#[trigger] priors@[m]).agent_id@ != priors@[k as int].agent_id@,
            decreases k - j,
        {
            if same_text(priors[j].agent_id.as_str(), priors[k].agent_id.as_str()) {
                assert(repeats_at(priors@, k as int));
                return Err(Error::DuplicateAgentThreshold { agent_id: priors[k].agent_id.clone() });
            }
            j = j + 1;
        }
        k = k + 1;
    }
    let live = window_indices(traces, at.0, policy.window);
    let ghost l = picked(traces@, live@);
    let agents = agent_names(traces, &live, priors);
    let topics = topic_names(traces, &live, priors);
    let ghost an = names(agents@);
    let ghost tn = names(topics@);
    let mut entries: Vec<DirectoryEntry> = Vec::new();
    let ghost mut pos: Seq<(int, int)> = Seq::empty();
    let mut ti: usize = 0;
    while ti < topics.len()
        invariant
            ti <= tn.len(),
            an == names(agents@),
            tn == names(topics@),
            ascending_names(an),
            ascending_names(tn),
            l == picked(traces@, live@),
            indexes(traces@, live@),
            live@.len() <= traces@.len(),
            traces@.len() <= directory_capacity(),
            policy.half_life > 0,
            laid_out(entry_views(entries@), pos, an, tn, ti as int, 0),
            covered(entry_views(entries@), an, tn, l, priors@, at, *policy, ti as int, 0),
            computed(entry_views(entries@), l, priors@, at, *policy),
        decreases tn.len() - ti,
    {
        let mut ai: usize = 0;
        while ai < agents.len()
            invariant
                ti < tn.len(),
                ai <= an.len(),
                an == names(agents@),
                tn == names(topics@),
                l == picked(traces@, live@),
                indexes(traces@, live@),
                live@.len() <= traces@.len(),
                traces@.len() <= directory_capacity(),
                policy.half_life > 0,
                laid_out(entry_views(entries@), pos, an, tn, ti as int, ai as int),
                covered(entry_views(entries@), an, tn, l, priors@, at, *policy, ti as int, ai as int),
                computed(entry_views(entries@), l, priors@, at, *policy),
            decreases an.len() - ai,
        {
            let topic = TopicId::new(topics[ti].as_str());
            assert(topic@ == tn[ti as int]);
            assert(agents@[ai as int]@ == an[ai as int]);
            let ghost before = entry_views(entries@);
            let ghost old_pos = pos;
            match entry_of(traces, &live, priors, agents[ai].as_str(), &topic, at, policy) {
                Some(e) => {
                    entries.push(e);
                    proof {
                        pos = pos.push((ti as int, ai as int));
                        assert(entry_views(entries@) =~= before.push(e@));
                    }
                },
                None => {},
            }
            proof {
                let now = entry_views(entries@);
                assert(placed(before, now, old_pos, pos, an, tn, l, priors@, at, *policy, ti as int, ai as int));
                lemma_place_covered(before, now, old_pos, pos, an, tn, l, priors@, at, *policy, ti as int, ai as int);
                lemma_place_laid_out(before, now, old_pos, pos, an, tn, l, priors@, at, *policy, ti as int, ai as int);
                lemma_place_computed(before, now, old_pos, pos, an, tn, l, priors@, at, *policy, ti as int, ai as int);
            }
            ai = ai + 1;
        }
        proof {
            lemma_next_topic(entry_views(entries@), pos, an, tn, l, priors@, at, *policy, ti as int);
        }
        ti = ti + 1;
    }
    proof {
        lemma_complete(entry_views(entries@), pos, an, tn, l, priors@, at, *policy);
        lemma_computed_in_range(entry_views(entries@), l, priors@, at, *policy);
    }
    let made = Directory::from_sorted(entries);
    Ok(made)
}

} // verus!

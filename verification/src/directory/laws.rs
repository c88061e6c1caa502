//! What holds of every directory fold, whatever the medium.

use vstd::prelude::*;

use super::spec::{
    aged, by_on, deposit_value, entry_for, holder, is_deposit, is_directory, specialisation_sum, specialisation_term,
};
use super::types::{DirectoryPolicy, EntryView, entries_sorted, entry_lt};
use crate::attention::AgentThreshold;
use crate::order::{lemma_text_irreflexive, lemma_text_total, lemma_text_transitive};
use crate::session::Sequence;
use crate::trace::{Trace, TraceKind};
use crate::window::{
    addresses_identify, lemma_window_redelivered, lemma_window_same_medium, same_traces, window_of,
};

verus! {

/// No entry sorts before itself, and of two entries at one position neither
/// sorts first.
proof fn lemma_entry_lt_strict(a: EntryView, b: EntryView)
    ensures
        !(entry_lt(a, b) && entry_lt(b, a)),
        (a.topic == b.topic && a.agent == b.agent) ==> !entry_lt(a, b),
{
    lemma_text_total(a.topic, b.topic);
    lemma_text_total(a.agent, b.agent);
    lemma_text_irreflexive(a.topic);
    lemma_text_irreflexive(a.agent);
}

/// Two strictly sorted lists of entries holding the same entries are equal.
proof fn lemma_sorted_entries_same(a: Seq<EntryView>, b: Seq<EntryView>)
    requires
        entries_sorted(a),
        entries_sorted(b),
        forall|i: int| 0 <= i < a.len() ==> b.contains(#[trigger] a[i]),
        forall|j: int| 0 <= j < b.len() ==> a.contains(#[trigger] b[j]),
    ensures
        a == b,
    decreases a.len() + b.len(),
{
    if a.len() == 0 {
        if b.len() > 0 {
            assert(a.contains(b[0]));
        }
        assert(a =~= b);
        return;
    }
    if b.len() == 0 {
        assert(b.contains(a[0]));
        return;
    }
    let n = a.len() - 1;
    let m = b.len() - 1;
    assert(b.contains(a[n]));
    assert(a.contains(b[m]));
    let j = choose|j: int| 0 <= j < b.len() && b[j] == a[n];
    let i = choose|i: int| 0 <= i < a.len() && a[i] == b[m];
    assert(a[n] == b[m]) by {
        lemma_entry_lt_strict(a[n], b[m]);
        lemma_entry_lt_strict(a[n], a[n]);
        if j < m {
            assert(entry_lt(b[j], b[m]));
            if i < n {
                assert(entry_lt(a[i], a[n]));
            }
        }
    }
    let c = a.drop_last();
    let d = b.drop_last();
    assert forall|x: int| 0 <= x < c.len() implies d.contains(#[trigger] c[x]) by {
        assert(entry_lt(a[x], a[n]));
        assert(b.contains(a[x]));
        let y = choose|y: int| 0 <= y < b.len() && b[y] == a[x];
        if y == m {
            lemma_entry_lt_strict(a[x], a[n]);
            lemma_entry_lt_strict(a[n], a[n]);
        }
        assert(d[y] == c[x]);
    }
    assert forall|y: int| 0 <= y < d.len() implies c.contains(#[trigger] d[y]) by {
        assert(entry_lt(b[y], b[m]));
        assert(a.contains(b[y]));
        let x = choose|x: int| 0 <= x < a.len() && a[x] == b[y];
        if x == n {
            lemma_entry_lt_strict(b[y], b[m]);
            lemma_entry_lt_strict(b[m], b[m]);
        }
        assert(c[x] == d[y]);
    }
    lemma_sorted_entries_same(c, d);
    assert(a =~= c.push(a[n]));
    assert(b =~= d.push(b[m]));
}

/// The directory of a window is unique.
pub proof fn lemma_directory_unique(
    r1: Seq<EntryView>,
    r2: Seq<EntryView>,
    all: Seq<Trace>,
    priors: Seq<AgentThreshold>,
    at: Sequence,
    policy: DirectoryPolicy,
)
    requires
        is_directory(r1, all, priors, at, policy),
        is_directory(r2, all, priors, at, policy),
    ensures
        r1 == r2,
{
    assert forall|i: int| 0 <= i < r1.len() implies r2.contains(#[trigger] r1[i]) by {
        assert(holder(all, priors, r1[i].agent, r1[i].topic, at, policy));
        let j = choose|j: int| 0 <= j < r2.len() && (#[trigger] r2[j]).agent == r1[i].agent && r2[j].topic == r1[i].topic;
        assert(r2[j] == entry_for(all, priors, r2[j].agent, r2[j].topic, at, policy));
    }
    assert forall|j: int| 0 <= j < r2.len() implies r1.contains(#[trigger] r2[j]) by {
        assert(holder(all, priors, r2[j].agent, r2[j].topic, at, policy));
        let i = choose|i: int| 0 <= i < r1.len() && (#[trigger] r1[i]).agent == r2[j].agent && r1[i].topic == r2[j].topic;
        assert(r1[i] == entry_for(all, priors, r1[i].agent, r1[i].topic, at, policy));
    }
    lemma_sorted_entries_same(r1, r2);
}

/// Every term of a specialisation is at least zero, so the sum is at least
/// the term of any one trace in it.
proof fn lemma_specialisation_covers(s: Seq<Trace>, a: Seq<char>, tp: Seq<char>, at: Sequence, half_life: u32, k: int)
    requires
        half_life > 0,
        0 <= k < s.len(),
    ensures
        specialisation_sum(s, a, tp, at, half_life) >= specialisation_term(s[k], a, tp, at, half_life),
        specialisation_term(s[k], a, tp, at, half_life) >= 0,
    decreases s.len(),
{
    let t = s.last();
    crate::salience::law_decay_monotone(
        crate::salience::distance_back(at, t.sequence),
        crate::salience::distance_back(at, t.sequence),
        half_life as nat,
    );
    let d = deposit_value(t);
    let g = aged(t, at, half_life);
    assert(d * g >= 0) by (nonlinear_arith)
        requires
            d >= 0,
            g >= 0,
    ;
    let here = specialisation_term(t, a, tp, at, half_life);
    assert(here >= 0);
    if k < s.len() - 1 {
        lemma_specialisation_covers(s.drop_last(), a, tp, at, half_life, k);
        assert(s.drop_last()[k] == s[k]);
    } else {
        if s.len() > 1 {
            lemma_specialisation_covers(s.drop_last(), a, tp, at, half_life, 0);
        }
    }
}

/// A member's deposit counts toward its specialisation on its topic: a
/// grounded proposal, support or refutation by `a` on `tp` adds six hundred
/// thousandths of its decayed weight, and a piece of evidence a thousand. So
/// where that share is not zero, the directory holds an entry for `a` on
/// `tp` whose specialisation is at least it.
pub proof fn law_deposit_counts(
    r: Seq<EntryView>,
    all: Seq<Trace>,
    priors: Seq<AgentThreshold>,
    at: Sequence,
    policy: DirectoryPolicy,
    k: int,
    a: Seq<char>,
    tp: Seq<char>,
)
    requires
        is_directory(r, all, priors, at, policy),
        policy.half_life > 0,
        0 <= k < all.len(),
        all[k].agent() == Some(a),
        all[k].topic_name() == Some(tp),
        all[k].kind == TraceKind::Evidence || ((all[k].kind == TraceKind::Propose || all[k].kind
            == TraceKind::Support || all[k].kind == TraceKind::Refute) && all[k].cites@.len() > 0),
    ensures
        ({
            let share = if all[k].kind == TraceKind::Evidence {
                aged(all[k], at, policy.half_life)
            } else {
                600 * aged(all[k], at, policy.half_life) / 1000
            };
            share > 0 ==> exists|i: int|
                0 <= i < r.len() && (#[trigger] r[i]).agent == a && r[i].topic == tp && r[i].specialisation >= share
        }),
{
    let t = all[k];
    let g = aged(t, at, policy.half_life);
    crate::salience::law_decay_monotone(
        crate::salience::distance_back(at, t.sequence),
        crate::salience::distance_back(at, t.sequence),
        policy.half_life as nat,
    );
    lemma_specialisation_covers(all, a, tp, at, policy.half_life, k);
    let share = if t.kind == TraceKind::Evidence {
        g
    } else {
        600 * g / 1000
    };
    if share > 0 {
        assert(by_on(t, a, tp));
        assert(is_deposit(t));
        assert(specialisation_term(t, a, tp, at, policy.half_life) == share);
        assert(holder(all, priors, a, tp, at, policy));
        let i = choose|i: int| 0 <= i < r.len() && (#[trigger] r[i]).agent == a && r[i].topic == tp;
        assert(r[i] == entry_for(all, priors, r[i].agent, r[i].topic, at, policy));
    }
}

/// The directory is order-independent: two transcripts holding the same
/// traces, in any order and however often, fold to the same directory, as
/// long as no two different traces share an address.
pub proof fn law_directory_order_independent(
    a: Seq<Trace>,
    b: Seq<Trace>,
    at: Sequence,
    policy: DirectoryPolicy,
    priors: Seq<AgentThreshold>,
    ra: Seq<EntryView>,
    rb: Seq<EntryView>,
)
    requires
        same_traces(a, b),
        addresses_identify(a),
        addresses_identify(b),
        a.len() <= usize::MAX,
        is_directory(ra, window_of(a, at.0, policy.window), priors, at, policy),
        is_directory(rb, window_of(b, at.0, policy.window), priors, at, policy),
    ensures
        ra == rb,
{
    lemma_window_same_medium(a, b, at.0, policy.window);
    lemma_directory_unique(ra, rb, window_of(a, at.0, policy.window), priors, at, policy);
}

/// The directory is idempotent: folding traces that were already folded
/// leaves it as it was.
pub proof fn law_directory_idempotent(
    traces: Seq<Trace>,
    redelivered: Seq<Trace>,
    at: Sequence,
    policy: DirectoryPolicy,
    priors: Seq<AgentThreshold>,
    once: Seq<EntryView>,
    twice: Seq<EntryView>,
)
    requires
        forall|j: int| 0 <= j < redelivered.len() ==> traces.contains(#[trigger] redelivered[j]),
        traces.len() <= usize::MAX,
        is_directory(once, window_of(traces, at.0, policy.window), priors, at, policy),
        is_directory(twice, window_of(traces + redelivered, at.0, policy.window), priors, at, policy),
    ensures
        once == twice,
{
    lemma_window_redelivered(traces, redelivered, at.0, policy.window);
    lemma_directory_unique(once, twice, window_of(traces, at.0, policy.window), priors, at, policy);
}

} // verus!

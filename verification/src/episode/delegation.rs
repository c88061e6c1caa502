//! Expert delegation: with a directory, the floor goes to the member the
//! transcript says holds a topic the room has promoted.
//!
//! A topic is promoted while the room contests it (it stands and has not
//! carried) or a member deferred it, until its live deferrals reach the
//! policy's `defer_cap`. The directory's top holder of a promoted topic among
//! the members, where that holder knows it (its weight reaches the
//! directory's floor), bids `Knows`.

use vstd::prelude::*;

use super::types::EpisodePolicy;
use crate::directory::{
    Directory, DirectoryPolicy, EntryView, is_directory, lemma_directory_alike, lemma_directory_unique, member_names,
    top_member, weight_in,
};
use crate::names::{distinct, lemma_distinct_contains, lemma_distinct_no_repeats, lemma_distinct_push, names, push_distinct, same_text};
use crate::quorum::{TopicStanding, views};
use crate::quorum::{StandingView, carries};
use crate::session::Sequence;
use crate::attention::AgentThreshold;
use crate::trace::{TopicId, Trace, TraceKind, alike, lemma_alike_at, lemma_view_fields, trace_views};
use crate::window::{addresses_identify, lemma_window_alike, lemma_window_same_medium, same_traces, window_of};

verus! {

/// Whether a trace is a member's deferral of `topic`.
pub open spec fn defers(t: Trace, topic: Seq<char>) -> bool {
    t.kind == TraceKind::Defer && t.topic_name() == Some(topic) && t.agent() is Some
}

/// The members who deferred `topic`, in trace order, with repeats.
pub open spec fn deferrers(traces: Seq<Trace>, topic: Seq<char>) -> Seq<Seq<char>>
    decreases traces.len(),
{
    if traces.len() == 0 {
        Seq::empty()
    } else {
        let earlier = deferrers(traces.drop_last(), topic);
        if defers(traces.last(), topic) {
            earlier.push(traces.last().agent()->0)
        } else {
            earlier
        }
    }
}

/// How many members deferred `topic`.
pub open spec fn deferral_count(traces: Seq<Trace>, topic: Seq<char>) -> int {
    distinct(deferrers(traces, topic)).len() as int
}

/// Whether some member deferred `topic`.
pub open spec fn deferred_topic(traces: Seq<Trace>, topic: Seq<char>) -> bool {
    exists|k: int| 0 <= k < traces.len() && defers(#[trigger] traces[k], topic)
}

/// Whether the room contests `topic`: it stands and has not carried.
pub open spec fn contested(st: Seq<StandingView>, topic: Seq<char>, policy: EpisodePolicy) -> bool {
    exists|i: int| 0 <= i < st.len() && (#[trigger] st[i]).topic == topic && !carries(st[i], policy.quorum)
}

/// Whether `topic` is promoted: contested or deferred, and short of the
/// deferral cap.
pub open spec fn promoted(traces: Seq<Trace>, st: Seq<StandingView>, topic: Seq<char>, policy: EpisodePolicy) -> bool {
    &&& contested(st, topic, policy) || deferred_topic(traces, topic)
    &&& match policy.defer_cap {
        Some(cap) => deferral_count(traces, topic) < cap,
        None => true,
    }
}

/// Whether the directory's top holder of `topic` among the members is
/// member `i`, and the member knows it: its weight reaches the floor.
pub open spec fn holds_topic(dir: Seq<EntryView>, floor: i64, members: Seq<Seq<char>>, i: int, topic: Seq<char>) -> bool {
    &&& top_member(dir, topic, members, members.len() as int) matches Some(j) && members[j] == members[i]
    &&& weight_in(dir, members[i], topic) >= floor
}

/// Whether the directory names member `i` as the holder of some promoted
/// topic.
pub open spec fn knows_promoted(
    dir: Seq<EntryView>,
    floor: i64,
    traces: Seq<Trace>,
    st: Seq<StandingView>,
    members: Seq<Seq<char>>,
    i: int,
    policy: EpisodePolicy,
) -> bool {
    exists|topic: Seq<char>| #[trigger] promoted(traces, st, topic, policy) && holds_topic(dir, floor, members, i, topic)
}

/// The first `n` members the directory routes a promoted topic to, in desk
/// order.
pub open spec fn knowers_in(
    dir: Seq<EntryView>,
    floor: i64,
    traces: Seq<Trace>,
    st: Seq<StandingView>,
    members: Seq<Seq<char>>,
    policy: EpisodePolicy,
    n: int,
) -> Seq<Seq<char>>
    decreases n,
{
    if n <= 0 {
        Seq::empty()
    } else {
        let earlier = knowers_in(dir, floor, traces, st, members, policy, n - 1);
        if knows_promoted(dir, floor, traces, st, members, n - 1, policy) {
            earlier.push(members[n - 1])
        } else {
            earlier
        }
    }
}

/// The directory a step folds when its policy asks for one.
pub open spec fn folded_directory(
    traces: Seq<Trace>,
    at: Sequence,
    thresholds: Seq<AgentThreshold>,
    policy: EpisodePolicy,
) -> Option<Seq<EntryView>> {
    match policy.directory {
        None => None,
        Some(dp) => {
            let w = window_of(traces, at.0, dp.window);
            if exists|r: Seq<EntryView>| is_directory(r, w, thresholds, at, dp) {
                Some(choose|r: Seq<EntryView>| is_directory(r, w, thresholds, at, dp))
            } else {
                None
            }
        },
    }
}

/// The members a step's market treats as knowing: none without a directory.
pub open spec fn knowers_of(
    traces: Seq<Trace>,
    st: Seq<StandingView>,
    members: Seq<Seq<char>>,
    thresholds: Seq<AgentThreshold>,
    at: Sequence,
    policy: EpisodePolicy,
) -> Seq<Seq<char>> {
    match (folded_directory(traces, at, thresholds, policy), policy.directory) {
        (Some(dir), Some(dp)) => knowers_in(dir, dp.floor, traces, st, members, policy, members.len() as int),
        _ => Seq::empty(),
    }
}

/// Alike lists name the same deferrers.
proof fn lemma_deferrers_alike(x: Seq<Trace>, y: Seq<Trace>, topic: Seq<char>)
    requires
        alike(x, y),
    ensures
        deferrers(x, topic) == deferrers(y, topic),
        deferred_topic(x, topic) == deferred_topic(y, topic),
    decreases x.len(),
{
    assert(trace_views(x).len() == trace_views(y).len());
    if x.len() > 0 {
        lemma_alike_at(x, y, x.len() - 1);
        assert(trace_views(x.drop_last()) =~= trace_views(x).drop_last());
        assert(trace_views(y.drop_last()) =~= trace_views(y).drop_last());
        lemma_deferrers_alike(x.drop_last(), y.drop_last(), topic);
        lemma_view_fields(x.last(), y.last());
    }
    if deferred_topic(x, topic) {
        let k = choose|k: int| 0 <= k < x.len() && defers(#[trigger] x[k], topic);
        lemma_alike_at(x, y, k);
        lemma_view_fields(x[k], y[k]);
    }
    if deferred_topic(y, topic) {
        let k = choose|k: int| 0 <= k < y.len() && defers(#[trigger] y[k], topic);
        lemma_alike_at(x, y, k);
        lemma_view_fields(x[k], y[k]);
    }
}

/// A member is among the deferrers exactly when one of the traces is its
/// deferral.
proof fn lemma_deferrers_contain(s: Seq<Trace>, topic: Seq<char>, who: Seq<char>)
    ensures
        deferrers(s, topic).contains(who) <==> exists|k: int|
            0 <= k < s.len() && defers(#[trigger] s[k], topic) && s[k].agent() == Some(who),
    decreases s.len(),
{
    if s.len() > 0 {
        let rest = s.drop_last();
        lemma_deferrers_contain(rest, topic, who);
        let earlier = deferrers(rest, topic);
        let all = deferrers(s, topic);
        if all.contains(who) {
            let i = choose|i: int| 0 <= i < all.len() && all[i] == who;
            if i < earlier.len() {
                assert(earlier[i] == who);
                let k = choose|k: int| 0 <= k < rest.len() && defers(#[trigger] rest[k], topic) && rest[k].agent() == Some(who);
                assert(s[k] == rest[k]);
            } else {
                assert(defers(s[s.len() - 1], topic));
            }
        }
        if exists|k: int| 0 <= k < s.len() && defers(#[trigger] s[k], topic) && s[k].agent() == Some(who) {
            let k = choose|k: int| 0 <= k < s.len() && defers(#[trigger] s[k], topic) && s[k].agent() == Some(who);
            if k < s.len() - 1 {
                assert(rest[k] == s[k]);
                let i = choose|i: int| 0 <= i < earlier.len() && earlier[i] == who;
                if defers(s.last(), topic) {
                    assert(all[i] == who);
                } else {
                    assert(all[i] == who);
                }
            } else {
                assert(all[all.len() - 1] == who);
            }
        }
    }
}

/// Two lists without repeats holding the same names are as long.
proof fn lemma_same_names_len(x: Seq<Seq<char>>, y: Seq<Seq<char>>)
    requires
        x.no_duplicates(),
        y.no_duplicates(),
        forall|v: Seq<char>| #[trigger] x.contains(v) == y.contains(v),
    ensures
        x.len() == y.len(),
{
    x.unique_seq_to_set();
    y.unique_seq_to_set();
    assert(x.to_set() =~= y.to_set());
}

/// Two lists holding the same traces name the same deferrers, as many.
proof fn lemma_deferrals_set(a: Seq<Trace>, b: Seq<Trace>, topic: Seq<char>)
    requires
        same_traces(a, b),
    ensures
        deferral_count(a, topic) == deferral_count(b, topic),
        deferred_topic(a, topic) == deferred_topic(b, topic),
{
    let da = deferrers(a, topic);
    let db = deferrers(b, topic);
    assert forall|v: Seq<char>| #[trigger] distinct(da).contains(v) == distinct(db).contains(v) by {
        lemma_distinct_contains(da, v);
        lemma_distinct_contains(db, v);
        lemma_deferrers_contain(a, topic, v);
        lemma_deferrers_contain(b, topic, v);
        if da.contains(v) {
            let k = choose|k: int| 0 <= k < a.len() && defers(#[trigger] a[k], topic) && a[k].agent() == Some(v);
            assert(b.contains(a[k]));
            let j = choose|j: int| 0 <= j < b.len() && b[j] == a[k];
            assert(defers(b[j], topic));
        }
        if db.contains(v) {
            let k = choose|k: int| 0 <= k < b.len() && defers(#[trigger] b[k], topic) && b[k].agent() == Some(v);
            assert(a.contains(b[k]));
            let j = choose|j: int| 0 <= j < a.len() && a[j] == b[k];
            assert(defers(a[j], topic));
        }
    }
    lemma_distinct_no_repeats(da);
    lemma_distinct_no_repeats(db);
    lemma_same_names_len(distinct(da), distinct(db));
    if deferred_topic(a, topic) {
        let k = choose|k: int| 0 <= k < a.len() && defers(#[trigger] a[k], topic);
        assert(b.contains(a[k]));
        let j = choose|j: int| 0 <= j < b.len() && b[j] == a[k];
        assert(defers(b[j], topic));
    }
    if deferred_topic(b, topic) {
        let k = choose|k: int| 0 <= k < b.len() && defers(#[trigger] b[k], topic);
        assert(a.contains(b[k]));
        let j = choose|j: int| 0 <= j < a.len() && a[j] == b[k];
        assert(defers(a[j], topic));
    }
}

/// Knowers that agree member by member on knowing agree.
proof fn lemma_knowers_agree(
    dir: Seq<EntryView>,
    floor: i64,
    x: Seq<Trace>,
    y: Seq<Trace>,
    st: Seq<StandingView>,
    members: Seq<Seq<char>>,
    policy: EpisodePolicy,
    n: int,
)
    requires
        forall|topic: Seq<char>| #[trigger] promoted(x, st, topic, policy) == promoted(y, st, topic, policy),
    ensures
        knowers_in(dir, floor, x, st, members, policy, n) == knowers_in(dir, floor, y, st, members, policy, n),
    decreases n,
{
    if n > 0 {
        lemma_knowers_agree(dir, floor, x, y, st, members, policy, n - 1);
        if knows_promoted(dir, floor, x, st, members, n - 1, policy) {
            let t = choose|topic: Seq<char>| #[trigger] promoted(x, st, topic, policy) && holds_topic(dir, floor, members, n - 1, topic);
            assert(promoted(y, st, t, policy));
        }
        if knows_promoted(dir, floor, y, st, members, n - 1, policy) {
            let t = choose|topic: Seq<char>| #[trigger] promoted(y, st, topic, policy) && holds_topic(dir, floor, members, n - 1, topic);
            assert(promoted(x, st, t, policy));
        }
    }
}

/// Traces that say the same things, in the same order, route the floor
/// alike.
pub proof fn lemma_knowers_alike(
    x: Seq<Trace>,
    y: Seq<Trace>,
    st: Seq<StandingView>,
    members: Seq<Seq<char>>,
    thresholds: Seq<AgentThreshold>,
    at: Sequence,
    policy: EpisodePolicy,
)
    requires
        alike(x, y),
        x.len() <= usize::MAX,
    ensures
        knowers_of(x, st, members, thresholds, at, policy) == knowers_of(y, st, members, thresholds, at, policy),
{
    if let Some(dp) = policy.directory {
        let wx = window_of(x, at.0, dp.window);
        let wy = window_of(y, at.0, dp.window);
        lemma_window_alike(x, y, at.0, dp.window);
        lemma_directory_alike(wx, wy, thresholds, at, dp);
        if exists|r: Seq<EntryView>| is_directory(r, wx, thresholds, at, dp) {
            let r = choose|r: Seq<EntryView>| is_directory(r, wx, thresholds, at, dp);
            assert(is_directory(r, wy, thresholds, at, dp));
            let q = choose|r: Seq<EntryView>| is_directory(r, wy, thresholds, at, dp);
            lemma_directory_unique(r, q, wy, thresholds, at, dp);
        } else {
            assert forall|r: Seq<EntryView>| !is_directory(r, wy, thresholds, at, dp) by {
                assert(is_directory(r, wx, thresholds, at, dp) == is_directory(r, wy, thresholds, at, dp));
            }
        }
        assert forall|topic: Seq<char>| #[trigger] promoted(x, st, topic, policy) == promoted(y, st, topic, policy) by {
            lemma_deferrers_alike(x, y, topic);
        }
        if let Some(dir) = folded_directory(x, at, thresholds, policy) {
            lemma_knowers_agree(dir, dp.floor, x, y, st, members, policy, members.len() as int);
        }
    }
}

/// Two lists holding the same traces, where an address names one trace,
/// route the floor alike.
pub proof fn lemma_knowers_set(
    a: Seq<Trace>,
    b: Seq<Trace>,
    st: Seq<StandingView>,
    members: Seq<Seq<char>>,
    thresholds: Seq<AgentThreshold>,
    at: Sequence,
    policy: EpisodePolicy,
)
    requires
        same_traces(a, b),
        addresses_identify(a),
        addresses_identify(b),
        a.len() <= usize::MAX,
    ensures
        knowers_of(a, st, members, thresholds, at, policy) == knowers_of(b, st, members, thresholds, at, policy),
{
    if let Some(dp) = policy.directory {
        lemma_window_same_medium(a, b, at.0, dp.window);
        assert forall|topic: Seq<char>| #[trigger] promoted(a, st, topic, policy) == promoted(b, st, topic, policy) by {
            lemma_deferrals_set(a, b, topic);
        }
        if let Some(dir) = folded_directory(a, at, thresholds, policy) {
            lemma_knowers_agree(dir, dp.floor, a, b, st, members, policy, members.len() as int);
        }
    }
}

/// Whether a trace is a member's deferral of `topic`.
fn is_deferral_of(t: &Trace, topic: &TopicId) -> (yes: bool)
    ensures
        yes == defers(*t, topic@),
{
    let named = match &t.topic {
        Some(x) => x.same(topic),
        None => false,
    };
    let by_member = match t.agent_id() {
        Some(_) => true,
        None => false,
    };
    matches!(t.kind, TraceKind::Defer) && named && by_member
}

/// How many members deferred `topic`, and whether any did.
fn deferral_tally(traces: &[Trace], topic: &TopicId) -> (tally: (usize, bool))
    ensures
        tally.0 as int == deferral_count(traces@, topic@),
        tally.1 == deferred_topic(traces@, topic@),
{
    let ghost tr = traces@;
    let ghost tp = topic@;
    let mut seen: Vec<String> = Vec::new();
    let mut any = false;
    let mut k: usize = 0;
    while k < traces.len()
        invariant
            k <= tr.len(),
            tr == traces@,
            tp == topic@,
            names(seen@) == distinct(deferrers(tr.take(k as int), tp)),
            any == deferred_topic(tr.take(k as int), tp),
        decreases tr.len() - k,
    {
        let ghost before = tr.take(k as int);
        let ghost after = tr.take(k + 1);
        assert(after.drop_last() =~= before);
        assert(after.last() == tr[k as int]);
        if is_deferral_of(&traces[k], topic) {
            match traces[k].agent_id() {
                Some(who) => {
                    proof {
                        lemma_distinct_push(deferrers(before, tp), who@);
                    }
                    push_distinct(&mut seen, who);
                },
                None => {},
            }
            any = true;
            assert(defers(after[k as int], tp));
        } else {
            assert(deferrers(after, tp) == deferrers(before, tp));
            proof {
                if deferred_topic(after, tp) {
                    let j = choose|j: int| 0 <= j < after.len() && defers(#[trigger] after[j], tp);
                    assert(before[j] == after[j]);
                }
            }
        }
        proof {
            if deferred_topic(before, tp) {
                let j = choose|j: int| 0 <= j < before.len() && defers(#[trigger] before[j], tp);
                assert(after[j] == before[j]);
            }
        }
        k = k + 1;
    }
    assert(tr.take(tr.len() as int) =~= tr);
    (seen.len(), any)
}

/// Whether `topic` is promoted, read off the standings and the traces.
fn is_promoted(traces: &[Trace], standings: &[TopicStanding], topic: &TopicId, policy: &EpisodePolicy) -> (yes: bool)
    ensures
        yes == promoted(traces@, views(standings@), topic@, *policy),
{
    let ghost st = views(standings@);
    let mut contested_here = false;
    let mut j: usize = 0;
    while j < standings.len()
        invariant
            j <= standings@.len(),
            st == views(standings@),
            contested_here == exists|x: int| 0 <= x < j && (#[trigger] st[x]).topic == topic@ && !carries(st[x], policy.quorum),
        decreases standings@.len() - j,
    {
        assert(st[j as int] == standings@[j as int]@);
        if standings[j].topic.same(topic) && !standings[j].carried(&policy.quorum) {
            contested_here = true;
        }
        j = j + 1;
    }
    let (count, any) = deferral_tally(traces, topic);
    if !(contested_here || any) {
        return false;
    }
    match policy.defer_cap {
        Some(cap) => count < cap as usize,
        None => true,
    }
}

/// Whether member `i` is the directory's top holder of `topic` and knows it.
fn holds_exec(known: &Directory, dp: &DirectoryPolicy, members: &[&str], i: usize, topic: &TopicId) -> (yes: bool)
    requires
        i < members@.len(),
    ensures
        yes == holds_topic(known@, dp.floor, member_names(members@), i as int, topic@),
{
    let ghost ms = member_names(members@);
    match known.top_among(topic, members) {
        Some(m) => {
            proof {
                let j = top_member(known@, topic@, ms, members@.len() as int)->0;
                crate::directory::lemma_top_member_range(known@, topic@, ms, members@.len() as int);
                assert(ms[j] == members@[j]@);
                assert(ms[i as int] == members@[i as int]@);
            }
            let same = same_text(m, members[i]);
            same && known.knows(members[i], topic, dp)
        },
        None => false,
    }
}

/// Whether the directory routes some promoted topic to member `i`.
fn knows_exec(
    known: &Directory,
    dp: &DirectoryPolicy,
    traces: &[Trace],
    standings: &[TopicStanding],
    members: &[&str],
    i: usize,
    policy: &EpisodePolicy,
) -> (yes: bool)
    requires
        i < members@.len(),
    ensures
        yes == knows_promoted(known@, dp.floor, traces@, views(standings@), member_names(members@), i as int, *policy),
{
    let ghost st = views(standings@);
    let ghost tr = traces@;
    let ghost ms = member_names(members@);
    let ghost dir = known@;
    let mut j: usize = 0;
    while j < standings.len()
        invariant
            j <= standings@.len(),
            i < members@.len(),
            st == views(standings@),
            tr == traces@,
            ms == member_names(members@),
            dir == known@,
            forall|x: int|
                0 <= x < j ==> !(promoted(tr, st, (#[trigger] st[x]).topic, *policy) && holds_topic(dir, dp.floor, ms, i as int, st[x].topic)),
        decreases standings@.len() - j,
    {
        assert(st[j as int] == standings@[j as int]@);
        let t = &standings[j].topic;
        if is_promoted(traces, standings, t, policy) && holds_exec(known, dp, members, i, t) {
            assert(promoted(tr, st, t@, *policy) && holds_topic(dir, dp.floor, ms, i as int, t@));
            return true;
        }
        j = j + 1;
    }
    let mut k: usize = 0;
    while k < traces.len()
        invariant
            k <= traces@.len(),
            i < members@.len(),
            st == views(standings@),
            tr == traces@,
            ms == member_names(members@),
            dir == known@,
            forall|x: int|
                0 <= x < st.len() ==> !(promoted(tr, st, (#[trigger] st[x]).topic, *policy) && holds_topic(dir, dp.floor, ms, i as int, st[x].topic)),
            forall|x: int, topic: Seq<char>|
                0 <= x < k && #[trigger] defers(tr[x], topic) ==> !(promoted(tr, st, topic, *policy) && holds_topic(dir, dp.floor, ms, i as int, topic)),
        decreases traces@.len() - k,
    {
        match &traces[k].topic {
            Some(t) => {
                if is_deferral_of(&traces[k], t) && is_promoted(traces, standings, t, policy) && holds_exec(known, dp, members, i, t) {
                    assert(promoted(tr, st, t@, *policy) && holds_topic(dir, dp.floor, ms, i as int, t@));
                    return true;
                }
                assert forall|topic: Seq<char>| #[trigger] defers(tr[k as int], topic) implies topic == t@ by {}
            },
            None => {
                assert forall|topic: Seq<char>| !#[trigger] defers(tr[k as int], topic) by {}
            },
        }
        k = k + 1;
    }
    assert forall|topic: Seq<char>| #[trigger] promoted(tr, st, topic, *policy) implies !holds_topic(dir, dp.floor, ms, i as int, topic) by {
        if contested(st, topic, *policy) {
            let x = choose|x: int| 0 <= x < st.len() && (#[trigger] st[x]).topic == topic && !carries(st[x], policy.quorum);
            assert(!(promoted(tr, st, st[x].topic, *policy) && holds_topic(dir, dp.floor, ms, i as int, st[x].topic)));
        } else {
            let x = choose|x: int| 0 <= x < tr.len() && defers(#[trigger] tr[x], topic);
            assert(defers(tr[x], topic));
        }
    }
    false
}

/// The members the directory routes a promoted topic to, in desk order: what
/// a host calling `bids` directly passes as the context's `knowers`.
pub fn knowers<'a>(
    known: &Directory,
    dp: &DirectoryPolicy,
    traces: &[Trace],
    standings: &[TopicStanding],
    members: &[&'a str],
    policy: &EpisodePolicy,
) -> (out: Vec<&'a str>)
    ensures
        member_names(out@) == knowers_in(
            known@,
            dp.floor,
            traces@,
            views(standings@),
            member_names(members@),
            *policy,
            members@.len() as int,
        ),
{
    let ghost st = views(standings@);
    let ghost ms = member_names(members@);
    let mut out: Vec<&'a str> = Vec::new();
    let mut i: usize = 0;
    while i < members.len()
        invariant
            i <= members@.len(),
            st == views(standings@),
            ms == member_names(members@),
            member_names(out@) == knowers_in(known@, dp.floor, traces@, st, ms, *policy, i as int),
        decreases members@.len() - i,
    {
        if knows_exec(known, dp, traces, standings, members, i, policy) {
            let ghost before = out@;
            out.push(members[i]);
            assert(member_names(out@) =~= member_names(before).push(ms[i as int]));
        }
        i = i + 1;
    }
    out
}

} // verus!

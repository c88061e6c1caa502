//! The stigmergic grammar: what a message deposits, and how it is read back.
//!
//! Work leaves a trace in a shared medium, and the trace is the stimulus for
//! the next unit of work. The transcript is the medium. No agent addresses
//! another, and nothing in this module dispatches anything.

mod grammar;
mod parse;
mod positions;
mod redelivery;
mod types;

pub use grammar::{Mark, marks};
pub use parse::{deposits, mark_view};
pub use positions::{at_its_bang, law_markers_sit_at_their_bang, law_traces_point_at_their_markers, points_at_marker};
pub use redelivery::{
    addresses_determine, bodies_fit, lemma_deposits_determine, lemma_deposits_redelivered, lemma_medium_holds_deposits,
    redelivered, sequences_name_rows,
};
pub use types::{TopicId, Trace, TraceKind, topic_view};

use vstd::prelude::*;

use crate::session::{Sequence, SessionAuthor, SessionMessage};
use parse::extract;

verus! {

/// Maximum number of traces read from one message body.
///
/// A body that deposits more than this keeps the first `TRACE_CAP` in reading
/// order, so one message cannot grow the fold without limit.
pub const TRACE_CAP: usize = 16;

/// What a trace says, as plain values: its row, its author, and its marker.
pub open spec fn trace_view(t: Trace) -> (Sequence, SessionAuthor, Mark) {
    (t.sequence, t.author, mark_view(t))
}

/// The plain values of a sequence of traces.
pub open spec fn trace_views(s: Seq<Trace>) -> Seq<(Sequence, SessionAuthor, Mark)> {
    s.map_values(|t: Trace| trace_view(t))
}

/// Whether two lists of traces say the same things, in the same order.
pub open spec fn alike(a: Seq<Trace>, b: Seq<Trace>) -> bool {
    trace_views(a) == trace_views(b)
}

/// Two traces that say the same thing agree on every field a fold reads.
pub proof fn lemma_view_fields(a: Trace, b: Trace)
    requires
        trace_view(a) == trace_view(b),
    ensures
        a.sequence == b.sequence,
        a.author == b.author,
        a.kind == b.kind,
        a.topic_name() == b.topic_name(),
        a.topic is Some <==> b.topic is Some,
        a.target == b.target,
        a.cites@ == b.cites@,
        a.offset == b.offset,
        a.agent() == b.agent(),
        a.is_grounded() == b.is_grounded(),
{
    assert(mark_view(a) == mark_view(b));
    let ca = a.cites@.map_values(|c: Sequence| c.0);
    let cb = b.cites@.map_values(|c: Sequence| c.0);
    assert(ca == cb);
    assert(ca.len() == a.cites@.len() && cb.len() == b.cites@.len());
    assert forall|i: int| 0 <= i < a.cites@.len() implies a.cites@[i] == b.cites@[i] by {
        assert(ca[i] == cb[i]);
    }
    assert(a.cites@ =~= b.cites@);
    match a.target {
        Some(x) => {
            assert(b.target is Some);
            assert((b.target->0).0 == x.0);
        },
        None => {},
    }
}

/// Alike lists agree in length and, index by index, in what each trace says.
pub proof fn lemma_alike_at(a: Seq<Trace>, b: Seq<Trace>, i: int)
    requires
        alike(a, b),
        0 <= i < a.len(),
    ensures
        a.len() == b.len(),
        trace_view(a[i]) == trace_view(b[i]),
{
    assert(trace_views(a).len() == trace_views(b).len());
    assert(trace_views(a)[i] == trace_views(b)[i]);
}

/// The deposits a list of markers makes for `author` at `sequence`.
pub open spec fn deposited(ms: Seq<Mark>, author: SessionAuthor, sequence: Sequence) -> Seq<
    (Sequence, SessionAuthor, Mark),
> {
    ms.map_values(|m: Mark| (sequence, author, m))
}

/// The first marker of `ms`, from index `i` on, at byte `offset` and of `kind`.
pub open spec fn find_from(ms: Seq<Mark>, offset: usize, kind: TraceKind, i: int) -> Option<Mark>
    decreases ms.len() - i,
{
    if i < 0 || i >= ms.len() {
        None
    } else if ms[i].offset == offset && ms[i].kind == kind {
        Some(ms[i])
    } else {
        find_from(ms, offset, kind, i + 1)
    }
}

/// Whether the offset of pick `k` was already named by an earlier pick.
pub open spec fn named_before(picks: Seq<(usize, TraceKind)>, k: int) -> bool {
    exists|j: int| 0 <= j < k && (#[trigger] picks[j]).0 == picks[k].0
}

/// The markers a supplied list selects from `ms`: each pick names one marker
/// by `(offset, kind)`, a repeated offset selects nothing, and a pick that
/// matches no marker is dropped.
pub open spec fn select(ms: Seq<Mark>, picks: Seq<(usize, TraceKind)>) -> Seq<Mark>
    decreases picks.len(),
{
    if picks.len() == 0 {
        Seq::empty()
    } else {
        let earlier = select(ms, picks.drop_last());
        let k = picks.len() - 1;
        if named_before(picks, k) {
            earlier
        } else {
            match find_from(ms, picks[k].0, picks[k].1, 0) {
                Some(m) => earlier.push(m),
                None => earlier,
            }
        }
    }
}

/// The `(offset, kind)` a supplied trace names.
pub open spec fn picks_of(supplied: Seq<Trace>) -> Seq<(usize, TraceKind)> {
    supplied.map_values(|t: Trace| (t.offset, t.kind))
}

/// A supplied list as plain values.
pub open spec fn supplied_view(supplied: Option<Vec<Trace>>) -> Option<Seq<Trace>> {
    match supplied {
        Some(s) => Some(s@),
        None => None,
    }
}

/// The markers `resolve` keeps, before the cap.
pub open spec fn chosen(body: Seq<char>, supplied: Option<Seq<Trace>>) -> Seq<Mark> {
    match supplied {
        None => marks(body),
        Some(s) => select(marks(body), picks_of(s)),
    }
}

/// The markers `resolve` keeps: the chosen ones, at most `TRACE_CAP`.
pub open spec fn resolved(body: Seq<char>, supplied: Option<Seq<Trace>>) -> Seq<Mark> {
    let c = chosen(body, supplied);
    if c.len() <= TRACE_CAP {
        c
    } else {
        c.take(TRACE_CAP as int)
    }
}

/// A copy of a trace that says the same thing.
pub fn copy_trace(t: &Trace) -> (copy: Trace)
    ensures
        trace_view(copy) == trace_view(*t),
{
    let mut cites: Vec<Sequence> = Vec::new();
    let mut i: usize = 0;
    while i < t.cites.len()
        invariant
            i <= t.cites@.len(),
            cites@ == t.cites@.take(i as int),
        decreases t.cites@.len() - i,
    {
        cites.push(t.cites[i]);
        assert(cites@ =~= t.cites@.take(i + 1));
        i = i + 1;
    }
    assert(t.cites@.take(t.cites@.len() as int) =~= t.cites@);
    let copy = Trace {
        sequence: t.sequence,
        author: t.author.duplicate(),
        kind: t.kind,
        topic: match &t.topic {
            Some(topic) => Some(topic.duplicate()),
            None => None,
        },
        target: t.target,
        cites,
        text: t.text.clone(),
        offset: t.offset,
    };
    assert(mark_view(copy) == mark_view(*t));
    copy
}

/// The first extracted trace at `offset` of `kind`.
fn find_trace(extracted: &Vec<Trace>, offset: usize, kind: TraceKind, Ghost(ms): Ghost<Seq<Mark>>) -> (found: Option<usize>)
    requires
        extracted@.len() == ms.len(),
        forall|i: int| 0 <= i < ms.len() ==> mark_view(#[trigger] extracted@[i]) == ms[i],
    ensures
        match found {
            Some(i) => i < ms.len() && find_from(ms, offset, kind, 0) == Some(ms[i as int]),
            None => find_from(ms, offset, kind, 0) is None,
        },
{
    let mut i: usize = 0;
    while i < extracted.len()
        invariant
            i <= ms.len(),
            extracted@.len() == ms.len(),
            forall|k: int| 0 <= k < ms.len() ==> mark_view(#[trigger] extracted@[k]) == ms[k],
            find_from(ms, offset, kind, 0) == find_from(ms, offset, kind, i as int),
        decreases ms.len() - i,
    {
        let t = &extracted[i];
        assert(mark_view(extracted@[i as int]) == ms[i as int]);
        if t.offset == offset && t.kind == kind {
            return Some(i);
        }
        i = i + 1;
    }
    None
}

/// Whether an offset occurs in a list.
fn seen(offsets: &Vec<usize>, offset: usize) -> (found: bool)
    ensures
        found == offsets@.contains(offset),
{
    let mut i: usize = 0;
    while i < offsets.len()
        invariant
            i <= offsets@.len(),
            forall|j: int| 0 <= j < i ==> offsets@[j] != offset,
        decreases offsets@.len() - i,
    {
        if offsets[i] == offset {
            return true;
        }
        i = i + 1;
    }
    false
}

/// Keep the extracted traces that a supplied list names.
fn revalidate(body: &str, supplied: &Vec<Trace>, author: &SessionAuthor, sequence: Sequence) -> (traces: Vec<
    Trace,
>)
    ensures
        trace_views(traces@) == deposited(select(marks(body@), picks_of(supplied@)), *author, sequence),
{
    let extracted = extract(body, author, sequence);
    let ghost ms = marks(body@);
    let ghost picks = picks_of(supplied@);
    assert forall|i: int| 0 <= i < ms.len() implies mark_view(#[trigger] extracted@[i]) == ms[i] by {
        assert(deposits(extracted@[i], ms[i], *author, sequence));
    }
    let mut seen_offsets: Vec<usize> = Vec::new();
    let mut traces: Vec<Trace> = Vec::new();
    let mut k: usize = 0;
    while k < supplied.len()
        invariant
            k <= supplied@.len(),
            picks == picks_of(supplied@),
            ms == marks(body@),
            extracted@.len() == ms.len(),
            forall|i: int| 0 <= i < ms.len() ==> mark_view(#[trigger] extracted@[i]) == ms[i],
            forall|i: int| 0 <= i < ms.len() ==> (#[trigger] extracted@[i]).sequence == sequence && extracted@[i].author == *author,
            forall|o: usize|
                #![trigger seen_offsets@.contains(o)]
                seen_offsets@.contains(o) <==> exists|j: int| 0 <= j < k && (#[trigger] picks[j]).0 == o,
            trace_views(traces@) == deposited(select(ms, picks.take(k as int)), *author, sequence),
        decreases supplied@.len() - k,
    {
        let offset = supplied[k].offset;
        let kind = supplied[k].kind;
        let ghost before = traces@;
        let ghost old_seen = seen_offsets@;
        proof {
            assert(picks.take(k + 1).drop_last() =~= picks.take(k as int));
            assert(picks[k as int] == (offset, kind));
        }
        let repeated = seen(&seen_offsets, offset);
        proof {
            let pk = picks.take(k + 1);
            if repeated {
                let j = choose|j: int| 0 <= j < k && (#[trigger] picks[j]).0 == offset;
                assert(pk[j] == picks[j]);
                assert(named_before(pk, k as int));
            } else {
                assert forall|j: int| 0 <= j < k implies (#[trigger] pk[j]).0 != pk[k as int].0 by {
                    assert(pk[j] == picks[j]);
                }
            }
        }
        if !repeated {
            seen_offsets.push(offset);
            match find_trace(&extracted, offset, kind, Ghost(ms)) {
                Some(i) => {
                    let t = copy_trace(&extracted[i]);
                    traces.push(t);
                    assert(trace_views(traces@) =~= trace_views(before).push(trace_view(t)));
                },
                None => {},
            }
        }
        proof {
            assert(seen_offsets@ == (if repeated {
                old_seen
            } else {
                old_seen.push(offset)
            }));
            assert forall|o: usize| #![trigger seen_offsets@.contains(o)]
                seen_offsets@.contains(o) <==> exists|j: int| 0 <= j < k + 1 && (#[trigger] picks[j]).0 == o by {
                if seen_offsets@.contains(o) {
                    if old_seen.contains(o) {
                        let j = choose|j: int| 0 <= j < k && (#[trigger] picks[j]).0 == o;
                        assert(0 <= j < k + 1 && picks[j].0 == o);
                    } else {
                        let m = choose|m: int| 0 <= m < seen_offsets@.len() && seen_offsets@[m] == o;
                        assert(o == offset);
                        assert(picks[k as int].0 == o);
                    }
                }
                if exists|j: int| 0 <= j < k + 1 && (#[trigger] picks[j]).0 == o {
                    let j = choose|j: int| 0 <= j < k + 1 && (#[trigger] picks[j]).0 == o;
                    if j < k {
                        assert(old_seen.contains(o));
                    } else {
                        assert(o == offset);
                    }
                    if !repeated {
                        assert(seen_offsets@[seen_offsets@.len() - 1] == offset);
                        if old_seen.contains(o) {
                            let m = choose|m: int| 0 <= m < old_seen.len() && old_seen[m] == o;
                            assert(seen_offsets@[m] == o);
                        }
                    }
                }
            }
            assert(trace_views(traces@) =~= deposited(select(ms, picks.take(k + 1)), *author, sequence));
        }
        k = k + 1;
    }
    assert(picks.take(supplied@.len() as int) =~= picks);
    traces
}

/// Read traces from an authored body, or revalidate a supplied list.
///
/// `None` extracts from `body`; `Some`, including an empty list, selects
/// from what extraction finds there. A supplied entry can only name which
/// extracted trace to keep, by `(offset, kind)`: anything else it claims is
/// discarded in favour of what the body says, and a repeated offset is
/// rejected rather than selecting its trace twice. A body carrying no marker
/// yields no trace.
///
/// Extraction recognises a marker only at the start of a line, ignoring
/// leading whitespace, and only outside a fenced code block. The grammar of
/// one marker line is:
///
/// ```text
/// !<kind> [#topic] [>target] [^cite ...] [free text]
/// ```
///
/// `!refute` requires both a `#topic` and at least one `^cite`, and yields no
/// trace without them.
pub fn resolve(body: &str, supplied: Option<Vec<Trace>>, author: &SessionAuthor, sequence: Sequence) -> (traces:
    Vec<Trace>)
    ensures
        trace_views(traces@) == deposited(
            resolved(body@, supplied_view(supplied)),
            *author,
            sequence,
        ),
{
    let ghost sup = supplied_view(supplied);
    let mut traces = match supplied {
        None => {
            let t = extract(body, author, sequence);
            assert(trace_views(t@) =~= deposited(marks(body@), *author, sequence)) by {
                assert forall|i: int| 0 <= i < t@.len() implies trace_views(t@)[i] == deposited(
                    marks(body@),
                    *author,
                    sequence,
                )[i] by {
                    assert(deposits(t@[i], marks(body@)[i], *author, sequence));
                }
            }
            t
        },
        Some(s) => revalidate(body, &s, author, sequence),
    };
    let ghost before = traces@;
    let ghost c = chosen(body@, sup);
    assert(trace_views(before) == deposited(c, *author, sequence));
    traces.truncate(TRACE_CAP);
    proof {
        if before.len() > TRACE_CAP {
            assert(traces@ == before.subrange(0, TRACE_CAP as int));
            assert(resolved(body@, sup) == c.take(TRACE_CAP as int));
            assert forall|i: int| 0 <= i < traces@.len() implies trace_views(traces@)[i] == deposited(
                resolved(body@, sup),
                *author,
                sequence,
            )[i] by {
                assert(traces@[i] == before[i]);
                assert(trace_views(before)[i] == deposited(c, *author, sequence)[i]);
            }
            assert(trace_views(traces@) =~= deposited(resolved(body@, sup), *author, sequence));
        } else {
            assert(traces@ == before);
            assert(resolved(body@, sup) == c);
        }
    }
    traces
}

/// Where a deposit was authored, as one integer ordered by sequence and then
/// by offset.
pub open spec fn view_key(v: (Sequence, SessionAuthor, Mark)) -> int {
    v.0.0 * 18446744073709551616 + v.2.offset
}

/// Insert `x` after every element of `s`, from the back, whose key is no
/// greater: a stable insertion by key.
pub open spec fn insert_by_key(s: Seq<(Sequence, SessionAuthor, Mark)>, x: (Sequence, SessionAuthor, Mark)) -> Seq<
    (Sequence, SessionAuthor, Mark),
>
    decreases s.len(),
{
    if s.len() == 0 {
        seq![x]
    } else if view_key(s.last()) <= view_key(x) {
        s.push(x)
    } else {
        insert_by_key(s.drop_last(), x).push(s.last())
    }
}

/// `s` sorted stably by key.
pub open spec fn sort_by_key(s: Seq<(Sequence, SessionAuthor, Mark)>) -> Seq<(Sequence, SessionAuthor, Mark)>
    decreases s.len(),
{
    if s.len() == 0 {
        s
    } else {
        insert_by_key(sort_by_key(s.drop_last()), s.last())
    }
}

/// Whether a sequence of deposits is ordered by key.
pub open spec fn sorted_by_key(s: Seq<(Sequence, SessionAuthor, Mark)>) -> bool {
    forall|i: int, j: int| 0 <= i < j < s.len() ==> view_key(#[trigger] s[i]) <= view_key(#[trigger] s[j])
}

/// Everything a list of messages deposits, message by message.
pub open spec fn deposits_of(messages: Seq<SessionMessage>) -> Seq<(Sequence, SessionAuthor, Mark)>
    decreases messages.len(),
{
    if messages.len() == 0 {
        Seq::empty()
    } else {
        let m = messages.last();
        deposits_of(messages.drop_last()) + deposited(resolved(m.content@, None), m.author, m.sequence)
    }
}

/// The fold of a transcript: every deposit, ordered by where it was written.
pub open spec fn medium(messages: Seq<SessionMessage>) -> Seq<(Sequence, SessionAuthor, Mark)> {
    sort_by_key(deposits_of(messages))
}

/// Inserting at the first position past every key no greater than `x`'s is
/// the stable insertion.
proof fn lemma_insert_at(s: Seq<(Sequence, SessionAuthor, Mark)>, x: (Sequence, SessionAuthor, Mark), p: int)
    requires
        0 <= p <= s.len(),
        forall|j: int| p <= j < s.len() ==> view_key(#[trigger] s[j]) > view_key(x),
        p == 0 || view_key(s[p - 1]) <= view_key(x),
    ensures
        insert_by_key(s, x) == s.insert(p, x),
    decreases s.len(),
{
    if s.len() == p {
        if p == 0 {
            assert(s.insert(p, x) =~= seq![x]);
        } else {
            assert(s.insert(p, x) =~= s.push(x));
        }
    } else {
        let last = s.last();
        assert(view_key(s[s.len() - 1]) > view_key(x));
        lemma_insert_at(s.drop_last(), x, p);
        assert(s.insert(p, x) =~= s.drop_last().insert(p, x).push(last));
    }
}

/// A stable insertion keeps a sorted sequence sorted, and keeps every
/// element.
proof fn lemma_insert_sorted(s: Seq<(Sequence, SessionAuthor, Mark)>, x: (Sequence, SessionAuthor, Mark))
    requires
        sorted_by_key(s),
    ensures
        sorted_by_key(insert_by_key(s, x)),
        insert_by_key(s, x).to_multiset() == s.to_multiset().insert(x),
    decreases s.len(),
{
    broadcast use vstd::seq_lib::group_to_multiset_ensures;

    if s.len() == 0 {
        assert(seq![x] =~= Seq::<(Sequence, SessionAuthor, Mark)>::empty().push(x));
    } else if view_key(s.last()) <= view_key(x) {
    } else {
        let rest = s.drop_last();
        assert(sorted_by_key(rest)) by {
            assert forall|i: int, j: int| 0 <= i < j < rest.len() implies view_key(#[trigger] rest[i])
                <= view_key(#[trigger] rest[j]) by {
                assert(rest[i] == s[i] && rest[j] == s[j]);
            }
        }
        lemma_insert_sorted(rest, x);
        let r = insert_by_key(rest, x);
        let last = s.last();
        assert forall|i: int| 0 <= i < r.len() implies view_key(#[trigger] r[i]) <= view_key(last) by {
            assert(r.to_multiset().count(r[i]) > 0);
            assert(rest.to_multiset().insert(x).count(r[i]) > 0);
            if r[i] != x {
                assert(rest.contains(r[i]));
                let k = choose|k: int| 0 <= k < rest.len() && rest[k] == r[i];
                assert(s[k] == rest[k]);
            }
        }
        assert(s =~= rest.push(last));
    }
}

/// Sorting by key yields a sorted permutation.
proof fn lemma_sorted(s: Seq<(Sequence, SessionAuthor, Mark)>)
    ensures
        sorted_by_key(sort_by_key(s)),
        sort_by_key(s).to_multiset() == s.to_multiset(),
    decreases s.len(),
{
    broadcast use vstd::seq_lib::group_to_multiset_ensures;

    if s.len() > 0 {
        lemma_sorted(s.drop_last());
        lemma_insert_sorted(sort_by_key(s.drop_last()), s.last());
        assert(s =~= s.drop_last().push(s.last()));
    }
}

/// Insert a trace into a vector kept ordered by address, after every trace
/// at or before its address.
fn insert_ordered(sorted: &mut Vec<Trace>, t: Trace)
    ensures
        trace_views(final(sorted)@) == insert_by_key(trace_views(old(sorted)@), trace_view(t)),
{
    let ghost s = trace_views(sorted@);
    let mut p = sorted.len();
    while p > 0 && (sorted[p - 1].sequence.0 > t.sequence.0 || (sorted[p - 1].sequence.0 == t.sequence.0
        && sorted[p - 1].offset > t.offset))
        invariant
            p <= sorted@.len(),
            s == trace_views(sorted@),
            forall|j: int| p <= j < s.len() ==> view_key(#[trigger] s[j]) > view_key(trace_view(t)),
        decreases p,
    {
        proof {
            let a = sorted@[p - 1];
            assert(s[p - 1] == trace_view(a));
            let (x, y, u, v) = (a.sequence.0 as int, a.offset as int, t.sequence.0 as int, t.offset as int);
            assert(x * 18446744073709551616 + y > u * 18446744073709551616 + v) by (nonlinear_arith)
                requires
                    x > u || (x == u && y > v),
                    0 <= y < 18446744073709551616,
                    0 <= v < 18446744073709551616,
            ;
        }
        p = p - 1;
    }
    proof {
        if p > 0 {
            let a = sorted@[p - 1];
            assert(s[p - 1] == trace_view(a));
            let (x, y, u, v) = (a.sequence.0 as int, a.offset as int, t.sequence.0 as int, t.offset as int);
            assert(x * 18446744073709551616 + y <= u * 18446744073709551616 + v) by (nonlinear_arith)
                requires
                    x < u || (x == u && y <= v),
                    0 <= y < 18446744073709551616,
                    0 <= v < 18446744073709551616,
            ;
        }
        lemma_insert_at(s, trace_view(t), p as int);
    }
    let ghost tv = trace_view(t);
    sorted.insert(p, t);
    assert(trace_views(sorted@) =~= s.insert(p as int, tv));
}

/// A message deposits at most `TRACE_CAP` traces.
pub proof fn lemma_deposits_len(messages: Seq<SessionMessage>)
    ensures
        deposits_of(messages).len() <= TRACE_CAP * messages.len(),
    decreases messages.len(),
{
    if messages.len() > 0 {
        lemma_deposits_len(messages.drop_last());
        let m = messages.last();
        assert(resolved(m.content@, None).len() <= TRACE_CAP);
    }
}

/// The medium of a transcript holds at most `TRACE_CAP` traces per message.
pub proof fn lemma_medium_len(messages: Seq<SessionMessage>)
    ensures
        medium(messages).len() <= TRACE_CAP * messages.len(),
{
    broadcast use vstd::seq_lib::group_to_multiset_ensures;

    lemma_sorted(deposits_of(messages));
    lemma_deposits_len(messages);
    assert(medium(messages).to_multiset().len() == deposits_of(messages).to_multiset().len());
}

/// The messages an index list picks, in its order.
pub open spec fn picked_messages(messages: Seq<SessionMessage>, idx: Seq<usize>) -> Seq<SessionMessage> {
    idx.map_values(|i: usize| messages[i as int])
}

/// The rows of a transcript the whole desk may read, in order.
pub open spec fn desk_rows(messages: Seq<SessionMessage>) -> Seq<SessionMessage>
    decreases messages.len(),
{
    if messages.len() == 0 {
        Seq::empty()
    } else if messages.last().audience is Desk {
        desk_rows(messages.drop_last()).push(messages.last())
    } else {
        desk_rows(messages.drop_last())
    }
}

/// Fold a projected transcript into traces, ordered by where each was
/// written: by sequence, then by offset, keeping message order between
/// traces at one address.
///
/// Only rows addressed to the desk are read: an aside carries information,
/// never support, so it deposits nothing in the medium for any reader.
/// Messages carrying no marker contribute nothing, so a transcript of
/// ordinary conversation folds to an empty medium.
pub fn read(messages: &[SessionMessage]) -> (traces: Vec<Trace>)
    ensures
        trace_views(traces@) == medium(desk_rows(messages@)),
        sorted_by_key(trace_views(traces@)),
        trace_views(traces@).to_multiset() == deposits_of(desk_rows(messages@)).to_multiset(),
        traces@.len() <= TRACE_CAP * messages@.len(),
{
    let mut idx: Vec<usize> = Vec::new();
    let mut i: usize = 0;
    while i < messages.len()
        invariant
            i <= messages@.len(),
            idx@.len() <= i,
            forall|k: int| 0 <= k < idx@.len() ==> idx@[k] < i,
            picked_messages(messages@, idx@) == desk_rows(messages@.take(i as int)),
        decreases messages@.len() - i,
    {
        assert(messages@.take(i + 1).drop_last() =~= messages@.take(i as int));
        assert(messages@.take(i + 1).last() == messages@[i as int]);
        if messages[i].audience.is_desk() {
            let ghost before = idx@;
            idx.push(i);
            assert(picked_messages(messages@, idx@) =~= picked_messages(messages@, before).push(messages@[i as int]));
        }
        i = i + 1;
    }
    assert(messages@.take(messages@.len() as int) =~= messages@);
    read_picked(messages, &idx)
}

/// Fold the messages an index list picks, as [`read`] folds a transcript.
pub fn read_picked(messages: &[SessionMessage], idx: &Vec<usize>) -> (traces: Vec<Trace>)
    requires
        forall|k: int| 0 <= k < idx@.len() ==> idx@[k] < messages@.len(),
    ensures
        trace_views(traces@) == medium(picked_messages(messages@, idx@)),
        sorted_by_key(trace_views(traces@)),
        trace_views(traces@).to_multiset() == deposits_of(picked_messages(messages@, idx@)).to_multiset(),
        traces@.len() <= TRACE_CAP * idx@.len(),
{
    let ghost chosen = picked_messages(messages@, idx@);
    let mut traces: Vec<Trace> = Vec::new();
    let mut i: usize = 0;
    while i < idx.len()
        invariant
            i <= idx@.len(),
            chosen == picked_messages(messages@, idx@),
            forall|k: int| 0 <= k < idx@.len() ==> idx@[k] < messages@.len(),
            trace_views(traces@) == sort_by_key(deposits_of(chosen.take(i as int))),
        decreases idx@.len() - i,
    {
        let message = &messages[idx[i]];
        assert(chosen[i as int] == *message);
        let found = resolve(message.content.as_str(), None, &message.author, message.sequence);
        let ghost done = deposits_of(chosen.take(i as int));
        let ghost fresh = trace_views(found@);
        proof {
            assert(chosen.take(i + 1).drop_last() =~= chosen.take(i as int));
            assert(chosen.take(i + 1).last() == chosen[i as int]);
            assert(deposits_of(chosen.take(i + 1)) == done + fresh);
        }
        let mut j: usize = 0;
        let mut rest = found;
        assert(fresh.skip(0) =~= fresh);
        while rest.len() > 0
            invariant
                i < idx@.len(),
                done == deposits_of(chosen.take(i as int)),
                deposits_of(chosen.take(i + 1)) == done + fresh,
                fresh.len() == j + rest@.len(),
                fresh.len() <= TRACE_CAP,
                trace_views(rest@) == fresh.skip(j as int),
                trace_views(traces@) == sort_by_key(done + fresh.take(j as int)),
            decreases rest@.len(),
        {
            let ghost r0 = rest@;
            let t = rest.remove(0);
            proof {
                assert(t == r0[0]);
                assert(trace_views(r0)[0] == fresh.skip(j as int)[0]);
                assert(fresh[j as int] == trace_view(t));
                assert((done + fresh.take(j + 1)).drop_last() =~= done + fresh.take(j as int));
                assert((done + fresh.take(j + 1)).last() == fresh[j as int]);
            }
            insert_ordered(&mut traces, t);
            let ghost j0 = j;
            j = j + 1;
            assert forall|k: int| 0 <= k < rest@.len() implies trace_views(rest@)[k] == fresh.skip(j as int)[k] by {
                assert(rest@[k] == r0[k + 1]);
                assert(trace_views(r0)[k + 1] == fresh.skip(j0 as int)[k + 1]);
            }
            assert(trace_views(rest@) =~= fresh.skip(j as int));
        }
        assert(fresh.take(j as int) =~= fresh);
        i = i + 1;
    }
    assert(chosen.take(idx@.len() as int) =~= chosen);
    proof {
        lemma_sorted(deposits_of(chosen));
        lemma_deposits_len(chosen);
        vstd::seq_lib::to_multiset_len(trace_views(traces@));
        vstd::seq_lib::to_multiset_len(deposits_of(chosen));
        assert(trace_views(traces@).len() == traces@.len());
    }
    traces
}

} // verus!

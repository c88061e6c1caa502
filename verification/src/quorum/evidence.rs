//! Whether a citation chain, followed only inside the window, reaches a
//! stated fact.

use vstd::prelude::*;
use vstd::set_lib::{lemma_int_range, lemma_len_subset, set_int_range};

use super::spec::{cites_at, evidence_at, evidenced, is_chain, reachable, reaches_evidence};
use super::indexes;
use crate::names::same_text;
use crate::trace::{Trace, TraceKind};
use crate::window::picked;

verus! {

broadcast use vstd::seq_lib::seq_to_set_is_finite;

/// Whether `agent` deposited a fact in the window.
pub fn has_evidence_by(traces: &[Trace], live: &Vec<usize>, agent: &str) -> (found: bool)
    requires
        indexes(traces@, live@),
    ensures
        found == evidenced(picked(traces@, live@), agent@),
{
    let ghost l = picked(traces@, live@);
    let mut j: usize = 0;
    while j < live.len()
        invariant
            j <= live@.len(),
            indexes(traces@, live@),
            l == picked(traces@, live@),
            forall|m: int|
                0 <= m < j ==> !((#[trigger] l[m]).kind == TraceKind::Evidence && l[m].agent()
                    == Some(agent@)),
        decreases live@.len() - j,
    {
        let u = &traces[live[j]];
        assert(l[j as int] == *u);
        if u.kind == TraceKind::Evidence {
            match u.agent_id() {
                Some(a) => {
                    if same_text(a, agent) {
                        return true;
                    }
                },
                None => {},
            }
        }
        j = j + 1;
    }
    false
}

/// A sequence of distinct `u64` values is no longer than there are values.
proof fn lemma_distinct_u64_bound(s: Seq<u64>)
    requires
        s.no_duplicates(),
    ensures
        s.len() <= 18446744073709551616,
{
    let m = s.map_values(|x: u64| x as int);
    assert(m.no_duplicates()) by {
        assert forall|i: int, j: int| 0 <= i < m.len() && 0 <= j < m.len() && i != j implies m[i]
            != m[j] by {
            assert(s[i] != s[j]);
        }
    }
    m.unique_seq_to_set();
    lemma_int_range(0, 18446744073709551616);
    assert(m.to_set().subset_of(set_int_range(0, 18446744073709551616))) by {
        assert forall|x: int| m.to_set().contains(x) implies set_int_range(
            0,
            18446744073709551616,
        ).contains(x) by {
            let i = choose|i: int| 0 <= i < m.len() && m[i] == x;
            assert(m[i] == s[i] as int);
        }
    }
    lemma_len_subset(m.to_set(), set_int_range(0, 18446744073709551616));
}

/// A closed set of rows that holds every starting row holds every row a
/// chain passes through.
proof fn lemma_closed_holds_chain(
    live: Seq<Trace>,
    start: Seq<crate::session::Sequence>,
    visited: Seq<u64>,
    path: Seq<u64>,
)
    requires
        is_chain(live, start, path),
        forall|i: int| 0 <= i < start.len() ==> visited.contains(#[trigger] start[i].0),
        forall|q: u64, x: u64| visited.contains(q) && cites_at(live, q, x) ==> visited.contains(x),
    ensures
        forall|i: int| 0 <= i < path.len() ==> visited.contains(#[trigger] path[i]),
    decreases path.len(),
{
    if path.len() > 1 {
        let shorter = path.drop_last();
        assert forall|i: int| 0 <= i < shorter.len() - 1 implies cites_at(
            live,
            #[trigger] shorter[i],
            shorter[i + 1],
        ) by {
            assert(cites_at(live, path[i], path[i + 1]));
        }
        lemma_closed_holds_chain(live, start, visited, shorter);
        assert forall|i: int| 0 <= i < path.len() implies visited.contains(#[trigger] path[i]) by {
            if i < path.len() - 1 {
                assert(shorter[i] == path[i]);
            } else {
                assert(shorter[i - 1] == path[i - 1]);
                assert(cites_at(live, path[i - 1], path[i]));
            }
        }
    } else {
        let k = choose|k: int| 0 <= k < start.len() && start[k] == crate::session::Sequence(path[0]);
        assert(visited.contains(start[k].0));
    }
}

/// Return whether a trace's citation chain reaches a stated fact.
///
/// The chain is followed transitively through traces inside the window only.
/// The visited set is over rows, so two supports that cite each other
/// terminate rather than recurring.
pub fn reaches(traces: &[Trace], live: &Vec<usize>, t: &Trace) -> (found: bool)
    requires
        indexes(traces@, live@),
    ensures
        found == reaches_evidence(picked(traces@, live@), *t),
{
    let ghost l = picked(traces@, live@);
    let ghost start = t.cites@;
    let mut pending: Vec<u64> = Vec::new();
    let mut i: usize = 0;
    while i < t.cites.len()
        invariant
            i <= start.len(),
            start == t.cites@,
            pending@ == start.take(i as int).map_values(|s: crate::session::Sequence| s.0),
        decreases start.len() - i,
    {
        let ghost before = pending@;
        pending.push(t.cites[i].0);
        assert(pending@ =~= start.take(i + 1).map_values(|s: crate::session::Sequence| s.0));
        i = i + 1;
    }
    assert(start.take(start.len() as int) =~= start);
    proof {
        assert forall|q: u64| #[trigger] pending@.contains(q) implies reachable(l, start, q) by {
            let k = choose|k: int| 0 <= k < pending@.len() && pending@[k] == q;
            let path = seq![q];
            assert(pending@[k] == start[k].0);
            assert(start[k] == crate::session::Sequence(q));
            assert(path[0] == q);
            assert(start.contains(crate::session::Sequence(path[0])));
            assert(is_chain(l, start, path) && path.last() == q);
        }
        assert forall|k: int| 0 <= k < start.len() implies pending@.contains(#[trigger] start[k].0) by {
            assert(pending@[k] == start[k].0);
        }
    }
    let mut visited: Vec<u64> = Vec::new();
    while pending.len() > 0
        invariant
            indexes(traces@, live@),
            l == picked(traces@, live@),
            start == t.cites@,
            forall|q: u64|
                visited@.contains(q) || pending@.contains(q) ==> #[trigger] reachable(l, start, q),
            forall|q: u64| #[trigger] visited@.contains(q) ==> !evidence_at(l, q),
            forall|q: u64, x: u64|
                visited@.contains(q) && #[trigger] cites_at(l, q, x) ==> visited@.contains(x)
                    || pending@.contains(x),
            forall|k: int|
                0 <= k < start.len() ==> visited@.contains(#[trigger] start[k].0)
                    || pending@.contains(start[k].0),
            visited@.no_duplicates(),
        decreases 18446744073709551616 - visited@.len(), pending@.len(),
    {
        proof {
            lemma_distinct_u64_bound(visited@);
        }
        let ghost before = pending@;
        let q = pending.pop().unwrap();
        assert(before =~= pending@.push(q));
        assert(before.contains(q)) by {
            assert(before[before.len() - 1] == q);
        }
        assert(reachable(l, start, q));
        let mut seen = false;
        let mut k: usize = 0;
        while k < visited.len()
            invariant
                k <= visited@.len(),
                seen == exists|m: int| 0 <= m < k && visited@[m] == q,
            decreases visited@.len() - k,
        {
            if visited[k] == q {
                seen = true;
            }
            k = k + 1;
        }
        assert(seen == visited@.contains(q));
        if seen {
            assert forall|x: u64| pending@.contains(x) || visited@.contains(x) implies before.contains(x)
                || visited@.contains(x) by {
                if pending@.contains(x) {
                    let m = choose|m: int| 0 <= m < pending@.len() && pending@[m] == x;
                    assert(before[m] == x);
                }
            }
            assert forall|x: u64| before.contains(x) implies pending@.contains(x) || visited@.contains(x) by {
                let m = choose|m: int| 0 <= m < before.len() && before[m] == x;
                if m < pending@.len() {
                    assert(pending@[m] == x);
                }
            }
            continue;
        }
        // Visit row `q`: every trace there either states a fact or extends
        // the frontier by what it cites.
        let ghost frontier = pending@;
        let mut j: usize = 0;
        while j < live.len()
            invariant
                j <= live@.len(),
                indexes(traces@, live@),
                l == picked(traces@, live@),
                start == t.cites@,
                reachable(l, start, q),
                forall|x: u64| #[trigger] frontier.contains(x) ==> pending@.contains(x),
                forall|x: u64| #[trigger] pending@.contains(x) ==> frontier.contains(x) || reachable(l, start, x),
                forall|m: int|
                    0 <= m < j && (#[trigger] l[m]).sequence.0 == q ==> l[m].kind
                        != TraceKind::Evidence,
                forall|m: int, x: u64|
                    #![trigger l[m].cites@.contains(crate::session::Sequence(x))]
                    0 <= m < j && l[m].sequence.0 == q && l[m].cites@.contains(
                        crate::session::Sequence(x),
                    ) ==> pending@.contains(x),
            decreases live@.len() - j,
        {
            let u = &traces[live[j]];
            assert(l[j as int] == *u);
            if u.sequence.0 == q {
                if u.kind == TraceKind::Evidence {
                    assert(evidence_at(l, q));
                    return true;
                }
                let mut c: usize = 0;
                while c < u.cites.len()
                    invariant
                        c <= u.cites@.len(),
                        l[j as int] == *u,
                        u.sequence.0 == q,
                        j < l.len(),
                        reachable(l, start, q),
                        forall|x: u64| #[trigger] frontier.contains(x) ==> pending@.contains(x),
                        forall|x: u64|
                            #[trigger] pending@.contains(x) ==> frontier.contains(x) || reachable(
                                l,
                                start,
                                x,
                            ),
                        forall|m: int, x: u64|
                            #![trigger l[m].cites@.contains(crate::session::Sequence(x))]
                            0 <= m < j && l[m].sequence.0 == q
                                && l[m].cites@.contains(crate::session::Sequence(x))
                                ==> pending@.contains(x),
                        forall|m: int| 0 <= m < c ==> pending@.contains(#[trigger] u.cites@[m].0),
                    decreases u.cites@.len() - c,
                {
                    let x = u.cites[c].0;
                    let ghost grown = pending@;
                    pending.push(x);
                    proof {
                        assert(cites_at(l, q, x)) by {
                            assert(u.cites@[c as int] == crate::session::Sequence(x));
                            assert(l[j as int].cites@.contains(crate::session::Sequence(x)));
                        }
                        let path = choose|path: Seq<u64>| is_chain(l, start, path) && path.last() == q;
                        let longer = path.push(x);
                        assert forall|m: int| 0 <= m < longer.len() - 1 implies cites_at(
                            l,
                            #[trigger] longer[m],
                            longer[m + 1],
                        ) by {
                            if m < path.len() - 1 {
                                assert(cites_at(l, path[m], path[m + 1]));
                            }
                        }
                        assert(longer[0] == path[0]);
                        assert(is_chain(l, start, longer));
                        assert forall|y: u64| #[trigger] pending@.contains(y) implies frontier.contains(y)
                            || reachable(l, start, y) by {
                            let m = choose|m: int| 0 <= m < pending@.len() && pending@[m] == y;
                            if m < grown.len() {
                                assert(grown[m] == y);
                                assert(grown.contains(y));
                            } else {
                                assert(y == x);
                                assert(is_chain(l, start, longer) && longer.last() == y);
                            }
                        }
                        assert forall|y: u64| #[trigger] frontier.contains(y) implies pending@.contains(y) by {
                            assert(grown.contains(y));
                            let m = choose|m: int| 0 <= m < grown.len() && grown[m] == y;
                            assert(pending@[m] == y);
                        }
                        assert forall|m: int, y: u64|
                            #![trigger l[m].cites@.contains(crate::session::Sequence(y))]
                            0 <= m < j && l[m].sequence.0 == q && l[m].cites@.contains(
                                crate::session::Sequence(y),
                            ) implies pending@.contains(y) by {
                            assert(grown.contains(y));
                            let n = choose|n: int| 0 <= n < grown.len() && grown[n] == y;
                            assert(pending@[n] == y);
                        }
                        assert forall|m: int| 0 <= m < c + 1 implies pending@.contains(
                            #[trigger] u.cites@[m].0,
                        ) by {
                            if m < c {
                                assert(grown.contains(u.cites@[m].0));
                                let n = choose|n: int| 0 <= n < grown.len() && grown[n] == u.cites@[m].0;
                                assert(pending@[n] == u.cites@[m].0);
                            } else {
                                assert(pending@[grown.len() as int] == x);
                            }
                        }
                    }
                    c = c + 1;
                }
                proof {
                    assert forall|x: u64| l[j as int].cites@.contains(crate::session::Sequence(x))
                        implies pending@.contains(x) by {
                        let m = choose|m: int|
                            0 <= m < u.cites@.len() && u.cites@[m] == crate::session::Sequence(x);
                        assert(pending@.contains(u.cites@[m].0));
                    }
                }
            }
            j = j + 1;
        }
        let ghost old_visited = visited@;
        visited.push(q);
        proof {
            assert forall|x: u64| #[trigger] visited@.contains(x) <==> old_visited.contains(x) || x == q by {
                if visited@.contains(x) {
                    let m = choose|m: int| 0 <= m < visited@.len() && visited@[m] == x;
                    if m < old_visited.len() {
                        assert(old_visited[m] == x);
                    }
                }
                if old_visited.contains(x) {
                    let m = choose|m: int| 0 <= m < old_visited.len() && old_visited[m] == x;
                    assert(visited@[m] == x);
                }
                if x == q {
                    assert(visited@[old_visited.len() as int] == q);
                }
            }
            assert forall|x: u64| #[trigger] before.contains(x) implies pending@.contains(x)
                || visited@.contains(x) by {
                let m = choose|m: int| 0 <= m < before.len() && before[m] == x;
                if m < frontier.len() {
                    assert(frontier[m] == x);
                    assert(frontier.contains(x));
                } else {
                    assert(x == q);
                }
            }
            assert forall|x: u64| #[trigger] cites_at(l, q, x) implies pending@.contains(x) by {
                let m = choose|m: int|
                    0 <= m < l.len() && (#[trigger] l[m]).sequence.0 == q && l[m].cites@.contains(
                        crate::session::Sequence(x),
                    );
            }
            assert(!evidence_at(l, q)) by {
                if evidence_at(l, q) {
                    let m = choose|m: int|
                        0 <= m < l.len() && (#[trigger] l[m]).sequence.0 == q && l[m].kind
                            == TraceKind::Evidence;
                }
            }
            assert(visited@.no_duplicates()) by {
                assert forall|a: int, b: int| 0 <= a < visited@.len() && 0 <= b < visited@.len() && a != b
                    implies visited@[a] != visited@[b] by {
                    if a < old_visited.len() && b < old_visited.len() {
                    } else if a == old_visited.len() {
                        assert(visited@[a] == q);
                        assert(visited@[b] == old_visited[b]);
                        assert(!old_visited.contains(q));
                    } else {
                        assert(visited@[b] == q);
                        assert(visited@[a] == old_visited[a]);
                        assert(!old_visited.contains(q));
                    }
                }
            }
        }
    }
    proof {
        assert forall|q: u64| reachable(l, start, q) implies !evidence_at(l, q) by {
            let path = choose|path: Seq<u64>| is_chain(l, start, path) && path.last() == q;
            lemma_closed_holds_chain(l, start, visited@, path);
            assert(visited@.contains(path[path.len() - 1]));
        }
    }
    false
}

} // verus!

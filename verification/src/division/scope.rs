//! What each owner reads.

use vstd::prelude::*;

use super::types::{AssignmentView, Division};
use crate::session::{Sequence, SessionAuthor, SessionMessage};
use crate::trace::{Mark, TopicId, Trace, desk_rows, medium, read, trace_view, trace_views};

verus! {

/// Whether a row is kept for `facet`: it names no facet of the division,
/// or it names this one.
pub open spec fn keeps(
    deposits: Seq<(Sequence, SessionAuthor, Mark)>,
    mine: Seq<Seq<char>>,
    facet: Seq<char>,
    row: Sequence,
) -> bool {
    let names_any = exists|k: int|
        0 <= k < deposits.len() && (#[trigger] deposits[k]).0 == row && deposits[k].2.topic is Some
            && mine.contains(deposits[k].2.topic->0);
    let names_this = exists|k: int|
        0 <= k < deposits.len() && (#[trigger] deposits[k]).0 == row && deposits[k].2.topic == Some(facet)
            && mine.contains(facet);
    !names_any || names_this
}

/// The rows of `messages` kept for `facet`, in order.
pub open spec fn scoped_of(
    messages: Seq<SessionMessage>,
    deposits: Seq<(Sequence, SessionAuthor, Mark)>,
    mine: Seq<Seq<char>>,
    facet: Seq<char>,
) -> Seq<SessionMessage>
    decreases messages.len(),
{
    if messages.len() == 0 {
        Seq::empty()
    } else {
        let earlier = scoped_of(messages.drop_last(), deposits, mine, facet);
        if keeps(deposits, mine, facet, messages.last().sequence) {
            earlier.push(messages.last())
        } else {
            earlier
        }
    }
}

/// A row is among those kept for a facet exactly when it is a row of the
/// transcript and the facet keeps it.
proof fn lemma_scoped_contains(
    messages: Seq<SessionMessage>,
    deposits: Seq<(Sequence, SessionAuthor, Mark)>,
    mine: Seq<Seq<char>>,
    facet: Seq<char>,
    x: SessionMessage,
)
    ensures
        scoped_of(messages, deposits, mine, facet).contains(x) <==> (messages.contains(x) && keeps(
            deposits,
            mine,
            facet,
            x.sequence,
        )),
    decreases messages.len(),
{
    if messages.len() > 0 {
        let rest = messages.drop_last();
        lemma_scoped_contains(rest, deposits, mine, facet, x);
        assert(messages =~= rest.push(messages.last()));
        if messages.contains(x) && x != messages.last() {
            let r = choose|r: int| 0 <= r < messages.len() && messages[r] == x;
            assert(rest[r] == x);
        }
        if rest.contains(x) {
            let r = choose|r: int| 0 <= r < rest.len() && rest[r] == x;
            assert(messages[r] == x);
        }
        let earlier = scoped_of(rest, deposits, mine, facet);
        if earlier.contains(x) {
            let r = choose|r: int| 0 <= r < earlier.len() && earlier[r] == x;
            assert(earlier.push(messages.last())[r] == x);
        }
        if keeps(deposits, mine, facet, messages.last().sequence) {
            assert(earlier.push(messages.last())[earlier.len() as int] == messages.last());
        }
    }
}

/// What a facet's owner reads: a row that deposits a trace naming the facet,
/// when the division divides that facet, is kept even if it names other
/// facets too; a row naming no facet the division divides is kept, whatever
/// it says; and a kept row is a row of the transcript which, if it names a
/// divided facet at all, names this one.
pub proof fn law_scope_keeps_its_own_rows(
    messages: Seq<SessionMessage>,
    deposits: Seq<(Sequence, SessionAuthor, Mark)>,
    mine: Seq<Seq<char>>,
    facet: Seq<char>,
)
    ensures
        forall|r: int, k: int|
            0 <= r < messages.len() && 0 <= k < deposits.len() && (#[trigger] deposits[k]).0 == (#[trigger] messages[r]).sequence
                && deposits[k].2.topic == Some(facet) && mine.contains(facet) ==> scoped_of(
                messages,
                deposits,
                mine,
                facet,
            ).contains(messages[r]),
        forall|r: int|
            0 <= r < messages.len() && (forall|k: int|
                0 <= k < deposits.len() && (#[trigger] deposits[k]).0 == messages[r].sequence && deposits[k].2.topic is Some
                    ==> !mine.contains(deposits[k].2.topic->0)) ==> scoped_of(messages, deposits, mine, facet).contains(
                #[trigger] messages[r],
            ),
        forall|x: SessionMessage|
            #[trigger] scoped_of(messages, deposits, mine, facet).contains(x) ==> messages.contains(x) && ((exists|k: int|
                0 <= k < deposits.len() && (#[trigger] deposits[k]).0 == x.sequence && deposits[k].2.topic is Some
                    && mine.contains(deposits[k].2.topic->0)) ==> mine.contains(facet) && exists|k: int|
                0 <= k < deposits.len() && (#[trigger] deposits[k]).0 == x.sequence && deposits[k].2.topic == Some(
                    facet,
                )),
{
    assert forall|r: int, k: int|
        0 <= r < messages.len() && 0 <= k < deposits.len() && (#[trigger] deposits[k]).0 == (#[trigger] messages[r]).sequence
            && deposits[k].2.topic == Some(facet) && mine.contains(facet) implies scoped_of(
            messages,
            deposits,
            mine,
            facet,
        ).contains(messages[r]) by {
        lemma_scoped_contains(messages, deposits, mine, facet, messages[r]);
        assert(messages.contains(messages[r]));
    }
    assert forall|r: int|
        0 <= r < messages.len() && (forall|k: int|
            0 <= k < deposits.len() && (#[trigger] deposits[k]).0 == messages[r].sequence && deposits[k].2.topic is Some
                ==> !mine.contains(deposits[k].2.topic->0)) implies scoped_of(messages, deposits, mine, facet).contains(
        #[trigger] messages[r],
    ) by {
        lemma_scoped_contains(messages, deposits, mine, facet, messages[r]);
        assert(messages.contains(messages[r]));
    }
    assert forall|x: SessionMessage| #[trigger] scoped_of(messages, deposits, mine, facet).contains(x) implies messages.contains(x)
        && ((exists|k: int|
        0 <= k < deposits.len() && (#[trigger] deposits[k]).0 == x.sequence && deposits[k].2.topic is Some
            && mine.contains(deposits[k].2.topic->0)) ==> mine.contains(facet) && exists|k: int|
        0 <= k < deposits.len() && (#[trigger] deposits[k]).0 == x.sequence && deposits[k].2.topic == Some(facet)) by {
        lemma_scoped_contains(messages, deposits, mine, facet, x);
    }
}

/// Whether an agent authored a row.
pub open spec fn authored_by(message: SessionMessage, seat: Seq<char>) -> bool {
    message.author.agent_view() == Some(seat)
}

impl Division {
    /// The facets this division assigns.
    pub open spec fn facet_names(&self) -> Seq<Seq<char>> {
        self@.map_values(|a: AssignmentView| a.facet)
    }

    /// The rows of a transcript that belong to one facet.
    ///
    /// A seat's accuracy stays flat as a task widens because it never holds
    /// the facets it is not deciding. That is a property of what each
    /// participant reads, so it belongs here beside the assignment.
    ///
    /// A row is kept unless every facet it names belongs to another
    /// assignment. A row naming this facet is kept, and so is one naming no
    /// facet at all: the task statement, a question, or a topic this division
    /// does not divide, because dropping shared context would be scoping the
    /// conversation rather than the work.
    pub fn scoped<'a>(&self, facet: &TopicId, transcript: &'a [SessionMessage]) -> (kept: Vec<&'a SessionMessage>)
        requires
            transcript@.len() <= usize::MAX,
        ensures
            kept@.map_values(|m: &SessionMessage| *m) == scoped_of(
                transcript@,
                medium(desk_rows(transcript@)),
                self.facet_names(),
                facet@,
            ),
    {
        let assignments = self.assignments();
        let ghost mine = self.facet_names();
        assert(mine =~= super::types::assignment_views(assignments@).map_values(|a: AssignmentView| a.facet));
        let traces = read(transcript);
        let ghost deposits = medium(desk_rows(transcript@));
        let mut kept: Vec<&'a SessionMessage> = Vec::new();
        let mut i: usize = 0;
        while i < transcript.len()
            invariant
                i <= transcript@.len(),
                mine == super::types::assignment_views(assignments@).map_values(|a: AssignmentView| a.facet),
                deposits == trace_views(traces@),
                kept@.map_values(|m: &SessionMessage| *m) == scoped_of(transcript@.take(i as int), deposits, mine, facet@),
            decreases transcript@.len() - i,
        {
            let message = &transcript[i];
            let row = message.sequence;
            let mut names_any = false;
            let mut names_this = false;
            let mut k: usize = 0;
            while k < traces.len()
                invariant
                    k <= traces@.len(),
                    mine == super::types::assignment_views(assignments@).map_values(|a: AssignmentView| a.facet),
                    deposits == trace_views(traces@),
                    names_any == exists|x: int|
                        0 <= x < k && (#[trigger] deposits[x]).0 == row && deposits[x].2.topic is Some
                            && mine.contains(deposits[x].2.topic->0),
                    names_this == exists|x: int|
                        0 <= x < k && (#[trigger] deposits[x]).0 == row && deposits[x].2.topic == Some(facet@)
                            && mine.contains(facet@),
                decreases traces@.len() - k,
            {
                let t = &traces[k];
                assert(deposits[k as int] == trace_view(*t));
                if t.sequence.0 == row.0 {
                    match &t.topic {
                        Some(topic) => {
                            let claimed = claims(assignments, topic);
                            if claimed {
                                names_any = true;
                                if topic.same(facet) {
                                    names_this = true;
                                }
                            }
                            proof {
                                if topic@ == facet@ {
                                    assert(claimed == mine.contains(facet@));
                                }
                            }
                        },
                        None => {},
                    }
                }
                k = k + 1;
            }
            assert(transcript@.take(i + 1).drop_last() =~= transcript@.take(i as int));
            assert(transcript@.take(i + 1).last() == *message);
            if !names_any || names_this {
                let ghost before = kept@;
                kept.push(message);
                assert(kept@.map_values(|m: &SessionMessage| *m) =~= before.map_values(|m: &SessionMessage| *m).push(
                    *message,
                ));
            }
            i = i + 1;
        }
        assert(transcript@.take(transcript@.len() as int) =~= transcript@);
        kept
    }

    /// Whether one agent authored a message, for a caller scoping a seat's
    /// own rows back in.
    pub fn authored_by(message: &SessionMessage, seat: &str) -> (by: bool)
        ensures
            by == authored_by(*message, seat@),
    {
        match message.author.agent_id() {
            Some(id) => crate::names::same_text(id, seat),
            None => false,
        }
    }
}

/// Whether some assignment is of `topic`.
fn claims(assignments: &[super::types::Assignment], topic: &TopicId) -> (found: bool)
    ensures
        found == super::types::assignment_views(assignments@).map_values(|a: AssignmentView| a.facet).contains(
            topic@,
        ),
{
    let ghost mine = super::types::assignment_views(assignments@).map_values(|a: AssignmentView| a.facet);
    let mut i: usize = 0;
    while i < assignments.len()
        invariant
            i <= assignments@.len(),
            mine == super::types::assignment_views(assignments@).map_values(|a: AssignmentView| a.facet),
            forall|j: int| 0 <= j < i ==> (#[trigger] mine[j]) != topic@,
        decreases assignments@.len() - i,
    {
        assert(mine[i as int] == assignments@[i as int].facet@);
        if assignments[i].facet.same(topic) {
            return true;
        }
        i = i + 1;
    }
    false
}

} // verus!

//! The division of labour: its policy, its assignments, and what a caller
//! reads off one.

use vstd::prelude::*;

use crate::names::same_text;
use crate::trace::TopicId;

verus! {

/// The width the shipped policies run rounds at: a seat is an async session,
/// and four is the smallest width that is meaningfully concurrent without
/// being a broadcast.
pub const DEFAULT_ROUND_WIDTH: u32 = 4;

/// Why a facet's owner is its owner.
///
/// Recorded rather than inferred, because the two are worth very different
/// amounts: dividing a task buys nothing on its own, and dividing it along a
/// line where competence differs is what buys.
#[derive(Clone, Copy, Debug, PartialEq, Eq, Structural)]
pub enum OwnerReason {
    /// The directory names this seat on the facet: it deposited grounds on it
    /// and was cited for them.
    Knows,
    /// No seat is known on the facet, so the rotation took it.
    Rotation,
}

/// One facet of a task, and the seat that owns it.
#[derive(Clone, Debug, PartialEq, Eq)]
pub struct Assignment {
    /// The sub-decision this seat is answering.
    pub facet: TopicId,
    /// The agent that answers it.
    pub owner: String,
    /// Which concurrent round it runs in, counting from zero.
    pub round: u32,
    /// How the owner was chosen.
    pub reason: OwnerReason,
}

/// An assignment as plain values.
pub struct AssignmentView {
    pub facet: Seq<char>,
    pub owner: Seq<char>,
    pub round: int,
    pub reason: OwnerReason,
}

impl View for Assignment {
    type V = AssignmentView;

    open spec fn view(&self) -> AssignmentView {
        AssignmentView {
            facet: self.facet@,
            owner: self.owner@,
            round: self.round as int,
            reason: self.reason,
        }
    }
}

/// The plain values of a list of assignments.
pub open spec fn assignment_views(s: Seq<Assignment>) -> Seq<AssignmentView> {
    s.map_values(|a: Assignment| a@)
}

/// How a task's facets are divided across seats.
#[derive(Clone, Copy, Debug, PartialEq, Eq, Structural)]
pub struct DivisionPolicy {
    /// Assignments one round may authorize concurrently.
    pub round_width: u32,
    /// Whether the directory picks owners where it has an opinion.
    pub follow_directory: bool,
}

/// The shipped division policy: on, four at a time, following the directory.
///
/// Unlike every other opt-in mechanism here, the division is on by default:
/// it is the one arm measured beating the best single agent.
pub open spec fn default_division() -> DivisionPolicy {
    DivisionPolicy { round_width: 4, follow_directory: true }
}

impl DivisionPolicy {
    /// The shipped division policy.
    pub fn measured() -> (policy: Self)
        ensures
            policy == default_division(),
    {
        DivisionPolicy { round_width: DEFAULT_ROUND_WIDTH, follow_directory: true }
    }
}

impl Default for DivisionPolicy {
    fn default() -> (policy: Self)
        ensures
            policy == default_division(),
    {
        DivisionPolicy::measured()
    }
}

/// A task's facets, divided across the seats that will decide them.
///
/// A plain fold over what the caller already held: nothing here is stored
/// between calls, and the same arguments produce the same division.
#[derive(Clone, Debug, PartialEq, Eq)]
pub struct Division {
    assignments: Vec<Assignment>,
}

impl View for Division {
    type V = Seq<AssignmentView>;

    closed spec fn view(&self) -> Seq<AssignmentView> {
        assignment_views(self.assignments@)
    }
}

/// The owners of round `r`, in assignment order.
pub open spec fn round_owners(a: Seq<AssignmentView>, r: int) -> Seq<Seq<char>>
    decreases a.len(),
{
    if a.len() == 0 {
        Seq::empty()
    } else if a.last().round == r {
        round_owners(a.drop_last(), r).push(a.last().owner)
    } else {
        round_owners(a.drop_last(), r)
    }
}

/// How many rounds a division takes: one past the last round any
/// assignment runs in, or zero.
pub open spec fn depth_of(a: Seq<AssignmentView>) -> int
    decreases a.len(),
{
    if a.len() == 0 {
        0
    } else {
        let here = if a.last().round >= u32::MAX {
            u32::MAX as int
        } else {
            a.last().round + 1
        };
        let rest = depth_of(a.drop_last());
        if here > rest {
            here
        } else {
            rest
        }
    }
}

/// The size of the widest of the first `n` rounds.
pub open spec fn width_of(a: Seq<AssignmentView>, n: int) -> int
    decreases n,
{
    if n <= 0 {
        0
    } else {
        let count = round_owners(a, n - 1).len();
        let here = if count > u32::MAX {
            u32::MAX as int
        } else {
            count as int
        };
        let rest = width_of(a, n - 1);
        if here > rest {
            here
        } else {
            rest
        }
    }
}

/// The first assignment of a facet, if any.
pub open spec fn owner_in(a: Seq<AssignmentView>, facet: Seq<char>) -> Option<Seq<char>>
    decreases a.len(),
{
    if a.len() == 0 {
        None
    } else if a[0].facet == facet {
        Some(a[0].owner)
    } else {
        owner_in(a.drop_first(), facet)
    }
}

/// The facets one seat owns, in order.
pub open spec fn facets_owned(a: Seq<AssignmentView>, seat: Seq<char>) -> Seq<Seq<char>>
    decreases a.len(),
{
    if a.len() == 0 {
        Seq::empty()
    } else if a.last().owner == seat {
        facets_owned(a.drop_last(), seat).push(a.last().facet)
    } else {
        facets_owned(a.drop_last(), seat)
    }
}

/// The assignments of round `r`, in order.
pub open spec fn in_round(a: Seq<AssignmentView>, r: int) -> Seq<AssignmentView>
    decreases a.len(),
{
    if a.len() == 0 {
        Seq::empty()
    } else if a.last().round == r {
        in_round(a.drop_last(), r).push(a.last())
    } else {
        in_round(a.drop_last(), r)
    }
}

impl Division {
    /// The assignments as stored.
    pub closed spec fn stored(&self) -> Seq<Assignment> {
        self.assignments@
    }

    /// A division of these assignments.
    pub(crate) fn of(assignments: Vec<Assignment>) -> (made: Self)
        ensures
            made@ == assignment_views(assignments@),
    {
        Division { assignments }
    }

    /// A division of nothing.
    pub fn nothing() -> (made: Self)
        ensures
            made@.len() == 0,
    {
        let made = Division { assignments: Vec::new() };
        assert(assignment_views(made.assignments@) =~= Seq::<AssignmentView>::empty());
        made
    }

    /// Every assignment, in the order the facets were given.
    pub fn assignments(&self) -> (assignments: &[Assignment])
        ensures
            assignment_views(assignments@) == self@,
    {
        self.assignments.as_slice()
    }

    /// Rounds this division takes: what a host running async seats waits
    /// for. One for a task nobody has to wait on twice.
    pub fn depth(&self) -> (depth: u32)
        ensures
            depth as int == depth_of(self@),
    {
        let ghost a = self@;
        let mut depth: u32 = 0;
        let mut i: usize = 0;
        while i < self.assignments.len()
            invariant
                i <= a.len(),
                a == assignment_views(self.assignments@),
                depth as int == depth_of(a.take(i as int)),
            decreases a.len() - i,
        {
            assert(a.take(i + 1).drop_last() =~= a.take(i as int));
            assert(a.take(i + 1).last() == self.assignments@[i as int]@);
            let round = self.assignments[i].round;
            let here = if round == u32::MAX {
                u32::MAX
            } else {
                round + 1
            };
            if here > depth {
                depth = here;
            }
            i = i + 1;
        }
        assert(a.take(a.len() as int) =~= a);
        depth
    }

    /// The assignments of one round, in facet order.
    pub fn round(&self, round: u32) -> (held: Vec<&Assignment>)
        ensures
            held@.map_values(|x: &Assignment| x@) == in_round(self@, round as int),
    {
        let ghost a = self@;
        let mut held: Vec<&Assignment> = Vec::new();
        let mut i: usize = 0;
        while i < self.assignments.len()
            invariant
                i <= a.len(),
                a == assignment_views(self.assignments@),
                held@.map_values(|x: &Assignment| x@) == in_round(a.take(i as int), round as int),
            decreases a.len() - i,
        {
            assert(a.take(i + 1).drop_last() =~= a.take(i as int));
            assert(a.take(i + 1).last() == self.assignments@[i as int]@);
            if self.assignments[i].round == round {
                let ghost before = held@;
                held.push(&self.assignments[i]);
                assert(held@.map_values(|x: &Assignment| x@) =~= before.map_values(|x: &Assignment| x@).push(
                    self.assignments@[i as int]@,
                ));
            }
            i = i + 1;
        }
        assert(a.take(a.len() as int) =~= a);
        held
    }

    /// How many assignments run in one round.
    fn round_size(&self, round: u32) -> (count: usize)
        ensures
            count as int == round_owners(self@, round as int).len(),
    {
        let ghost a = self@;
        let mut count: usize = 0;
        let mut i: usize = 0;
        while i < self.assignments.len()
            invariant
                i <= a.len(),
                a == assignment_views(self.assignments@),
                count as int == round_owners(a.take(i as int), round as int).len(),
                count <= i,
            decreases a.len() - i,
        {
            assert(a.take(i + 1).drop_last() =~= a.take(i as int));
            assert(a.take(i + 1).last() == self.assignments@[i as int]@);
            if self.assignments[i].round == round {
                count = count + 1;
            }
            i = i + 1;
        }
        assert(a.take(a.len() as int) =~= a);
        count
    }

    /// Assignments in the widest round: the most seats that ever run at once.
    pub fn width(&self) -> (width: u32)
        ensures
            width as int == width_of(self@, depth_of(self@)),
    {
        let depth = self.depth();
        let mut width: u32 = 0;
        let mut r: u32 = 0;
        while r < depth
            invariant
                r <= depth,
                depth as int == depth_of(self@),
                width as int == width_of(self@, r as int),
            decreases depth - r,
        {
            let count = self.round_size(r);
            let here = if count > u32::MAX as usize {
                u32::MAX
            } else {
                count as u32
            };
            if here > width {
                width = here;
            }
            r = r + 1;
        }
        width
    }

    /// Who owns one facet, if anybody does.
    pub fn owner_of(&self, facet: &TopicId) -> (owner: Option<&str>)
        ensures
            match owner {
                Some(o) => owner_in(self@, facet@) == Some(o@),
                None => owner_in(self@, facet@) is None,
            },
    {
        let ghost a = self@;
        let mut i: usize = 0;
        assert(a.skip(0) =~= a);
        while i < self.assignments.len()
            invariant
                i <= a.len(),
                a == assignment_views(self.assignments@),
                owner_in(a, facet@) == owner_in(a.skip(i as int), facet@),
            decreases a.len() - i,
        {
            assert(a.skip(i as int).drop_first() =~= a.skip(i + 1));
            assert(a.skip(i as int)[0] == self.assignments@[i as int]@);
            if self.assignments[i].facet.same(facet) {
                return Some(self.assignments[i].owner.as_str());
            }
            i = i + 1;
        }
        None
    }

    /// The facets one seat owns, in order.
    pub fn facets_of(&self, seat: &str) -> (facets: Vec<&TopicId>)
        ensures
            facets@.map_values(|t: &TopicId| t@) == facets_owned(self@, seat@),
    {
        let ghost a = self@;
        let mut facets: Vec<&TopicId> = Vec::new();
        let mut i: usize = 0;
        while i < self.assignments.len()
            invariant
                i <= a.len(),
                a == assignment_views(self.assignments@),
                facets@.map_values(|t: &TopicId| t@) == facets_owned(a.take(i as int), seat@),
            decreases a.len() - i,
        {
            assert(a.take(i + 1).drop_last() =~= a.take(i as int));
            assert(a.take(i + 1).last() == self.assignments@[i as int]@);
            if same_text(self.assignments[i].owner.as_str(), seat) {
                let ghost before = facets@;
                facets.push(&self.assignments[i].facet);
                assert(facets@.map_values(|t: &TopicId| t@) =~= before.map_values(|t: &TopicId| t@).push(
                    self.assignments@[i as int].facet@,
                ));
            }
            i = i + 1;
        }
        assert(a.take(a.len() as int) =~= a);
        facets
    }

    /// Whether the task is a single facet owned by a single seat.
    pub fn is_alone(&self) -> (alone: bool)
        ensures
            alone == (self@.len() == 1),
    {
        self.assignments.len() == 1
    }

    /// Whether this division is empty, which a task with no facets is.
    pub fn is_empty(&self) -> (empty: bool)
        ensures
            empty == (self@.len() == 0),
    {
        self.assignments.len() == 0
    }
}

impl Default for Division {
    fn default() -> (made: Self)
        ensures
            made@.len() == 0,
    {
        Division::nothing()
    }
}

} // verus!

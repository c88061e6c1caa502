//! Who takes each facet, and which round it runs in.

use vstd::prelude::*;

use super::fewest::{fewest_division, fewest_packing, fewest_rounds, lemma_fewest_packing};
use super::types::{
    Assignment, AssignmentView, Division, DivisionPolicy, OwnerReason, assignment_views, round_owners,
};
use crate::directory::{Directory, EntryView, lemma_top_member_range, member_names, top_member};
use crate::error::{Error, Result};
use crate::names::{distinct, holds, lemma_distinct_push, names};
use crate::trace::TopicId;

verus! {

/// How many assignments one round holds: the policy's width, capped by the
/// seats, and never less than one.
pub open spec fn lane_of(round_width: u32, seats: int) -> int {
    let w = if round_width < seats {
        round_width as int
    } else {
        seats
    };
    if w < 1 {
        1
    } else {
        w
    }
}

/// Whether a round with these owners has room for `owner`.
pub open spec fn fits(held: Seq<Seq<char>>, owner: Seq<char>, lane: int) -> bool {
    held.len() < lane && !held.contains(owner)
}

/// The first round from `r` on with room for `owner`, or a new one.
pub open spec fn first_fit(rounds: Seq<Seq<Seq<char>>>, owner: Seq<char>, lane: int, r: int) -> int
    decreases rounds.len() - r,
{
    if r < 0 || r >= rounds.len() {
        rounds.len() as int
    } else if fits(rounds[r], owner, lane) {
        r
    } else {
        first_fit(rounds, owner, lane, r + 1)
    }
}

/// The rounds with `owner` placed in round `r`.
pub open spec fn place(rounds: Seq<Seq<Seq<char>>>, r: int, owner: Seq<char>) -> Seq<Seq<Seq<char>>> {
    if r < rounds.len() {
        rounds.update(r, rounds[r].push(owner))
    } else {
        rounds.push(seq![owner])
    }
}

/// Greedy packing: each owned facet takes the lowest round that is not full
/// and does not already hold its owner. Returns the assignments and the
/// owners of each round.
pub open spec fn pack(owned: Seq<(Seq<char>, Seq<char>, OwnerReason)>, lane: int) -> (Seq<AssignmentView>, Seq<Seq<Seq<char>>>)
    decreases owned.len(),
{
    if owned.len() == 0 {
        (Seq::empty(), Seq::empty())
    } else {
        let (a, rounds) = pack(owned.drop_last(), lane);
        let (facet, owner, reason) = owned.last();
        let r = first_fit(rounds, owner, lane, 0);
        (
            a.push(
                AssignmentView {
                    facet,
                    owner,
                    round: if r > u32::MAX {
                        u32::MAX as int
                    } else {
                        r
                    },
                    reason,
                },
            ),
            place(rounds, r, owner),
        )
    }
}

/// A directory as plain values, if there is one.
pub open spec fn known_view(known: Option<&Directory>) -> Option<Seq<EntryView>> {
    match known {
        Some(d) => Some(d@),
        None => None,
    }
}

/// Who takes one facet: whoever the directory names on it, when the policy
/// follows it, else the seat the facet's own index rotates to.
pub open spec fn owner_for(
    facet: Seq<char>,
    index: int,
    seats: Seq<Seq<char>>,
    known: Option<Seq<EntryView>>,
    policy: DivisionPolicy,
) -> (Seq<char>, OwnerReason) {
    let expert = match known {
        Some(d) => if policy.follow_directory {
            top_member(d, facet, seats, seats.len() as int)
        } else {
            None
        },
        None => None,
    };
    match expert {
        Some(i) => (seats[i], OwnerReason::Knows),
        None => (seats[index % (seats.len() as int)], OwnerReason::Rotation),
    }
}

/// Each facet with its owner and why.
pub open spec fn owned_facets(
    facets: Seq<Seq<char>>,
    seats: Seq<Seq<char>>,
    known: Option<Seq<EntryView>>,
    policy: DivisionPolicy,
) -> Seq<(Seq<char>, Seq<char>, OwnerReason)> {
    Seq::new(
        facets.len(),
        |i: int|
            {
                let (owner, reason) = owner_for(facets[i], i, seats, known, policy);
                (facets[i], owner, reason)
            },
    )
}

/// The division of a task: its distinct facets, each owned, packed into the
/// fewest rounds (first fit where that already takes the fewest, else the
/// facets grouped by seat and dealt round-robin), as far as a `u32` counts
/// rounds.
pub open spec fn division_of(
    facets: Seq<TopicId>,
    seats: Seq<Seq<char>>,
    known: Option<Seq<EntryView>>,
    policy: DivisionPolicy,
) -> Seq<AssignmentView> {
    let owned = owned_facets(distinct(facets.map_values(|t: TopicId| t@)), seats, known, policy);
    let lane = lane_of(policy.round_width, seats.len() as int);
    let packed = pack(owned, lane).0;
    if owned.len() <= u32::MAX {
        fewest_packing(packed, lane)
    } else {
        packed
    }
}

/// What `divide` returns: a zero width, else a desk with no seat, else the
/// division.
pub open spec fn division_outcome(
    result: Result<Division>,
    facets: Seq<TopicId>,
    desk_id: Seq<char>,
    seats: Seq<Seq<char>>,
    known: Option<Seq<EntryView>>,
    policy: DivisionPolicy,
) -> bool {
    if policy.round_width == 0 {
        result == Err::<Division, Error>(Error::ZeroRoundWidth)
    } else if seats.len() == 0 {
        result matches Err(Error::NoSeats { desk_id: d }) && d@ == desk_id
    } else {
        result matches Ok(d) && d@ == division_of(facets, seats, known, policy)
    }
}

/// The facets, without repeats, in the order first given.
fn distinct_facets(facets: &[TopicId]) -> (seen: Vec<TopicId>)
    ensures
        seen@.map_values(|t: TopicId| t@) == distinct(facets@.map_values(|t: TopicId| t@)),
{
    let ghost all = facets@.map_values(|t: TopicId| t@);
    let mut seen: Vec<TopicId> = Vec::new();
    let mut i: usize = 0;
    while i < facets.len()
        invariant
            i <= facets@.len(),
            all == facets@.map_values(|t: TopicId| t@),
            seen@.map_values(|t: TopicId| t@) == distinct(all.take(i as int)),
        decreases facets@.len() - i,
    {
        let ghost sv = seen@.map_values(|t: TopicId| t@);
        proof {
            lemma_distinct_push(all.take(i as int), all[i as int]);
            assert(all.take(i + 1) =~= all.take(i as int).push(all[i as int]));
        }
        let mut found = false;
        let mut j: usize = 0;
        while j < seen.len()
            invariant
                j <= seen@.len(),
                sv == seen@.map_values(|t: TopicId| t@),
                i < facets@.len(),
                found == exists|x: int| 0 <= x < j && sv[x] == facets@[i as int]@,
            decreases seen@.len() - j,
        {
            assert(sv[j as int] == seen@[j as int]@);
            if seen[j].same(&facets[i]) {
                found = true;
            }
            j = j + 1;
        }
        assert(found == sv.contains(all[i as int]));
        if !found {
            seen.push(facets[i].duplicate());
            assert(seen@.map_values(|t: TopicId| t@) =~= sv.push(all[i as int]));
        }
        i = i + 1;
    }
    assert(all.take(facets@.len() as int) =~= all);
    seen
}

/// Who takes one facet, and why.
fn owner_of(
    facet: &TopicId,
    index: usize,
    seats: &[&str],
    known: Option<&Directory>,
    policy: &DivisionPolicy,
) -> (owned: (String, OwnerReason))
    requires
        seats@.len() > 0,
    ensures
        (owned.0@, owned.1) == owner_for(facet@, index as int, member_names(seats@), known_view(known), *policy),
{
    if policy.follow_directory {
        match known {
            Some(k) => {
                match k.top_among(facet, seats) {
                    Some(expert) => {
                        proof {
                            let ms = member_names(seats@);
                            assert(ms.len() == seats@.len());
                            lemma_top_member_range(k@, facet@, ms, seats@.len() as int);
                            let i = top_member(k@, facet@, ms, seats@.len() as int)->0;
                            assert(ms[i] == seats@[i]@);
                        }
                        return (expert.to_owned(), OwnerReason::Knows);
                    },
                    None => {},
                }
            },
            None => {},
        }
    }
    let seat = seats[index % seats.len()];
    assert(member_names(seats@)[index as int % seats@.len() as int] == seat@);
    (seat.to_owned(), OwnerReason::Rotation)
}

/// The owners of each round as plain values.
pub open spec fn rounds_view(rounds: Seq<Vec<String>>) -> Seq<Seq<Seq<char>>> {
    rounds.map_values(|v: Vec<String>| names(v@))
}

/// Divide a task's facets across a desk's active members.
///
/// `seats` are the desk's active members, in desk order; `desk_id` names the
/// desk for the error a desk with nobody on it gives. The facets are the
/// caller's: this crate decides only who takes each piece and in what order.
/// Facets are answered in the order given, deduplicated, and packed into the
/// fewest rounds that respect two bounds at once: no round runs more than
/// `round_width` assignments, and no seat appears twice in a round. Each
/// facet first takes the lowest round with room for its seat; where that
/// greedy fill would take more rounds than the bounds need, the facets are
/// instead grouped by seat and dealt round-robin over the fewest rounds.
///
/// A task of one facet divides into one assignment in one round, which is a
/// single agent answering alone: not a special case, the measured rule
/// falling out of the general one.
///
/// `known` is optional because a room that has not deliberated yet has no
/// directory. Passing `None`, or a directory with no opinion on a facet,
/// falls to the rotation, recorded as such.
///
/// Refuses a zero round width, and a desk with no active member.
pub fn divide(
    facets: &[TopicId],
    desk_id: &str,
    seats: &[&str],
    known: Option<&Directory>,
    policy: &DivisionPolicy,
) -> (result: Result<Division>)
    ensures
        division_outcome(result, facets@, desk_id@, member_names(seats@), known_view(known), *policy),
        facets@.len() <= u32::MAX ==> (result matches Ok(d) ==> fewest_rounds(
            d@,
            lane_of(policy.round_width, seats@.len() as int),
        )),
{
    if policy.round_width == 0 {
        return Err(Error::ZeroRoundWidth);
    }
    if seats.len() == 0 {
        return Err(Error::NoSeats { desk_id: desk_id.to_owned() });
    }
    let ghost facets_in = facets@;
    let facets = distinct_facets(facets);
    let ghost fv = facets@.map_values(|t: TopicId| t@);
    let ghost ms = member_names(seats@);
    let ghost owned = owned_facets(fv, ms, known_view(known), *policy);
    let width = policy.round_width as usize;
    let lane = if width < seats.len() {
        width
    } else {
        seats.len()
    };
    let lane = if lane < 1 {
        1
    } else {
        lane
    };
    assert(lane as int == lane_of(policy.round_width, ms.len() as int));
    let mut rounds: Vec<Vec<String>> = Vec::new();
    let mut assignments: Vec<Assignment> = Vec::new();
    let mut index: usize = 0;
    while index < facets.len()
        invariant
            index <= facets@.len(),
            fv == facets@.map_values(|t: TopicId| t@),
            ms == member_names(seats@),
            seats@.len() > 0,
            owned == owned_facets(fv, ms, known_view(known), *policy),
            lane as int == lane_of(policy.round_width, ms.len() as int),
            (assignment_views(assignments@), rounds_view(rounds@)) == pack(owned.take(index as int), lane as int),
        decreases facets@.len() - index,
    {
        let (owner, reason) = owner_of(&facets[index], index, seats, known, policy);
        let ghost before_a = assignment_views(assignments@);
        let ghost before_r = rounds_view(rounds@);
        proof {
            assert(owned.take(index + 1).drop_last() =~= owned.take(index as int));
            assert(owned.take(index + 1).last() == owned[index as int]);
            assert(owned[index as int] == (fv[index as int], owner@, reason));
        }
        let mut r: usize = 0;
        while r < rounds.len() && !(rounds[r].len() < lane && !holds(&rounds[r], owner.as_str()))
            invariant
                r <= rounds@.len(),
                before_r == rounds_view(rounds@),
                first_fit(before_r, owner@, lane as int, 0) == first_fit(before_r, owner@, lane as int, r as int),
            decreases rounds@.len() - r,
        {
            assert(before_r[r as int] == names(rounds@[r as int]@));
            r = r + 1;
        }
        proof {
            if r < rounds@.len() {
                assert(before_r[r as int] == names(rounds@[r as int]@));
            }
        }
        if r < rounds.len() {
            let mut held = rounds.remove(r);
            let ghost removed = rounds@;
            held.push(owner.clone());
            rounds.insert(r, held);
            proof {
                assert(names(held@) =~= before_r[r as int].push(owner@));
                assert(rounds_view(rounds@) =~= before_r.update(r as int, before_r[r as int].push(owner@)));
            }
        } else {
            let mut held: Vec<String> = Vec::new();
            held.push(owner.clone());
            rounds.push(held);
            proof {
                assert(names(held@) =~= seq![owner@]);
                assert(rounds_view(rounds@) =~= before_r.push(seq![owner@]));
            }
        }
        let round = if r > u32::MAX as usize {
            u32::MAX
        } else {
            r as u32
        };
        assignments.push(Assignment { facet: facets[index].duplicate(), owner, round, reason });
        proof {
            assert(assignment_views(assignments@) =~= before_a.push(assignment_views(assignments@).last()));
        }
        index = index + 1;
    }
    assert(owned.take(facets@.len() as int) =~= owned);
    proof {
        if facets_in.len() <= u32::MAX {
            lemma_division_fewest(facets_in, ms, known_view(known), *policy);
        }
    }
    if facets.len() <= u32::MAX as usize {
        proof {
            lemma_pack_len(owned, lane as int);
        }
        match fewest_division(assignments.as_slice(), lane) {
            Some(repacked) => {
                return Ok(Division::of(repacked));
            },
            None => {},
        }
    }
    Ok(Division::of(assignments))
}

/// Packing makes one assignment per owned facet.
proof fn lemma_pack_len(owned: Seq<(Seq<char>, Seq<char>, OwnerReason)>, lane: int)
    ensures
        pack(owned, lane).0.len() == owned.len(),
    decreases owned.len(),
{
    if owned.len() > 0 {
        lemma_pack_len(owned.drop_last(), lane);
    }
}

/// Where a facet lands: at or before the end, and where it fits.
proof fn lemma_first_fit(rounds: Seq<Seq<Seq<char>>>, owner: Seq<char>, lane: int, r: int)
    requires
        0 <= r <= rounds.len(),
    ensures
        r <= first_fit(rounds, owner, lane, r) <= rounds.len(),
        first_fit(rounds, owner, lane, r) < rounds.len() ==> fits(
            rounds[first_fit(rounds, owner, lane, r)],
            owner,
            lane,
        ),
    decreases rounds.len() - r,
{
    if r < rounds.len() && !fits(rounds[r], owner, lane) {
        lemma_first_fit(rounds, owner, lane, r + 1);
    }
}

/// Packing keeps each round's owners distinct and within the lane, and the
/// rounds it reports are the rounds of the assignments it made.
proof fn lemma_pack(owned: Seq<(Seq<char>, Seq<char>, OwnerReason)>, lane: int)
    requires
        owned.len() <= u32::MAX,
        lane >= 1,
    ensures
        ({
            let (a, rounds) = pack(owned, lane);
            &&& rounds.len() <= owned.len()
            &&& forall|r: int|
                0 <= r < rounds.len() ==> round_owners(a, r) == #[trigger] rounds[r] && rounds[r].no_duplicates()
                    && rounds[r].len() <= lane
            &&& forall|r: int| (r < 0 || r >= rounds.len()) ==> #[trigger] round_owners(a, r).len() == 0
        }),
    decreases owned.len(),
{
    if owned.len() > 0 {
        lemma_pack(owned.drop_last(), lane);
        let (a0, r0) = pack(owned.drop_last(), lane);
        let (facet, owner, reason) = owned.last();
        let r = first_fit(r0, owner, lane, 0);
        lemma_first_fit(r0, owner, lane, 0);
        let (a, rounds) = pack(owned, lane);
        assert(a == a0.push(a.last()));
        assert(a.last().round == r);
        assert(a.push(a.last()).drop_last() =~= a);
        assert forall|q: int| #![trigger round_owners(a, q)] true implies round_owners(a, q) == (if q == r {
            round_owners(a0, q).push(owner)
        } else {
            round_owners(a0, q)
        }) by {
            assert(a.drop_last() =~= a0);
        }
        assert forall|q: int| 0 <= q < rounds.len() implies round_owners(a, q) == #[trigger] rounds[q]
            && rounds[q].no_duplicates() && rounds[q].len() <= lane by {
            if q == r {
                if r < r0.len() {
                    assert(rounds[q] == r0[q].push(owner));
                    assert(!r0[q].contains(owner));
                    assert forall|x: int, y: int| 0 <= x < y < rounds[q].len() implies rounds[q][x] != rounds[q][y] by {
                        if y == rounds[q].len() - 1 {
                            assert(rounds[q][x] == r0[q][x]);
                            assert(r0[q].contains(r0[q][x]));
                        } else {
                            assert(rounds[q][x] == r0[q][x] && rounds[q][y] == r0[q][y]);
                        }
                    }
                } else {
                    assert(round_owners(a0, q).len() == 0);
                    assert(round_owners(a0, q) =~= Seq::<Seq<char>>::empty());
                    assert(rounds[q] == seq![owner]);
                    assert(round_owners(a, q) =~= seq![owner]);
                }
            } else {
                assert(rounds[q] == r0[q]);
            }
        }
        assert forall|q: int| (q < 0 || q >= rounds.len()) implies #[trigger] round_owners(a, q).len() == 0 by {
            assert(q != r);
        }
    }
}

/// A seat never appears twice in one round: one agent cannot answer two
/// questions at once, however wide the policy allows.
pub proof fn law_round_owners_distinct(
    facets: Seq<TopicId>,
    seats: Seq<Seq<char>>,
    known: Option<Seq<EntryView>>,
    policy: DivisionPolicy,
    r: int,
)
    requires
        facets.len() <= u32::MAX,
    ensures
        round_owners(division_of(facets, seats, known, policy), r).no_duplicates(),
{
    lemma_rounds(facets, seats, known, policy, r);
}

/// No round runs more assignments than the policy's width, nor more than
/// there are seats.
pub proof fn law_round_within_lane(
    facets: Seq<TopicId>,
    seats: Seq<Seq<char>>,
    known: Option<Seq<EntryView>>,
    policy: DivisionPolicy,
    r: int,
)
    requires
        facets.len() <= u32::MAX,
        policy.round_width > 0,
        seats.len() > 0,
    ensures
        round_owners(division_of(facets, seats, known, policy), r).len() <= policy.round_width,
        round_owners(division_of(facets, seats, known, policy), r).len() <= seats.len(),
{
    lemma_rounds(facets, seats, known, policy, r);
}

/// The rounds of a division are distinct and within the lane, and no
/// placement under the same bounds takes fewer of them.
proof fn lemma_division_fewest(
    facets: Seq<TopicId>,
    seats: Seq<Seq<char>>,
    known: Option<Seq<EntryView>>,
    policy: DivisionPolicy,
)
    requires
        facets.len() <= u32::MAX,
    ensures
        fewest_rounds(division_of(facets, seats, known, policy), lane_of(policy.round_width, seats.len() as int)),
        forall|r: int|
            #[trigger] round_owners(division_of(facets, seats, known, policy), r).no_duplicates() && round_owners(
                division_of(facets, seats, known, policy),
                r,
            ).len() <= lane_of(policy.round_width, seats.len() as int),
{
    let fv = facets.map_values(|t: TopicId| t@);
    crate::names::lemma_distinct_len(fv);
    let owned = owned_facets(distinct(fv), seats, known, policy);
    let lane = lane_of(policy.round_width, seats.len() as int);
    lemma_pack(owned, lane);
    let (a, rounds) = pack(owned, lane);
    assert forall|q: int| #[trigger] round_owners(a, q).no_duplicates() && round_owners(a, q).len() <= lane by {
        if 0 <= q < rounds.len() {
            assert(round_owners(a, q) == rounds[q]);
        } else {
            assert(round_owners(a, q) =~= Seq::<Seq<char>>::empty());
        }
    }
    lemma_fewest_packing(a, lane, 0);
    assert forall|r: int|
        #[trigger] round_owners(division_of(facets, seats, known, policy), r).no_duplicates() && round_owners(
            division_of(facets, seats, known, policy),
            r,
        ).len() <= lane by {
        lemma_fewest_packing(a, lane, r);
    }
}

/// The rounds of a division are distinct and within the lane.
proof fn lemma_rounds(
    facets: Seq<TopicId>,
    seats: Seq<Seq<char>>,
    known: Option<Seq<EntryView>>,
    policy: DivisionPolicy,
    r: int,
)
    requires
        facets.len() <= u32::MAX,
    ensures
        round_owners(division_of(facets, seats, known, policy), r).no_duplicates(),
        round_owners(division_of(facets, seats, known, policy), r).len() <= lane_of(
            policy.round_width,
            seats.len() as int,
        ),
{
    lemma_division_fewest(facets, seats, known, policy);
    assert(round_owners(division_of(facets, seats, known, policy), r).no_duplicates());
}

/// A division takes the fewest rounds the two bounds allow: no placement of
/// its facets, each with the same owner, with no round running more than
/// the lane and no seat twice in a round, takes fewer rounds.
pub proof fn law_division_takes_fewest_rounds(
    facets: Seq<TopicId>,
    seats: Seq<Seq<char>>,
    known: Option<Seq<EntryView>>,
    policy: DivisionPolicy,
)
    requires
        facets.len() <= u32::MAX,
    ensures
        fewest_rounds(division_of(facets, seats, known, policy), lane_of(policy.round_width, seats.len() as int)),
{
    lemma_division_fewest(facets, seats, known, policy);
}

/// A facet named twice is one facet: naming again a facet the task already
/// names leaves the division exactly as it was.
pub proof fn law_repeated_facet_changes_nothing(
    facets: Seq<TopicId>,
    again: TopicId,
    seats: Seq<Seq<char>>,
    known: Option<Seq<EntryView>>,
    policy: DivisionPolicy,
)
    requires
        facets.map_values(|t: TopicId| t@).contains(again@),
    ensures
        division_of(facets.push(again), seats, known, policy) == division_of(facets, seats, known, policy),
{
    let names = facets.map_values(|t: TopicId| t@);
    assert(facets.push(again).map_values(|t: TopicId| t@) =~= names.push(again@));
    lemma_distinct_push(names, again@);
    crate::names::lemma_distinct_contains(names, again@);
}

} // verus!

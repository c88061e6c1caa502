//! Quorum inputs and standings.

use vstd::prelude::*;

use crate::names::names;
use crate::trace::TopicId;

verus! {

/// When the room is entitled to call a topic settled.
#[derive(Clone, Copy, Debug, PartialEq, Eq, Structural)]
pub struct QuorumPolicy {
    /// Distinct supporters a topic needs to carry.
    pub threshold: u32,
    /// How far back support still counts.
    pub window: u32,
    /// Whether support must cite grounds to count.
    pub require_grounded: bool,
    /// Distinct grounded refuters that cap a topic out of contention, if any.
    pub refutation_cap: Option<u32>,
    /// Whether support must trace back to a stated fact, not merely to a
    /// citation. Implies `require_grounded`.
    pub require_evidential: bool,
}

/// Two grounded supporters within thirty sequences, with both narrowing
/// knobs off.
pub open spec fn default_quorum() -> QuorumPolicy {
    QuorumPolicy {
        threshold: 2,
        window: 30,
        require_grounded: true,
        refutation_cap: None,
        require_evidential: false,
    }
}

/// The threshold a desk of `members` carries: the smallest majority, kept
/// below the whole desk and never under two.
pub open spec fn room_threshold(members: u32) -> u32 {
    let majority = members / 2 + 1;
    let below_all = if members >= 1 { (members - 1) as u32 } else { 0u32 };
    let capped = if majority > below_all { below_all } else { majority as u32 };
    if capped < 2 { 2 } else { capped }
}

impl QuorumPolicy {
    /// The policy a desk of `members` should carry, with `window` covering the
    /// episode.
    ///
    /// Above half the desk suppresses two disjoint supporter sets; below the
    /// whole desk keeps a decision reachable after one silencing.
    pub fn for_room(members: u32, window: u32) -> (policy: Self)
        ensures
            policy == (QuorumPolicy {
                threshold: room_threshold(members),
                window: if window == 0 { 1 } else { window },
                ..default_quorum()
            }),
    {
        let majority = members / 2 + 1;
        let below_all = members.saturating_sub(1);
        let capped = if majority > below_all { below_all } else { majority };
        let threshold = if capped < 2 { 2 } else { capped };
        QuorumPolicy {
            threshold,
            window: if window == 0 { 1 } else { window },
            require_grounded: true,
            refutation_cap: None,
            require_evidential: false,
        }
    }
}

impl Default for QuorumPolicy {
    fn default() -> (policy: Self)
        ensures
            policy == default_quorum(),
    {
        QuorumPolicy {
            threshold: 2,
            window: 30,
            require_grounded: true,
            refutation_cap: None,
            require_evidential: false,
        }
    }
}

/// Where one topic stands in the current window.
#[derive(Clone, Debug, PartialEq, Eq)]
pub struct TopicStanding {
    /// The topic being weighed.
    pub topic: TopicId,
    /// Distinct still-counting supporters, in first-support order.
    pub supporters: Vec<String>,
    /// Advocates silenced by a grounded objection, in first-silenced order.
    pub silenced: Vec<String>,
    /// Distinct members who refuted this topic, in first-refutation order.
    pub refuted_by: Vec<String>,
    /// Fixed-point weight of the surviving support.
    pub support: i64,
}

/// A standing as plain values.
pub struct StandingView {
    pub topic: Seq<char>,
    pub supporters: Seq<Seq<char>>,
    pub silenced: Seq<Seq<char>>,
    pub refuted_by: Seq<Seq<char>>,
    pub support: int,
}

impl View for TopicStanding {
    type V = StandingView;

    open spec fn view(&self) -> StandingView {
        StandingView {
            topic: self.topic@,
            supporters: names(self.supporters@),
            silenced: names(self.silenced@),
            refuted_by: names(self.refuted_by@),
            support: self.support as int,
        }
    }
}

/// Whether a standing has reached the threshold and escaped the refutation
/// cap. A count past `u32::MAX` reads as not reaching anything.
pub open spec fn carries(standing: StandingView, policy: QuorumPolicy) -> bool {
    let capped = match policy.refutation_cap {
        Some(cap) => standing.refuted_by.len() <= u32::MAX && standing.refuted_by.len() >= cap,
        None => false,
    };
    !capped && standing.supporters.len() <= u32::MAX && standing.supporters.len()
        >= policy.threshold
}

/// A copy of a list of names.
fn copy_names(v: &Vec<String>) -> (copy: Vec<String>)
    ensures
        names(copy@) == names(v@),
{
    let mut copy: Vec<String> = Vec::new();
    let mut i: usize = 0;
    while i < v.len()
        invariant
            i <= v@.len(),
            names(copy@) == names(v@.take(i as int)),
        decreases v@.len() - i,
    {
        let ghost before = copy@;
        copy.push(v[i].clone());
        assert(names(copy@) =~= names(before).push(v@[i as int]@));
        assert(v@.take(i + 1) =~= v@.take(i as int).push(v@[i as int]));
        assert(names(v@.take(i + 1)) =~= names(v@.take(i as int)).push(v@[i as int]@));
        i = i + 1;
    }
    assert(v@.take(v@.len() as int) =~= v@);
    copy
}

impl TopicStanding {
    /// A copy of this standing.
    pub fn duplicate(&self) -> (copy: Self)
        ensures
            copy@ == self@,
    {
        TopicStanding {
            topic: self.topic.duplicate(),
            supporters: copy_names(&self.supporters),
            silenced: copy_names(&self.silenced),
            refuted_by: copy_names(&self.refuted_by),
            support: self.support,
        }
    }

    /// Return whether this topic has reached `policy.threshold` supporters and
    /// has not been capped by `policy.refutation_cap` distinct refuters.
    ///
    /// The refutation check is a cap rather than a debit: `carried` reads the
    /// supporter count, not the weight.
    pub fn carried(&self, policy: &QuorumPolicy) -> (carried: bool)
        ensures
            carried == carries(self@, *policy),
    {
        if let Some(cap) = policy.refutation_cap {
            if self.refuted_by.len() <= u32::MAX as usize && self.refuted_by.len() as u32 >= cap {
                return false;
            }
        }
        self.supporters.len() <= u32::MAX as usize && self.supporters.len() as u32
            >= policy.threshold
    }
}

/// What the room's standings add up to.
#[derive(Clone, Debug, PartialEq, Eq)]
pub enum ConsensusState {
    /// No topic has carried yet.
    Deliberating,
    /// Exactly one topic has carried.
    Quorum { topic: TopicId },
    /// Two or more topics carried at once, in standing order.
    Deadlocked { topics: Vec<TopicId> },
}

/// A consensus as plain values.
pub enum ConsensusView {
    Deliberating,
    Quorum(Seq<char>),
    Deadlocked(Seq<Seq<char>>),
}

/// The names held by a vector of topics.
pub open spec fn topic_names(v: Seq<TopicId>) -> Seq<Seq<char>> {
    v.map_values(|t: TopicId| t@)
}

impl View for ConsensusState {
    type V = ConsensusView;

    open spec fn view(&self) -> ConsensusView {
        match self {
            ConsensusState::Deliberating => ConsensusView::Deliberating,
            ConsensusState::Quorum { topic } => ConsensusView::Quorum(topic@),
            ConsensusState::Deadlocked { topics } => ConsensusView::Deadlocked(
                topic_names(topics@),
            ),
        }
    }
}

} // verus!

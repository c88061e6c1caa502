//! Attention-market inputs and bids.

use vstd::prelude::*;

use crate::names::same_text;
use crate::trace::TopicId;

verus! {

/// One member's standing willingness to take the floor.
///
/// `threshold` is the only field this crate writes: taking the floor raises it
/// and staying quiet lowers it, which rotates the floor around the desk.
///
/// `affinity` is a host-supplied prior, a diffuse cue of the kind a role label
/// carries. It is read and never written; it enters the directory fold as one
/// term among three rather than as an authority.
#[derive(Clone, Debug, PartialEq, Eq)]
pub struct AgentThreshold {
    /// Canonical agent id.
    pub agent_id: String,
    /// Urge a bid must reach before this member speaks at all.
    pub threshold: i64,
    /// Per-topic relevance in `0..=100`, in first-declared order.
    pub affinity: Vec<(TopicId, u8)>,
}

/// A threshold record as plain values.
pub struct ThresholdView {
    pub agent: Seq<char>,
    pub threshold: int,
    pub affinity: Seq<(Seq<char>, u8)>,
}

/// The plain values of an affinity list.
pub open spec fn affinity_view(affinity: Seq<(TopicId, u8)>) -> Seq<(Seq<char>, u8)> {
    affinity.map_values(|p: (TopicId, u8)| (p.0@, p.1))
}

impl View for AgentThreshold {
    type V = ThresholdView;

    open spec fn view(&self) -> ThresholdView {
        ThresholdView {
            agent: self.agent_id@,
            threshold: self.threshold as int,
            affinity: affinity_view(self.affinity@),
        }
    }
}

/// The plain values of a list of threshold records.
pub open spec fn threshold_views(s: Seq<AgentThreshold>) -> Seq<ThresholdView> {
    s.map_values(|t: AgentThreshold| t@)
}

/// The relevance first declared for `topic` in an affinity list.
pub open spec fn declared_in(affinity: Seq<(TopicId, u8)>, topic: Seq<char>) -> Option<u8>
    decreases affinity.len(),
{
    if affinity.len() == 0 {
        None
    } else if affinity[0].0@ == topic {
        Some(affinity[0].1)
    } else {
        declared_in(affinity.drop_first(), topic)
    }
}

/// The relevance a member with no declaration on a topic is read at.
pub open spec fn neutral_relevance() -> u8 {
    50
}

/// The relevance a record gives a topic: its declaration, or neutral.
pub open spec fn relevance_of(threshold: AgentThreshold, topic: Option<Seq<char>>) -> u8 {
    match topic {
        None => neutral_relevance(),
        Some(t) => match declared_in(threshold.affinity@, t) {
            Some(r) => r,
            None => neutral_relevance(),
        },
    }
}

impl AgentThreshold {
    /// Build a threshold record with no topical affinity.
    pub fn new(agent_id: &str, threshold: i64) -> (record: Self)
        ensures
            record.agent_id@ == agent_id@,
            record.threshold == threshold,
            record.affinity@.len() == 0,
    {
        AgentThreshold { agent_id: agent_id.to_owned(), threshold, affinity: Vec::new() }
    }

    /// A copy of this record.
    pub fn duplicate(&self) -> (copy: Self)
        ensures
            copy@ == self@,
            copy.agent_id == self.agent_id,
            copy.threshold == self.threshold,
    {
        let mut affinity: Vec<(TopicId, u8)> = Vec::new();
        let mut i: usize = 0;
        while i < self.affinity.len()
            invariant
                i <= self.affinity@.len(),
                affinity_view(affinity@) == affinity_view(self.affinity@.take(i as int)),
            decreases self.affinity@.len() - i,
        {
            let ghost before = affinity@;
            let ghost here = self.affinity@[i as int];
            affinity.push((self.affinity[i].0.duplicate(), self.affinity[i].1));
            assert(affinity_view(affinity@) =~= affinity_view(before).push((here.0@, here.1)));
            assert(self.affinity@.take(i + 1) =~= self.affinity@.take(i as int).push(here));
            assert(affinity_view(self.affinity@.take(i + 1)) =~= affinity_view(self.affinity@.take(i as int)).push(
                (here.0@, here.1),
            ));
            i = i + 1;
        }
        assert(self.affinity@.take(self.affinity@.len() as int) =~= self.affinity@);
        AgentThreshold { agent_id: self.agent_id.clone(), threshold: self.threshold, affinity }
    }

    /// This member's declared relevance for a topic, if it declared one.
    pub fn declared_relevance(&self, topic: &TopicId) -> (declared: Option<u8>)
        ensures
            declared == declared_in(self.affinity@, topic@),
    {
        let mut i: usize = 0;
        assert(self.affinity@.skip(0) =~= self.affinity@);
        while i < self.affinity.len()
            invariant
                i <= self.affinity@.len(),
                declared_in(self.affinity@, topic@) == declared_in(
                    self.affinity@.skip(i as int),
                    topic@,
                ),
            decreases self.affinity@.len() - i,
        {
            assert(self.affinity@.skip(i as int).drop_first() =~= self.affinity@.skip(i + 1));
            assert(self.affinity@.skip(i as int)[0] == self.affinity@[i as int]);
            if same_text(self.affinity[i].0.as_str(), topic.as_str()) {
                return Some(self.affinity[i].1);
            }
            i = i + 1;
        }
        None
    }

    /// This member's relevance for a topic: what it declared, or a neutral
    /// fifty.
    ///
    /// A member with no declared affinity is neutral rather than
    /// uninterested, so an unconfigured roster still deliberates.
    pub fn relevance(&self, topic: Option<&TopicId>) -> (relevance: u8)
        ensures
            relevance == relevance_of(
                *self,
                match topic {
                    Some(t) => Some(t@),
                    None => None,
                },
            ),
    {
        match topic {
            None => 50,
            Some(t) => match self.declared_relevance(t) {
                Some(r) => r,
                None => 50,
            },
        }
    }
}

/// Why a member wants the floor, in order of precedence: a member that is
/// both addressed and quiet bids `Addressed`.
#[derive(Clone, Copy, Debug, PartialEq, Eq, Structural)]
pub enum BidReason {
    /// A trace cited or objected to one of this member's messages.
    Addressed,
    /// The directory names this member as holding a topic the room is
    /// contesting or a member deferred.
    Knows,
    /// The room is deadlocked and this member has backed neither side.
    Dissent,
    /// The equality guard lifted the least-heard member.
    Quiet,
    /// Ordinary pull from the salience field.
    Salience,
}

/// One member's bid for the floor.
#[derive(Clone, Debug, PartialEq, Eq)]
pub struct Bid {
    /// Canonical agent id.
    pub agent_id: String,
    /// Fixed-point urge in thousandths, net of the member's own threshold.
    pub urge: i64,
    /// The dominant reason for the bid.
    pub reason: BidReason,
}

} // verus!

//! Directory inputs and entries.

mod decode;
mod query;
mod render;

pub use decode::{EntryError, decode_outcome, entry_error_message, first_out_of_range, out_of_range, pairs_distinct, repeated, same_pair};
pub use query::{lemma_top_member_range, has_entry, member_names, top_in, top_member, topics_of, weight_in};
pub use render::{by_weight, decimal, digits, entries_on, holder_text, joined, line_for, lines_of};

use vstd::prelude::*;

use crate::order::text_lt;
use crate::trace::TopicId;

verus! {

/// Weight above which an `(agent, topic)` estimate stops growing.
///
/// A long transcript deposits without bound, and an unbounded weight would let
/// one member's early lead become unreachable. Saturating here keeps the fold
/// total and keeps a late specialist able to catch up.
pub const WEIGHT_CEILING: i64 = 1_000_000;

/// How the directory weighs what the transcript says about who knows what.
///
/// Every field is fixed point. `specialisation`, `credibility`, `prior` and
/// `discredit` are tenths; `floor` is a weight in thousandths.
#[derive(Clone, Copy, Debug, PartialEq, Eq, Structural)]
pub struct DirectoryPolicy {
    /// Sequence distance at which a deposit's contribution halves.
    pub half_life: u32,
    /// Weight on a member's own grounded deposits, in tenths.
    pub specialisation: u16,
    /// Weight on other members' citations of them, in tenths.
    pub credibility: u16,
    /// Weight on the host's declared affinity, in tenths.
    pub prior: u16,
    /// What one objection costs, in tenths of one citation.
    pub discredit: u16,
    /// How many sequences back a deposit still counts.
    pub window: u32,
    /// Weight at or above which a member is said to know a topic.
    pub floor: i64,
}

/// The shipped directory policy.
///
/// Specialisation outweighs credibility because a deposit is a fact the member
/// actually stated and a citation is a second member's opinion about it. The
/// host's prior is a third of credibility because it is a diffuse cue, a role
/// label rather than observed experience.
pub open spec fn default_directory() -> DirectoryPolicy {
    DirectoryPolicy {
        half_life: 20,
        specialisation: 30,
        credibility: 20,
        prior: 10,
        discredit: 20,
        window: 30,
        floor: 1_000,
    }
}

impl DirectoryPolicy {
    /// The shipped directory policy.
    pub fn conservative() -> (policy: Self)
        ensures
            policy == default_directory(),
    {
        DirectoryPolicy {
            half_life: 20,
            specialisation: 30,
            credibility: 20,
            prior: 10,
            discredit: 20,
            window: 30,
            floor: 1_000,
        }
    }
}

impl Default for DirectoryPolicy {
    fn default() -> (policy: Self)
        ensures
            policy == default_directory(),
    {
        DirectoryPolicy::conservative()
    }
}

/// What the transcript says one member knows about one topic.
#[derive(Clone, Debug, PartialEq, Eq)]
pub struct DirectoryEntry {
    /// Canonical agent id.
    pub agent_id: String,
    /// The topic this estimate is about.
    pub topic: TopicId,
    /// Decayed weight of this member's own grounded deposits on the topic.
    pub specialisation: i64,
    /// Decayed weight of other members' citations of them, net of objections
    /// and never below zero.
    pub credibility: i64,
    /// The combined estimate, clamped to `0..=WEIGHT_CEILING`; zero when the
    /// member deferred the topic in window.
    pub weight: i64,
}

/// An entry as plain values.
pub struct EntryView {
    pub agent: Seq<char>,
    pub topic: Seq<char>,
    pub specialisation: int,
    pub credibility: int,
    pub weight: int,
}

impl View for DirectoryEntry {
    type V = EntryView;

    open spec fn view(&self) -> EntryView {
        EntryView {
            agent: self.agent_id@,
            topic: self.topic@,
            specialisation: self.specialisation as int,
            credibility: self.credibility as int,
            weight: self.weight as int,
        }
    }
}

/// Whether entry `a` sorts strictly before entry `b`: by topic, then agent.
pub open spec fn entry_lt(a: EntryView, b: EntryView) -> bool {
    text_lt(a.topic, b.topic) || (a.topic == b.topic && text_lt(a.agent, b.agent))
}

/// Whether entries are strictly in `(topic, agent_id)` order.
pub open spec fn entries_sorted(s: Seq<EntryView>) -> bool {
    forall|i: int, j: int| 0 <= i < j < s.len() ==> entry_lt(#[trigger] s[i], #[trigger] s[j])
}

/// Whether every weight lies in `0..=WEIGHT_CEILING`.
pub open spec fn weights_in_range(s: Seq<EntryView>) -> bool {
    forall|i: int| 0 <= i < s.len() ==> 0 <= (#[trigger] s[i]).weight <= WEIGHT_CEILING
}

/// The plain values of a list of entries.
pub open spec fn entry_views(s: Seq<DirectoryEntry>) -> Seq<EntryView> {
    s.map_values(|e: DirectoryEntry| e@)
}

/// Who knows what, folded from one transcript.
///
/// Entries are in `(topic, agent_id)` order, one per pair, and only holders
/// appear: a pair every term scored zero on is dropped rather than carried as
/// a zero.
#[derive(Debug, PartialEq, Eq)]
pub struct Directory {
    entries: Vec<DirectoryEntry>,
}

impl View for Directory {
    type V = Seq<EntryView>;

    closed spec fn view(&self) -> Seq<EntryView> {
        entry_views(self.entries@)
    }
}

impl Directory {
    /// The ordering every query relies on.
    #[verifier::type_invariant]
    closed spec fn well_formed(self) -> bool {
        entries_sorted(entry_views(self.entries@)) && weights_in_range(entry_views(self.entries@))
    }

    /// The entries as stored.
    pub closed spec fn stored(&self) -> Seq<DirectoryEntry> {
        self.entries@
    }

    /// Build a directory from entries already in order and in range.
    pub(crate) fn from_sorted(entries: Vec<DirectoryEntry>) -> (made: Self)
        requires
            entries_sorted(entry_views(entries@)),
            weights_in_range(entry_views(entries@)),
        ensures
            made@ == entry_views(entries@),
            made.stored() == entries@,
    {
        Directory { entries }
    }

    /// A directory with no entries.
    pub fn empty() -> (made: Self)
        ensures
            made@.len() == 0,
    {
        let made = Directory { entries: Vec::new() };
        assert(entry_views(made.entries@) =~= Seq::<EntryView>::empty());
        made
    }
}

impl Default for Directory {
    fn default() -> (made: Self)
        ensures
            made@.len() == 0,
    {
        Directory::empty()
    }
}

} // verus!

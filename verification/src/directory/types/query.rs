//! What a caller reads off a directory.

use vstd::prelude::*;

use super::{Directory, DirectoryEntry, DirectoryPolicy, EntryView, entries_sorted, entry_views, weights_in_range};
use crate::names::same_text;
use crate::order::text_lt;
use crate::trace::TopicId;

verus! {

/// The topics of a run of entries, each where it first appears, skipping an
/// entry whose topic repeats the one before it.
pub open spec fn topics_of(s: Seq<EntryView>) -> Seq<Seq<char>>
    decreases s.len(),
{
    if s.len() == 0 {
        Seq::empty()
    } else {
        let earlier = topics_of(s.drop_last());
        if s.len() > 1 && s[s.len() - 2].topic == s.last().topic {
            earlier
        } else {
            earlier.push(s.last().topic)
        }
    }
}

/// The weight of the first entry for `a` on `tp`, or zero.
pub open spec fn weight_in(s: Seq<EntryView>, a: Seq<char>, tp: Seq<char>) -> int
    decreases s.len(),
{
    if s.len() == 0 {
        0
    } else if s[0].agent == a && s[0].topic == tp {
        s[0].weight
    } else {
        weight_in(s.drop_first(), a, tp)
    }
}

/// The index of the first entry on `tp` of greatest weight, among the first
/// `n` entries.
pub open spec fn top_in(s: Seq<EntryView>, tp: Seq<char>, n: int) -> Option<int>
    decreases n,
{
    if n <= 0 {
        None
    } else {
        let held = top_in(s, tp, n - 1);
        if s[n - 1].topic == tp && (held is None || s[n - 1].weight > s[held->0].weight) {
            Some(n - 1)
        } else {
            held
        }
    }
}

/// Whether some entry is for `a` on `tp`.
pub open spec fn has_entry(s: Seq<EntryView>, a: Seq<char>, tp: Seq<char>) -> bool {
    exists|i: int| 0 <= i < s.len() && (#[trigger] s[i]).agent == a && s[i].topic == tp
}

/// The index of the first of the first `n` members holding an entry on
/// `tp` of greatest weight.
pub open spec fn top_member(s: Seq<EntryView>, tp: Seq<char>, members: Seq<Seq<char>>, n: int) -> Option<int>
    decreases n,
{
    if n <= 0 {
        None
    } else {
        let held = top_member(s, tp, members, n - 1);
        if has_entry(s, members[n - 1], tp) && (held is None || weight_in(s, members[n - 1], tp)
            > weight_in(s, members[held->0], tp)) {
            Some(n - 1)
        } else {
            held
        }
    }
}

/// The member `top_member` names is one of the first `n`.
pub proof fn lemma_top_member_range(s: Seq<EntryView>, tp: Seq<char>, members: Seq<Seq<char>>, n: int)
    ensures
        top_member(s, tp, members, n) matches Some(i) ==> 0 <= i < n,
    decreases n,
{
    if n > 0 {
        lemma_top_member_range(s, tp, members, n - 1);
    }
}

/// The text of a member list as plain values.
pub open spec fn member_names(members: Seq<&str>) -> Seq<Seq<char>> {
    members.map_values(|m: &str| m@)
}

impl Directory {
    /// Every entry, in `(topic, agent_id)` order.
    ///
    /// Public so a harness can rank-correlate directory weight against speech
    /// share: a directory that only reproduces who talked has learned nothing,
    /// and that has to be measurable from outside the crate.
    pub fn entries(&self) -> (entries: &[DirectoryEntry])
        ensures
            entry_views(entries@) == self@,
            entries_sorted(self@),
            weights_in_range(self@),
    {
        proof {
            use_type_invariant(self);
        }
        self.entries.as_slice()
    }

    /// Every topic some member holds, in topic order, without repeats.
    pub fn topics(&self) -> (topics: Vec<&TopicId>)
        ensures
            topics@.map_values(|t: &TopicId| t@) == topics_of(self@),
    {
        let ghost s = self@;
        let mut topics: Vec<&TopicId> = Vec::new();
        let mut i: usize = 0;
        while i < self.entries.len()
            invariant
                i <= s.len(),
                s == entry_views(self.entries@),
                topics@.map_values(|t: &TopicId| t@) == topics_of(s.take(i as int)),
                i > 0 ==> topics@.len() > 0 && topics@[topics@.len() - 1]@ == s[i - 1].topic,
            decreases s.len() - i,
        {
            let entry = &self.entries[i];
            assert(s[i as int] == entry@);
            assert(s.take(i + 1).drop_last() =~= s.take(i as int));
            let ghost before = topics@;
            let fresh = if topics.len() == 0 {
                true
            } else {
                !topics[topics.len() - 1].same(&entry.topic)
            };
            if fresh {
                topics.push(&entry.topic);
                assert(topics@.map_values(|t: &TopicId| t@) =~= before.map_values(|t: &TopicId| t@).push(
                    entry.topic@,
                ));
            }
            i = i + 1;
        }
        assert(s.take(s.len() as int) =~= s);
        topics
    }

    /// This member's weight on a topic, or zero when it holds no entry.
    pub fn weight(&self, agent_id: &str, topic: &TopicId) -> (weight: i64)
        ensures
            weight == weight_in(self@, agent_id@, topic@),
    {
        let ghost s = self@;
        let mut i: usize = 0;
        assert(s.skip(0) =~= s);
        while i < self.entries.len()
            invariant
                i <= s.len(),
                s == entry_views(self.entries@),
                weight_in(s, agent_id@, topic@) == weight_in(s.skip(i as int), agent_id@, topic@),
            decreases s.len() - i,
        {
            let entry = &self.entries[i];
            assert(s.skip(i as int).drop_first() =~= s.skip(i + 1));
            assert(s.skip(i as int)[0] == entry@);
            if same_text(entry.agent_id.as_str(), agent_id) && entry.topic.same(topic) {
                return entry.weight;
            }
            i = i + 1;
        }
        0
    }

    /// Whether this member's weight reaches the policy's floor.
    pub fn knows(&self, agent_id: &str, topic: &TopicId, policy: &DirectoryPolicy) -> (knows: bool)
        ensures
            knows == (weight_in(self@, agent_id@, topic@) >= policy.floor),
    {
        self.weight(agent_id, topic) >= policy.floor
    }

    /// The highest-weighted holder of a topic, ties broken by agent id.
    pub fn top(&self, topic: &TopicId) -> (top: Option<&DirectoryEntry>)
        ensures
            match top {
                Some(e) => top_in(self@, topic@, self@.len() as int) matches Some(i) && e@ == self@[i],
                None => top_in(self@, topic@, self@.len() as int) is None,
            },
    {
        let ghost s = self@;
        let mut held: Option<usize> = None;
        let mut i: usize = 0;
        while i < self.entries.len()
            invariant
                i <= s.len(),
                s == entry_views(self.entries@),
                match held {
                    Some(h) => top_in(s, topic@, i as int) == Some(h as int) && h < i,
                    None => top_in(s, topic@, i as int) is None,
                },
            decreases s.len() - i,
        {
            let entry = &self.entries[i];
            assert(s[i as int] == entry@);
            if entry.topic.same(topic) {
                match held {
                    None => {
                        held = Some(i);
                    },
                    Some(h) => {
                        assert(s[h as int] == self.entries@[h as int]@);
                        if entry.weight > self.entries[h].weight {
                            held = Some(i);
                        }
                    },
                }
            }
            i = i + 1;
        }
        match held {
            Some(h) => {
                assert(s[h as int] == self.entries@[h as int]@);
                Some(&self.entries[h])
            },
            None => None,
        }
    }

    /// The highest-weighted holder of a topic among the given members.
    ///
    /// Ties break by the order the members were given, which is desk order,
    /// so the answer is deterministic for a given roster and transcript. A
    /// member with no entry for the topic is not a candidate, so a room where
    /// nobody has deposited anything on it returns `None`.
    pub fn top_among<'a>(&self, topic: &TopicId, members: &[&'a str]) -> (top: Option<&'a str>)
        ensures
            match top {
                Some(m) => top_member(self@, topic@, member_names(members@), members@.len() as int) matches Some(
                    i,
                ) && m@ == members@[i]@,
                None => top_member(self@, topic@, member_names(members@), members@.len() as int) is None,
            },
    {
        let ghost s = self@;
        let ghost ms = member_names(members@);
        let mut held: Option<(usize, i64)> = None;
        let mut i: usize = 0;
        while i < members.len()
            invariant
                i <= members@.len(),
                s == self@,
                ms == member_names(members@),
                match held {
                    Some((h, w)) => top_member(s, topic@, ms, i as int) == Some(h as int) && h < i && w
                        == weight_in(s, ms[h as int], topic@),
                    None => top_member(s, topic@, ms, i as int) is None,
                },
            decreases members@.len() - i,
        {
            let member = members[i];
            assert(ms[i as int] == member@);
            match self.entry_weight(member, topic) {
                Some(w) => {
                    match held {
                        None => {
                            held = Some((i, w));
                        },
                        Some((h, hw)) => {
                            if w > hw {
                                held = Some((i, w));
                            }
                        },
                    }
                },
                None => {},
            }
            i = i + 1;
        }
        match held {
            Some((h, _)) => Some(members[h]),
            None => None,
        }
    }

    /// The weight of the entry for `agent_id` on `topic`, if there is one.
    fn entry_weight(&self, agent_id: &str, topic: &TopicId) -> (found: Option<i64>)
        ensures
            match found {
                Some(w) => has_entry(self@, agent_id@, topic@) && w == weight_in(self@, agent_id@, topic@),
                None => !has_entry(self@, agent_id@, topic@),
            },
    {
        let ghost s = self@;
        let mut i: usize = 0;
        assert(s.skip(0) =~= s);
        while i < self.entries.len()
            invariant
                i <= s.len(),
                s == entry_views(self.entries@),
                weight_in(s, agent_id@, topic@) == weight_in(s.skip(i as int), agent_id@, topic@),
                forall|j: int| 0 <= j < i ==> !((#[trigger] s[j]).agent == agent_id@ && s[j].topic == topic@),
            decreases s.len() - i,
        {
            let entry = &self.entries[i];
            assert(s.skip(i as int).drop_first() =~= s.skip(i + 1));
            assert(s.skip(i as int)[0] == entry@);
            assert(s[i as int] == entry@);
            if same_text(entry.agent_id.as_str(), agent_id) && entry.topic.same(topic) {
                return Some(entry.weight);
            }
            i = i + 1;
        }
        None
    }
}

} // verus!

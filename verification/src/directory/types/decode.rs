//! Rebuilding a directory from entries someone else wrote.

use vstd::prelude::*;

use super::{Directory, DirectoryEntry, EntryView, WEIGHT_CEILING, entries_sorted, entry_lt, entry_views};
use crate::names::same_text;
use crate::order::{lemma_text_irreflexive, lemma_text_total, lemma_text_transitive, text_less, text_lt};
use crate::trace::TopicId;

verus! {

broadcast use vstd::seq_lib::group_to_multiset_ensures;

/// Why a list of entries is not a directory the fold could have produced.
#[derive(Clone, Debug, PartialEq, Eq)]
pub enum EntryError {
    /// An entry's weight lies outside `0..=WEIGHT_CEILING`.
    OutOfRange { agent_id: String, topic: TopicId },
    /// Two entries name one `(topic, agent_id)` pair.
    Repeated { agent_id: String, topic: TopicId },
}

impl EntryError {
    /// The message for this failure.
    pub fn message(&self) -> (text: String)
        ensures
            text@ == entry_error_message(*self),
    {
        match self {
            EntryError::OutOfRange { agent_id, topic } => {
                let mut text = String::from_str("directory weight for ");
                text.append(agent_id.as_str());
                text.append(" on #");
                text.append(topic.as_str());
                text.append(" is out of range");
                text
            },
            EntryError::Repeated { agent_id, topic } => {
                let mut text = String::from_str("duplicate directory entry for ");
                text.append(agent_id.as_str());
                text.append(" on #");
                text.append(topic.as_str());
                text
            },
        }
    }
}

/// The message for each failure.
pub open spec fn entry_error_message(error: EntryError) -> Seq<char> {
    match error {
        EntryError::OutOfRange { agent_id, topic } => "directory weight for "@ + agent_id@ + " on #"@
            + topic@ + " is out of range"@,
        EntryError::Repeated { agent_id, topic } => "duplicate directory entry for "@ + agent_id@
            + " on #"@ + topic@,
    }
}

/// Whether two entries name one `(topic, agent)` pair.
pub open spec fn same_pair(a: EntryView, b: EntryView) -> bool {
    a.topic == b.topic && a.agent == b.agent
}

/// Whether an entry's weight is outside what the fold emits.
pub open spec fn out_of_range(e: EntryView) -> bool {
    e.weight < 0 || e.weight > WEIGHT_CEILING
}

/// The index of the first entry, in the order given, out of range.
pub open spec fn first_out_of_range(s: Seq<EntryView>) -> Option<int>
    decreases s.len(),
{
    if s.len() == 0 {
        None
    } else {
        match first_out_of_range(s.drop_last()) {
            Some(i) => Some(i),
            None => if out_of_range(s.last()) {
                Some(s.len() - 1)
            } else {
                None
            },
        }
    }
}

/// The first entry out of range in a prefix is the first in the whole.
proof fn lemma_first_in_prefix(s: Seq<EntryView>, n: int, i: int)
    requires
        0 <= n <= s.len(),
        first_out_of_range(s.take(n)) == Some(i),
    ensures
        first_out_of_range(s) == Some(i),
    decreases s.len() - n,
{
    if n == s.len() {
        assert(s.take(n) =~= s);
    } else {
        assert(s.drop_last().take(n) =~= s.take(n));
        lemma_first_in_prefix(s.drop_last(), n, i);
    }
}

/// Whether two entries of `s` name the pair `e` names.
pub open spec fn repeated(s: Seq<EntryView>, e: EntryView) -> bool {
    exists|i: int, j: int| 0 <= i < j < s.len() && same_pair(#[trigger] s[i], e) && same_pair(#[trigger] s[j], e)
}

/// Whether every entry of `s` names its own pair.
pub open spec fn pairs_distinct(s: Seq<EntryView>) -> bool {
    forall|i: int, j: int| 0 <= i < j < s.len() ==> !same_pair(#[trigger] s[i], #[trigger] s[j])
}

/// What decoding a list of entries gives: the first entry out of range, in
/// the order given; else the least repeated pair; else the entries in
/// `(topic, agent)` order.
pub open spec fn decode_outcome(result: core::result::Result<Directory, EntryError>, s: Seq<EntryView>) -> bool {
    match first_out_of_range(s) {
        Some(i) => result matches Err(EntryError::OutOfRange { agent_id, topic }) && agent_id@ == s[i].agent
            && topic@ == s[i].topic,
        None => if pairs_distinct(s) {
            result matches Ok(d) && entries_sorted(d@) && d@.to_multiset() == s.to_multiset()
        } else {
            result matches Err(EntryError::Repeated { agent_id, topic }) && exists|k: int|
                0 <= k < s.len() && repeated(s, #[trigger] s[k]) && s[k].agent == agent_id@ && s[k].topic
                    == topic@ && forall|m: int| 0 <= m < s.len() && repeated(s, #[trigger] s[m]) ==> !entry_lt(s[m], s[k])
        },
    }
}

/// The pair order is transitive.
proof fn lemma_entry_transitive(a: EntryView, b: EntryView, c: EntryView)
    requires
        entry_lt(a, b),
        entry_lt(b, c),
    ensures
        entry_lt(a, c),
{
    if text_lt(a.topic, b.topic) && text_lt(b.topic, c.topic) {
        lemma_text_transitive(a.topic, b.topic, c.topic);
    } else if text_lt(a.topic, b.topic) {
    } else if text_lt(b.topic, c.topic) {
    } else {
        lemma_text_transitive(a.agent, b.agent, c.agent);
    }
}

/// Of two entries naming different pairs, exactly one sorts first; an entry
/// never sorts before its own pair.
proof fn lemma_entry_total(a: EntryView, b: EntryView)
    ensures
        !same_pair(a, b) ==> (entry_lt(a, b) || entry_lt(b, a)),
        !(entry_lt(a, b) && entry_lt(b, a)),
        same_pair(a, b) ==> !entry_lt(a, b),
{
    lemma_text_total(a.topic, b.topic);
    lemma_text_total(a.agent, b.agent);
    lemma_text_irreflexive(a.topic);
    lemma_text_irreflexive(a.agent);
}

/// Whether `a` sorts before `b` by `(topic, agent)`.
fn pair_before(a: &DirectoryEntry, b: &DirectoryEntry) -> (before: bool)
    ensures
        before == entry_lt(a@, b@),
{
    text_less(a.topic.as_str(), b.topic.as_str()) || (same_text(a.topic.as_str(), b.topic.as_str())
        && text_less(a.agent_id.as_str(), b.agent_id.as_str()))
}

/// Whether two entries name one pair.
fn pair_same(a: &DirectoryEntry, b: &DirectoryEntry) -> (same: bool)
    ensures
        same == same_pair(a@, b@),
{
    same_text(a.topic.as_str(), b.topic.as_str()) && same_text(a.agent_id.as_str(), b.agent_id.as_str())
}

/// A copy of an entry.
fn copy_entry(e: &DirectoryEntry) -> (copy: DirectoryEntry)
    ensures
        copy@ == e@,
{
    DirectoryEntry {
        agent_id: e.agent_id.clone(),
        topic: e.topic.duplicate(),
        specialisation: e.specialisation,
        credibility: e.credibility,
        weight: e.weight,
    }
}

impl Directory {
    /// Rebuild a directory from entries in any order.
    ///
    /// Every query reads the entries as being in `(topic, agent_id)` order,
    /// so the entries are sorted here rather than trusted. A weight outside
    /// `0..=WEIGHT_CEILING` is refused, naming the first such entry; so is a
    /// repeated `(topic, agent_id)`, naming the least repeated pair: two
    /// weights for one pair is not a directory the fold could have produced,
    /// and keeping either one would be a guess.
    pub fn from_entries(entries: Vec<DirectoryEntry>) -> (result: core::result::Result<Directory, EntryError>)
        ensures
            decode_outcome(result, entry_views(entries@)),
    {
        let ghost s = entry_views(entries@);
        let mut i: usize = 0;
        while i < entries.len()
            invariant
                i <= s.len(),
                s == entry_views(entries@),
                first_out_of_range(s.take(i as int)) is None,
                forall|j: int| 0 <= j < i ==> !out_of_range(#[trigger] s[j]),
            decreases s.len() - i,
        {
            assert(s.take(i + 1).drop_last() =~= s.take(i as int));
            assert(s[i as int] == entries@[i as int]@);
            if entries[i].weight < 0 || entries[i].weight > WEIGHT_CEILING {
                proof {
                    lemma_first_in_prefix(s, i + 1, i as int);
                }
                return Err(
                    EntryError::OutOfRange {
                        agent_id: entries[i].agent_id.clone(),
                        topic: entries[i].topic.duplicate(),
                    },
                );
            }
            i = i + 1;
        }
        assert(s.take(s.len() as int) =~= s);
        match least_repeat(&entries) {
            Some(k) => {
                return Err(
                    EntryError::Repeated { agent_id: entries[k].agent_id.clone(), topic: entries[k].topic.duplicate() },
                );
            },
            None => {},
        }
        let sorted = sort_pairs(&entries);
        proof {
            let t = entry_views(sorted@);
            assert forall|q: int| 0 <= q < t.len() implies 0 <= (#[trigger] t[q]).weight <= WEIGHT_CEILING by {
                assert(t.to_multiset().count(t[q]) > 0);
                assert(s.to_multiset().count(t[q]) > 0);
                assert(s.contains(t[q]));
                let j = choose|j: int| 0 <= j < s.len() && s[j] == t[q];
                assert(!out_of_range(s[j]));
            }
        }
        Ok(Directory::from_sorted(sorted))
    }
}

/// The index of an entry naming the least repeated pair, if any pair
/// repeats.
fn least_repeat(entries: &Vec<DirectoryEntry>) -> (found: Option<usize>)
    ensures
        match found {
            None => pairs_distinct(entry_views(entries@)),
            Some(k) => {
                let s = entry_views(entries@);
                &&& k < s.len()
                &&& repeated(s, s[k as int])
                &&& forall|m: int| 0 <= m < s.len() && repeated(s, #[trigger] s[m]) ==> !entry_lt(s[m], s[k as int])
            },
        },
{
    let ghost s = entry_views(entries@);
    let mut best: Option<usize> = None;
    let mut i: usize = 0;
    while i < entries.len()
        invariant
            i <= s.len(),
            s == entry_views(entries@),
            // Every pair repeated at an earlier first index is accounted for.
            forall|a: int, b: int|
                0 <= a < i && a < b < s.len() && same_pair(#[trigger] s[a], #[trigger] s[b]) ==> best is Some && !entry_lt(
                    s[a],
                    s[best->0 as int],
                ),
            match best {
                Some(k) => k < s.len() && repeated(s, s[k as int]),
                None => true,
            },
        decreases s.len() - i,
    {
        let mut j: usize = i + 1;
        while j < entries.len()
            invariant
                i < j <= s.len(),
                s == entry_views(entries@),
                forall|a: int, b: int|
                    0 <= a < i && a < b < s.len() && same_pair(#[trigger] s[a], #[trigger] s[b]) ==> best is Some
                        && !entry_lt(s[a], s[best->0 as int]),
                forall|b: int|
                    i < b < j && same_pair(s[i as int], #[trigger] s[b]) ==> best is Some && !entry_lt(
                        s[i as int],
                        s[best->0 as int],
                    ),
                match best {
                    Some(k) => k < s.len() && repeated(s, s[k as int]),
                    None => true,
                },
            decreases s.len() - j,
        {
            assert(s[i as int] == entries@[i as int]@ && s[j as int] == entries@[j as int]@);
            if pair_same(&entries[i], &entries[j]) {
                let ghost was = best;
                let better = match best {
                    None => true,
                    Some(k) => {
                        assert(s[k as int] == entries@[k as int]@);
                        pair_before(&entries[i], &entries[k])
                    },
                };
                proof {
                    lemma_entry_total(s[i as int], s[i as int]);
                    assert(same_pair(s[i as int], s[i as int]) && same_pair(s[j as int], s[i as int]));
                    assert(repeated(s, s[i as int]));
                }
                if better {
                    best = Some(i);
                    proof {
                        assert forall|a: int, b: int|
                            0 <= a < i && a < b < s.len() && same_pair(#[trigger] s[a], #[trigger] s[b]) implies !entry_lt(
                            s[a],
                            s[i as int],
                        ) by {
                            let k = was->0 as int;
                            if entry_lt(s[a], s[i as int]) {
                                lemma_entry_transitive(s[a], s[i as int], s[k]);
                            }
                        }
                    }
                }
            }
            j = j + 1;
        }
        i = i + 1;
    }
    match best {
        None => {
            assert(pairs_distinct(s));
            None
        },
        Some(k) => {
            proof {
                assert forall|m: int| 0 <= m < s.len() && repeated(s, #[trigger] s[m]) implies !entry_lt(
                    s[m],
                    s[k as int],
                ) by {
                    let (a, b) = choose|a: int, b: int|
                        0 <= a < b < s.len() && same_pair(#[trigger] s[a], s[m]) && same_pair(#[trigger] s[b], s[m]);
                    assert(same_pair(s[a], s[b]));
                }
            }
            Some(k)
        },
    }
}

/// The entries in `(topic, agent)` order, given that no pair repeats.
fn sort_pairs(entries: &Vec<DirectoryEntry>) -> (sorted: Vec<DirectoryEntry>)
    requires
        pairs_distinct(entry_views(entries@)),
    ensures
        entries_sorted(entry_views(sorted@)),
        entry_views(sorted@).to_multiset() == entry_views(entries@).to_multiset(),
{
    let ghost s = entry_views(entries@);
    let mut sorted: Vec<DirectoryEntry> = Vec::new();
    let mut k: usize = 0;
    while k < entries.len()
        invariant
            k <= s.len(),
            s == entry_views(entries@),
            pairs_distinct(s),
            entries_sorted(entry_views(sorted@)),
            entry_views(sorted@).to_multiset() == s.take(k as int).to_multiset(),
        decreases s.len() - k,
    {
        let ghost before = entry_views(sorted@);
        let x = copy_entry(&entries[k]);
        assert(s[k as int] == entries@[k as int]@);
        let ghost xv = x@;
        proof {
            assert forall|i: int| 0 <= i < before.len() implies !same_pair(#[trigger] before[i], xv) by {
                assert(before.to_multiset().count(before[i]) > 0);
                assert(s.take(k as int).to_multiset().count(before[i]) > 0);
                assert(s.take(k as int).contains(before[i]));
                let j = choose|j: int| 0 <= j < s.take(k as int).len() && s.take(k as int)[j] == before[i];
                assert(s[j] == before[i]);
            }
        }
        let mut p = sorted.len();
        while p > 0 && pair_before(&x, &sorted[p - 1])
            invariant
                p <= before.len(),
                before == entry_views(sorted@),
                x@ == xv,
                forall|j: int| p <= j < before.len() ==> entry_lt(xv, #[trigger] before[j]),
            decreases p,
        {
            assert(before[p - 1] == sorted@[p - 1]@);
            p = p - 1;
        }
        proof {
            if p > 0 {
                assert(before[p - 1] == sorted@[p - 1]@);
                lemma_entry_total(xv, before[p - 1]);
                assert(entry_lt(before[p - 1], xv));
            }
            let after = before.insert(p as int, xv);
            assert forall|a: int, b: int| 0 <= a < b < after.len() implies entry_lt(
                #[trigger] after[a],
                #[trigger] after[b],
            ) by {
                if b < p {
                    assert(after[a] == before[a] && after[b] == before[b]);
                } else if b == p {
                    assert(after[b] == xv && after[a] == before[a]);
                    if a < p - 1 {
                        lemma_entry_transitive(before[a], before[p - 1], xv);
                    }
                } else if a == p {
                    assert(after[a] == xv && after[b] == before[b - 1]);
                } else if a < p {
                    assert(after[a] == before[a] && after[b] == before[b - 1]);
                } else {
                    assert(after[a] == before[a - 1] && after[b] == before[b - 1]);
                }
            }
            assert(s.take(k + 1) =~= s.take(k as int).push(xv));
        }
        sorted.insert(p, x);
        assert(entry_views(sorted@) =~= before.insert(p as int, xv));
        k = k + 1;
    }
    assert(s.take(s.len() as int) =~= s);
    sorted
}

} // verus!

//! The directory rendered one line per topic.

use vstd::prelude::*;

use super::query::topics_of;
use super::{Directory, DirectoryEntry, EntryView, entry_views};
use crate::trace::TopicId;

verus! {

/// One decimal digit.
pub open spec fn digit_text(d: int) -> Seq<char> {
    if d == 0 {
        "0"@
    } else if d == 1 {
        "1"@
    } else if d == 2 {
        "2"@
    } else if d == 3 {
        "3"@
    } else if d == 4 {
        "4"@
    } else if d == 5 {
        "5"@
    } else if d == 6 {
        "6"@
    } else if d == 7 {
        "7"@
    } else if d == 8 {
        "8"@
    } else {
        "9"@
    }
}

/// A natural number in decimal.
pub open spec fn digits(n: nat) -> Seq<char>
    decreases n,
{
    if n < 10 {
        digit_text(n as int)
    } else {
        digits(n / 10) + digit_text((n % 10) as int)
    }
}

/// An integer in decimal, with a leading `-` when negative.
pub open spec fn decimal(n: int) -> Seq<char> {
    if n < 0 {
        "-"@ + digits((-n) as nat)
    } else {
        digits(n as nat)
    }
}

/// One holder as a line renders it: `agent weight (spec S, cred C)`.
pub open spec fn holder_text(e: EntryView) -> Seq<char> {
    e.agent + " "@ + decimal(e.weight) + " (spec "@ + decimal(e.specialisation) + ", cred "@ + decimal(
        e.credibility,
    ) + ")"@
}

/// The entries on one topic, in order.
pub open spec fn entries_on(s: Seq<EntryView>, tp: Seq<char>) -> Seq<EntryView>
    decreases s.len(),
{
    if s.len() == 0 {
        Seq::empty()
    } else if s.last().topic == tp {
        entries_on(s.drop_last(), tp).push(s.last())
    } else {
        entries_on(s.drop_last(), tp)
    }
}

/// Insert `x` after every element, from the back, at least as heavy: a
/// stable insertion by descending weight.
pub open spec fn insert_by_weight(s: Seq<EntryView>, x: EntryView) -> Seq<EntryView>
    decreases s.len(),
{
    if s.len() == 0 {
        seq![x]
    } else if s.last().weight >= x.weight {
        s.push(x)
    } else {
        insert_by_weight(s.drop_last(), x).push(s.last())
    }
}

/// Entries in descending weight, keeping their order among equal weights.
pub open spec fn by_weight(s: Seq<EntryView>) -> Seq<EntryView>
    decreases s.len(),
{
    if s.len() == 0 {
        s
    } else {
        insert_by_weight(by_weight(s.drop_last()), s.last())
    }
}

/// Parts joined by ` · `.
pub open spec fn joined(parts: Seq<Seq<char>>) -> Seq<char>
    decreases parts.len(),
{
    if parts.len() == 0 {
        Seq::empty()
    } else if parts.len() == 1 {
        parts[0]
    } else {
        joined(parts.drop_last()) + " · "@ + parts.last()
    }
}

/// The line for one topic: `#topic: ` and its holders, heaviest first.
pub open spec fn line_for(s: Seq<EntryView>, tp: Seq<char>) -> Seq<char> {
    "#"@ + tp + ": "@ + joined(by_weight(entries_on(s, tp)).map_values(|e: EntryView| holder_text(e)))
}

/// One line per topic, in topic order.
pub open spec fn lines_of(s: Seq<EntryView>) -> Seq<Seq<char>> {
    topics_of(s).map_values(|tp: Seq<char>| line_for(s, tp))
}

/// The text of one digit.
fn digit_str(d: u64) -> (text: &'static str)
    requires
        d < 10,
    ensures
        text@ == digit_text(d as int),
{
    if d == 0 {
        "0"
    } else if d == 1 {
        "1"
    } else if d == 2 {
        "2"
    } else if d == 3 {
        "3"
    } else if d == 4 {
        "4"
    } else if d == 5 {
        "5"
    } else if d == 6 {
        "6"
    } else if d == 7 {
        "7"
    } else if d == 8 {
        "8"
    } else {
        "9"
    }
}

/// Append a natural number in decimal.
fn push_digits(text: &mut String, n: u64)
    ensures
        final(text)@ == old(text)@ + digits(n as nat),
    decreases n,
{
    if n >= 10 {
        push_digits(text, n / 10);
    }
    text.append(digit_str(n % 10));
    assert(final(text)@ =~= old(text)@ + digits(n as nat)) by {
        if n < 10 {
            assert(n % 10 == n);
        }
    }
}

/// Append an integer in decimal.
fn push_decimal(text: &mut String, n: i64)
    ensures
        final(text)@ == old(text)@ + decimal(n as int),
{
    if n < 0 {
        text.append("-");
        let magnitude = (0i128 - (n as i128)) as u64;
        push_digits(text, magnitude);
        assert(final(text)@ =~= old(text)@ + decimal(n as int));
    } else {
        push_digits(text, n as u64);
    }
}

/// Append one holder's rendering.
fn push_holder(text: &mut String, entry: &DirectoryEntry)
    ensures
        final(text)@ == old(text)@ + holder_text(entry@),
{
    text.append(entry.agent_id.as_str());
    text.append(" ");
    push_decimal(text, entry.weight);
    text.append(" (spec ");
    push_decimal(text, entry.specialisation);
    text.append(", cred ");
    push_decimal(text, entry.credibility);
    text.append(")");
    assert(final(text)@ =~= old(text)@ + holder_text(entry@));
}

/// Insertion at the first position past every weight at least `x`'s is the
/// stable insertion.
proof fn lemma_insert_by_weight(s: Seq<EntryView>, x: EntryView, p: int)
    requires
        0 <= p <= s.len(),
        forall|j: int| p <= j < s.len() ==> (#[trigger] s[j]).weight < x.weight,
        p == 0 || s[p - 1].weight >= x.weight,
    ensures
        insert_by_weight(s, x) == s.insert(p, x),
    decreases s.len(),
{
    if s.len() == p {
        if p == 0 {
            assert(s.insert(p, x) =~= seq![x]);
        } else {
            assert(s.insert(p, x) =~= s.push(x));
        }
    } else {
        assert(s[s.len() - 1].weight < x.weight);
        lemma_insert_by_weight(s.drop_last(), x, p);
        assert(s.insert(p, x) =~= s.drop_last().insert(p, x).push(s.last()));
    }
}

impl Directory {
    /// Render one line per topic, holders in descending weight order:
    ///
    /// ```text
    /// #pool: archivist 1420 (spec 900, cred 520) · critic 300 (spec 300, cred 0)
    /// ```
    ///
    /// This exists so a host can paste the directory into a prompt. A host
    /// that does should know it is also rendering its own prior as if the room
    /// had earned it.
    pub fn lines(&self) -> (lines: Vec<String>)
        ensures
            lines@.map_values(|l: String| l@) == lines_of(self@),
    {
        let ghost s = self@;
        let topics = self.topics();
        let ghost tv = topics@.map_values(|t: &TopicId| t@);
        let mut lines: Vec<String> = Vec::new();
        let mut k: usize = 0;
        while k < topics.len()
            invariant
                k <= topics@.len(),
                s == self@,
                tv == topics@.map_values(|t: &TopicId| t@),
                tv == topics_of(s),
                lines@.map_values(|l: String| l@) == tv.take(k as int).map_values(
                    |tp: Seq<char>| line_for(s, tp),
                ),
            decreases topics@.len() - k,
        {
            let topic = topics[k];
            assert(tv[k as int] == topic@);
            let line = self.line(topic);
            let ghost before = lines@;
            lines.push(line);
            assert(lines@.map_values(|l: String| l@) =~= before.map_values(|l: String| l@).push(line@));
            assert(tv.take(k + 1) =~= tv.take(k as int).push(tv[k as int]));
            assert(lines@.map_values(|l: String| l@) =~= tv.take(k + 1).map_values(
                |tp: Seq<char>| line_for(s, tp),
            ));
            k = k + 1;
        }
        assert(tv.take(topics@.len() as int) =~= tv);
        lines
    }

    /// The line for one topic.
    fn line(&self, topic: &TopicId) -> (line: String)
        ensures
            line@ == line_for(self@, topic@),
    {
        let ghost s = self@;
        let mut holders: Vec<&DirectoryEntry> = Vec::new();
        let mut i: usize = 0;
        while i < self.entries.len()
            invariant
                i <= s.len(),
                s == entry_views(self.entries@),
                holders@.map_values(|e: &DirectoryEntry| e@) == by_weight(entries_on(s.take(i as int), topic@)),
            decreases s.len() - i,
        {
            let entry = &self.entries[i];
            assert(s[i as int] == entry@);
            assert(s.take(i + 1).drop_last() =~= s.take(i as int));
            let ghost prev = entries_on(s.take(i as int), topic@);
            proof {
                if entry@.topic == topic@ {
                    assert(entries_on(s.take(i + 1), topic@) == prev.push(entry@));
                    assert(prev.push(entry@).drop_last() =~= prev);
                } else {
                    assert(entries_on(s.take(i + 1), topic@) == prev);
                }
            }
            if entry.topic.same(topic) {
                let ghost hv = holders@.map_values(|e: &DirectoryEntry| e@);
                let mut p = holders.len();
                while p > 0 && holders[p - 1].weight < entry.weight
                    invariant
                        p <= holders@.len(),
                        hv == holders@.map_values(|e: &DirectoryEntry| e@),
                        forall|j: int| p <= j < hv.len() ==> (#[trigger] hv[j]).weight < entry.weight,
                    decreases p,
                {
                    assert(hv[p - 1] == holders@[p - 1]@);
                    p = p - 1;
                }
                proof {
                    if p > 0 {
                        assert(hv[p - 1] == holders@[p - 1]@);
                    }
                    lemma_insert_by_weight(hv, entry@, p as int);
                }
                holders.insert(p, entry);
                assert(holders@.map_values(|e: &DirectoryEntry| e@) =~= hv.insert(p as int, entry@));
            }
            i = i + 1;
        }
        assert(s.take(s.len() as int) =~= s);
        let ghost hv = holders@.map_values(|e: &DirectoryEntry| e@);
        let ghost parts = hv.map_values(|e: EntryView| holder_text(e));
        let mut text = String::from_str("#");
        text.append(topic.as_str());
        text.append(": ");
        let ghost head = text@;
        let mut j: usize = 0;
        while j < holders.len()
            invariant
                j <= holders@.len(),
                hv == holders@.map_values(|e: &DirectoryEntry| e@),
                parts == hv.map_values(|e: EntryView| holder_text(e)),
                text@ == head + joined(parts.take(j as int)),
            decreases holders@.len() - j,
        {
            let entry = holders[j];
            assert(hv[j as int] == entry@);
            assert(parts.take(j + 1).drop_last() =~= parts.take(j as int));
            let ghost before = text@;
            if j > 0 {
                text.append(" · ");
            }
            push_holder(&mut text, entry);
            assert(text@ =~= head + joined(parts.take(j + 1))) by {
                if j == 0 {
                    assert(parts.take(1).len() == 1);
                    assert(joined(parts.take(1)) == parts[0]);
                } else {
                    assert(joined(parts.take(j + 1)) == joined(parts.take(j as int)) + " · "@ + parts[j as int]);
                }
            }
            j = j + 1;
        }
        assert(parts.take(holders@.len() as int) =~= parts);
        text
    }
}

} // verus!

//! Where a fold is measured to, and how distance back from it is counted.
//!
//! Every fold here is local: quorum counts support within a window, salience
//! decays a trace by how far back it is, and the directory does both. A
//! sequence numbers a row in the host's transcript, not a row in the episode,
//! so a desk busy in ways the episode is not reading has a quietly shorter
//! window under raw arithmetic. `Basis::Live` measures in the rows the fold
//! actually reads; `Basis::Sequence`, the default, subtracts raw sequences.

use vstd::prelude::*;

use crate::session::Sequence;

verus! {

/// How distance between two rows is counted.
#[derive(Clone, Copy, Debug, PartialEq, Eq, Structural)]
pub enum Basis {
    /// Subtract raw sequence values, counting every row the host wrote.
    Sequence,
    /// Count the rows the fold actually reads.
    Live,
}

impl Default for Basis {
    fn default() -> (basis: Self)
        ensures
            basis == Basis::Sequence,
    {
        Basis::Sequence
    }
}

/// The sequence a fold is measured to, and the ruler it measures with.
#[derive(Clone, Copy, Debug)]
pub struct Horizon<'a> {
    /// The sequence the fold is measured to.
    at: Sequence,
    /// The folded rows, ascending, when measuring in rows rather than
    /// sequences.
    rows: Option<&'a [Sequence]>,
}

/// A horizon as plain values.
pub struct HorizonView {
    pub at: Sequence,
    pub rows: Option<Seq<Sequence>>,
}

impl<'a> View for Horizon<'a> {
    type V = HorizonView;

    closed spec fn view(&self) -> HorizonView {
        HorizonView {
            at: self.at,
            rows: match self.rows {
                Some(r) => Some(r@),
                None => None,
            },
        }
    }
}

/// Where `s` sits among `rows`: how many rows come at or before it. For
/// ascending rows, the distance between two positions is then the number of
/// rows after the nearer one up to the farther, so a sequence the fold never
/// read lands where it would have, one row further back than the row after
/// it.
pub open spec fn position_of(rows: Seq<Sequence>, s: Sequence) -> int
    decreases rows.len(),
{
    if rows.len() == 0 {
        0
    } else {
        position_of(rows.drop_last(), s) + if rows.last().0 <= s.0 {
            1int
        } else {
            0
        }
    }
}

/// How far back `from` is, in whichever unit the horizon counts, and zero
/// for anything at or after it.
pub open spec fn distance_of(h: HorizonView, from: Sequence) -> int {
    match h.rows {
        None => if h.at.0 >= from.0 {
            h.at.0 - from.0
        } else {
            0
        },
        Some(rows) => {
            let here = position_of(rows, h.at);
            let there = position_of(rows, from);
            if here >= there {
                here - there
            } else {
                0
            }
        },
    }
}

/// Where `s` sits among `rows`.
fn position(rows: &[Sequence], s: Sequence) -> (index: u64)
    ensures
        index as int == position_of(rows@, s),
{
    let mut count: u64 = 0;
    let mut i: usize = 0;
    while i < rows.len()
        invariant
            i <= rows@.len(),
            count as int == position_of(rows@.take(i as int), s),
            count <= i,
        decreases rows@.len() - i,
    {
        assert(rows@.take(i + 1).drop_last() =~= rows@.take(i as int));
        assert(rows@.take(i + 1).last() == rows@[i as int]);
        if rows[i].0 <= s.0 {
            count = count + 1;
        }
        i = i + 1;
    }
    assert(rows@.take(rows@.len() as int) =~= rows@);
    count
}

impl<'a> Horizon<'a> {
    /// Measure in raw sequence distance to `at`.
    pub fn at(at: Sequence) -> (horizon: Self)
        ensures
            horizon@ == (HorizonView { at, rows: None }),
    {
        Horizon { at, rows: None }
    }

    /// Measure in `rows`, the rows the fold reads, up to `at`.
    ///
    /// `rows` is the ascending transcript order the caller already folded in.
    /// A sequence that is not one of them is measured to the position it would
    /// occupy, so the answer stays monotone.
    pub fn over(at: Sequence, rows: &'a [Sequence]) -> (horizon: Self)
        ensures
            horizon@ == (HorizonView { at, rows: Some(rows@) }),
    {
        Horizon { at, rows: Some(rows) }
    }

    /// The sequence being measured to.
    pub fn sequence(self) -> (at: Sequence)
        ensures
            at == self@.at,
    {
        self.at
    }

    /// How far back `from` is, in whichever unit this horizon counts: zero for
    /// anything at or after the horizon, so never negative.
    pub fn distance(self, from: Sequence) -> (back: u64)
        ensures
            back as int == distance_of(self@, from),
    {
        match self.rows {
            None => self.at.0.saturating_sub(from.0),
            Some(rows) => {
                let here = position(rows, self.at);
                let there = position(rows, from);
                here.saturating_sub(there)
            },
        }
    }

    /// Whether `from` is at or before the horizon and within `window` of it.
    ///
    /// `window` is a distance back, so the horizon's own row is always in and
    /// a window of `n` admits `n + 1` rows.
    pub fn within(self, from: Sequence, window: u32) -> (inside: bool)
        ensures
            inside == (from.0 <= self@.at.0 && distance_of(self@, from) <= window),
    {
        from.0 <= self.at.0 && self.distance(from) <= window as u64
    }
}

impl<'a> From<Sequence> for Horizon<'a> {
    fn from(at: Sequence) -> (horizon: Self) {
        Horizon::at(at)
    }
}

impl<'a> vstd::std_specs::convert::FromSpecImpl<Sequence> for Horizon<'a> {
    open spec fn obeys_from_spec() -> bool {
        true
    }

    closed spec fn from_spec(at: Sequence) -> Self {
        Horizon { at, rows: None }
    }
}

/// A window is a distance back, so the horizon's own row is always in: it is
/// no distance from itself, and every window, however narrow, admits it.
pub proof fn law_own_row_always_within(h: HorizonView, window: u32)
    ensures
        distance_of(h, h.at) == 0,
        h.at.0 <= h.at.0 && distance_of(h, h.at) <= window,
{
}

/// Measuring raw distance, a horizon admits exactly what a window of raw
/// sequences does: the rows at or before it and no more than `window` back.
pub proof fn law_raw_window(at: Sequence, from: Sequence, window: u32)
    ensures
        (from.0 <= at.0 && distance_of(HorizonView { at, rows: None }, from) <= window) <==> (from.0 <= at.0
            && from.0 + window >= at.0),
{
}

/// On a dense run of rows, `1..=at`, measuring in rows and in sequences agree.
pub proof fn law_dense_rows_agree(rows: Seq<Sequence>, at: Sequence, from: Sequence)
    requires
        forall|i: int| 0 <= i < rows.len() ==> (#[trigger] rows[i]).0 == i + 1,
        rows.len() == at.0,
        1 <= from.0 <= at.0,
    ensures
        distance_of(HorizonView { at, rows: Some(rows) }, from) == distance_of(
            HorizonView { at, rows: None },
            from,
        ),
{
    lemma_dense_position(rows, at);
    lemma_dense_position(rows, from);
}

/// On the dense run `1..=n`, a sequence in `0..=n` sits at its own value.
proof fn lemma_dense_position(rows: Seq<Sequence>, s: Sequence)
    requires
        forall|i: int| 0 <= i < rows.len() ==> (#[trigger] rows[i]).0 == i + 1,
        s.0 <= rows.len(),
    ensures
        position_of(rows, s) == s.0,
    decreases rows.len(),
{
    if rows.len() > 0 {
        let shorter = rows.drop_last();
        assert forall|i: int| 0 <= i < shorter.len() implies (#[trigger] shorter[i]).0 == i + 1 by {
            assert(shorter[i] == rows[i]);
        }
        assert(rows[rows.len() - 1].0 == rows.len());
        if s.0 <= shorter.len() {
            lemma_dense_position(shorter, s);
        } else {
            lemma_dense_all_below(shorter, s);
        }
    }
}

/// Every row of the dense run `1..=n` is at or below a sequence past `n - 1`,
/// so all of them count toward its position.
proof fn lemma_dense_all_below(rows: Seq<Sequence>, s: Sequence)
    requires
        forall|i: int| 0 <= i < rows.len() ==> (#[trigger] rows[i]).0 == i + 1,
        s.0 >= rows.len(),
    ensures
        position_of(rows, s) == rows.len(),
    decreases rows.len(),
{
    if rows.len() > 0 {
        let shorter = rows.drop_last();
        assert forall|i: int| 0 <= i < shorter.len() implies (#[trigger] shorter[i]).0 == i + 1 by {
            assert(shorter[i] == rows[i]);
        }
        lemma_dense_all_below(shorter, s);
        assert(rows[rows.len() - 1].0 == rows.len());
    }
}

/// A later sequence sits at or after an earlier one among any rows.
proof fn lemma_position_monotone(rows: Seq<Sequence>, a: Sequence, b: Sequence)
    requires
        a.0 <= b.0,
    ensures
        position_of(rows, a) <= position_of(rows, b),
    decreases rows.len(),
{
    if rows.len() > 0 {
        lemma_position_monotone(rows.drop_last(), a, b);
    }
}

/// Distance back is monotone in either unit: a sequence no later than
/// another is at least as far back, whether or not the fold read it.
pub proof fn law_distance_monotone(h: HorizonView, a: Sequence, b: Sequence)
    requires
        a.0 <= b.0,
    ensures
        distance_of(h, a) >= distance_of(h, b),
{
    match h.rows {
        None => {},
        Some(rows) => {
            lemma_position_monotone(rows, a, b);
        },
    }
}

} // verus!

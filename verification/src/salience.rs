//! Recency, importance and relevance, folded into one comparable score.
//!
//! A weighted sum of an exponentially decaying recency term, a standing
//! importance term, and a caller-supplied relevance term. Decay is not
//! optional: without it the participant who spoke first keeps the floor
//! forever.

use vstd::prelude::*;

use crate::error::{Error, Result};
use crate::session::Sequence;
use crate::trace::{Trace, TraceKind};

verus! {

/// Fixed-point scale: scores and factors are thousandths.
pub const SCALE: i64 = 1000;

/// Fixed-point weights for the three salience terms, in tenths.
#[derive(Clone, Copy, Debug, PartialEq, Eq, Structural)]
pub struct SalienceWeights {
    /// Weight on exponential recency decay, in tenths.
    pub recency: u16,
    /// Weight on the trace kind's standing importance, in tenths.
    pub importance: u16,
    /// Weight on caller-supplied topical relevance, in tenths.
    pub relevance: u16,
    /// Sequence distance at which the recency term halves.
    pub half_life: u32,
}

/// The shipped weights: `0.5`, `3.0` and `2.0`, halving every twenty rows.
pub open spec fn default_weights() -> SalienceWeights {
    SalienceWeights { recency: 5, importance: 30, relevance: 20, half_life: 20 }
}

impl SalienceWeights {
    /// The weights a desk of `members` should carry: one full round of the
    /// desk is the least half-life, and the default is kept below that.
    pub fn for_room(members: u32) -> (weights: Self)
        ensures
            weights == (SalienceWeights {
                half_life: if members > 20 { members } else { 20 },
                ..default_weights()
            }),
    {
        let half_life = if members > 20 { members } else { 20 };
        SalienceWeights { recency: 5, importance: 30, relevance: 20, half_life }
    }
}

impl Default for SalienceWeights {
    fn default() -> (weights: Self)
        ensures
            weights == default_weights(),
    {
        SalienceWeights { recency: 5, importance: 30, relevance: 20, half_life: 20 }
    }
}

/// A fixed-point salience score in thousandths.
#[derive(Clone, Copy, Debug, PartialEq, Eq, Structural, PartialOrd, Ord)]
pub struct Salience(pub i64);

/// `x` halved `n` times, rounding down each time.
pub open spec fn halved(x: int, n: nat) -> int
    decreases n,
{
    if n == 0 {
        x
    } else {
        halved(x, (n - 1) as nat) / 2
    }
}

/// One thousand halved once per whole half-life of `distance`, interpolated
/// linearly within the last half-life, and zero from 63 half-lives on.
pub open spec fn decay_value(distance: nat, half_life: nat) -> int
    recommends
        half_life > 0,
{
    let whole = distance / half_life;
    if whole >= 63 {
        0
    } else {
        let high = halved(1000, whole);
        let low = high / 2;
        high - (high - low) * ((distance % half_life) as int) / (half_life as int)
    }
}

/// Halving a non-negative value keeps it between zero and where it started.
pub proof fn lemma_halved_bounds(x: int, n: nat)
    requires
        x >= 0,
    ensures
        0 <= halved(x, n) <= x,
    decreases n,
{
    if n > 0 {
        lemma_halved_bounds(x, (n - 1) as nat);
    }
}

/// Halving more times leaves less.
proof fn lemma_halved_antitone(x: int, n: nat, m: nat)
    requires
        x >= 0,
        n <= m,
    ensures
        halved(x, m) <= halved(x, n),
    decreases m,
{
    if m > n {
        lemma_halved_antitone(x, n, (m - 1) as nat);
        lemma_halved_bounds(x, (m - 1) as nat);
    }
}

/// Within one half-life the decay runs from the whole-step value down
/// toward half of it, and the further in, the lower.
proof fn lemma_decay_within(a: nat, b: nat, h: nat)
    requires
        h > 0,
        a <= b,
        a / h == b / h,
        a / h < 63,
    ensures
        decay_value(b, h) <= decay_value(a, h),
        decay_value(a, h) <= halved(1000, a / h),
        halved(1000, a / h) / 2 <= decay_value(b, h),
{
    let w = a / h;
    let high = halved(1000, w);
    let low = high / 2;
    lemma_halved_bounds(1000, w);
    let span = high - low;
    let ra = (a % h) as int;
    let rb = (b % h) as int;
    vstd::arithmetic::div_mod::lemma_fundamental_div_mod(a as int, h as int);
    vstd::arithmetic::div_mod::lemma_fundamental_div_mod(b as int, h as int);
    assert(ra <= rb);
    assert(0 <= rb < h);
    vstd::arithmetic::mul::lemma_mul_inequality(ra, rb, span);
    assert(span * ra <= span * rb) by (nonlinear_arith)
        requires
            ra * span <= rb * span,
    ;
    vstd::arithmetic::div_mod::lemma_div_is_ordered(span * ra, span * rb, h as int);
    assert(span * ra / (h as int) >= 0) by (nonlinear_arith)
        requires
            0 <= span,
            0 <= ra,
            h > 0,
    ;
    assert(span * rb / (h as int) <= span) by (nonlinear_arith)
        requires
            0 <= span,
            0 <= rb < h,
            h > 0,
    ;
}

/// Decay never rises with distance: a trace further back pulls no harder
/// than a nearer one.
pub proof fn law_decay_monotone(near: nat, far: nat, half_life: nat)
    requires
        half_life > 0,
        near <= far,
    ensures
        decay_value(far, half_life) <= decay_value(near, half_life),
        0 <= decay_value(far, half_life),
{
    let h = half_life;
    vstd::arithmetic::div_mod::lemma_div_is_ordered(near as int, far as int, h as int);
    let wn = near / h;
    let wf = far / h;
    if wf < 63 {
        lemma_decay_within(far, far, h);
        lemma_halved_bounds(1000, wf);
    }
    if wn >= 63 {
    } else if wf >= 63 {
        lemma_decay_within(near, near, h);
        lemma_halved_bounds(1000, wn);
    } else if wn == wf {
        lemma_decay_within(near, far, h);
    } else {
        lemma_decay_within(near, near, h);
        lemma_halved_antitone(1000, (wn + 1) as nat, wf);
        assert(halved(1000, (wn + 1) as nat) == halved(1000, wn) / 2);
        assert(decay_value(far, h) <= halved(1000, wf));
    }
}

/// The standing importance of each marker, in thousandths.
pub open spec fn importance_of(kind: TraceKind) -> int {
    match kind {
        TraceKind::Commit => 1000,
        TraceKind::Propose => 900,
        TraceKind::Refute => 850,
        TraceKind::Object => 800,
        TraceKind::Evidence => 600,
        TraceKind::Support => 500,
        TraceKind::Question => 300,
        TraceKind::Defer => 300,
    }
}

/// Return the standing importance of a trace kind, in thousandths.
///
/// A proposal and a commitment move the room most; a question or a deferral
/// moves it least. A refutation outranks an objection because it is directed
/// at a hypothesis rather than at a person.
pub fn importance(kind: TraceKind) -> (value: i64)
    ensures
        value == importance_of(kind),
{
    match kind {
        TraceKind::Commit => 1000,
        TraceKind::Propose => 900,
        TraceKind::Refute => 850,
        TraceKind::Object => 800,
        TraceKind::Evidence => 600,
        TraceKind::Support => 500,
        TraceKind::Question => 300,
        TraceKind::Defer => 300,
    }
}

/// Halve `SCALE` once per `half_life` of sequence distance, in thousandths,
/// interpolating linearly within the final half-life.
pub fn decay(distance: u64, half_life: u32) -> (value: i64)
    requires
        half_life > 0,
    ensures
        value == decay_value(distance as nat, half_life as nat),
        0 <= value <= SCALE,
{
    let half_life = half_life as u64;
    let whole = distance / half_life;
    if whole >= 63 {
        return 0;
    }
    let remainder = distance % half_life;
    let mut high: i64 = SCALE;
    let mut step: u64 = 0;
    while step < whole
        invariant
            step <= whole,
            whole < 63,
            high == halved(1000, step as nat),
        decreases whole - step,
    {
        proof {
            lemma_halved_bounds(1000, step as nat);
        }
        high = high / 2;
        step = step + 1;
    }
    proof {
        lemma_halved_bounds(1000, whole as nat);
    }
    let low = high / 2;
    let span = high - low;
    assert(0 <= span <= 1000);
    assert(remainder < half_life);
    assert(0 <= span * (remainder as int) <= 1000 * 4294967296) by (nonlinear_arith)
        requires
            0 <= span <= 1000,
            remainder < 4294967296,
    ;
    let scaled = span * (remainder as i64);
    assert(0 <= scaled <= span * (half_life as int)) by (nonlinear_arith)
        requires
            scaled == span * (remainder as int),
            0 <= span,
            remainder < half_life,
    ;
    assert(span * (half_life as int) <= 1000 * (half_life as int)) by (nonlinear_arith)
        requires
            0 <= span <= 1000,
            half_life > 0,
    ;
    let down = scaled / (half_life as i64);
    assert(down <= span) by (nonlinear_arith)
        requires
            down == (scaled as int) / (half_life as int),
            scaled <= span * (half_life as int),
            half_life > 0,
            0 <= scaled,
    ;
    high - down
}

/// The saturating distance back from `at` to `from`.
pub open spec fn distance_back(at: Sequence, from: Sequence) -> nat {
    if at.0 >= from.0 {
        (at.0 - from.0) as nat
    } else {
        0
    }
}

/// The reader-independent part of a trace's salience: weighted recency plus
/// weighted importance.
pub open spec fn standing_value(trace: Trace, at: Sequence, weights: SalienceWeights) -> int {
    weights.recency * decay_value(distance_back(at, trace.sequence), weights.half_life as nat)
        + weights.importance * importance_of(trace.kind)
}

/// The largest standing any trace can have.
pub open spec fn standing_ceiling() -> int {
    131070000
}

/// The part of a trace's salience that does not depend on who is reading it.
pub fn standing(trace: &Trace, at: Sequence, weights: &SalienceWeights) -> (result: Result<i64>)
    ensures
        weights.half_life == 0 ==> result == Err::<i64, Error>(Error::ZeroHalfLife),
        weights.half_life > 0 ==> (result matches Ok(value) && value == standing_value(
            *trace,
            at,
            *weights,
        )),
        result matches Ok(value) ==> 0 <= value <= standing_ceiling(),
{
    if weights.half_life == 0 {
        return Err(Error::ZeroHalfLife);
    }
    let distance = at.0.saturating_sub(trace.sequence.0);
    let decayed = decay(distance, weights.half_life);
    let weight = importance(trace.kind);
    assert(0 <= (weights.recency as int) * decayed <= 65535 * 1000) by (nonlinear_arith)
        requires
            0 <= decayed <= 1000,
            weights.recency <= 65535,
    ;
    assert(0 <= (weights.importance as int) * weight <= 65535 * 1000) by (nonlinear_arith)
        requires
            0 <= weight <= 1000,
            weights.importance <= 65535,
    ;
    Ok((weights.recency as i64) * decayed + (weights.importance as i64) * weight)
}

/// A reader's relevance, saturated at 100 and scaled to thousandths.
pub open spec fn relevance_scaled(relevance: u8) -> int {
    (if relevance > 100 { 100int } else { relevance as int }) * 1000 / 100
}

/// A trace's standing plus one reader's weighted relevance, in the score's
/// tenths, rounded toward zero as integer division rounds.
pub open spec fn salience_value(standing: int, weights: SalienceWeights, relevance: u8) -> int {
    let sum = standing + weights.relevance * relevance_scaled(relevance);
    if sum >= 0 {
        sum / 10
    } else {
        -((-sum) / 10)
    }
}

/// A reader's weighted relevance lies between zero and the largest weight
/// times the full scale.
pub proof fn lemma_relevance_term(weights: SalienceWeights, relevance: u8)
    ensures
        0 <= weights.relevance * relevance_scaled(relevance) <= 65535 * 1000,
{
    let scaled = relevance_scaled(relevance);
    assert(0 <= scaled <= 1000);
    assert(0 <= weights.relevance * scaled <= 65535 * 1000) by (nonlinear_arith)
        requires
            0 <= scaled <= 1000,
            0 <= weights.relevance <= 65535,
    ;
}

/// Add one reader's topical relevance to a trace's standing salience.
pub fn with_relevance(standing: i64, weights: &SalienceWeights, relevance: u8) -> (score: Salience)
    requires
        standing + weights.relevance * relevance_scaled(relevance) <= i64::MAX,
    ensures
        score.0 == salience_value(standing as int, *weights, relevance),
        0 <= standing <= standing_ceiling() ==> 0 <= score.0 <= standing_ceiling(),
{
    let capped: u8 = if relevance > 100 { 100 } else { relevance };
    let scaled = (capped as i64) * SCALE / 100;
    assert(0 <= (weights.relevance as int) * scaled <= 65535 * 1000) by (nonlinear_arith)
        requires
            0 <= scaled <= 1000,
            weights.relevance <= 65535,
    ;
    Salience((standing + (weights.relevance as i64) * scaled) / 10)
}

/// Score one trace's pull on the room's attention.
///
/// `relevance` is a topical match in `0..=100`; values above 100 saturate.
pub fn salience(trace: &Trace, at: Sequence, weights: &SalienceWeights, relevance: u8) -> (result:
    Result<Salience>)
    ensures
        weights.half_life == 0 ==> result == Err::<Salience, Error>(Error::ZeroHalfLife),
        weights.half_life > 0 ==> (result matches Ok(score) && score.0 == salience_value(
            standing_value(*trace, at, *weights),
            *weights,
            relevance,
        )),
{
    let base = standing(trace, at, weights)?;
    proof {
        lemma_relevance_term(*weights, relevance);
    }
    Ok(with_relevance(base, weights, relevance))
}

} // verus!

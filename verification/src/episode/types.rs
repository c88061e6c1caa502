//! Episode policy, state, and step outcomes.

use vstd::prelude::*;

use crate::attention::{AgentThreshold, BidReason, ThresholdView, threshold_views};
use crate::directory::DirectoryPolicy;
use crate::quorum::{QuorumPolicy, StandingView, TopicStanding, default_quorum, topic_names};
use crate::salience::{SalienceWeights, default_weights};
use crate::session::{Conversation, Sequence};
use crate::trace::TopicId;

verus! {

/// The width revealed rounds run at by default: a revealed member's turn
/// depends on exactly the row a concurrent peer is writing, so the default
/// takes them one at a time.
pub const DEFAULT_REVEALED_WIDTH: u32 = 1;

/// Which class of turn the episode is taking.
///
/// The move from `Deliberate` to `Commit` is one-way: a room that has settled
/// does not reopen because a late trace arrived.
#[derive(Clone, Copy, Debug, PartialEq, Eq, Structural)]
pub enum Phase {
    /// Proposals are still on the floor.
    Deliberate,
    /// Quorum was reached; the room is recording its decision.
    Commit,
}

impl Default for Phase {
    fn default() -> (phase: Self)
        ensures
            phase == Phase::Deliberate,
    {
        Phase::Deliberate
    }
}

/// How much of the shared transcript one turn may see.
#[derive(Clone, Copy, Debug, PartialEq, Eq, Structural)]
pub enum Visibility {
    /// Peer agent messages from this episode are hidden: the round that
    /// restores independence, for the cost of a projection flag.
    Blind,
    /// The full projected transcript.
    Full,
}

/// Everything the episode is bounded and tuned by.
#[derive(Clone, Copy, Debug, PartialEq, Eq, Structural)]
pub struct EpisodePolicy {
    /// Hard cap on turns. Finite, so an episode always terminates.
    pub turn_budget: u32,
    /// Turns one blind round may authorize to run concurrently.
    pub round_width: u32,
    /// Turns one revealed round may authorize to run concurrently.
    pub revealed_width: u32,
    /// Whether the opening round is blind.
    pub blind_round: bool,
    /// Percent of grounded share above which a member is damped.
    pub dominance_cap: u32,
    /// Distinct supporters after which restating a topic scores nothing.
    pub repetition_cap: u32,
    /// How to read the transcript for who knows what, if at all.
    pub directory: Option<DirectoryPolicy>,
    /// Live deferrals after which a deferred topic stops being promoted.
    pub defer_cap: Option<u32>,
    /// When a topic is entitled to carry.
    pub quorum: QuorumPolicy,
    /// Salience weights.
    pub weights: SalienceWeights,
}

/// The shipped episode policy.
///
/// The budget is deliberately small: conformity in a group of language models
/// rises with interaction time, so a long episode buys correlated error rather
/// than better judgement. Expert delegation is off.
pub open spec fn default_episode() -> EpisodePolicy {
    EpisodePolicy {
        turn_budget: 12,
        round_width: 4,
        revealed_width: 1,
        blind_round: true,
        dominance_cap: 50,
        repetition_cap: 3,
        directory: None,
        defer_cap: None,
        quorum: default_quorum(),
        weights: default_weights(),
    }
}

impl EpisodePolicy {
    /// The shipped episode policy.
    pub fn conservative() -> (policy: Self)
        ensures
            policy == default_episode(),
    {
        EpisodePolicy {
            turn_budget: 12,
            round_width: crate::division::DEFAULT_ROUND_WIDTH,
            revealed_width: DEFAULT_REVEALED_WIDTH,
            blind_round: true,
            dominance_cap: 50,
            repetition_cap: 3,
            directory: None,
            defer_cap: None,
            quorum: QuorumPolicy::default(),
            weights: SalienceWeights::default(),
        }
    }
}

impl Default for EpisodePolicy {
    fn default() -> (policy: Self)
        ensures
            policy == default_episode(),
    {
        EpisodePolicy::conservative()
    }
}

/// The caller-owned, committable state of one episode.
#[derive(Clone, Debug, PartialEq, Eq)]
pub struct EpisodeState {
    /// Desk and optional thread the episode runs on.
    pub conversation: Conversation,
    /// Turns already taken.
    pub spent: u32,
    /// Current phase.
    pub phase: Phase,
    /// Per-member thresholds, carried across turns.
    pub thresholds: Vec<AgentThreshold>,
    /// Exclusive lower bound: the sequence the episode opened at.
    pub watermark: Sequence,
    /// The sequence standings were folded to when the phase first flipped to
    /// `Commit`, fixed from then on. A `!commit` trace counts toward
    /// convergence only strictly after it.
    pub commit_boundary: Option<Sequence>,
}

/// An episode state as plain values.
pub struct StateView {
    pub conversation: Conversation,
    pub spent: u32,
    pub phase: Phase,
    pub thresholds: Seq<ThresholdView>,
    pub watermark: Sequence,
    pub commit_boundary: Option<Sequence>,
}

impl View for EpisodeState {
    type V = StateView;

    open spec fn view(&self) -> StateView {
        StateView {
            conversation: self.conversation,
            spent: self.spent,
            phase: self.phase,
            thresholds: threshold_views(self.thresholds@),
            watermark: self.watermark,
            commit_boundary: self.commit_boundary,
        }
    }
}

impl EpisodeState {
    /// Open an episode on a conversation at a watermark.
    pub fn opened(conversation: Conversation, watermark: Sequence) -> (state: Self)
        ensures
            state.conversation == conversation,
            state.spent == 0,
            state.phase == Phase::Deliberate,
            state.thresholds@.len() == 0,
            state.watermark == watermark,
            state.commit_boundary is None,
    {
        EpisodeState {
            conversation,
            spent: 0,
            phase: Phase::Deliberate,
            thresholds: Vec::new(),
            watermark,
            commit_boundary: None,
        }
    }
}

/// One turn a round authorizes: what one member may do.
#[derive(Clone, Debug, PartialEq, Eq)]
pub struct HiveTurn {
    /// The member taking the floor.
    pub agent_id: String,
    /// Which class of turn it is.
    pub phase: Phase,
    /// How much of the transcript this turn may see.
    pub visibility: Visibility,
    /// Why this member won the floor.
    pub reason: BidReason,
    /// Exclusive lower bound: the sequence the episode opened at.
    pub watermark: Sequence,
    /// The sequence this round was folded at. A peer's row above it was
    /// written concurrently with this turn, so this turn cannot have read it.
    pub round_start: Sequence,
}

/// A turn as plain values.
pub struct TurnView {
    pub agent: Seq<char>,
    pub phase: Phase,
    pub visibility: Visibility,
    pub reason: BidReason,
    pub watermark: Sequence,
    pub round_start: Sequence,
}

impl View for HiveTurn {
    type V = TurnView;

    open spec fn view(&self) -> TurnView {
        TurnView {
            agent: self.agent_id@,
            phase: self.phase,
            visibility: self.visibility,
            reason: self.reason,
            watermark: self.watermark,
            round_start: self.round_start,
        }
    }
}

/// The outcome of one episode step.
#[derive(Clone, Debug, PartialEq, Eq)]
pub enum HiveStep {
    /// A round of members takes the floor together: non-empty, in desk order,
    /// with the one state to commit once every turn is appended.
    Speak { turns: Vec<HiveTurn>, next_state: Box<EpisodeState> },
    /// One topic carried and the room has recorded it.
    Converged { topic: TopicId, standing: Box<TopicStanding> },
    /// Two or more topics carried and nobody can break the tie.
    Deadlocked { topics: Vec<TopicId> },
    /// The turn budget is spent.
    Exhausted { spent: u32 },
    /// Nobody's urge cleared their threshold.
    Idle,
}

/// A step as plain values.
pub enum StepView {
    Speak { turns: Seq<TurnView>, next: StateView },
    Converged { topic: Seq<char>, standing: StandingView },
    Deadlocked { topics: Seq<Seq<char>> },
    Exhausted { spent: u32 },
    Idle,
}

/// The plain values of a list of turns.
pub open spec fn turn_views(s: Seq<HiveTurn>) -> Seq<TurnView> {
    s.map_values(|t: HiveTurn| t@)
}

impl View for HiveStep {
    type V = StepView;

    open spec fn view(&self) -> StepView {
        match self {
            HiveStep::Speak { turns, next_state } => StepView::Speak {
                turns: turn_views(turns@),
                next: (**next_state)@,
            },
            HiveStep::Converged { topic, standing } => StepView::Converged {
                topic: topic@,
                standing: (**standing)@,
            },
            HiveStep::Deadlocked { topics } => StepView::Deadlocked { topics: topic_names(topics@) },
            HiveStep::Exhausted { spent } => StepView::Exhausted { spent: *spent },
            HiveStep::Idle => StepView::Idle,
        }
    }
}

} // verus!

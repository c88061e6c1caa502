//! The single-turn invariant and termination: every step either authorizes
//! exactly one turn or returns a terminal outcome, `spent` strictly advances
//! and the budget check runs before it can overflow, so the loop cannot run
//! past its budget.

#![allow(dead_code)]

use tinyhivemind_hive::attention::{AgentThreshold, BidReason};
use tinyhivemind_hive::directory::DirectoryPolicy;
use tinyhivemind_hive::episode::{
    project_for, step, EpisodePolicy, EpisodeState, HiveStep, HiveTurn, Phase, Visibility,
};
use tinyhivemind_hive::quorum::{standings, QuorumPolicy};
use tinyhivemind_hive::session::{Audience, Conversation, Sequence, SessionAuthor, SessionMessage};
use tinyhivemind_hive::trace::{read, TopicId};

const MEMBERS: [&str; 3] = ["planner", "critic", "scout"];

fn conversation() -> Conversation {
    Conversation {
        desk_id: "engineering".into(),
        desk_name: "Engineering".into(),
        thread_root: None,
    }
}

/// A desk-visible message authored by an agent.
fn said(sequence: u64, author: &str, content: &str) -> SessionMessage {
    SessionMessage {
        sequence: Sequence(sequence),
        author: SessionAuthor::Agent {
            id: author.into(),
            label: author.into(),
        },
        content: content.into(),
        audience: Audience::Desk,
    }
}

/// A desk-visible message authored by the operator.
fn operator(sequence: u64, content: &str) -> SessionMessage {
    SessionMessage {
        sequence: Sequence(sequence),
        author: SessionAuthor::Operator,
        content: content.into(),
        audience: Audience::Desk,
    }
}

/// One row addressed privately to `members`.
fn aside(sequence: u64, author: &str, members: &[&str], content: &str) -> SessionMessage {
    SessionMessage {
        audience: Audience::Aside {
            members: members.iter().map(|member| (*member).to_owned()).collect(),
        },
        ..said(sequence, author, content)
    }
}

/// A desk of three members: who is known, the desk's order, and who retired.
struct Room {
    members: Vec<String>,
    desk: Vec<String>,
    retired: Vec<String>,
}

impl Room {
    fn new() -> Self {
        Self {
            members: MEMBERS.iter().map(|id| (*id).to_owned()).collect(),
            desk: MEMBERS.iter().map(|id| (*id).to_owned()).collect(),
            retired: Vec::new(),
        }
    }

    /// The desk's active members, in desk order.
    fn active(&self) -> Vec<&str> {
        self.desk
            .iter()
            .filter(|id| self.members.contains(id) && !self.retired.contains(id))
            .map(|id| id.as_str())
            .collect()
    }
}

/// A freshly opened episode state, at the watermark of an empty transcript.
fn state() -> EpisodeState {
    EpisodeState::opened(conversation(), Sequence(0))
}

/// Run `step` for a room, unwrapping the result: every fixture here is valid.
fn run(room: &Room, state: &EpisodeState, transcript: &[SessionMessage], policy: &EpisodePolicy) -> HiveStep {
    step(state, transcript, &room.active(), policy).expect("steps")
}

/// The sequential episode: a round of one.
fn sequential() -> EpisodePolicy {
    EpisodePolicy {
        round_width: 1,
        revealed_width: 1,
        ..EpisodePolicy::default()
    }
}

/// Unwrap a `HiveStep::Speak` of exactly one turn, panicking otherwise.
fn speaking(step: HiveStep) -> HiveTurn {
    spoke(step).0
}

/// The same, with the state the round commits.
fn spoke(step: HiveStep) -> (HiveTurn, EpisodeState) {
    let (mut turns, next_state) = round(step);
    assert_eq!(turns.len(), 1, "expected a round of one, got {turns:?}");
    (turns.remove(0), next_state)
}

/// Unwrap a `HiveStep::Speak` into its round and the state it commits.
fn round(step: HiveStep) -> (Vec<HiveTurn>, EpisodeState) {
    let HiveStep::Speak { turns, next_state } = step else {
        panic!("expected a round, got {step:?}")
    };
    (turns, *next_state)
}

/// A room with two grounded supporters behind one proposal.
fn converging() -> Vec<SessionMessage> {
    vec![
        operator(1, "Decide how to roll this out."),
        said(2, "planner", "!propose #stage Stage the rollout."),
        said(3, "critic", "!support #stage ^2 Bounds the blast radius."),
    ]
}

/// A room with two proposals each holding two grounded supporters.
fn deadlocked() -> Vec<SessionMessage> {
    vec![
        said(1, "planner", "!propose #stage"),
        said(2, "scout", "!propose #ship"),
        said(3, "critic", "!support #stage ^1"),
        said(4, "planner", "!support #ship ^2"),
    ]
}

#[test]
fn a_speaking_step_authorizes_exactly_one_turn() {
    let room = Room::new();
    let (turn, next_state) = spoke(run(&room, &state(), &converging(), &EpisodePolicy::default()));
    assert!(MEMBERS.contains(&turn.agent_id.as_str()));
    assert_eq!(next_state.spent, 1);
}

#[test]
fn a_spent_budget_is_exhausted_and_authorizes_no_turn() {
    let room = Room::new();
    let policy = EpisodePolicy {
        turn_budget: 4,
        ..EpisodePolicy::default()
    };
    let spent = EpisodeState {
        spent: 4,
        ..state()
    };
    assert!(matches!(
        run(&room, &spent, &converging(), &policy),
        HiveStep::Exhausted { spent: 4, .. },
    ));
}

#[test]
fn a_zero_budget_never_authorizes_a_first_turn() {
    let room = Room::new();
    let policy = EpisodePolicy {
        turn_budget: 0,
        ..EpisodePolicy::default()
    };
    assert!(matches!(
        run(&room, &state(), &converging(), &policy),
        HiveStep::Exhausted { spent: 0, .. },
    ));
}

#[test]
fn an_episode_terminates_within_its_budget() {
    let room = Room::new();
    let policy = EpisodePolicy {
        turn_budget: 5,
        ..sequential()
    };
    let mut state = state();
    // One proposal only: below quorum, so the room keeps deliberating and the
    // budget is what stops it rather than a decision.
    let transcript = [
        operator(1, "Decide how to roll this out."),
        said(2, "planner", "!propose #stage Stage the rollout."),
    ];
    // Every step either terminates or strictly advances the spend, so the loop
    // cannot run past the budget.
    for expected in 1..=policy.turn_budget {
        let (turn, next_state) = spoke(run(&room, &state, &transcript, &policy));
        assert_eq!(next_state.spent, expected);
        state = next_state;
    }
    assert!(matches!(
        run(&room, &state, &transcript, &policy),
        HiveStep::Exhausted { spent: 5, .. },
    ));
}

#[test]
fn nobody_speaks_when_every_threshold_is_unreachable() {
    let room = Room::new();
    let state = EpisodeState {
        thresholds: MEMBERS
            .iter()
            .map(|id| AgentThreshold::new(*id, i64::MAX))
            .collect(),
        ..state()
    };
    assert_eq!(
        run(&room, &state, &converging(), &EpisodePolicy::default()),
        HiveStep::Idle,
    );
}

#[test]
fn the_budget_check_bounds_the_spend_before_it_can_overflow() {
    let room = Room::new();
    let policy = EpisodePolicy {
        turn_budget: u32::MAX,
        ..EpisodePolicy::default()
    };
    // One below the ceiling still advances, landing exactly on it...
    let brimming = EpisodeState {
        spent: u32::MAX - 1,
        ..state()
    };
    let (turn, next_state) = spoke(run(&room, &brimming, &converging(), &policy));
    assert_eq!(next_state.spent, u32::MAX);

    // ...and at the ceiling the budget check fires first, so the addition is
    // never reached. That is why there is no overflow error to return.
    assert!(matches!(
        run(&room, &next_state, &converging(), &policy),
        HiveStep::Exhausted { spent: u32::MAX, .. },
    ));
}

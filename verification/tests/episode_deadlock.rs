//! Deadlock, and cross-inhibition through the whole machine: two carried
//! topics are terminal only once nobody remains who has backed neither, and a
//! grounded objection can silence an advocate and carry the room straight
//! through.

#![allow(dead_code)]

use tinyhivemind_hive::attention::{AgentThreshold, BidReason};
use tinyhivemind_hive::directory::DirectoryPolicy;
use tinyhivemind_hive::episode::{
    project_for, step, EpisodePolicy, EpisodeState, HiveStep, HiveTurn, Phase, Visibility,
};
use tinyhivemind_hive::quorum::{standings, QuorumPolicy};
use tinyhivemind_hive::session::{Audience, Conversation, Sequence, SessionAuthor, SessionMessage};
use tinyhivemind_hive::trace::{read, TopicId};

const MEMBERS: [&str; 3] = ["planner", "critic", "scout"];

fn conversation() -> Conversation {
    Conversation {
        desk_id: "engineering".into(),
        desk_name: "Engineering".into(),
        thread_root: None,
    }
}

/// A desk-visible message authored by an agent.
fn said(sequence: u64, author: &str, content: &str) -> SessionMessage {
    SessionMessage {
        sequence: Sequence(sequence),
        author: SessionAuthor::Agent {
            id: author.into(),
            label: author.into(),
        },
        content: content.into(),
        audience: Audience::Desk,
    }
}

/// A desk-visible message authored by the operator.
fn operator(sequence: u64, content: &str) -> SessionMessage {
    SessionMessage {
        sequence: Sequence(sequence),
        author: SessionAuthor::Operator,
        content: content.into(),
        audience: Audience::Desk,
    }
}

/// One row addressed privately to `members`.
fn aside(sequence: u64, author: &str, members: &[&str], content: &str) -> SessionMessage {
    SessionMessage {
        audience: Audience::Aside {
            members: members.iter().map(|member| (*member).to_owned()).collect(),
        },
        ..said(sequence, author, content)
    }
}

/// A desk of three members: who is known, the desk's order, and who retired.
struct Room {
    members: Vec<String>,
    desk: Vec<String>,
    retired: Vec<String>,
}

impl Room {
    fn new() -> Self {
        Self {
            members: MEMBERS.iter().map(|id| (*id).to_owned()).collect(),
            desk: MEMBERS.iter().map(|id| (*id).to_owned()).collect(),
            retired: Vec::new(),
        }
    }

    /// The desk's active members, in desk order.
    fn active(&self) -> Vec<&str> {
        self.desk
            .iter()
            .filter(|id| self.members.contains(id) && !self.retired.contains(id))
            .map(|id| id.as_str())
            .collect()
    }
}

/// A freshly opened episode state, at the watermark of an empty transcript.
fn state() -> EpisodeState {
    EpisodeState::opened(conversation(), Sequence(0))
}

/// Run `step` for a room, unwrapping the result: every fixture here is valid.
fn run(room: &Room, state: &EpisodeState, transcript: &[SessionMessage], policy: &EpisodePolicy) -> HiveStep {
    step(state, transcript, &room.active(), policy).expect("steps")
}

/// The sequential episode: a round of one.
fn sequential() -> EpisodePolicy {
    EpisodePolicy {
        round_width: 1,
        revealed_width: 1,
        ..EpisodePolicy::default()
    }
}

/// Unwrap a `HiveStep::Speak` of exactly one turn, panicking otherwise.
fn speaking(step: HiveStep) -> HiveTurn {
    spoke(step).0
}

/// The same, with the state the round commits.
fn spoke(step: HiveStep) -> (HiveTurn, EpisodeState) {
    let (mut turns, next_state) = round(step);
    assert_eq!(turns.len(), 1, "expected a round of one, got {turns:?}");
    (turns.remove(0), next_state)
}

/// Unwrap a `HiveStep::Speak` into its round and the state it commits.
fn round(step: HiveStep) -> (Vec<HiveTurn>, EpisodeState) {
    let HiveStep::Speak { turns, next_state } = step else {
        panic!("expected a round, got {step:?}")
    };
    (turns, *next_state)
}

/// A room with two grounded supporters behind one proposal.
fn converging() -> Vec<SessionMessage> {
    vec![
        operator(1, "Decide how to roll this out."),
        said(2, "planner", "!propose #stage Stage the rollout."),
        said(3, "critic", "!support #stage ^2 Bounds the blast radius."),
    ]
}

/// A room with two proposals each holding two grounded supporters.
fn deadlocked() -> Vec<SessionMessage> {
    vec![
        said(1, "planner", "!propose #stage"),
        said(2, "scout", "!propose #ship"),
        said(3, "critic", "!support #stage ^1"),
        said(4, "planner", "!support #ship ^2"),
    ]
}

#[test]
fn a_deadlock_a_dissenter_can_still_break_authorizes_one_more_turn() {
    let mut room = Room::new();
    // A fourth member who has backed neither side is free to break the tie.
    room.members.push("archivist".into());
    room.desk.push("archivist".into());

    let step = run(&room, &state(), &deadlocked(), &sequential());
    assert!(
        matches!(step, HiveStep::Speak { .. }),
        "while a member who has backed neither side exists, the room is not \
         deadlocked; it gets another turn — got {step:?}",
    );

    // The same room without that member is terminal, so the dissenter is what
    // makes the difference rather than anything else in the transcript.
    let committed = Room::new();
    assert_eq!(
        run(&committed, &state(), &deadlocked(), &sequential()),
        HiveStep::Deadlocked {
            topics: vec![TopicId("stage".into()), TopicId("ship".into())],
        },
    );
}

#[test]
fn addressed_precedence_does_not_mask_an_available_dissenter() {
    // archivist backs neither tied topic, so the room must stay open — but
    // archivist's own message is also targeted by a later trace, which would
    // classify archivist's bid as `Addressed` rather than `Dissent`. The
    // terminal check must see the dissent structurally, from the standings,
    // rather than through that bid-reason precedence.
    let mut room = Room::new();
    room.members.push("archivist".into());
    room.desk.push("archivist".into());

    let mut transcript = deadlocked();
    transcript.push(said(5, "archivist", "!question What about latency?"));
    transcript.push(said(6, "critic", "!object >5 Out of scope."));

    let step = run(&room, &state(), &transcript, &sequential());
    assert!(
        matches!(step, HiveStep::Speak { .. }),
        "archivist is free to break the tie even though addressed, got {step:?}",
    );
}

#[test]
fn a_deadlock_nobody_can_break_is_terminal() {
    // In `deadlocked()` every member has taken a side: planner backs both,
    // critic backs `stage`, scout backs `ship`. Nobody is left to break it.
    let room = Room::new();
    assert_eq!(
        run(&room, &state(), &deadlocked(), &sequential()),
        HiveStep::Deadlocked {
            topics: vec![TopicId("stage".into()), TopicId("ship".into())],
        },
    );
}

#[test]
fn a_grounded_objection_carries_the_room_through_a_deadlock() {
    let mut room = Room::new();
    room.desk = vec!["planner".into(), "scout".into(), "critic".into()];
    let mut transcript = deadlocked();
    transcript.push(said(5, "critic", "!object >4 ^3 That precedent differs."));

    let (turn, next) = spoke(run(&room, &state(), &transcript, &sequential()));
    assert_eq!(turn.phase, Phase::Commit);

    transcript.push(said(6, &turn.agent_id, "!commit #stage Locking this in."));
    let HiveStep::Converged { topic, .. } = run(&room, &next, &transcript, &sequential()) else {
        panic!("expected convergence")
    };
    assert_eq!(topic, TopicId("stage".into()));
}

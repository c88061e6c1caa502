//! Quorum, the one-way phase change from `Deliberate` to `Commit`, and
//! convergence: a room converges only once a `!commit` trace names the
//! carried topic strictly after the boundary the phase flip fixed, never on
//! phase alone — and only messages above the watermark, from current members,
//! can carry a topic there at all.

#![allow(dead_code)]

use tinyhivemind_hive::attention::{AgentThreshold, BidReason};
use tinyhivemind_hive::directory::DirectoryPolicy;
use tinyhivemind_hive::episode::{
    project_for, step, EpisodePolicy, EpisodeState, HiveStep, HiveTurn, Phase, Visibility,
};
use tinyhivemind_hive::quorum::{standings, QuorumPolicy};
use tinyhivemind_hive::session::{Audience, Conversation, Sequence, SessionAuthor, SessionMessage};
use tinyhivemind_hive::trace::{read, TopicId};

const MEMBERS: [&str; 3] = ["planner", "critic", "scout"];

fn conversation() -> Conversation {
    Conversation {
        desk_id: "engineering".into(),
        desk_name: "Engineering".into(),
        thread_root: None,
    }
}

/// A desk-visible message authored by an agent.
fn said(sequence: u64, author: &str, content: &str) -> SessionMessage {
    SessionMessage {
        sequence: Sequence(sequence),
        author: SessionAuthor::Agent {
            id: author.into(),
            label: author.into(),
        },
        content: content.into(),
        audience: Audience::Desk,
    }
}

/// A desk-visible message authored by the operator.
fn operator(sequence: u64, content: &str) -> SessionMessage {
    SessionMessage {
        sequence: Sequence(sequence),
        author: SessionAuthor::Operator,
        content: content.into(),
        audience: Audience::Desk,
    }
}

/// One row addressed privately to `members`.
fn aside(sequence: u64, author: &str, members: &[&str], content: &str) -> SessionMessage {
    SessionMessage {
        audience: Audience::Aside {
            members: members.iter().map(|member| (*member).to_owned()).collect(),
        },
        ..said(sequence, author, content)
    }
}

/// A desk of three members: who is known, the desk's order, and who retired.
struct Room {
    members: Vec<String>,
    desk: Vec<String>,
    retired: Vec<String>,
}

impl Room {
    fn new() -> Self {
        Self {
            members: MEMBERS.iter().map(|id| (*id).to_owned()).collect(),
            desk: MEMBERS.iter().map(|id| (*id).to_owned()).collect(),
            retired: Vec::new(),
        }
    }

    /// The desk's active members, in desk order.
    fn active(&self) -> Vec<&str> {
        self.desk
            .iter()
            .filter(|id| self.members.contains(id) && !self.retired.contains(id))
            .map(|id| id.as_str())
            .collect()
    }
}

/// A freshly opened episode state, at the watermark of an empty transcript.
fn state() -> EpisodeState {
    EpisodeState::opened(conversation(), Sequence(0))
}

/// Run `step` for a room, unwrapping the result: every fixture here is valid.
fn run(room: &Room, state: &EpisodeState, transcript: &[SessionMessage], policy: &EpisodePolicy) -> HiveStep {
    step(state, transcript, &room.active(), policy).expect("steps")
}

/// The sequential episode: a round of one.
fn sequential() -> EpisodePolicy {
    EpisodePolicy {
        round_width: 1,
        revealed_width: 1,
        ..EpisodePolicy::default()
    }
}

/// Unwrap a `HiveStep::Speak` of exactly one turn, panicking otherwise.
fn speaking(step: HiveStep) -> HiveTurn {
    spoke(step).0
}

/// The same, with the state the round commits.
fn spoke(step: HiveStep) -> (HiveTurn, EpisodeState) {
    let (mut turns, next_state) = round(step);
    assert_eq!(turns.len(), 1, "expected a round of one, got {turns:?}");
    (turns.remove(0), next_state)
}

/// Unwrap a `HiveStep::Speak` into its round and the state it commits.
fn round(step: HiveStep) -> (Vec<HiveTurn>, EpisodeState) {
    let HiveStep::Speak { turns, next_state } = step else {
        panic!("expected a round, got {step:?}")
    };
    (turns, *next_state)
}

/// A room with two grounded supporters behind one proposal.
fn converging() -> Vec<SessionMessage> {
    vec![
        operator(1, "Decide how to roll this out."),
        said(2, "planner", "!propose #stage Stage the rollout."),
        said(3, "critic", "!support #stage ^2 Bounds the blast radius."),
    ]
}

/// A room with two proposals each holding two grounded supporters.
fn deadlocked() -> Vec<SessionMessage> {
    vec![
        said(1, "planner", "!propose #stage"),
        said(2, "scout", "!propose #ship"),
        said(3, "critic", "!support #stage ^1"),
        said(4, "planner", "!support #ship ^2"),
    ]
}

#[test]
fn quorum_flips_the_phase_once_and_then_converges() {
    let room = Room::new();
    let policy = sequential();

    // Deliberating with quorum reached: one commit turn is authorized.
    let (turn, next) = spoke(run(&room, &state(), &converging(), &policy));
    assert_eq!(turn.phase, Phase::Commit);
    assert_eq!(next.phase, Phase::Commit);

    // The commit-phase turn speaks, but records nothing: phase alone must
    // not be read as proof that the room recorded its decision.
    let mut transcript = converging();
    assert!(
        matches!(
            run(&room, &next, &transcript, &policy),
            HiveStep::Speak { .. },
        ),
        "a commit-phase turn that recorded no `!commit` must not converge",
    );

    // Once the authorized speaker actually commits the carried topic, the
    // episode reports its decision.
    transcript.push(said(4, &turn.agent_id, "!commit #stage Locking this in."));
    let HiveStep::Converged { topic, standing } = run(&room, &next, &transcript, &policy) else {
        panic!("expected convergence")
    };
    assert_eq!(topic, TopicId("stage".into()));
    assert_eq!(standing.supporters, ["planner", "critic"]);
}

#[test]
fn traces_from_non_members_do_not_manufacture_quorum() {
    // Neither author here is a member of this desk (or of the roster at
    // all), so their `!propose`/`!support` traces must not be folded into
    // standings. If they were, two non-members could manufacture quorum
    // nobody eligible actually holds.
    let room = Room::new();
    let transcript = vec![
        said(1, "ghost", "!propose #stage Rogue proposal."),
        said(2, "intruder", "!support #stage ^1 Rogue support."),
    ];
    let turn = speaking(run(&room, &state(), &transcript, &sequential()));
    assert_eq!(
        turn.phase,
        Phase::Deliberate,
        "non-member traces must not carry a topic to quorum",
    );
}

#[test]
fn a_commit_trace_before_the_commit_boundary_does_not_converge() {
    let room = Room::new();
    let policy = sequential();

    // A `!commit` for `#stage` already sits in the transcript before quorum
    // ever forms -- planted speculatively, or left over from an earlier
    // exchange. It must not be read as evidence that *this* commit-phase
    // turn recorded anything.
    let mut transcript = vec![
        said(1, "planner", "!commit #stage Locking this in early."),
        operator(2, "Decide how to roll this out."),
        said(3, "planner", "!propose #stage Stage the rollout."),
        said(4, "critic", "!support #stage ^3 Bounds the blast radius."),
    ];

    let (turn, next) = spoke(run(&room, &state(), &transcript, &policy));
    assert_eq!(turn.phase, Phase::Commit);

    // The authorized commit-phase turn itself does not commit.
    transcript.push(said(5, &turn.agent_id, "!question Anything else?"));
    assert!(
        matches!(
            run(&room, &next, &transcript, &policy),
            HiveStep::Speak { .. },
        ),
        "a `!commit` trace that predates the commit boundary must not converge the room",
    );
}

#[test]
fn the_commit_phase_is_one_way_when_support_later_decays_out() {
    let room = Room::new();
    let policy = EpisodePolicy {
        quorum: QuorumPolicy {
            window: 2,
            ..QuorumPolicy::default()
        },
        ..sequential()
    };
    let committing = EpisodeState {
        phase: Phase::Commit,
        ..state()
    };
    // The supporting traces have aged out of the window entirely.
    let mut transcript = converging();
    transcript.push(said(40, "scout", "!question"));

    let step = run(&room, &committing, &transcript, &policy);
    let turn = speaking(step);
    assert_eq!(
        turn.phase,
        Phase::Commit,
        "a room that has settled does not reopen because support decayed",
    );
}

#[test]
fn traces_at_or_below_the_watermark_are_context_not_votes() {
    let room = Room::new();
    let opened_late = EpisodeState::opened(conversation(), Sequence(3));
    // The whole converging exchange sits at or below the watermark.
    let step = run(&room, &opened_late, &converging(), &sequential());
    let turn = speaking(step);
    assert_eq!(
        turn.phase,
        Phase::Deliberate,
        "an episode must not inherit the quorum of the conversation before it",
    );
}

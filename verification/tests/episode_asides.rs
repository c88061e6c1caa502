//! Private asides: an aside carries information, never support, so a trace
//! deposited inside one adds no supporter and moves no standing — the rule is
//! uniform across every reader — and a turn-holder outside an aside sees a
//! stub where a member of it sees the content.

#![allow(dead_code)]

use tinyhivemind_hive::attention::{AgentThreshold, BidReason};
use tinyhivemind_hive::directory::DirectoryPolicy;
use tinyhivemind_hive::episode::{
    project_for, step, EpisodePolicy, EpisodeState, HiveStep, HiveTurn, Phase, Visibility,
};
use tinyhivemind_hive::quorum::{standings, QuorumPolicy};
use tinyhivemind_hive::session::{Audience, Conversation, Sequence, SessionAuthor, SessionMessage};
use tinyhivemind_hive::trace::{read, TopicId};

const MEMBERS: [&str; 3] = ["planner", "critic", "scout"];

fn conversation() -> Conversation {
    Conversation {
        desk_id: "engineering".into(),
        desk_name: "Engineering".into(),
        thread_root: None,
    }
}

/// A desk-visible message authored by an agent.
fn said(sequence: u64, author: &str, content: &str) -> SessionMessage {
    SessionMessage {
        sequence: Sequence(sequence),
        author: SessionAuthor::Agent {
            id: author.into(),
            label: author.into(),
        },
        content: content.into(),
        audience: Audience::Desk,
    }
}

/// A desk-visible message authored by the operator.
fn operator(sequence: u64, content: &str) -> SessionMessage {
    SessionMessage {
        sequence: Sequence(sequence),
        author: SessionAuthor::Operator,
        content: content.into(),
        audience: Audience::Desk,
    }
}

/// One row addressed privately to `members`.
fn aside(sequence: u64, author: &str, members: &[&str], content: &str) -> SessionMessage {
    SessionMessage {
        audience: Audience::Aside {
            members: members.iter().map(|member| (*member).to_owned()).collect(),
        },
        ..said(sequence, author, content)
    }
}

/// A desk of three members: who is known, the desk's order, and who retired.
struct Room {
    members: Vec<String>,
    desk: Vec<String>,
    retired: Vec<String>,
}

impl Room {
    fn new() -> Self {
        Self {
            members: MEMBERS.iter().map(|id| (*id).to_owned()).collect(),
            desk: MEMBERS.iter().map(|id| (*id).to_owned()).collect(),
            retired: Vec::new(),
        }
    }

    /// The desk's active members, in desk order.
    fn active(&self) -> Vec<&str> {
        self.desk
            .iter()
            .filter(|id| self.members.contains(id) && !self.retired.contains(id))
            .map(|id| id.as_str())
            .collect()
    }
}

/// A freshly opened episode state, at the watermark of an empty transcript.
fn state() -> EpisodeState {
    EpisodeState::opened(conversation(), Sequence(0))
}

/// Run `step` for a room, unwrapping the result: every fixture here is valid.
fn run(room: &Room, state: &EpisodeState, transcript: &[SessionMessage], policy: &EpisodePolicy) -> HiveStep {
    step(state, transcript, &room.active(), policy).expect("steps")
}

/// The sequential episode: a round of one.
fn sequential() -> EpisodePolicy {
    EpisodePolicy {
        round_width: 1,
        revealed_width: 1,
        ..EpisodePolicy::default()
    }
}

/// Unwrap a `HiveStep::Speak` of exactly one turn, panicking otherwise.
fn speaking(step: HiveStep) -> HiveTurn {
    spoke(step).0
}

/// The same, with the state the round commits.
fn spoke(step: HiveStep) -> (HiveTurn, EpisodeState) {
    let (mut turns, next_state) = round(step);
    assert_eq!(turns.len(), 1, "expected a round of one, got {turns:?}");
    (turns.remove(0), next_state)
}

/// Unwrap a `HiveStep::Speak` into its round and the state it commits.
fn round(step: HiveStep) -> (Vec<HiveTurn>, EpisodeState) {
    let HiveStep::Speak { turns, next_state } = step else {
        panic!("expected a round, got {step:?}")
    };
    (turns, *next_state)
}

/// A room with two grounded supporters behind one proposal.
fn converging() -> Vec<SessionMessage> {
    vec![
        operator(1, "Decide how to roll this out."),
        said(2, "planner", "!propose #stage Stage the rollout."),
        said(3, "critic", "!support #stage ^2 Bounds the blast radius."),
    ]
}

/// A room with two proposals each holding two grounded supporters.
fn deadlocked() -> Vec<SessionMessage> {
    vec![
        said(1, "planner", "!propose #stage"),
        said(2, "scout", "!propose #ship"),
        said(3, "critic", "!support #stage ^1"),
        said(4, "planner", "!support #ship ^2"),
    ]
}

#[test]
fn a_trace_inside_an_aside_adds_no_supporter() {
    // The rule that keeps this a hive-mind primitive rather than a partition:
    // an aside carries information, never support. Two agents agreeing
    // privately have not moved the room.
    let room = Room::new();
    let policy = EpisodePolicy {
        quorum: QuorumPolicy {
            threshold: 2,
            ..QuorumPolicy::default()
        },
        blind_round: false,
        ..sequential()
    };

    let open = vec![
        operator(1, "Decide how to roll this out."),
        said(2, "planner", "!propose #stage Stage the rollout."),
        said(3, "critic", "!support #stage ^2 Bounds the blast radius."),
    ];
    let mut private = open.clone();
    private.push(aside(
        4,
        "scout",
        &["planner"],
        "!support #stage ^2 Quietly, I agree.",
    ));

    // The private support reaches quorum's threshold on paper and must not
    // move the standing, so the room takes the same step either way.
    assert_eq!(
        format!("{:?}", run(&room, &state(), &open, &policy)),
        format!("{:?}", run(&room, &state(), &private, &policy)),
    );
}

#[test]
fn surfacing_the_same_support_in_the_open_does_count() {
    // The other half of the rule: an aside is a staging area, and the way to
    // make it count is to spend a desk-visible turn saying so.
    let room = Room::new();
    let policy = EpisodePolicy {
        quorum: QuorumPolicy {
            threshold: 2,
            ..QuorumPolicy::default()
        },
        blind_round: false,
        ..sequential()
    };
    let transcript = vec![
        operator(1, "Decide how to roll this out."),
        said(2, "planner", "!propose #stage Stage the rollout."),
        aside(3, "scout", &["planner"], "!support #stage ^2 Quietly."),
        said(4, "scout", "!support #stage ^2 Bounds the blast radius."),
    ];
    assert!(matches!(
        run(&room, &state(), &transcript, &policy),
        HiveStep::Converged { .. } | HiveStep::Speak { .. },
    ));
    // The private line contributed nothing, so the standing is exactly what it
    // would have been had the aside never been written.
    let without: Vec<SessionMessage> = transcript
        .iter()
        .filter(|message| message.audience.is_desk())
        .cloned()
        .collect();
    let supporters = |slice: &[SessionMessage]| {
        standings(&read(slice), Sequence(4), &policy.quorum)
            .expect("stands")
            .into_iter()
            .find(|standing| standing.topic.as_str() == "stage")
            .expect("the staged option")
            .supporters
    };
    assert_eq!(supporters(&transcript), supporters(&without));
    // And `scout` is there because of its open line, not its private one.
    assert!(supporters(&transcript).contains(&"scout".to_owned()));
}

#[test]
fn every_participant_counts_the_same_medium() {
    // Quorum answers for the room, not for a reader. The filter that drops an
    // aside from the fold is uniform, so there is exactly one standing.
    let transcript = vec![
        said(1, "planner", "!propose #stage Stage it."),
        aside(2, "critic", &["planner"], "!support #stage ^1 Quietly."),
        said(3, "scout", "!support #stage ^1 In the open."),
    ];
    let traces = read(&transcript);
    let standings =
        standings(&traces, Sequence(3), &QuorumPolicy::default()).expect("stands");
    let stage = standings
        .iter()
        .find(|standing| standing.topic.as_str() == "stage")
        .expect("the staged option");
    // `planner` for proposing and `scout` for supporting in the open. `critic`
    // supported privately and is absent, for every reader alike.
    assert_eq!(
        stage.supporters,
        vec!["planner".to_owned(), "scout".to_owned()],
    );
}

#[test]
fn a_transcript_with_no_aside_projects_the_same_for_every_turn_holder() {
    let room = Room::new();
    let policy = EpisodePolicy {
        blind_round: false,
        ..sequential()
    };
    let transcript = converging();
    let turn = speaking(run(&room, &state(), &transcript, &policy));
    let baseline = project_for(&turn, &transcript);
    for id in MEMBERS {
        let other = HiveTurn {
            agent_id: id.into(),
            ..turn.clone()
        };
        assert_eq!(project_for(&other, &transcript), baseline);
    }
}

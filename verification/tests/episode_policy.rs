//! What a step refuses before it authorizes anything, and in which order.

use tinyhivemind_hive::attention::AgentThreshold;
use tinyhivemind_hive::directory::DirectoryPolicy;
use tinyhivemind_hive::episode::{step, EpisodePolicy, EpisodeState, HiveStep, Phase};
use tinyhivemind_hive::error::Error;
use tinyhivemind_hive::salience::SalienceWeights;
use tinyhivemind_hive::session::{Audience, Conversation, Sequence, SessionAuthor, SessionMessage};

const MEMBERS: [&str; 3] = ["planner", "critic", "scout"];

fn said(sequence: u64, author: &str, content: &str) -> SessionMessage {
    SessionMessage {
        sequence: Sequence(sequence),
        author: SessionAuthor::Agent {
            id: author.into(),
            label: author.into(),
        },
        content: content.into(),
        audience: Audience::Desk,
    }
}

fn opened() -> EpisodeState {
    EpisodeState::opened(
        Conversation {
            desk_id: "engineering".into(),
            desk_name: "Engineering".into(),
            thread_root: None,
        },
        Sequence(0),
    )
}

fn proposal() -> Vec<SessionMessage> {
    vec![said(1, "planner", "!propose #stage Stage it.")]
}

#[test]
fn a_zero_round_width_is_refused_either_way() {
    for policy in [
        EpisodePolicy {
            round_width: 0,
            ..EpisodePolicy::default()
        },
        EpisodePolicy {
            revealed_width: 0,
            ..EpisodePolicy::default()
        },
    ] {
        assert_eq!(step(&opened(), &proposal(), &MEMBERS, &policy), Err(Error::ZeroRoundWidth));
    }
    assert_eq!(Error::ZeroRoundWidth.message(), "round width must not be zero");
}

#[test]
fn a_malformed_directory_policy_is_refused_before_the_budget() {
    let spent = EpisodeState {
        spent: 12,
        ..opened()
    };
    let policy = EpisodePolicy {
        directory: Some(DirectoryPolicy {
            window: 0,
            ..DirectoryPolicy::default()
        }),
        ..EpisodePolicy::default()
    };
    assert_eq!(step(&spent, &proposal(), &MEMBERS, &policy), Err(Error::ZeroDirectoryWindow));
    // The defer cap is checked first of all.
    let both = EpisodePolicy {
        defer_cap: Some(0),
        ..policy
    };
    assert_eq!(step(&spent, &proposal(), &MEMBERS, &both), Err(Error::ZeroDeferCap));
    // A well-formed policy with the budget spent is exhausted.
    assert_eq!(
        step(&spent, &proposal(), &MEMBERS, &EpisodePolicy::default()),
        Ok(HiveStep::Exhausted { spent: 12 })
    );
}

#[test]
fn a_stray_threshold_is_refused_by_name_and_desk() {
    let state = EpisodeState {
        thresholds: vec![AgentThreshold::new("planner", 0), AgentThreshold::new("stranger", 3)],
        ..opened()
    };
    let error = step(&state, &proposal(), &MEMBERS, &EpisodePolicy::default()).expect_err("a stray");
    assert_eq!(
        error,
        Error::UnknownThresholdMember {
            agent_id: "stranger".into(),
            desk_id: "engineering".into(),
        }
    );
    assert_eq!(
        error.message(),
        "threshold `stranger` is not an active member of desk `engineering`"
    );
}

#[test]
fn a_repeated_threshold_or_a_zero_half_life_is_refused_once_the_room_bids() {
    let repeated = EpisodeState {
        thresholds: vec![AgentThreshold::new("critic", 0), AgentThreshold::new("critic", 3)],
        ..opened()
    };
    assert_eq!(
        step(&repeated, &proposal(), &MEMBERS, &EpisodePolicy::default()),
        Err(Error::DuplicateAgentThreshold {
            agent_id: "critic".into()
        })
    );
    let flat = EpisodePolicy {
        weights: SalienceWeights {
            half_life: 0,
            ..SalienceWeights::default()
        },
        ..EpisodePolicy::default()
    };
    assert_eq!(step(&opened(), &proposal(), &MEMBERS, &flat), Err(Error::ZeroHalfLife));
}

#[test]
fn an_empty_transcript_opens_a_blind_round() {
    let state = opened();
    let outcome = step(&state, &[], &MEMBERS, &EpisodePolicy::default()).expect("steps");
    // Nothing has been said, so every member is unheard and the round is
    // blind; each member bids its bare urge of zero and clears a zero
    // threshold.
    match outcome {
        HiveStep::Speak { turns, next_state } => {
            assert_eq!(turns.len(), MEMBERS.len());
            assert!(turns.iter().all(|turn| turn.visibility == tinyhivemind_hive::episode::Visibility::Blind));
            assert_eq!(next_state.phase, Phase::Deliberate);
            assert_eq!(next_state.spent, turns.len() as u32);
        }
        other => panic!("expected a round, got {other:?}"),
    }
}

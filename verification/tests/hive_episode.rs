//! End-to-end coverage for a host driving a deliberation episode: a journal
//! the host owns, scripted participants, and the loop that steps the episode,
//! shows each authorized turn what it may see, and appends a round only once
//! every turn in it has spoken.

use std::collections::VecDeque;

use tinyhivemind_hive::attention::BidReason;
use tinyhivemind_hive::episode::{project_for, step, EpisodePolicy, EpisodeState, HiveStep, HiveTurn, Phase, Visibility};
use tinyhivemind_hive::quorum::{consensus, standings, ConsensusState, QuorumPolicy, TopicStanding};
use tinyhivemind_hive::session::{Audience, Conversation, Sequence, SessionAuthor, SessionMessage};
use tinyhivemind_hive::trace::{read, TopicId};

const MEMBERS: [&str; 3] = ["planner", "critic", "scout"];

/// How an episode ended.
#[derive(Debug, PartialEq)]
enum Outcome {
    Converged { topic: TopicId, standing: TopicStanding },
    Deadlocked { topics: Vec<TopicId> },
    Exhausted { spent: u32 },
    Idle,
}

/// One authorized turn, as the host ran it.
#[derive(Debug)]
struct Ran {
    agent_id: String,
    visibility: Visibility,
    reason: BidReason,
    /// How many rows the turn was shown.
    saw: usize,
}

/// A deterministic participant that replays a fixed script.
struct ScriptedAgent {
    id: String,
    lines: VecDeque<Result<String, String>>,
    /// One entry per turn taken: the sequences this turn was shown.
    calls: Vec<Vec<u64>>,
}

impl ScriptedAgent {
    fn new<'a>(id: &str, lines: impl IntoIterator<Item = &'a str>) -> Self {
        Self {
            id: id.to_owned(),
            lines: lines.into_iter().map(|line| Ok(line.to_owned())).collect(),
            calls: Vec::new(),
        }
    }

    /// A participant whose first model call fails.
    fn failing(id: &str, message: &str) -> Self {
        let mut agent = Self::new(id, []);
        agent.lines.push_back(Err(message.to_owned()));
        agent
    }

    fn calls(&self) -> &[Vec<u64>] {
        &self.calls
    }

    fn speak(&mut self, turn: &HiveTurn, visible: &[SessionMessage]) -> Result<String, String> {
        self.calls.push(visible.iter().map(|message| message.sequence.0).collect());
        if let Some(line) = self.lines.pop_front() {
            return line;
        }
        if turn.phase == Phase::Commit {
            return Ok(commit_line(visible));
        }
        Ok("!question Nothing further from me.".to_owned())
    }
}

/// What an out-of-script participant says once the room is committing: the
/// carried topic, recomputed from what this turn can see.
fn commit_line(visible: &[SessionMessage]) -> String {
    let traces = read(visible);
    let at = visible.last().map_or(Sequence(0), |message| message.sequence);
    let policy = QuorumPolicy::default();
    if let Ok(standing) = standings(&traces, at, &policy) {
        if let ConsensusState::Quorum { topic } = consensus(&standing, &policy) {
            return format!("!commit #{} Recording the decision.", topic.as_str());
        }
    }
    "!question Nothing further from me.".to_owned()
}

/// A host that owns its journal.
struct HiveHarness {
    desk_id: String,
    desk_name: String,
    members: Vec<String>,
    journal: Vec<SessionMessage>,
}

impl HiveHarness {
    fn new(desk_id: &str, desk_name: &str, members: &[&str]) -> Self {
        Self {
            desk_id: desk_id.to_owned(),
            desk_name: desk_name.to_owned(),
            members: members.iter().map(|id| (*id).to_owned()).collect(),
            journal: Vec::new(),
        }
    }

    fn next_sequence(&self) -> Sequence {
        Sequence(self.journal.len() as u64 + 1)
    }

    fn operator(&mut self, content: &str) {
        let sequence = self.next_sequence();
        self.journal.push(SessionMessage {
            sequence,
            author: SessionAuthor::Operator,
            content: content.to_owned(),
            audience: Audience::Desk,
        });
    }

    fn agent(&mut self, id: &str, content: &str) {
        let sequence = self.next_sequence();
        self.journal.push(SessionMessage {
            sequence,
            author: SessionAuthor::Agent {
                id: id.to_owned(),
                label: id.to_owned(),
            },
            content: content.to_owned(),
            audience: Audience::Desk,
        });
    }

    fn conversation(&self) -> Conversation {
        Conversation {
            desk_id: self.desk_id.clone(),
            desk_name: self.desk_name.clone(),
            thread_root: None,
        }
    }

    fn watermark(&self) -> Sequence {
        self.journal.last().map_or(Sequence(0), |message| message.sequence)
    }

    fn journal(&self) -> &[SessionMessage] {
        &self.journal
    }

    /// Step the episode to its end, running every authorized turn.
    fn run(
        &mut self,
        mut state: EpisodeState,
        policy: &EpisodePolicy,
        agents: &mut [&mut ScriptedAgent],
    ) -> Result<(Outcome, Vec<Ran>), String> {
        let roster: Vec<String> = self.members.clone();
        let members: Vec<&str> = roster.iter().map(String::as_str).collect();
        let mut ran = Vec::new();
        loop {
            let decided = step(&state, &self.journal, &members, policy).map_err(|error| error.message())?;
            match decided {
                HiveStep::Speak { turns, next_state } => {
                    let mut said = Vec::new();
                    for turn in &turns {
                        let agent = agents
                            .iter_mut()
                            .find(|agent| agent.id == turn.agent_id)
                            .ok_or_else(|| format!("no participant {}", turn.agent_id))?;
                        let visible = project_for(turn, &self.journal);
                        ran.push(Ran {
                            agent_id: turn.agent_id.clone(),
                            visibility: turn.visibility,
                            reason: turn.reason,
                            saw: visible.len(),
                        });
                        said.push((turn.agent_id.clone(), agent.speak(turn, &visible)?));
                    }
                    for (id, line) in said {
                        self.agent(&id, &line);
                    }
                    state = *next_state;
                }
                HiveStep::Converged { topic, standing } => {
                    return Ok((
                        Outcome::Converged {
                            topic,
                            standing: *standing,
                        },
                        ran,
                    ))
                }
                HiveStep::Deadlocked { topics } => return Ok((Outcome::Deadlocked { topics }, ran)),
                HiveStep::Exhausted { spent } => return Ok((Outcome::Exhausted { spent }, ran)),
                HiveStep::Idle => return Ok((Outcome::Idle, ran)),
            }
        }
    }
}

fn harness() -> HiveHarness {
    HiveHarness::new("engineering", "Engineering", &MEMBERS)
}

fn policy(turn_budget: u32) -> EpisodePolicy {
    EpisodePolicy {
        turn_budget,
        quorum: QuorumPolicy {
            threshold: 2,
            window: 100,
            require_grounded: true,
            ..QuorumPolicy::default()
        },
        ..EpisodePolicy::default()
    }
}

fn converged(outcome: &Outcome) -> (&TopicId, &TopicStanding) {
    let Outcome::Converged { topic, standing } = outcome else {
        panic!("expected convergence, got {outcome:?}")
    };
    (topic, standing)
}

#[test]
fn three_agents_deliberate_over_one_shared_transcript_and_converge() -> Result<(), String> {
    let mut harness = harness();
    harness.operator("Decide how to roll this out.");
    let state = EpisodeState::opened(harness.conversation(), harness.watermark());

    let mut planner = ScriptedAgent::new("planner", ["!propose #stage Stage the rollout."]);
    let mut critic = ScriptedAgent::new("critic", ["!support #stage ^2 It bounds the blast radius."]);
    let mut scout = ScriptedAgent::new("scout", ["!question What is the rollback path?"]);

    let (outcome, steps) = harness.run(state, &policy(8), &mut [&mut planner, &mut critic, &mut scout])?;

    let (topic, standing) = converged(&outcome);
    assert_eq!(topic, &TopicId("stage".into()));
    assert_eq!(standing.supporters, ["planner", "critic"]);

    // Every authorized turn wrote exactly one message on top of the operator's.
    assert_eq!(harness.journal().len(), steps.len() + 1);
    assert!(steps.len() <= 8);
    Ok(())
}

#[test]
fn one_step_runs_exactly_one_agent_turn() -> Result<(), String> {
    let mut harness = harness();
    harness.operator("Decide how to roll this out.");
    let state = EpisodeState::opened(harness.conversation(), harness.watermark());

    let mut planner = ScriptedAgent::new("planner", ["!propose #stage"]);
    let mut critic = ScriptedAgent::new("critic", ["!support #stage ^2"]);
    let mut scout = ScriptedAgent::new("scout", ["!question"]);

    let (_, steps) = harness.run(state, &policy(3), &mut [&mut planner, &mut critic, &mut scout])?;

    let turns: usize = planner.calls().len() + critic.calls().len() + scout.calls().len();
    assert_eq!(
        turns,
        steps.len(),
        "the number of model calls must equal the number of authorized turns",
    );
    Ok(())
}

#[test]
fn a_failed_turn_does_not_append_a_phantom_message() {
    let mut harness = harness();
    harness.operator("Decide how to roll this out.");
    let state = EpisodeState::opened(harness.conversation(), harness.watermark());

    let mut planner = ScriptedAgent::failing("planner", "model unavailable");
    let mut critic = ScriptedAgent::new("critic", ["!support #stage ^2"]);
    let mut scout = ScriptedAgent::new("scout", ["!question"]);

    let result = harness.run(state, &policy(4), &mut [&mut planner, &mut critic, &mut scout]);

    assert_eq!(result.map(|(outcome, _)| outcome), Err("model unavailable".to_owned()));
    assert_eq!(harness.journal().len(), 1, "only the operator's message");
}

#[test]
fn an_episode_stops_at_its_budget_rather_than_running_on() -> Result<(), String> {
    let mut harness = harness();
    harness.operator("Talk this through.");
    let state = EpisodeState::opened(harness.conversation(), harness.watermark());

    // Nobody ever supports anything, so quorum is never reached and the budget
    // is the only thing that ends the episode.
    let mut agents: Vec<ScriptedAgent> = MEMBERS
        .iter()
        .map(|id| ScriptedAgent::new(id, ["!question still thinking"]))
        .collect();
    let (a, rest) = agents.split_at_mut(1);
    let (b, c) = rest.split_at_mut(1);
    let (outcome, steps) = harness.run(state, &policy(5), &mut [&mut a[0], &mut b[0], &mut c[0]])?;

    assert_eq!(outcome, Outcome::Exhausted { spent: 5 });
    assert_eq!(steps.len(), 5);
    Ok(())
}

#[test]
fn the_opening_round_is_blind_and_then_reveals() -> Result<(), String> {
    let mut harness = harness();
    harness.operator("Decide how to roll this out.");
    let state = EpisodeState::opened(harness.conversation(), harness.watermark());

    let mut planner = ScriptedAgent::new("planner", ["!propose #stage", "!support #stage ^2"]);
    let mut critic = ScriptedAgent::new("critic", ["!propose #ship", "!support #ship ^3"]);
    let mut scout = ScriptedAgent::new("scout", ["!question", "!support #stage ^2"]);

    let (_, steps) = harness.run(state, &policy(6), &mut [&mut planner, &mut critic, &mut scout])?;

    let blind: Vec<&Ran> = steps
        .iter()
        .take_while(|step| step.visibility == Visibility::Blind)
        .collect();
    assert!(
        !blind.is_empty(),
        "the opening round must be blind so first positions are independent",
    );
    assert!(
        steps.iter().any(|step| step.visibility == Visibility::Full),
        "and it must reveal once every member has been heard",
    );

    // A blind turn never saw a peer's position. The operator's framing message
    // is always visible, so a blind turn sees at most that plus its own work.
    for (index, step) in steps.iter().enumerate() {
        if step.visibility != Visibility::Blind {
            continue;
        }
        let peers_before = steps[..index]
            .iter()
            .filter(|earlier| earlier.agent_id != step.agent_id)
            .count();
        assert_eq!(
            step.saw,
            harness.journal().len().min(index + 1) - peers_before,
            "a blind turn must not see a peer's position",
        );
    }
    Ok(())
}

#[test]
fn a_deadlock_is_reported_rather_than_resolved_arbitrarily() -> Result<(), String> {
    // A two-member room: each proposes, each supports the other's proposal, so
    // both topics carry and nobody is left uncommitted to break the tie.
    let mut harness = HiveHarness::new("engineering", "Engineering", &["planner", "scout"]);
    harness.operator("Pick one.");
    harness.agent("planner", "!propose #stage");
    harness.agent("scout", "!propose #ship");
    harness.agent("planner", "!support #ship ^3");
    harness.agent("scout", "!support #stage ^2");
    let state = EpisodeState::opened(harness.conversation(), harness.watermark());

    let mut planner = ScriptedAgent::new("planner", []);
    let mut scout = ScriptedAgent::new("scout", []);
    let (outcome, steps) = harness.run(state, &policy(4), &mut [&mut planner, &mut scout])?;

    // The episode's own watermark excludes the setup, so the deadlock has to be
    // re-established inside the episode, which it is not: the room idles or
    // runs out rather than inventing a decision.
    assert!(
        !matches!(outcome, Outcome::Converged { .. }),
        "a tie must never resolve into a decision, got {outcome:?}",
    );
    assert!(steps.len() <= 4);
    Ok(())
}

#[test]
fn cross_inhibition_is_what_breaks_a_tie() -> Result<(), String> {
    let mut harness = HiveHarness::new("engineering", "Engineering", &["planner", "scout", "critic", "archivist"]);
    harness.operator("Pick one.");
    let state = EpisodeState::opened(harness.conversation(), harness.watermark());

    // planner and scout each propose a rival topic. critic objects to scout's
    // own proposal early, silencing scout as ship's advocate before anyone else
    // backs it. `stage` is then the only topic left standing: no vote was
    // subtracted from a proposal, an advocate was silenced instead.
    let mut planner = ScriptedAgent::new("planner", ["!propose #stage"]);
    let mut scout = ScriptedAgent::new("scout", ["!propose #ship"]);
    let mut critic = ScriptedAgent::new(
        "critic",
        ["!object >3 ^1 That precedent differs.", "!support #stage ^1 Bounds the blast radius."],
    );
    let mut archivist = ScriptedAgent::new("archivist", ["!support #stage ^1 Confirmed safe rollback."]);

    let (outcome, _) = harness.run(
        state,
        &policy(10),
        &mut [&mut planner, &mut scout, &mut critic, &mut archivist],
    )?;

    let Outcome::Converged { topic, standing } = &outcome else {
        panic!("expected cross-inhibition to converge the room, got {outcome:?}")
    };
    assert_eq!(topic, &TopicId("stage".into()));
    assert!(!standing.supporters.is_empty(), "a carried topic must name who carried it");

    // Cross-inhibition actually fired: scout, the objected-to advocate, is
    // silenced out of `ship`'s standing rather than merely outbid.
    let traces = read(harness.journal());
    let at = harness.journal().last().expect("the journal is non-empty").sequence;
    let policy = policy(10);
    let folded = standings(&traces, at, &policy.quorum).expect("folds");
    let ship = folded
        .iter()
        .find(|standing| standing.topic == TopicId("ship".into()))
        .expect("ship was proposed and must have a standing");
    assert_eq!(ship.silenced, ["scout"], "the objection must silence scout as ship's advocate");
    assert!(ship.supporters.is_empty(), "a silenced sole advocate leaves no supporters behind");
    Ok(())
}

#[test]
fn an_episode_does_not_inherit_the_votes_of_the_conversation_before_it() -> Result<(), String> {
    let mut harness = harness();
    // A previous, already-settled deliberation sits in the journal.
    harness.agent("planner", "!propose #legacy");
    harness.agent("critic", "!support #legacy ^1");
    harness.operator("New question: how do we roll out?");

    let state = EpisodeState::opened(harness.conversation(), harness.watermark());
    let mut planner = ScriptedAgent::new("planner", ["!question"]);
    let mut critic = ScriptedAgent::new("critic", ["!question"]);
    let mut scout = ScriptedAgent::new("scout", ["!question"]);

    let (outcome, _) = harness.run(state, &policy(3), &mut [&mut planner, &mut critic, &mut scout])?;

    assert_eq!(
        outcome,
        Outcome::Exhausted { spent: 3 },
        "the settled `legacy` topic sits below the watermark and must not carry",
    );
    Ok(())
}

#[test]
fn every_member_of_a_lopsided_room_eventually_gets_the_floor() -> Result<(), String> {
    let mut harness = harness();
    harness.operator("Decide how to roll this out.");
    let state = EpisodeState::opened(harness.conversation(), harness.watermark());

    let mut planner = ScriptedAgent::new("planner", ["!propose #stage"]);
    let mut critic = ScriptedAgent::new("critic", ["!question"]);
    let mut scout = ScriptedAgent::new("scout", ["!question"]);

    let (_, steps) = harness.run(state, &policy(6), &mut [&mut planner, &mut critic, &mut scout])?;

    let mut heard: Vec<&str> = steps.iter().map(|step| step.agent_id.as_str()).collect();
    heard.sort_unstable();
    heard.dedup();
    assert_eq!(
        heard.len(),
        MEMBERS.len(),
        "speaking costs the speaker, so the floor must circulate: {steps:?}",
    );
    Ok(())
}

#[test]
fn a_bid_reason_is_reported_for_every_turn() -> Result<(), String> {
    let mut harness = harness();
    harness.operator("Decide how to roll this out.");
    let state = EpisodeState::opened(harness.conversation(), harness.watermark());

    let mut planner = ScriptedAgent::new("planner", ["!propose #stage"]);
    let mut critic = ScriptedAgent::new("critic", ["!support #stage ^2"]);
    let mut scout = ScriptedAgent::new("scout", ["!question"]);

    let (_, steps) = harness.run(state, &policy(4), &mut [&mut planner, &mut critic, &mut scout])?;

    assert!(!steps.is_empty());
    for step in &steps {
        assert!(
            matches!(
                step.reason,
                BidReason::Addressed | BidReason::Dissent | BidReason::Quiet | BidReason::Salience
            ),
            "every turn must be able to say why it was authorized",
        );
    }
    Ok(())
}

//! The attention market: who bids for the floor, how much, and who gets it.

use tinyhivemind_hive::attention::{bids, floor_holder, floor_round, AgentThreshold, Bid, BidContext, BidReason};
use tinyhivemind_hive::error::Error;
use tinyhivemind_hive::quorum::{standings, QuorumPolicy, TopicStanding};
use tinyhivemind_hive::salience::SalienceWeights;
use tinyhivemind_hive::session::{Audience, Sequence, SessionAuthor, SessionMessage};
use tinyhivemind_hive::trace::{read, Trace};

fn said(sequence: u64, author: &str, content: &str) -> SessionMessage {
    SessionMessage {
        sequence: Sequence(sequence),
        author: SessionAuthor::Agent {
            id: author.into(),
            label: author.into(),
        },
        content: content.into(),
        audience: Audience::Desk,
    }
}

fn bid(agent_id: &str, urge: i64) -> Bid {
    Bid {
        agent_id: agent_id.into(),
        urge,
        reason: BidReason::Salience,
    }
}

fn market<'a>(
    traces: &'a [Trace],
    standings: &'a [TopicStanding],
    members: &'a [&'a str],
    thresholds: &'a [AgentThreshold],
    at: u64,
    weights: &'a SalienceWeights,
) -> BidContext<'a> {
    BidContext {
        traces,
        standings,
        members,
        thresholds,
        at: Sequence(at),
        weights,
        dominance_cap: 50,
        repetition_cap: 3,
        window: 30,
        knowers: &[],
    }
}

#[test]
fn an_empty_medium_bids_nothing_above_zero() {
    let weights = SalienceWeights::default();
    let members = ["planner", "critic"];
    let offered = bids(&market(&[], &[], &members, &[], 0, &weights)).expect("bids");
    assert_eq!(offered, [bid("planner", 0), bid("critic", 0)]);

    // A threshold above the urge keeps that member out of the market.
    let thresholds = [AgentThreshold::new("planner", 1)];
    let offered = bids(&market(&[], &[], &members, &thresholds, 0, &weights)).expect("bids");
    assert_eq!(offered, [bid("critic", 0)]);
}

#[test]
fn one_proposal_pulls_every_member_by_its_salience() {
    let traces = read(&[said(1, "planner", "!propose #stage Stage it.")]);
    let policy = QuorumPolicy::default();
    let held = standings(&traces, Sequence(1), &policy).expect("folds");
    let weights = SalienceWeights::default();
    let members = ["planner", "critic"];
    let offered = bids(&market(&traces, &held, &members, &[], 1, &weights)).expect("bids");
    // (5 * 1000 + 30 * 900 + 20 * 500) / 10, for a reader of neutral relevance.
    assert_eq!(offered, [bid("planner", 4_200), bid("critic", 4_200)]);

    // A declared affinity raises one reader's pull: relevance 100 adds
    // 20 * 1000 rather than 20 * 500, in tenths.
    let thresholds = [AgentThreshold {
        affinity: vec![("stage".into(), 100)],
        ..AgentThreshold::new("critic", 200)
    }];
    let offered = bids(&market(&traces, &held, &members, &thresholds, 1, &weights)).expect("bids");
    assert_eq!(offered, [bid("planner", 4_200), bid("critic", 5_000)]);
}

#[test]
fn a_cited_member_is_addressed() {
    let traces = read(&[
        said(1, "planner", "!propose #stage Stage it."),
        said(2, "critic", "!question ^1 How far?"),
    ]);
    let held = standings(&traces, Sequence(2), &QuorumPolicy::default()).expect("folds");
    let weights = SalienceWeights::default();
    let members = ["planner", "critic"];
    let offered = bids(&market(&traces, &held, &members, &[], 2, &weights)).expect("bids");
    assert_eq!(offered[0].agent_id, "planner");
    assert_eq!(offered[0].reason, BidReason::Addressed);
    assert_eq!(offered[1].reason, BidReason::Salience);
    assert_eq!(offered[0].urge, offered[1].urge + 2_000);
}

#[test]
fn a_repeated_threshold_record_is_refused() {
    let weights = SalienceWeights::default();
    let members = ["planner"];
    let thresholds = [AgentThreshold::new("planner", 0), AgentThreshold::new("planner", 5)];
    assert_eq!(
        bids(&market(&[], &[], &members, &thresholds, 0, &weights)),
        Err(Error::DuplicateAgentThreshold {
            agent_id: "planner".into()
        })
    );
}

#[test]
fn a_zero_half_life_is_refused_once_there_is_something_to_score() {
    let traces = read(&[said(1, "planner", "!question Why?")]);
    let weights = SalienceWeights {
        half_life: 0,
        ..SalienceWeights::default()
    };
    let members = ["planner"];
    assert_eq!(
        bids(&market(&traces, &[], &members, &[], 1, &weights)),
        Err(Error::ZeroHalfLife)
    );
    // With nothing to score, nobody needs a half-life.
    assert!(bids(&market(&[], &[], &members, &[], 1, &weights)).is_ok());
}

#[test]
fn the_floor_goes_to_the_first_of_the_highest() {
    let offered = [bid("planner", 5), bid("critic", 9), bid("scout", 9)];
    assert_eq!(floor_holder(&offered), Some(&offered[1]));
    assert_eq!(floor_holder(&[]), None);
}

#[test]
fn a_round_takes_the_highest_in_bid_order() {
    let offered = [bid("planner", 5), bid("critic", 9), bid("scout", 7), bid("archivist", 9)];
    assert_eq!(floor_round(&offered, 1), [offered[1].clone()]);
    assert_eq!(
        floor_round(&offered, 2),
        [offered[1].clone(), offered[3].clone()]
    );
    assert_eq!(
        floor_round(&offered, 3),
        [offered[1].clone(), offered[2].clone(), offered[3].clone()]
    );
    assert_eq!(floor_round(&offered, 9).len(), 4);
    assert!(floor_round(&offered, 0).is_empty());
    // At width one the round is exactly the floor holder.
    assert_eq!(floor_round(&offered, 1)[0], *floor_holder(&offered).unwrap());
}

#[test]
fn relevance_reads_the_declared_affinity_or_stays_neutral() {
    let record = AgentThreshold {
        affinity: vec![("pool".into(), 80), ("pool".into(), 10), ("retries".into(), 200)],
        ..AgentThreshold::new("archivist", 0)
    };
    assert_eq!(record.declared_relevance(&"pool".into()), Some(80));
    assert_eq!(record.declared_relevance(&"stage".into()), None);
    assert_eq!(record.relevance(Some(&"pool".into())), 80);
    assert_eq!(record.relevance(Some(&"stage".into())), 50);
    assert_eq!(record.relevance(None), 50);
    assert_eq!(record.duplicate(), record);
}

#[test]
fn a_redelivered_or_reordered_medium_moves_no_bid() {
    let traces = read(&[
        said(1, "planner", "!propose #stage Stage it."),
        said(2, "critic", "!support #stage ^1 Bounded."),
        said(3, "scout", "!question ^2 How far?"),
    ]);
    let held = standings(&traces, Sequence(3), &QuorumPolicy::default()).expect("folds");
    let weights = SalienceWeights::default();
    let members = ["planner", "critic", "scout"];
    let once = bids(&market(&traces, &held, &members, &[], 3, &weights)).expect("bids");
    let mut twice: Vec<Trace> = traces.iter().rev().cloned().collect();
    twice.extend(traces.iter().cloned());
    assert_eq!(bids(&market(&twice, &held, &members, &[], 3, &weights)).expect("bids"), once);
}

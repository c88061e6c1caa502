//! The walk-through the library is introduced by: proposals, grounded
//! support, a quorum, refutation capping a topic, and the directory naming
//! the member who stated the fact.

use tinyhivemind_hive::directory::{directory, DirectoryPolicy};
use tinyhivemind_hive::error::Error;
use tinyhivemind_hive::quorum::{consensus, standings, ConsensusState, QuorumPolicy};
use tinyhivemind_hive::session::{Audience, Sequence, SessionAuthor, SessionMessage};
use tinyhivemind_hive::trace::read;

fn agent(id: &str) -> SessionAuthor {
    SessionAuthor::Agent {
        id: id.into(),
        label: id.into(),
    }
}

fn said(sequence: u64, author: SessionAuthor, content: &str) -> SessionMessage {
    SessionMessage {
        sequence: Sequence(sequence),
        author,
        content: content.into(),
        audience: Audience::Desk,
    }
}

#[test]
fn a_room_converges_and_a_cited_fact_caps_a_topic() -> Result<(), Error> {
    // Two agents propose; a third grounds its support in the first proposal.
    let transcript = [
        said(1, agent("planner"), "!propose #stage Stage the rollout."),
        said(2, agent("scout"), "!propose #ship Ship it all at once."),
        said(3, agent("critic"), "!support #stage ^1 Staging bounds the blast radius."),
        said(4, agent("planner"), "!support #stage ^1 Agreed, and it is reversible."),
    ];

    let traces = read(&transcript);
    let policy = QuorumPolicy {
        window: 100,
        ..QuorumPolicy::default()
    };
    let settled = standings(&traces, Sequence(4), &policy)?;

    // Two distinct grounded supporters carry `stage`; `ship` has none.
    assert_eq!(
        consensus(&settled, &policy),
        ConsensusState::Quorum {
            topic: "stage".into()
        }
    );

    // Two distinct refuters cap `stage` out of contention, and neither
    // supporter is silenced: the standing records both sides.
    let policy = QuorumPolicy {
        refutation_cap: Some(2),
        ..policy
    };
    let mut contested = transcript.to_vec();
    contested.extend([
        said(5, agent("auditor"), "!evidence Staging needs a second environment we do not have."),
        said(6, agent("auditor"), "!refute #stage ^5 There is nowhere to stage it."),
        said(7, agent("scout"), "!refute #stage ^5 Confirmed, the environment was retired."),
    ]);
    let contested_transcript = contested.clone();
    let contested = standings(&read(&contested), Sequence(7), &policy)?;
    assert_eq!(consensus(&contested, &policy), ConsensusState::Deliberating);
    assert_eq!(contested[0].refuted_by, ["auditor", "scout"]);
    assert_eq!(contested[0].supporters, ["planner", "critic"]);

    // The auditor stated the fact and two members built on it, so the
    // directory names the auditor on `stage` rather than the planner who
    // merely advocated it.
    let policy = DirectoryPolicy {
        window: 100,
        ..DirectoryPolicy::default()
    };
    let known = directory(&read(&contested_transcript), Sequence(7), &policy, &[])?;
    assert_eq!(
        known.top(&"stage".into()).map(|entry| entry.agent_id.as_str()),
        Some("auditor"),
    );
    assert!(known.knows("auditor", &"stage".into(), &policy));
    Ok(())
}

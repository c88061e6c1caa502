//! The division of labour.

use tinyhivemind_hive::directory::{directory, Directory, DirectoryEntry, DirectoryPolicy};
use tinyhivemind_hive::division::{divide, Division, DivisionPolicy, OwnerReason};
use tinyhivemind_hive::episode::DEFAULT_ROUND_WIDTH;
use tinyhivemind_hive::error::Error;
use tinyhivemind_hive::session::{Audience, Sequence, SessionAuthor, SessionMessage};
use tinyhivemind_hive::trace::{read, TopicId};

const MEMBERS: [&str; 5] = ["planner", "critic", "scout", "auditor", "archivist"];

/// `n` facets named `f0..fn`.
fn facets(count: usize) -> Vec<TopicId> {
    (0..count)
        .map(|index| TopicId::from(format!("f{index}").as_str()))
        .collect()
}

/// Divide `count` facets across the whole desk at `policy`.
fn divided(count: usize, policy: &DivisionPolicy) -> Division {
    divide(&facets(count), "engineering", &MEMBERS, None, policy).unwrap()
}

/// One desk-visible row carrying one marker.
fn said(sequence: u64, author: &str, content: &str) -> SessionMessage {
    SessionMessage {
        sequence: Sequence(sequence),
        author: SessionAuthor::Agent {
            id: author.into(),
            label: author.into(),
        },
        content: content.into(),
        audience: Audience::Desk,
    }
}

/// The measured rule, and the reason it is not a special case in the code: a
/// task of one facet is one seat answering alone, in one round.
#[test]
fn one_facet_is_one_seat_answering_alone() {
    let division = divided(1, &DivisionPolicy::default());
    assert!(division.is_alone());
    assert_eq!(division.depth(), 1);
    assert_eq!(division.width(), 1);
    assert_eq!(division.owner_of(&TopicId::from("f0")), Some("planner"));
}

/// A task with no facets divides into nothing, and that is not an error.
#[test]
fn a_task_with_no_facets_divides_into_nothing() {
    let division = divided(0, &DivisionPolicy::default());
    assert!(division.is_empty());
    assert!(!division.is_alone());
    assert_eq!(division.depth(), 0);
    assert_eq!(division.width(), 0);
}

/// The depth a division buys, which is the whole cost argument: eight facets
/// across five seats at width four are two rounds, not eight.
#[test]
fn independent_facets_ride_the_same_round() {
    let division = divided(8, &DivisionPolicy::default());
    assert_eq!(division.assignments().len(), 8);
    assert_eq!(division.depth(), 2);
    assert_eq!(division.width(), 4);
    assert_eq!(division.round(0).len(), 4);
    assert_eq!(division.round(1).len(), 4);
}

/// One agent cannot answer two questions at once, so a seat never appears
/// twice in a round however wide the policy allows.
#[test]
fn a_seat_never_appears_twice_in_one_round() {
    let wide = DivisionPolicy {
        round_width: 64,
        ..DivisionPolicy::default()
    };
    let division = divided(12, &wide);
    for round in 0..division.depth() {
        let mut owners: Vec<&str> = division
            .round(round)
            .iter()
            .map(|held| held.owner.as_str())
            .collect();
        let before = owners.len();
        owners.sort_unstable();
        owners.dedup();
        assert_eq!(owners.len(), before, "round {round} names a seat twice");
    }
    // Five seats, twelve facets: three rounds, and no round wider than the desk.
    assert_eq!(division.depth(), 3);
    assert_eq!(division.width(), 5);
}

/// The rotation is by the facet's own index, so a division is a fold rather
/// than a walk: which seat takes a facet does not depend on what came before.
#[test]
fn the_rotation_follows_the_facet_index() {
    let division = divided(7, &DivisionPolicy::default());
    for (index, held) in division.assignments().iter().enumerate() {
        assert_eq!(held.owner, MEMBERS[index % MEMBERS.len()]);
        assert_eq!(held.reason, OwnerReason::Rotation);
    }
}

/// A facet named twice is one facet, and keeps the position it was first
/// given.
#[test]
fn a_facet_named_twice_is_one_facet() {
    let repeated = [
        TopicId::from("stage"),
        TopicId::from("ship"),
        TopicId::from("stage"),
    ];
    let division = divide(
        &repeated,
        "engineering",
        &MEMBERS,
        None,
        &DivisionPolicy::default(),
    )
    .unwrap();
    assert_eq!(division.assignments().len(), 2);
    assert_eq!(division.owner_of(&TopicId::from("stage")), Some("planner"));
    assert_eq!(division.owner_of(&TopicId::from("ship")), Some("critic"));
}

/// Competence picks the owner where the directory has an opinion, and says so.
#[test]
fn the_directory_names_an_owner_where_it_knows_one() {
    let transcript = [
        said(
            1,
            "auditor",
            "!evidence #stage The second environment was retired.",
        ),
        said(2, "critic", "!support #stage ^1 That settles it."),
        said(3, "scout", "!support #stage ^1 Agreed."),
    ];
    let known = directory(
        &read(&transcript),
        Sequence(3),
        &DirectoryPolicy {
            window: 100,
            ..DirectoryPolicy::default()
        },
        &[],
    )
    .unwrap();

    let asked = [TopicId::from("stage"), TopicId::from("ship")];
    let division = divide(
        &asked,
        "engineering",
        &MEMBERS,
        Some(&known),
        &DivisionPolicy::default(),
    )
    .unwrap();

    // `stage` goes to the member the directory names, not to the rotation's
    // `planner`; `ship`, which nobody is known on, falls to the rotation.
    assert_eq!(division.owner_of(&TopicId::from("stage")), Some("auditor"));
    assert_eq!(division.assignments()[0].reason, OwnerReason::Knows);
    assert_eq!(division.assignments()[1].reason, OwnerReason::Rotation);

    // The control the benchmark runs: a division deliberately blind to
    // competence takes the rotation for everything.
    let blind = divide(
        &asked,
        "engineering",
        &MEMBERS,
        Some(&known),
        &DivisionPolicy {
            follow_directory: false,
            ..DivisionPolicy::default()
        },
    )
    .unwrap();
    assert_eq!(blind.owner_of(&TopicId::from("stage")), Some("planner"));
    assert_eq!(blind.assignments()[0].reason, OwnerReason::Rotation);
}

/// The half of the mechanism that wins: an owner reads its own facet and none
/// of the others, and shared context reaches everybody.
#[test]
fn an_owner_reads_its_own_facet_and_not_its_peers() {
    let division = divided(2, &DivisionPolicy::default());
    let transcript = [
        said(1, "planner", "What should we do about the rollout?"),
        said(2, "planner", "!propose #f0 Stage it."),
        said(3, "critic", "!propose #f1 Rename the flag."),
        said(
            4,
            "scout",
            "!support #f0 ^2 Staging bounds the blast radius.",
        ),
        said(
            5,
            "auditor",
            "!propose #elsewhere Something nobody divided.",
        ),
    ];

    let mine = division.scoped(&TopicId::from("f0"), &transcript);
    let sequences: Vec<u64> = mine.iter().map(|row| row.sequence.0).collect();
    // The question, this facet's rows, and the undivided topic — but not the
    // other facet's proposal.
    assert_eq!(sequences, [1, 2, 4, 5]);

    let theirs = division.scoped(&TopicId::from("f1"), &transcript);
    let sequences: Vec<u64> = theirs.iter().map(|row| row.sequence.0).collect();
    assert_eq!(sequences, [1, 3, 5]);
}

/// A seat's own rows are its own, whatever facet they name.
#[test]
fn authorship_is_readable_off_a_row() {
    let row = said(1, "planner", "!propose #f0 Stage it.");
    assert!(Division::authored_by(&row, "planner"));
    assert!(!Division::authored_by(&row, "critic"));
}

/// A width of zero would authorize nobody, which is a configuration error
/// rather than a quieter way of saying one.
#[test]
fn a_zero_width_is_refused() {
    let outcome = divide(
        &facets(2),
        "engineering",
        &MEMBERS,
        None,
        &DivisionPolicy {
            round_width: 0,
            ..DivisionPolicy::default()
        },
    );
    assert!(matches!(outcome, Err(Error::ZeroRoundWidth)));
}

/// A desk with facets and nobody to own them cannot answer the task, and says
/// so rather than returning an empty division that looks like success.
#[test]
fn a_desk_with_no_active_member_is_refused() {
    let outcome = divide(
        &facets(2),
        "engineering",
        &[],
        None,
        &DivisionPolicy::default(),
    );
    match outcome {
        Err(Error::NoSeats { desk_id }) => assert_eq!(desk_id, "engineering"),
        other => panic!("expected NoSeats, got {other:?}"),
    }
}

/// The same arguments produce the same division, every time.
#[test]
fn a_division_is_a_fold() {
    let first = divided(9, &DivisionPolicy::default());
    let second = divided(9, &DivisionPolicy::default());
    assert_eq!(first, second);
}

/// The facets one seat owns, which is the load it actually carries.
#[test]
fn a_seat_owns_the_facets_the_rotation_gave_it() {
    let division = divided(8, &DivisionPolicy::default());
    assert_eq!(
        division.facets_of("planner"),
        [&TopicId::from("f0"), &TopicId::from("f5")]
    );
    assert_eq!(division.facets_of("nobody"), Vec::<&TopicId>::new());
}

/// The default is on, which no other opt-in mechanism here is.
#[test]
fn the_default_policy_divides() {
    let policy = DivisionPolicy::default();
    assert_eq!(
        policy,
        DivisionPolicy {
            round_width: 4,
            follow_directory: true,
        }
    );
    assert!(policy.follow_directory);
    assert_eq!(policy.round_width, DEFAULT_ROUND_WIDTH);
}

/// Where filling the lowest round first would take an extra round, the
/// division still takes the fewest: two facets for the planner and one each
/// for the critic and the scout fit two rounds of two.
#[test]
fn a_busy_seat_still_gets_the_fewest_rounds() {
    let entry = |agent: &str, topic: &str| DirectoryEntry {
        agent_id: agent.into(),
        topic: TopicId::from(topic),
        specialisation: 500,
        credibility: 0,
        weight: 500,
    };
    let known = Directory::from_entries(vec![
        entry("critic", "f0"),
        entry("scout", "f1"),
        entry("planner", "f2"),
        entry("planner", "f3"),
    ])
    .expect("a directory");
    let seats = ["planner", "critic", "scout"];
    let division = divide(
        &facets(4),
        "engineering",
        &seats,
        Some(&known),
        &DivisionPolicy {
            round_width: 2,
            ..DivisionPolicy::default()
        },
    )
    .unwrap();
    let owners: Vec<&str> = division.assignments().iter().map(|held| held.owner.as_str()).collect();
    assert_eq!(owners, ["critic", "scout", "planner", "planner"]);
    assert_eq!(division.depth(), 2);
    for round in 0..division.depth() {
        let held = division.round(round);
        assert!(held.len() <= 2);
        let mut seats: Vec<&str> = held.iter().map(|assigned| assigned.owner.as_str()).collect();
        seats.sort_unstable();
        seats.dedup();
        assert_eq!(seats.len(), held.len());
    }
}

/// The rounds below the depth hold every assignment between them, and the
/// first round past the depth holds none.
#[test]
fn the_rounds_partition_the_assignments() {
    let policy = DivisionPolicy {
        round_width: 3,
        ..DivisionPolicy::default()
    };
    let division = divided(8, &policy);
    assert_eq!(division.depth(), 3);
    let held: usize = (0..division.depth()).map(|round| division.round(round).len()).sum();
    assert_eq!(held, division.assignments().len());
    assert_eq!(held, 8);
    assert!(division.round(division.depth()).is_empty());
}

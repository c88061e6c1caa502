//! What callers read off names, windows, divisions and turns.

use tinyhivemind_hive::attention::BidReason;
use tinyhivemind_hive::division::{divide, DivisionPolicy, OwnerReason};
use tinyhivemind_hive::episode::{project_for, HiveTurn, Phase, Visibility};
use tinyhivemind_hive::names::{holds, push_distinct, same_text};
use tinyhivemind_hive::order::{insert_name, text_less};
use tinyhivemind_hive::session::{Audience, Sequence, SessionAuthor, SessionMessage};
use tinyhivemind_hive::text::chars_of;
use tinyhivemind_hive::trace::{read, TopicId};
use tinyhivemind_hive::window::{addressed_before, same_address, window_indices};

fn said(sequence: u64, author: &str, content: &str) -> SessionMessage {
    SessionMessage {
        sequence: Sequence(sequence),
        author: SessionAuthor::Agent {
            id: author.into(),
            label: author.into(),
        },
        content: content.into(),
        audience: Audience::Desk,
    }
}

#[test]
fn names_compare_by_their_characters() {
    assert!(text_less("archivist", "critic"));
    assert!(text_less("plan", "planner"));
    assert!(!text_less("planner", "plan"));
    assert!(!text_less("scout", "scout"));
    assert!(text_less("", "a"));
    assert!(same_text("scout", "scout"));
    assert!(!same_text("scout", "scouts"));
    assert_eq!(chars_of("née"), ['n', 'é', 'e']);
}

#[test]
fn an_ascending_name_list_stays_ascending_and_distinct() {
    let mut held: Vec<String> = Vec::new();
    for name in ["scout", "critic", "planner", "critic", "archivist"] {
        insert_name(&mut held, name);
    }
    assert_eq!(held, ["archivist", "critic", "planner", "scout"]);

    let mut seen: Vec<String> = Vec::new();
    for name in ["scout", "critic", "scout"] {
        push_distinct(&mut seen, name);
    }
    assert_eq!(seen, ["scout", "critic"]);
    assert!(holds(&seen, "critic"));
    assert!(!holds(&seen, "planner"));
}

#[test]
fn a_window_keeps_the_first_trace_at_each_address_in_order() {
    let traces = read(&[
        said(2, "planner", "!propose #stage\n!question Why?"),
        said(5, "critic", "!support #stage ^2"),
        said(9, "scout", "!question Later?"),
    ]);
    let mut medium = traces.clone();
    medium.insert(0, traces[2].clone());
    medium.push(traces[0].clone());
    // Rows 2 through 5 are within three of row 5; row 9 is after it.
    let picked: Vec<(u64, usize)> = window_indices(&medium, 5, 3)
        .iter()
        .map(|&index| (medium[index].sequence.0, medium[index].offset))
        .collect();
    assert_eq!(picked, [(2, 0), (2, 16), (5, 0)]);
    assert!(window_indices(&medium, 1, 30).is_empty());

    assert!(addressed_before(&traces[0], &traces[1]));
    assert!(!addressed_before(&traces[1], &traces[0]));
    assert!(same_address(&traces[0], &medium[5]));
    assert!(!same_address(&traces[0], &traces[1]));
}

#[test]
fn a_division_answers_for_each_facet_and_each_seat() {
    let facets = [TopicId::from("stage"), TopicId::from("ship"), TopicId::from("pool")];
    let seats = ["planner", "critic"];
    let policy = DivisionPolicy {
        round_width: 2,
        follow_directory: true,
    };
    let division = divide(&facets, "engineering", &seats, None, &policy).expect("divides");
    assert_eq!(division.depth(), 2);
    assert_eq!(division.width(), 2);
    assert_eq!(division.owner_of(&TopicId::from("pool")), Some("planner"));
    assert_eq!(division.owner_of(&TopicId::from("elsewhere")), None);
    assert_eq!(division.facets_of("planner"), [&facets[0], &facets[2]]);
    let first: Vec<&str> = division.round(0).iter().map(|held| held.facet.as_str()).collect();
    assert_eq!(first, ["stage", "ship"]);
    let second: Vec<&str> = division.round(1).iter().map(|held| held.facet.as_str()).collect();
    assert_eq!(second, ["pool"]);
    assert!(division.round(2).is_empty());
    assert!(division
        .assignments()
        .iter()
        .all(|held| held.reason == OwnerReason::Rotation));
    assert!(!division.is_alone());
    assert!(!division.is_empty());
}

#[test]
fn a_turn_reads_what_its_visibility_allows() {
    let transcript = [
        said(1, "planner", "Before the episode."),
        said(3, "critic", "!propose #ship"),
        said(4, "scout", "!support #ship ^3"),
        SessionMessage {
            sequence: Sequence(5),
            author: SessionAuthor::Operator,
            content: "Any update?".into(),
            audience: Audience::Desk,
        },
        said(6, "critic", "Written while the round ran."),
    ];
    let blind = HiveTurn {
        agent_id: "scout".into(),
        phase: Phase::Deliberate,
        visibility: Visibility::Blind,
        reason: BidReason::Quiet,
        watermark: Sequence(2),
        round_start: Sequence(5),
    };
    let rows = |turn: &HiveTurn| -> Vec<u64> {
        project_for(turn, &transcript)
            .iter()
            .map(|message| message.sequence.0)
            .collect()
    };
    assert_eq!(rows(&blind), [1, 4, 5]);
    let full = HiveTurn {
        visibility: Visibility::Full,
        ..blind.clone()
    };
    assert_eq!(rows(&full), [1, 3, 4, 5]);
    let later = HiveTurn {
        round_start: Sequence(6),
        ..full
    };
    assert_eq!(rows(&later), [1, 3, 4, 5, 6]);
}

#[test]
fn copies_keep_every_field() {
    let message = SessionMessage {
        audience: Audience::Aside {
            members: vec!["critic".into(), "scout".into()],
        },
        ..said(3, "planner", "Between us.")
    };
    assert_eq!(message.duplicate(), message);
    assert_eq!(message.author.duplicate(), message.author);
    assert_eq!(message.author.agent_id(), Some("planner"));
    assert_eq!(SessionAuthor::Operator.agent_id(), None);
    assert!(!message.audience.is_desk());
    assert!(Audience::Desk.is_desk());
    let topic = TopicId::new("stage");
    assert_eq!(topic.duplicate(), topic);
    assert!(topic.same(&TopicId::from("stage")));
    assert_eq!(topic.as_str(), "stage");
}

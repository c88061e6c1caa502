//! The library's laws, each checked on concrete values.

use tinyhivemind_hive::directory::{directory, DirectoryPolicy};
use tinyhivemind_hive::division::{divide, DivisionPolicy};
use tinyhivemind_hive::episode::{step, EpisodePolicy, EpisodeState, HiveStep, Phase, Visibility};
use tinyhivemind_hive::horizon::Horizon;
use tinyhivemind_hive::quorum::{standings, QuorumPolicy};
use tinyhivemind_hive::session::{Audience, Conversation, Sequence, SessionAuthor, SessionMessage};
use tinyhivemind_hive::trace::{read, TopicId};

const MEMBERS: [&str; 3] = ["planner", "critic", "scout"];

fn said(sequence: u64, author: &str, content: &str) -> SessionMessage {
    SessionMessage {
        sequence: Sequence(sequence),
        author: SessionAuthor::Agent {
            id: author.into(),
            label: author.into(),
        },
        content: content.into(),
        audience: Audience::Desk,
    }
}

fn aside(sequence: u64, author: &str, members: &[&str], content: &str) -> SessionMessage {
    SessionMessage {
        audience: Audience::Aside {
            members: members.iter().map(|member| (*member).to_owned()).collect(),
        },
        ..said(sequence, author, content)
    }
}

fn opened(watermark: u64) -> EpisodeState {
    EpisodeState::opened(
        Conversation {
            desk_id: "engineering".into(),
            desk_name: "Engineering".into(),
            thread_root: None,
        },
        Sequence(watermark),
    )
}

#[test]
fn a_step_reads_only_the_rows_the_episode_folds() {
    let transcript = vec![
        said(1, "planner", "!propose #ship Before the episode."),
        said(2, "critic", "!support #ship ^1 Also before."),
        said(3, "planner", "!propose #stage Stage it."),
        aside(4, "scout", &["planner"], "!support #stage ^3 Quietly."),
        said(5, "ghost", "!support #stage ^3 Not a member."),
        said(6, "critic", "!support #stage ^3 In the open."),
    ];
    let live: Vec<SessionMessage> = vec![transcript[2].clone(), transcript[5].clone()];
    let state = opened(2);
    for policy in [EpisodePolicy::default(), EpisodePolicy { blind_round: false, ..EpisodePolicy::default() }] {
        assert_eq!(
            step(&state, &transcript, &MEMBERS, &policy),
            step(&state, &live, &MEMBERS, &policy),
        );
    }
}

#[test]
fn asides_anywhere_in_a_transcript_do_not_move_the_step() {
    let open = vec![
        said(1, "planner", "!propose #stage"),
        said(3, "critic", "!support #stage ^1"),
        said(6, "scout", "!question Anything else?"),
    ];
    let mut interleaved = open.clone();
    interleaved.insert(1, aside(2, "planner", &["critic"], "!support #stage ^1 Between us."));
    interleaved.insert(3, aside(4, "scout", &["critic"], "!propose #ship Quietly."));
    interleaved.push(aside(7, "critic", &["scout"], "!commit #stage"));
    let state = opened(0);
    let policy = EpisodePolicy::default();
    assert_eq!(
        step(&state, &interleaved, &MEMBERS, &policy),
        step(&state, &open, &MEMBERS, &policy),
    );
}

#[test]
fn a_transcript_met_twice_over_steps_as_one_met_once() {
    let once = vec![
        said(1, "planner", "!propose #stage Stage it.\n!evidence #stage Logs attached."),
        said(2, "critic", "!support #stage ^1"),
        said(3, "scout", "!object #stage Too early.\n!propose #ship Ship it."),
        said(4, "critic", "!support #ship ^3"),
    ];
    let twice: Vec<SessionMessage> = once
        .iter()
        .flat_map(|message| [message.clone(), message.clone()])
        .collect();
    for watermark in [0, 2] {
        let state = opened(watermark);
        for policy in [EpisodePolicy::default(), EpisodePolicy { blind_round: false, ..EpisodePolicy::default() }] {
            assert_eq!(
                step(&state, &twice, &MEMBERS, &policy),
                step(&state, &once, &MEMBERS, &policy),
            );
        }
    }
}

#[test]
fn every_trace_points_at_its_marker_in_increasing_byte_order() {
    let transcript = vec![
        said(1, "planner", "é😀 preamble\n  !propose #stage Stage it.\n!evidence #stage 😀 logs\n!support #stage ^1"),
        said(2, "critic", "```\n!propose #hidden\n```\n\u{3000}!object >1 Too early."),
    ];
    let traces = read(&transcript);
    assert_eq!(traces.len(), 4);
    for pair in traces.windows(2) {
        if pair[0].sequence == pair[1].sequence {
            assert!(pair[0].offset < pair[1].offset);
        }
    }
    for trace in &traces {
        let row = transcript
            .iter()
            .find(|message| message.sequence == trace.sequence)
            .expect("a row at the trace's sequence");
        assert!(row.content.is_char_boundary(trace.offset));
        assert!(row.content[trace.offset..].starts_with('!'));
        assert!(trace.text.starts_with('!'));
    }
    assert_eq!(traces[0].offset, "é😀 preamble\n  ".len());
    assert_eq!(traces[3].offset, "```\n!propose #hidden\n```\n\u{3000}".len());
}

#[test]
fn every_step_is_bounded_and_the_episode_ends_inside_its_budget() {
    let policy = EpisodePolicy::default();
    let mut state = opened(0);
    let mut transcript = vec![said(1, "planner", "!propose #stage Stage it.")];
    let mut sequence = 1;
    let mut committed = false;
    for _ in 0..=policy.turn_budget {
        match step(&state, &transcript, &MEMBERS, &policy).expect("steps") {
            HiveStep::Speak { turns, next_state } => {
                let width = if next_state.phase == Phase::Commit {
                    1
                } else if turns[0].visibility == Visibility::Blind {
                    policy.round_width
                } else {
                    policy.revealed_width
                };
                assert!(!turns.is_empty() && turns.len() as u32 <= width);
                assert_eq!(next_state.spent, state.spent + turns.len() as u32);
                assert!(next_state.spent <= policy.turn_budget);
                assert!(!committed || next_state.phase == Phase::Commit);
                committed = next_state.phase == Phase::Commit;
                for turn in &turns {
                    sequence += 1;
                    transcript.push(said(sequence, &turn.agent_id, "!question Still thinking."));
                }
                state = *next_state;
            }
            HiveStep::Exhausted { spent } => {
                assert_eq!(spent, policy.turn_budget);
                return;
            }
            other => panic!("expected the budget to end this room, got {other:?}"),
        }
    }
    panic!("the episode outlived its budget");
}

#[test]
fn standings_are_a_fold_over_a_set_of_traces() {
    let transcript = [
        said(1, "planner", "!propose #stage"),
        said(2, "critic", "!support #stage ^1"),
        said(3, "scout", "!propose #ship"),
        said(4, "critic", "!object >3 ^2 Not yet."),
    ];
    let traces = read(&transcript);
    let mut shuffled = traces.clone();
    shuffled.rotate_left(2);
    let mut doubled = traces.clone();
    doubled.extend(traces.iter().cloned());
    let policy = QuorumPolicy::default();
    let once = standings(&traces, Sequence(4), &policy).expect("folds");
    assert_eq!(standings(&shuffled, Sequence(4), &policy).expect("folds"), once);
    assert_eq!(standings(&doubled, Sequence(4), &policy).expect("folds"), once);
}

#[test]
fn the_directory_is_a_fold_over_a_set_of_traces() {
    let transcript = [
        said(1, "archivist", "!evidence #pool It caps at twenty."),
        said(2, "planner", "!support #pool ^1 Raise it."),
        said(3, "critic", "!object >1 Stale."),
    ];
    let traces = read(&transcript);
    let mut shuffled = traces.clone();
    shuffled.swap(0, 2);
    let mut doubled = traces.clone();
    doubled.extend(traces.iter().cloned());
    let policy = DirectoryPolicy::default();
    let once = directory(&traces, Sequence(3), &policy, &[]).expect("folds");
    assert_eq!(directory(&shuffled, Sequence(3), &policy, &[]).expect("folds"), once);
    assert_eq!(directory(&doubled, Sequence(3), &policy, &[]).expect("folds"), once);
}

#[test]
fn distance_back_never_rises_as_a_row_gets_later() {
    let rows = [Sequence(10), Sequence(20), Sequence(30), Sequence(40)];
    for horizon in [Horizon::from(Sequence(40)), Horizon::over(Sequence(40), &rows)] {
        let mut previous = horizon.distance(Sequence(0));
        for sequence in 1..60 {
            let here = horizon.distance(Sequence(sequence));
            assert!(here <= previous);
            previous = here;
        }
    }
}

#[test]
fn a_dense_journal_measures_rows_and_sequences_alike() {
    let dense: Vec<Sequence> = (1..=25).map(Sequence).collect();
    let rows = Horizon::over(Sequence(25), &dense);
    let raw = Horizon::at(Sequence(25));
    for sequence in 1..=25 {
        assert_eq!(rows.distance(Sequence(sequence)), raw.distance(Sequence(sequence)));
    }
    assert_eq!(raw.sequence(), Sequence(25));
    // A raw window admits the horizon's own row and `window` below it.
    assert!(raw.within(Sequence(20), 5));
    assert!(!raw.within(Sequence(19), 5));
    assert!(!raw.within(Sequence(26), 5));
}

#[test]
fn a_facet_named_again_leaves_the_division_as_it_was() {
    let facets = [TopicId::from("stage"), TopicId::from("ship"), TopicId::from("pool")];
    let mut again = facets.to_vec();
    again.push(TopicId::from("ship"));
    let policy = DivisionPolicy::default();
    assert_eq!(
        divide(&again, "engineering", &MEMBERS, None, &policy),
        divide(&facets, "engineering", &MEMBERS, None, &policy),
    );
}

#[test]
fn no_round_repeats_a_seat_or_outgrows_its_lane() {
    for width in 1..7 {
        let policy = DivisionPolicy {
            round_width: width,
            follow_directory: true,
        };
        let facets: Vec<TopicId> = (0..11).map(|index| TopicId::from(format!("f{index}").as_str())).collect();
        let division = divide(&facets, "engineering", &MEMBERS, None, &policy).expect("divides");
        for round in 0..division.depth() {
            let held = division.round(round);
            assert!(!held.is_empty());
            assert!(held.len() as u32 <= width && held.len() <= MEMBERS.len());
            for (index, first) in held.iter().enumerate() {
                for second in &held[index + 1..] {
                    assert_ne!(first.owner, second.owner);
                }
            }
        }
    }
}

#[test]
fn requiring_evidence_already_requires_grounds() {
    let transcript = [
        said(1, "archivist", "!evidence The pool caps at twenty."),
        said(2, "planner", "!propose #pool ^1 Raise it."),
        said(3, "critic", "!support #pool No citation."),
        said(4, "scout", "!support #pool ^2 Cites only an opinion."),
        said(5, "auditor", "!support #pool ^1 Cites the fact."),
        said(6, "critic", "!object >5 Ungrounded objection."),
    ];
    let traces = read(&transcript);
    let evidential = QuorumPolicy {
        require_evidential: true,
        require_grounded: false,
        ..QuorumPolicy::default()
    };
    let both = QuorumPolicy {
        require_grounded: true,
        ..evidential
    };
    let lax = standings(&traces, Sequence(6), &evidential).expect("folds");
    assert_eq!(lax, standings(&traces, Sequence(6), &both).expect("folds"));
    assert!(lax[0].supporters.contains(&"auditor".to_owned()));
    assert!(!lax[0].supporters.contains(&"critic".to_owned()));
}

#[test]
fn a_silenced_advocate_is_never_a_supporter_again() {
    let transcript = [
        said(1, "planner", "!propose #stage"),
        said(2, "critic", "!support #stage ^1"),
        said(3, "scout", "!object >2 ^1 The regions are not independent."),
        said(4, "critic", "!support #stage ^1 Still for it."),
    ];
    let traces = read(&transcript);
    let folded = standings(&traces, Sequence(4), &QuorumPolicy::default()).expect("folds");
    assert_eq!(folded.len(), 1);
    assert_eq!(folded[0].silenced, vec!["critic".to_owned()]);
    assert_eq!(folded[0].supporters, vec!["planner".to_owned()]);
}

#[test]
fn an_objection_never_silences_its_own_author() {
    let transcript = [
        said(1, "planner", "!propose #stage"),
        said(2, "planner", "!object >1 ^1 On second thought."),
    ];
    let traces = read(&transcript);
    let folded = standings(&traces, Sequence(2), &QuorumPolicy::default()).expect("folds");
    assert_eq!(folded.len(), 1);
    assert!(folded[0].silenced.is_empty());
    assert_eq!(folded[0].supporters, vec!["planner".to_owned()]);
}

#[test]
fn a_refutation_alone_makes_no_standing() {
    let transcript = [
        said(1, "planner", "!propose #stage"),
        said(2, "critic", "!refute #ghost ^1 Nobody proposed this."),
    ];
    let traces = read(&transcript);
    let folded = standings(&traces, Sequence(2), &QuorumPolicy::default()).expect("folds");
    let topics: Vec<&str> = folded.iter().map(|standing| standing.topic.as_str()).collect();
    assert_eq!(topics, ["stage"]);
}

#[test]
fn every_round_comes_in_desk_order() {
    let position = |agent: &str| MEMBERS.iter().position(|member| *member == agent).expect("a member");
    for policy in [EpisodePolicy::default(), EpisodePolicy { blind_round: false, ..EpisodePolicy::default() }] {
        let mut state = opened(0);
        let mut transcript = vec![said(1, "planner", "!propose #stage Stage it.")];
        let mut sequence = 1;
        for _ in 0..4 {
            match step(&state, &transcript, &MEMBERS, &policy).expect("steps") {
                HiveStep::Speak { turns, next_state } => {
                    let seats: Vec<usize> = turns.iter().map(|turn| position(&turn.agent_id)).collect();
                    assert!(seats.windows(2).all(|pair| pair[0] < pair[1]), "{seats:?}");
                    for turn in &turns {
                        sequence += 1;
                        transcript.push(said(sequence, &turn.agent_id, "!support #stage ^1"));
                    }
                    state = *next_state;
                }
                _ => break,
            }
        }
    }
}

#[test]
fn the_horizons_own_row_is_always_within_its_window() {
    let rows = [Sequence(2), Sequence(5), Sequence(9)];
    for window in [0u32, 1, 40] {
        assert!(Horizon::at(Sequence(9)).within(Sequence(9), window));
        assert!(Horizon::over(Sequence(9), &rows).within(Sequence(9), window));
        assert!(Horizon::over(Sequence(7), &rows).within(Sequence(7), window));
    }
    assert_eq!(Horizon::over(Sequence(7), &rows).distance(Sequence(7)), 0);
}

#[test]
fn a_member_refuting_a_topic_is_never_its_supporter() {
    let transcript = [
        said(1, "planner", "!propose #stage"),
        said(2, "critic", "!support #stage ^1"),
        said(3, "critic", "!refute #stage ^1 The regions share a database."),
        said(4, "scout", "!support #stage ^1"),
        said(5, "scout", "!support #stage ^1 Again."),
    ];
    let traces = read(&transcript);
    let folded = standings(&traces, Sequence(5), &QuorumPolicy::default()).expect("folds");
    assert_eq!(folded.len(), 1);
    assert_eq!(folded[0].refuted_by, vec!["critic".to_owned()]);
    assert_eq!(folded[0].supporters, vec!["planner".to_owned(), "scout".to_owned()]);
    assert!(folded[0].support >= 0);
}

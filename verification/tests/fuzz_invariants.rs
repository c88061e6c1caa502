//! Deterministic fuzz-style invariants for the trace, quorum, directory and
//! attention folds, and for the episode step.

use tinyhivemind_hive::attention::{bids, BidContext};
use tinyhivemind_hive::directory::{directory, DirectoryPolicy};
use tinyhivemind_hive::episode::{step, EpisodePolicy, EpisodeState};
use tinyhivemind_hive::quorum::{standings, QuorumPolicy};
use tinyhivemind_hive::salience::SalienceWeights;
use tinyhivemind_hive::session::{Audience, Conversation, Sequence, SessionAuthor, SessionMessage};
use tinyhivemind_hive::trace::{read, Trace, TRACE_CAP};

const MEMBERS: [&str; 4] = ["agent-0", "agent-1", "agent-2", "agent-3"];

fn next(state: &mut u64) -> u64 {
    *state ^= *state << 7;
    *state ^= *state >> 9;
    *state
}

fn author(index: u64) -> SessionAuthor {
    SessionAuthor::Agent {
        id: format!("agent-{}", index % 4),
        label: format!("Agent {}", index % 4),
    }
}

fn content(state: &mut u64) -> String {
    const LINES: [&str; 18] = [
        "!propose #stage",
        "!support #stage ^1",
        "!object >1 ^2",
        "!refute #stage ^1",
        "!refute #stage",
        "!refute ^1",
        "!question",
        "!commit #stage",
        "not a marker !support",
        "```\n!propose #hidden\n```",
        "~~~\n!support #hidden ^1\n~~~",
        "!unknown #ignored",
        "!support #ship ^3 ^3",
        "!defer #stage",
        "!defer",
        "😀",
        "é",
        "\n",
    ];
    let count = usize::try_from(next(state) % 24).expect("bounded count");
    (0..count)
        .map(|_| {
            let index = usize::try_from(next(state) % LINES.len() as u64).expect("index fits");
            LINES[index]
        })
        .collect::<Vec<_>>()
        .join("\n")
}

fn opened() -> EpisodeState {
    EpisodeState::opened(
        Conversation {
            desk_id: "room".into(),
            desk_name: "Room".into(),
            thread_root: None,
        },
        Sequence(0),
    )
}

#[test]
fn arbitrary_transcripts_have_stable_well_formed_and_idempotent_folds() {
    let mut state = 0x05ee_da11_ce55_u64;
    let policy = QuorumPolicy {
        threshold: 2,
        window: 100,
        require_grounded: true,
        ..QuorumPolicy::default()
    };
    // The same corpus under the narrowing policy, so citation-chain resolution
    // is fuzzed for termination on cycles and self-citations too.
    let evidential = QuorumPolicy {
        require_evidential: true,
        ..policy
    };

    for case in 0..256_u64 {
        let messages: Vec<SessionMessage> = (0..8_u64)
            .map(|index| SessionMessage {
                sequence: Sequence(case * 16 + index),
                author: author(index),
                content: content(&mut state),
                audience: Audience::Desk,
            })
            .collect();
        let traces = read(&messages);

        for pair in traces.windows(2) {
            assert!((pair[0].sequence, pair[0].offset) <= (pair[1].sequence, pair[1].offset));
        }
        for trace in &traces {
            let message = messages
                .iter()
                .find(|message| message.sequence == trace.sequence)
                .expect("trace sequence comes from the supplied transcript");
            assert!(message.content.is_char_boundary(trace.offset));
            assert_eq!(message.content[trace.offset..].chars().next(), Some('!'));
            assert!(trace.text.starts_with('!'));
        }

        let doubled_and_reversed: Vec<_> = traces
            .iter()
            .rev()
            .chain(traces.iter().rev())
            .cloned()
            .collect();
        let at = messages.last().expect("nonempty transcript").sequence;
        assert_eq!(
            standings(&traces, at, &policy).expect("valid policy"),
            standings(&doubled_and_reversed, at, &policy).expect("valid policy"),
        );
        assert_eq!(
            standings(&traces, at, &evidential).expect("valid policy"),
            standings(&doubled_and_reversed, at, &evidential).expect("valid policy"),
        );
        // The directory is folded on the same address and must be just as
        // order-independent.
        let known = DirectoryPolicy {
            window: 100,
            ..DirectoryPolicy::default()
        };
        assert_eq!(
            directory(&traces, at, &known, &[]).expect("valid policy"),
            directory(&doubled_and_reversed, at, &known, &[]).expect("valid policy"),
        );

        // The attention market folds the same medium and must be just as
        // order-independent.
        let weights = SalienceWeights::default();
        let members: Vec<&str> = MEMBERS.to_vec();
        let market = |folded: &[Trace]| {
            let standings = standings(folded, at, &policy).expect("valid policy");
            bids(&BidContext {
                traces: folded,
                standings: &standings,
                members: &members,
                thresholds: &[],
                at,
                weights: &weights,
                dominance_cap: 50,
                repetition_cap: 3,
                window: policy.window,
                knowers: &[],
            })
            .expect("valid policy")
        };
        assert_eq!(market(&traces), market(&doubled_and_reversed));

        // And `step` over the same transcript redelivered message by message,
        // which is how a host actually meets a duplicate.
        let redelivered: Vec<SessionMessage> = messages
            .iter()
            .flat_map(|message| [message.clone(), message.clone()])
            .collect();
        let episode = EpisodePolicy {
            directory: Some(known),
            defer_cap: Some(2),
            ..EpisodePolicy::default()
        };
        assert_eq!(
            step(&opened(), &messages, &MEMBERS, &episode).expect("valid policy"),
            step(&opened(), &redelivered, &MEMBERS, &episode).expect("valid policy"),
        );

        assert!(traces.len() <= messages.len() * TRACE_CAP);
    }
}

/// An aside interleaved anywhere in an arbitrary transcript leaves `step`
/// exactly where it was. The aside rows carry the same fuzzed grammar as the
/// desk rows, so the corpus includes private `!propose`, `!support` and
/// `!commit` lines that would carry real weight if the filter ever slipped.
#[test]
fn asides_interleaved_into_an_arbitrary_transcript_do_not_move_the_episode() {
    let mut state = 0xc0ff_eea5_1de5_u64;
    let episode = EpisodePolicy {
        directory: Some(DirectoryPolicy::default()),
        defer_cap: Some(2),
        ..EpisodePolicy::default()
    };

    for case in 0..256_u64 {
        // Desk rows on even sequences, so an aside always has an odd sequence
        // of its own to land on between two of them.
        let desk: Vec<SessionMessage> = (0..8_u64)
            .map(|index| SessionMessage {
                sequence: Sequence(case * 32 + index * 2),
                author: author(index),
                content: content(&mut state),
                audience: Audience::Desk,
            })
            .collect();

        let mut interleaved: Vec<SessionMessage> = Vec::new();
        for (index, message) in desk.iter().enumerate() {
            interleaved.push(message.clone());
            // Not every turn carries one, so runs of desk rows are covered
            // too.
            if next(&mut state) % 3 == 0 {
                continue;
            }
            let members: Vec<String> = MEMBERS
                .iter()
                .skip(usize::try_from(next(&mut state) % 4).expect("bounded index"))
                .take(2)
                .map(|id| (*id).to_owned())
                .collect();
            interleaved.push(SessionMessage {
                sequence: Sequence(case * 32 + index as u64 * 2 + 1),
                author: message.author.clone(),
                content: content(&mut state),
                audience: Audience::Aside { members },
            });
        }

        assert_eq!(
            step(&opened(), &desk, &MEMBERS, &episode).expect("valid policy"),
            step(&opened(), &interleaved, &MEMBERS, &episode).expect("valid policy"),
        );
    }
}

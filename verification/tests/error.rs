//! The crate-wide error type.

use tinyhivemind_hive::directory::{directory, DirectoryPolicy};
use tinyhivemind_hive::error::{Error, Result};
use tinyhivemind_hive::session::Sequence;

#[test]
fn every_message_is_lowercase_without_trailing_punctuation() {
    let errors = [
        Error::DuplicateAgentThreshold {
            agent_id: "planner".into(),
        },
        Error::UnknownThresholdMember {
            agent_id: "planner".into(),
            desk_id: "engineering".into(),
        },
        Error::ZeroHalfLife,
        Error::ZeroQuorumThreshold,
        Error::ZeroQuorumWindow,
        Error::ZeroRefutationCap,
        Error::ZeroDirectoryHalfLife,
        Error::ZeroDirectoryWindow,
        Error::ZeroDeferCap,
        Error::ZeroRoundWidth,
        Error::NoSeats {
            desk_id: "engineering".into(),
        },
    ];
    for error in errors {
        let message = error.message();
        assert!(!message.is_empty(), "{error:?} has an empty message");
        assert!(
            !message.ends_with(['.', '!', '?']),
            "{message:?} ends with punctuation",
        );
        let first = message.chars().next().expect("a first character");
        assert!(
            !first.is_uppercase(),
            "{message:?} starts with an uppercase letter",
        );
    }
}

#[test]
fn the_result_alias_carries_the_crate_error() {
    fn failing() -> Result<()> {
        Err(Error::ZeroHalfLife)
    }
    assert!(failing().is_err());
}

#[test]
fn a_malformed_directory_policy_produces_its_own_variant() {
    let zero_half_life = DirectoryPolicy {
        half_life: 0,
        ..DirectoryPolicy::default()
    };
    assert!(matches!(
        directory(&[], Sequence(1), &zero_half_life, &[]),
        Err(Error::ZeroDirectoryHalfLife),
    ));

    let zero_window = DirectoryPolicy {
        window: 0,
        ..DirectoryPolicy::default()
    };
    assert!(matches!(
        directory(&[], Sequence(1), &zero_window, &[]),
        Err(Error::ZeroDirectoryWindow),
    ));
}

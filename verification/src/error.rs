//! Typed failures from malformed inputs.

use vstd::prelude::*;
use vstd::string::*;

verus! {

/// Why a fold or a step refused its inputs.
#[derive(Clone, Debug, PartialEq, Eq)]
pub enum Error {
    /// Two threshold or prior records name one agent.
    DuplicateAgentThreshold { agent_id: String },
    /// A carried threshold names someone who is not an active member of the desk.
    UnknownThresholdMember { agent_id: String, desk_id: String },
    /// Salience weights with a zero half-life.
    ZeroHalfLife,
    /// A quorum policy with a zero threshold.
    ZeroQuorumThreshold,
    /// A quorum policy with a zero window.
    ZeroQuorumWindow,
    /// A quorum policy whose refutation cap is zero.
    ZeroRefutationCap,
    /// A directory policy with a zero half-life.
    ZeroDirectoryHalfLife,
    /// A directory policy with a zero window.
    ZeroDirectoryWindow,
    /// An episode policy whose defer cap is zero.
    ZeroDeferCap,
    /// A policy that authorizes no round width at all.
    ZeroRoundWidth,
    /// A desk with no active member to own a facet.
    NoSeats { desk_id: String },
}

/// The result every fallible entry point returns.
pub type Result<T> = core::result::Result<T, Error>;

/// The lowercase, unpunctuated message for each failure.
pub open spec fn error_message(error: Error) -> Seq<char> {
    match error {
        Error::DuplicateAgentThreshold { agent_id } =>
            "duplicate agent threshold `"@ + agent_id@ + "`"@,
        Error::UnknownThresholdMember { agent_id, desk_id } =>
            "threshold `"@ + agent_id@ + "` is not an active member of desk `"@ + desk_id@ + "`"@,
        Error::ZeroHalfLife => "salience half life must not be zero"@,
        Error::ZeroQuorumThreshold => "quorum threshold must not be zero"@,
        Error::ZeroQuorumWindow => "quorum window must not be zero"@,
        Error::ZeroRefutationCap => "refutation cap must not be zero"@,
        Error::ZeroDirectoryHalfLife => "directory half life must not be zero"@,
        Error::ZeroDirectoryWindow => "directory window must not be zero"@,
        Error::ZeroDeferCap => "defer cap must not be zero"@,
        Error::ZeroRoundWidth => "round width must not be zero"@,
        Error::NoSeats { desk_id } => "desk `"@ + desk_id@ + "` has no active member to seat"@,
    }
}

impl Error {
    /// Render this failure as its message.
    pub fn message(&self) -> (text: String)
        ensures
            text@ == error_message(*self),
    {
        match self {
            Error::DuplicateAgentThreshold { agent_id } => {
                let mut text = String::from_str("duplicate agent threshold `");
                text.append(agent_id.as_str());
                text.append("`");
                text
            },
            Error::UnknownThresholdMember { agent_id, desk_id } => {
                let mut text = String::from_str("threshold `");
                text.append(agent_id.as_str());
                text.append("` is not an active member of desk `");
                text.append(desk_id.as_str());
                text.append("`");
                text
            },
            Error::ZeroHalfLife => String::from_str("salience half life must not be zero"),
            Error::ZeroQuorumThreshold => String::from_str("quorum threshold must not be zero"),
            Error::ZeroQuorumWindow => String::from_str("quorum window must not be zero"),
            Error::ZeroRefutationCap => String::from_str("refutation cap must not be zero"),
            Error::ZeroDirectoryHalfLife => String::from_str(
                "directory half life must not be zero",
            ),
            Error::ZeroDirectoryWindow => String::from_str("directory window must not be zero"),
            Error::ZeroDeferCap => String::from_str("defer cap must not be zero"),
            Error::ZeroRoundWidth => String::from_str("round width must not be zero"),
            Error::NoSeats { desk_id } => {
                let mut text = String::from_str("desk `");
                text.append(desk_id.as_str());
                text.append("` has no active member to seat");
                text
            },
        }
    }
}

} // verus!

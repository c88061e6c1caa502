//! What one authorized turn may see.

use vstd::prelude::*;

use super::types::{HiveTurn, Visibility};
use crate::session::{MessageView, SessionMessage};

verus! {

/// Whether one message is inside a turn's two time filters.
///
/// A peer agent's row is withheld when it was authored after the round was
/// folded, since it is concurrent with this turn, and, while the room is
/// blind, when it was authored anywhere within the episode. The turn-holder's
/// own rows, and everything that is not a peer agent's, pass either way.
pub open spec fn readable(turn: HiveTurn, message: SessionMessage) -> bool {
    match message.author.agent_view() {
        None => true,
        Some(id) => id == turn.agent_id@ || match turn.visibility {
            Visibility::Full => message.sequence.0 <= turn.round_start.0,
            Visibility::Blind => message.sequence.0 <= turn.watermark.0,
        },
    }
}

/// The messages a turn may read, in order.
pub open spec fn readable_of(turn: HiveTurn, messages: Seq<SessionMessage>) -> Seq<MessageView>
    decreases messages.len(),
{
    if messages.len() == 0 {
        Seq::empty()
    } else {
        let earlier = readable_of(turn, messages.drop_last());
        if readable(turn, messages.last()) {
            earlier.push(messages.last()@)
        } else {
            earlier
        }
    }
}

/// Filter a transcript to what one authorized turn may see.
///
/// Under `Full` visibility a peer's row passes unless it was written after the
/// round was folded. Under `Blind` visibility the rows of peer agents authored
/// within this episode are withheld, while operator, person and system rows,
/// the turn-holder's own, and anything at or below the episode's watermark
/// remain: the participant still sees the task, its own work, and the
/// conversation that led into the episode, just not the positions its peers
/// have taken since the room opened. A withheld row is dropped; it arrives on
/// a later turn.
///
/// Rows addressed to an aside pass this filter like any other and come back
/// with their content: eliding an aside for a turn-holder outside it is the
/// host's audience projection, applied to what this returns.
pub fn project_for(turn: &HiveTurn, messages: &[SessionMessage]) -> (visible: Vec<SessionMessage>)
    ensures
        visible@.map_values(|m: SessionMessage| m@) == readable_of(*turn, messages@),
{
    let mut visible: Vec<SessionMessage> = Vec::new();
    let mut i: usize = 0;
    while i < messages.len()
        invariant
            i <= messages@.len(),
            visible@.map_values(|m: SessionMessage| m@) == readable_of(*turn, messages@.take(i as int)),
        decreases messages@.len() - i,
    {
        let message = &messages[i];
        assert(messages@.take(i + 1).drop_last() =~= messages@.take(i as int));
        assert(messages@.take(i + 1).last() == *message);
        let keep = match message.author.agent_id() {
            None => true,
            Some(id) => {
                if crate::names::same_text(id, turn.agent_id.as_str()) {
                    true
                } else {
                    match turn.visibility {
                        Visibility::Full => message.sequence.0 <= turn.round_start.0,
                        Visibility::Blind => message.sequence.0 <= turn.watermark.0,
                    }
                }
            },
        };
        if keep {
            let ghost before = visible@;
            visible.push(message.duplicate());
            assert(visible@.map_values(|m: SessionMessage| m@) =~= before.map_values(|m: SessionMessage| m@).push(
                message@,
            ));
        }
        i = i + 1;
    }
    assert(messages@.take(messages@.len() as int) =~= messages@);
    visible
}

} // verus!

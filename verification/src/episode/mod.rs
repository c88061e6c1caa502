//! The episode: a pure state machine over a transcript the caller holds.
//!
//! [`step`] answers one question, who if anyone speaks next and whether the
//! room has finished, and answers it from arguments alone. There is nothing to
//! await. A host reads its log, runs the authorized turns, appends them, and
//! calls [`step`] again.

mod delegation;
mod laws;
mod replay;
mod run;
mod seating;
mod spec;
mod types;
mod view;

pub use crate::division::DEFAULT_ROUND_WIDTH;
pub use laws::{
    law_asides_do_not_move_the_step, law_converges_on_a_recorded_commit, law_decision_reads_a_set, law_round_bounded, law_step_deterministic,
    law_step_reads_only_live_rows,
};
pub use delegation::{
    contested, deferral_count, deferred_topic, deferrers, defers, folded_directory, holds_topic, knowers_in, knowers_of,
    knowers, knows_promoted, promoted,
};
pub use replay::law_redelivery_does_not_move_the_step;
pub use seating::{in_desk_order, increasing_below, law_round_in_desk_order};
pub use run::{active_members, step, step_accepts, step_result};
pub use spec::{
    active_of, admits, backs_tied, candidates_of, charged_of, charged_record, clamp_i64, converges, decision, free_dissenter,
    heard, live_of, market_of, next_of, policy_error, quorum_error, recorded, repeat_error, round_at,
    setup_error, speak_cost, standing_named, step_outcome, stray_at, turns_of, unheard_of,
    visibility_of, width_for,
};
pub use types::{
    DEFAULT_REVEALED_WIDTH, EpisodePolicy, EpisodeState, HiveStep, HiveTurn, Phase, StateView,
    StepView, TurnView, Visibility, default_episode, turn_views,
};
pub use view::{project_for, readable};

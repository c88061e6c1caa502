//! The attention market: every member bids, and the highest bids take the
//! floor.
//!
//! Each member computes an urge from the salience field and its own affinity;
//! the floor goes to the highest urge. Taking the argmax rather than everyone
//! above threshold is what bounds a round: there is no way to express more
//! winners than the round allows.
//!
//! Two corrections fold into the bid rather than sitting beside it:
//!
//! - **Dominance.** Share is measured over grounded, surviving contributions
//!   rather than raw message count, because raw count is a proxy an agent
//!   inflates for free.
//! - **Repetition.** Once a topic has `repetition_cap` distinct supporters,
//!   restating it scores nothing.

mod laws;
mod medium;
mod market;
mod spec;
mod types;

pub use laws::{
    count_where, law_answered_member_is_addressed, law_floor_goes_to_the_first_highest, law_round_takes_the_top, law_round_within_width};
pub use medium::{fresh_sum, law_bids_idempotent, law_bids_read_a_set, lemma_bids_alike, lemma_fresh_sum_set, plain_sum, pull_term, room_term, share_term};
pub(crate) use market::{is_member, record_of};
pub use market::{bids, floor_holder, floor_round, BidContext, attention_capacity, bid_view, bid_views, bids_outcome, market};
pub use spec::{
    ahead, highest, outranks, round_of, BidView, Market, Urge, addressed, addressed_bonus, authored, backs_deadlock, bids_of,
    counts_toward, deadlock, dissent_bonus, knows_bonus, dominance_penalty, exceeds, lopsided, member_relevance,
    member_share, most_supporters, pull, quiet_bonus, quiet_member, quietest_in, record_for,
    repeats_address, room_count, room_total, saturate, saturated, scores_any, share_count, share_floor, share_of,
    survives, threshold_of, tied_count, urge_of,
};
pub use types::{
    AgentThreshold, Bid, BidReason, ThresholdView, affinity_view, declared_in, neutral_relevance,
    relevance_of, threshold_views,
};

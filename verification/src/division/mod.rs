//! Division of labour: a task's facets, split across the seats that own them.
//!
//! Every other mechanism in this crate helps a room decide one question. This
//! one decides how many questions there are and who takes each.
//!
//! A division is two halves, and dropping either loses the win:
//!
//! - **Who owns what.** Dividing a task across seats buys nothing on its own;
//!   dividing it along a line where competence differs is what buys, which is
//!   why [`divide`] asks the [`Directory`] rather than only counting seats.
//! - **What each owner reads.** [`Division::scoped`]: an owner sees its own
//!   facet's rows and none of the others'.
//!
//! [`divide`] is a fold over arguments the caller already holds. The
//! concurrency it authorizes is a number of rounds; the host does the waiting.

mod pack;
mod scope;
mod fewest;
mod tally;
mod types;

pub use fewest::{
    dealt, earlier_seats, fewest, fewest_packing, fewest_rounds, first_from, first_of, grouped_at, held_by,
    below_round, in_round_at, law_rounds_partition, most_owned, owned_by, owners_of, placement_ok, rounds_to_hold,
    rounds_total,
};
pub use pack::{
    divide, division_of, fits, first_fit, law_division_takes_fewest_rounds, law_repeated_facet_changes_nothing,
    law_round_owners_distinct,
    law_round_within_lane, lane_of,
    owned_facets, owner_for, pack, place, division_outcome,
};
pub use scope::{authored_by, keeps, law_scope_keeps_its_own_rows, scoped_of};
pub use types::{
    Assignment, AssignmentView, DEFAULT_ROUND_WIDTH, Division, DivisionPolicy, OwnerReason,
    assignment_views, default_division, depth_of, facets_owned, in_round, owner_in, round_owners,
    width_of,
};

use crate::directory::Directory;

//! Who knows what, folded from grounded deposits and the citations they drew.
//!
//! A group's memory is the directory, not the contents. Two factors can be
//! estimated from an attributed transcript: **specialisation**, whose deposits
//! cluster on a topic, and **credibility**, whose deposits other members build
//! on. The host's declared affinity is a diffuse cue and enters as a prior;
//! the two folded terms are the specific ones.
//!
//! Nothing here is stored. [`directory`] is a fold over traces the caller
//! already holds, over the same window [`standings`](crate::quorum::standings)
//! reads, so it is order-independent and idempotent on `(sequence, offset)`
//! exactly as standings are.
//!
//! Speech is deliberately not the estimator. Talking more, ungrounded, earns
//! nothing: only a stated fact or a grounded position deposits, and only other
//! members' citations earn credibility.

mod alike;
mod fold;
mod laws;
mod spec;
mod types;

pub use alike::lemma_directory_alike;
pub use fold::{directory, directory_capacity, directory_outcome};
pub use laws::{law_deposit_counts, law_directory_idempotent, law_directory_order_independent, lemma_directory_unique};
pub use spec::{
    aged, attributed, by_on, credibility_of, credibility_raw, credit_sum, credit_term, credits,
    debit_sum, debit_term, deferred, deposit_value, entry_for, holder, holds_at, is_deposit,
    is_directory, prior_record, prior_value, repeats_at, specialisation_sum, specialisation_term,
    weigh_value,
};
pub use types::{
    EntryError, decode_outcome, entry_error_message, first_out_of_range, out_of_range, pairs_distinct, repeated, same_pair,
    by_weight, decimal, digits, entries_on, holder_text, joined, line_for, lines_of, has_entry, lemma_top_member_range, member_names, top_in, top_member, topics_of, weight_in, Directory, DirectoryEntry, DirectoryPolicy, EntryView, WEIGHT_CEILING, default_directory,
    entries_sorted, entry_lt, entry_views, weights_in_range,
};

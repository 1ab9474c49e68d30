//! The detector variants: four independent single-pass scanners over the
//! token stream, each with its own trigger and window policy.

pub mod builtin_naive;
mod naive;
mod naive_forward;
mod pair;
mod typical;

pub use naive::NaiveDetector;
pub use naive::NaiveState;
pub use naive::NaiveStatus;
pub use naive::init_naive_state;
pub use naive::naive_msg;
pub use naive::naive_row_bumped;
pub use naive::naive_run;
pub use naive::naive_step;

pub use naive_forward::ForwardState;
pub use naive_forward::NaiveForwardDetector;
pub use naive_forward::NaiveForwardStatus;
pub use naive_forward::forward_msg;
pub use naive_forward::forward_row_bumped;
pub use naive_forward::forward_run;
pub use naive_forward::forward_state_ok;
pub use naive_forward::forward_step;
pub use naive_forward::init_forward_state;

pub use pair::PairDetector;
pub use pair::PairState;
pub use pair::PairStatus;
pub use pair::init_pair_state;
pub use pair::pair_emits;
pub use pair::pair_msg;
pub use pair::pair_row_bumped;
pub use pair::pair_run;
pub use pair::pair_step;

pub use typical::TypicalDetector;
pub use typical::TypicalState;
pub use typical::TypicalStatus;
pub use typical::init_typical_state;
pub use typical::typical_emits;
pub use typical::typical_msg;
pub use typical::typical_run;
pub use typical::typical_step;

pub use builtin_naive::builtin_probs;
pub use builtin_naive::builtin_words;
pub use builtin_naive::diag_triples;
pub use builtin_naive::triples_view;

pub use naive::comma_guard;
pub use naive::lemma_naive_adjacent_triggers;
pub use naive::lemma_naive_adjacent_triggers_in_stream;
pub use naive::lemma_naive_comma_satisfied;
pub use naive::lemma_naive_cursor_closed_form;
pub use naive::lemma_naive_run_append;
pub use naive::lemma_naive_no_triggers;
pub use naive::lemma_naive_repeatable;
pub use naive_forward::comma_follows_triggers;
pub use naive_forward::lemma_forward_comma_satisfied;
pub use naive_forward::lemma_forward_no_triggers;
pub use naive_forward::lemma_forward_repeatable;
pub use pair::lemma_pair_emits_unarmed;
pub use pair::lemma_pair_no_triggers;
pub use pair::lemma_pair_repeatable;
pub use typical::comma_in;
pub use typical::lemma_typical_emits_unseen;
pub use typical::lemma_typical_no_triggers;
pub use typical::lemma_typical_prefix;
pub use typical::lemma_typical_repeatable;
pub use typical::lemma_typical_run_append;
pub use typical::lemma_typical_sentence_no_comma;
pub use typical::lemma_typical_sentence_with_comma;
pub use typical::seen_in;

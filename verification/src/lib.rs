//! A bounded-depth, self-pruning tree of records that reference a parent by
//! key, in the style of fork-choice bookkeeping: records may arrive out of
//! order or form competing branches, only a sliding window of recent heights
//! is retained, and when the root ages past the window it is advanced to the
//! child that leads the winning branch while every other branch is abandoned.

mod height_index;
mod node;
mod organizer;
mod store;

pub use node::lemma_without_key;
pub use node::without_key;
pub use node::NodeView;
pub use node::ReorgNode;
pub use organizer::advance_admissible;
pub use organizer::advance_due;
pub use organizer::allowed_oldest_of;
pub use organizer::best_score;
pub use organizer::branch_of;
pub use organizer::candidate_sane;
pub use organizer::chosen_mode;
pub use organizer::cleanup_spares;
pub use organizer::commit_survives;
pub use organizer::healthy;
pub use organizer::heights_sane;
pub use organizer::indexed_key;
pub use organizer::keys_consistent;
pub use organizer::lemma_best_score_sound;
pub use organizer::lemma_diagnostics_of_healthy;
pub use organizer::lemma_frontier_is_max;
pub use organizer::lemma_root_excluded;
pub use organizer::lemma_selected_branch_sound;
pub use organizer::lineage_sane;
pub use organizer::max_of;
pub use organizer::rejected_dangling;
pub use organizer::rejected_too_old;
pub use organizer::resolved_head;
pub use organizer::same_but_children;
pub use organizer::sat_sub;
pub use organizer::selected_branch;
pub use organizer::tally_branches;
pub use organizer::upsert_score;
pub use organizer::views_of;
pub use organizer::walk_measure;
pub use organizer::InvariantViolation;
pub use organizer::Organizer;
pub use organizer::OrganizerView;
pub use store::distinct_keys;
pub use store::key_at;

mod correctness;
mod sparse;
mod sparse_history;
mod sparse_history_bounded;

pub use sparse::SparseMerkleTree;
pub use sparse::TreeModel;
pub use sparse::cache_len;
pub use sparse::frontier_after;
pub use sparse::latest_root;
pub use sparse::node_hash;
pub use sparse::path_index;
pub use sparse::step_output;
pub use sparse::step_state;
pub use sparse::tree_wf;
pub use sparse::walk_ok;
pub use sparse::zero_chain;
pub use sparse::zero_chain_ok;
pub use correctness::full_root;
pub use correctness::frontier_synced;
pub use correctness::init_model;
pub use correctness::lemma_determinism;
pub use correctness::lemma_empty_subtree;
pub use correctness::lemma_frontier_after_synced;
pub use correctness::lemma_init_synced;
pub use correctness::lemma_latest_only;
pub use correctness::lemma_insert_preserves_synced;
pub use correctness::lemma_push_preserves_full_subtree;
pub use correctness::lemma_walk_matches_full;
pub use correctness::run_ok;
pub use correctness::lemma_run_root_matches_full;
pub use correctness::run_outputs;
pub use correctness::run_state;
pub use correctness::tree_synced;
pub use correctness::zeros_chained;
pub use sparse_history::HistoryModel;
pub use sparse_history::SparseMerkleTreeWithHistory;
pub use sparse_history::history_run_state;
pub use sparse_history::history_step_state;
pub use sparse_history::lemma_history_run_retains;
pub use sparse_history::lemma_history_step_retains;
pub use sparse_history_bounded::BoundedModel;
pub use sparse_history_bounded::SparseMerkleTreeWithHistoryBounded;
pub use sparse_history_bounded::claim_slot;
pub use sparse_history_bounded::drop_key;
pub use sparse_history_bounded::keep_below;
pub use sparse_history_bounded::lemma_bounded_eviction;
pub use sparse_history_bounded::lemma_bounded_window;
pub use sparse_history_bounded::lemma_presence_matches_slots;
pub use sparse_history_bounded::lemma_record_roots_step;
pub use sparse_history_bounded::record_roots;
pub use sparse_history_bounded::slot_keys_unique;
pub use sparse_history_bounded::window_len;
pub use sparse_history_bounded::window_slots;
pub use sparse_history_bounded::slot_roots;
pub use sparse_history_bounded::slots_synced;

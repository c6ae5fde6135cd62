//! An append-only, fixed-depth sparse Merkle tree used as a verifiable
//! commitment structure: leaves are inserted sequentially and a compact root
//! hash authenticates the full leaf set, while only the zero-hash cache and
//! a frontier of live hashes are kept. Three root-validity policies are
//! provided: latest root only, unbounded root history, and a bounded
//! circular history that evicts the oldest retained root.

mod digest;
mod tree;
mod error;
mod hasher;

pub use digest::Blake2;
pub use digest::Word256;
pub use digest::blake2_two;
pub use error::HasherError;
pub use error::MerkleTreeError;
pub use hasher::Hasher;
pub use hasher::MerkleLeaf;
pub use tree::SparseMerkleTree;
pub use tree::TreeModel;
pub use tree::cache_len;
pub use tree::frontier_after;
pub use tree::latest_root;
pub use tree::node_hash;
pub use tree::path_index;
pub use tree::step_output;
pub use tree::step_state;
pub use tree::tree_wf;
pub use tree::walk_ok;
pub use tree::zero_chain;
pub use tree::zero_chain_ok;
pub use tree::full_root;
pub use tree::frontier_synced;
pub use tree::init_model;
pub use tree::lemma_determinism;
pub use tree::lemma_empty_subtree;
pub use tree::lemma_frontier_after_synced;
pub use tree::lemma_init_synced;
pub use tree::lemma_latest_only;
pub use tree::lemma_insert_preserves_synced;
pub use tree::lemma_push_preserves_full_subtree;
pub use tree::lemma_walk_matches_full;
pub use tree::run_ok;
pub use tree::lemma_run_root_matches_full;
pub use tree::run_outputs;
pub use tree::run_state;
pub use tree::tree_synced;
pub use tree::zeros_chained;
pub use tree::HistoryModel;
pub use tree::SparseMerkleTreeWithHistory;
pub use tree::history_run_state;
pub use tree::history_step_state;
pub use tree::lemma_history_run_retains;
pub use tree::lemma_history_step_retains;
pub use tree::BoundedModel;
pub use tree::SparseMerkleTreeWithHistoryBounded;
pub use tree::claim_slot;
pub use tree::drop_key;
pub use tree::keep_below;
pub use tree::lemma_bounded_eviction;
pub use tree::lemma_bounded_window;
pub use tree::lemma_presence_matches_slots;
pub use tree::lemma_record_roots_step;
pub use tree::record_roots;
pub use tree::slot_keys_unique;
pub use tree::window_len;
pub use tree::window_slots;
pub use tree::slot_roots;
pub use tree::slots_synced;

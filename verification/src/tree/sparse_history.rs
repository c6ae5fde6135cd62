use vstd::prelude::*;

use vstd::arithmetic::power2::pow2;

use crate::error::MerkleTreeError;
use crate::hasher::Hasher;
use crate::hasher::MerkleLeaf;
use crate::tree::sparse::SparseMerkleTree;
use crate::tree::sparse::TreeModel;
use crate::tree::sparse::tree_wf;
use crate::tree::sparse::cache_len;
use crate::tree::sparse::latest_root;
use crate::tree::sparse::node_hash;
use crate::tree::sparse::step_output;
use crate::tree::sparse::step_state;
use crate::tree::sparse::walk_ok;
use crate::tree::sparse::zero_chain;
use crate::tree::sparse::zero_chain_ok;

verus! {

/// Mathematical state of a tree with unbounded root history.
#[verifier::ext_equal]
pub struct HistoryModel<L> {
    /// State of the underlying tree.
    pub tree: TreeModel<L>,
    /// Every root ever produced by an insertion, in order.
    pub history: Seq<L>,
}

/// The history state after one insertion: the tree advances, and on success
/// the new root is recorded.
pub open spec fn history_step_state<L, H: Hasher<L>>(
    m: HistoryModel<L>,
    leaf: L,
    h: H,
) -> HistoryModel<L> {
    HistoryModel {
        tree: step_state(m.tree, leaf, h),
        history: match step_output(m.tree, leaf, h) {
            Some(out) => m.history.push(out.1),
            None => m.history,
        },
    }
}

/// The history state after inserting a sequence of leaves one by one.
pub open spec fn history_run_state<L, H: Hasher<L>>(
    m: HistoryModel<L>,
    leaves: Seq<L>,
    h: H,
) -> HistoryModel<L>
    decreases leaves.len(),
{
    if leaves.len() == 0 {
        m
    } else {
        history_run_state(history_step_state(m, leaves.first(), h), leaves.drop_first(), h)
    }
}

/// Like [`SparseMerkleTree`] but a candidate root is checked against all
/// roots ever produced, not only the latest one.
pub struct SparseMerkleTreeWithHistory<L> {
    tree: SparseMerkleTree<L>,
    root_history: Vec<L>,
}

impl<L> View for SparseMerkleTreeWithHistory<L> {
    type V = HistoryModel<L>;

    closed spec fn view(&self) -> HistoryModel<L> {
        HistoryModel { tree: self.tree@, history: self.root_history@ }
    }
}

impl<L: MerkleLeaf> SparseMerkleTreeWithHistory<L> {
    /// Structural well-formedness of the tree state.
    pub open spec fn wf(&self) -> bool {
        tree_wf(self@.tree)
    }

    /// A fresh, uninitialized tree with empty history.
    pub fn new() -> (r: Self)
        ensures
            r.wf(),
            !r@.tree.initialized,
            r@.history.len() == 0,
    {
        SparseMerkleTreeWithHistory {
            tree: SparseMerkleTree::new(),
            root_history: Vec::new(),
        }
    }

    /// Initialize the underlying tree; the history is untouched.
    pub fn init<H: Hasher<L>>(&mut self, level: u8, default_leaf: L, hasher: &H) -> (r: Result<
        (),
        MerkleTreeError,
    >)
        requires
            old(self).wf(),
            level <= 63,
        ensures
            final(self).wf(),
            final(self)@.history == old(self)@.history,
            old(self)@.tree.initialized ==> {
                &&& r == Err::<(), MerkleTreeError>(MerkleTreeError::AlreadyInit)
                &&& final(self)@ == old(self)@
            },
            !old(self)@.tree.initialized ==> {
                let len = cache_len(level as nat);
                if zero_chain_ok(*hasher, default_leaf, len) {
                    &&& r == Ok::<(), MerkleTreeError>(())
                    &&& final(self)@.tree.initialized
                    &&& final(self)@.tree.level == level as nat
                    &&& final(self)@.tree.zeros == zero_chain(*hasher, default_leaf, len)
                    &&& final(self)@.tree.frontier == final(self)@.tree.zeros
                    &&& final(self)@.tree.leaves.len() == 0
                    &&& final(self)@.tree.root is None
                } else {
                    &&& r matches Err(MerkleTreeError::Hasher(_))
                    &&& final(self)@ == old(self)@
                }
            },
    {
        let r = self.tree.init(level, default_leaf, hasher);
        proof {
            assert(self@ =~= HistoryModel { tree: self.tree@, history: old(self)@.history });
            if old(self)@.tree.initialized {
                assert(self@ =~= old(self)@);
            }
        }
        r
    }

    /// Whether `root` was produced by any insertion since initialization.
    pub fn is_valid_root(&self, root: &L) -> (r: Result<bool, MerkleTreeError>)
        ensures
            r is Ok,
            r->Ok_0 == self@.history.contains(*root),
    {
        let mut j: usize = 0;
        while j < self.root_history.len()
            invariant
                j <= self.root_history.len(),
                forall|k: int| 0 <= k < j ==> self.root_history@[k] != *root,
        decreases self.root_history.len() - j,
        {
            if self.root_history[j].eq_leaf(root) {
                return Ok(true);
            }
            j += 1;
        }
        Ok(false)
    }

    /// Insert into the underlying tree and, on success, record the new root
    /// in the unbounded history.
    pub fn insert<H: Hasher<L>>(&mut self, leaf: L, hasher: &H) -> (r: Result<
        (u64, L),
        MerkleTreeError,
    >)
        requires
            old(self).wf(),
            old(self)@.tree.initialized,
        ensures
            final(self).wf(),
            final(self)@ == history_step_state(old(self)@, leaf, *hasher),
            ({
                let m = old(self)@.tree;
                let n = m.leaves.len();
                if n >= pow2(m.level) {
                    r == Err::<(u64, L), MerkleTreeError>(MerkleTreeError::ExceedMaxLeaf)
                } else if walk_ok(*hasher, m.zeros, m.frontier, leaf, n, m.level) {
                    r == Ok::<(u64, L), MerkleTreeError>(
                        (n as u64, node_hash(*hasher, m.zeros, m.frontier, leaf, n, m.level)),
                    )
                } else {
                    r matches Err(MerkleTreeError::Hasher(_))
                }
            }),
    {
        match self.tree.insert(leaf, hasher) {
            Ok((index, new_root)) => {
                self.root_history.push(new_root.clone_leaf());
                proof {
                    assert(self@ =~= history_step_state(old(self)@, leaf, *hasher));
                }
                Ok((index, new_root))
            },
            Err(e) => {
                proof {
                    assert(self@ =~= history_step_state(old(self)@, leaf, *hasher));
                }
                Err(e)
            },
        }
    }

    /// The latest root of the underlying tree.
    pub fn get_latest_root(&self) -> (r: Result<L, MerkleTreeError>)
        requires
            self.wf(),
            self@.tree.initialized,
        ensures
            r == Ok::<L, MerkleTreeError>(latest_root(self@.tree)),
    {
        self.tree.get_latest_root()
    }
}

/// Unbounded-history policy: one insertion never invalidates a recorded
/// root, and on success it records the root it returns.
pub proof fn lemma_history_step_retains<L, H: Hasher<L>>(
    m: HistoryModel<L>,
    leaf: L,
    h: H,
    r0: L,
)
    requires
        m.history.contains(r0),
    ensures
        history_step_state(m, leaf, h).history.contains(r0),
        step_output(m.tree, leaf, h) matches Some(out) ==> history_step_state(
            m,
            leaf,
            h,
        ).history.contains(out.1),
{
    match step_output(m.tree, leaf, h) {
        Some(out) => {
            let idx = choose|k: int| 0 <= k < m.history.len() && m.history[k] == r0;
            assert(m.history.push(out.1)[idx] == r0);
            assert(m.history.push(out.1)[m.history.len() as int] == out.1);
        },
        None => {},
    }
}

/// Unbounded-history policy: a root once recorded remains valid no matter
/// how many insertions follow.
pub proof fn lemma_history_run_retains<L, H: Hasher<L>>(
    m: HistoryModel<L>,
    leaves: Seq<L>,
    h: H,
    r0: L,
)
    requires
        m.history.contains(r0),
    ensures
        history_run_state(m, leaves, h).history.contains(r0),
    decreases leaves.len(),
{
    if leaves.len() > 0 {
        lemma_history_step_retains(m, leaves.first(), h, r0);
        lemma_history_run_retains(history_step_state(m, leaves.first(), h), leaves.drop_first(), h, r0);
    }
}

} // verus!

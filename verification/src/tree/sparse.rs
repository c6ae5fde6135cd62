use vstd::prelude::*;

use vstd::arithmetic::div_mod::lemma_div_denominator;
use vstd::arithmetic::power2::lemma2_to64;
use vstd::arithmetic::power2::lemma2_to64_rest;
use vstd::arithmetic::power2::lemma_pow2_adds;
use vstd::arithmetic::power2::lemma_pow2_pos;
use vstd::arithmetic::power2::lemma_pow2_strictly_increases;
use vstd::arithmetic::power2::lemma_pow2_unfold;
use vstd::arithmetic::power2::pow2;

use crate::error::MerkleTreeError;
use crate::hasher::Hasher;
use crate::hasher::MerkleLeaf;

verus! {

/// Mathematical state of a sparse Merkle tree.
#[verifier::ext_equal]
pub struct TreeModel<L> {
    /// Whether `init` has completed.
    pub initialized: bool,
    /// The fixed tree depth; capacity is `pow2(level)` leaves.
    pub level: nat,
    /// Per-level hash of a perfectly empty subtree; `zeros[0]` is the default leaf.
    pub zeros: Seq<L>,
    /// Most recently completed left-subtree hash per level.
    pub frontier: Seq<L>,
    /// All leaves, in insertion order.
    pub leaves: Seq<L>,
    /// The root derived by the most recent insertion, if any.
    pub root: Option<L>,
}

/// Length of the zero-hash cache for a given depth: the cache always holds
/// at least the default leaf, and one entry per level otherwise.
pub open spec fn cache_len(level: nat) -> nat {
    if level == 0 {
        1
    } else {
        level
    }
}

/// The zero-hash cache of length `len`: entry 0 is the default leaf and each
/// further entry combines the previous one with itself.
pub open spec fn zero_chain<L, H: Hasher<L>>(h: H, default_leaf: L, len: nat) -> Seq<L>
    decreases len,
{
    if len <= 1 {
        seq![default_leaf]
    } else {
        let prev = zero_chain(h, default_leaf, (len - 1) as nat);
        prev.push(h.spec_hash(prev.last(), prev.last()))
    }
}

/// Whether every combine building the zero-hash cache of length `len` succeeds.
pub open spec fn zero_chain_ok<L, H: Hasher<L>>(h: H, default_leaf: L, len: nat) -> bool
    decreases len,
{
    if len <= 1 {
        true
    } else {
        let prev = zero_chain(h, default_leaf, (len - 1) as nat);
        zero_chain_ok(h, default_leaf, (len - 1) as nat) && h.spec_hash_ok(
            prev.last(),
            prev.last(),
        )
    }
}

/// Index of the node on the path of leaf `index` at level `i`.
pub open spec fn path_index(index: nat, i: nat) -> nat {
    index / pow2(i)
}

/// The hash carried by the insertion walk when it reaches level `i`, for a
/// leaf inserted at `index`: at each level a left child combines with the
/// cached zero hash, a right child with the saved frontier entry.
pub open spec fn node_hash<L, H: Hasher<L>>(
    h: H,
    zeros: Seq<L>,
    frontier: Seq<L>,
    leaf: L,
    index: nat,
    i: nat,
) -> L
    decreases i,
{
    if i == 0 {
        leaf
    } else {
        let below = node_hash(h, zeros, frontier, leaf, index, (i - 1) as nat);
        if path_index(index, (i - 1) as nat) % 2 == 0 {
            h.spec_hash(below, zeros[i - 1])
        } else {
            h.spec_hash(frontier[i - 1], below)
        }
    }
}

/// Whether every combine of the insertion walk up to level `i` succeeds.
pub open spec fn walk_ok<L, H: Hasher<L>>(
    h: H,
    zeros: Seq<L>,
    frontier: Seq<L>,
    leaf: L,
    index: nat,
    i: nat,
) -> bool
    decreases i,
{
    if i == 0 {
        true
    } else {
        let below = node_hash(h, zeros, frontier, leaf, index, (i - 1) as nat);
        walk_ok(h, zeros, frontier, leaf, index, (i - 1) as nat) && if path_index(
            index,
            (i - 1) as nat,
        ) % 2 == 0 {
            h.spec_hash_ok(below, zeros[i - 1])
        } else {
            h.spec_hash_ok(frontier[i - 1], below)
        }
    }
}

/// The frontier after inserting a leaf at `index`: refreshed with the walk
/// hash at every level where the path turns left, untouched elsewhere.
pub open spec fn frontier_after<L, H: Hasher<L>>(
    h: H,
    zeros: Seq<L>,
    frontier: Seq<L>,
    leaf: L,
    index: nat,
    level: nat,
) -> Seq<L> {
    Seq::new(
        frontier.len(),
        |i: int|
            if i < level && path_index(index, i as nat) % 2 == 0 {
                node_hash(h, zeros, frontier, leaf, index, i as nat)
            } else {
                frontier[i]
            },
    )
}

/// The tree state after one insertion: unchanged when the tree is full; with
/// the leaf appended but frontier and root untouched when a combine fails;
/// fully advanced otherwise.
pub open spec fn step_state<L, H: Hasher<L>>(m: TreeModel<L>, leaf: L, h: H) -> TreeModel<L> {
    if m.leaves.len() >= pow2(m.level) {
        m
    } else if walk_ok(h, m.zeros, m.frontier, leaf, m.leaves.len(), m.level) {
        TreeModel {
            initialized: m.initialized,
            level: m.level,
            zeros: m.zeros,
            frontier: frontier_after(h, m.zeros, m.frontier, leaf, m.leaves.len(), m.level),
            leaves: m.leaves.push(leaf),
            root: Some(node_hash(h, m.zeros, m.frontier, leaf, m.leaves.len(), m.level)),
        }
    } else {
        TreeModel {
            initialized: m.initialized,
            level: m.level,
            zeros: m.zeros,
            frontier: m.frontier,
            leaves: m.leaves.push(leaf),
            root: m.root,
        }
    }
}

/// The index and root a successful insertion returns, `None` when it fails.
pub open spec fn step_output<L, H: Hasher<L>>(m: TreeModel<L>, leaf: L, h: H) -> Option<(u64, L)> {
    if m.leaves.len() < pow2(m.level) && walk_ok(h, m.zeros, m.frontier, leaf, m.leaves.len(), m.level) {
        Some(
            (
                m.leaves.len() as u64,
                node_hash(h, m.zeros, m.frontier, leaf, m.leaves.len(), m.level),
            ),
        )
    } else {
        None
    }
}

/// What `get_latest_root` returns: the persisted root if any insertion has
/// happened, the final entry of the zero-hash cache otherwise.
pub open spec fn latest_root<L>(m: TreeModel<L>) -> L {
    match m.root {
        Some(r) => r,
        None => m.zeros.last(),
    }
}

/// Incremental sparse Merkle tree with a fixed depth and a default leaf,
/// keeping only the latest root.
pub struct SparseMerkleTree<L> {
    initialized: bool,
    level: u8,
    zeros: Vec<L>,
    frontier: Vec<L>,
    leafs: Vec<L>,
    root: Option<L>,
}

impl<L> View for SparseMerkleTree<L> {
    type V = TreeModel<L>;

    closed spec fn view(&self) -> TreeModel<L> {
        TreeModel {
            initialized: self.initialized,
            level: self.level as nat,
            zeros: self.zeros@,
            frontier: self.frontier@,
            leaves: self.leafs@,
            root: self.root,
        }
    }
}

/// Copy a vector of leaves element by element.
pub(crate) fn clone_leaves<L: MerkleLeaf>(v: &Vec<L>) -> (r: Vec<L>)
    ensures
        r@ == v@,
{
    let mut out: Vec<L> = Vec::new();
    let mut j: usize = 0;
    while j < v.len()
        invariant
            j <= v.len(),
            out@ == v@.subrange(0, j as int),
        decreases v.len() - j,
    {
        out.push(v[j].clone_leaf());
        proof {
            assert(v@.subrange(0, (j + 1) as int) =~= v@.subrange(0, j as int).push(v@[j as int]));
        }
        j += 1;
    }
    proof {
        assert(out@ =~= v@);
    }
    out
}

/// Compute `pow2(level)` as a machine integer.
fn pow2_u64(level: u8) -> (r: u64)
    requires
        level <= 63,
    ensures
        r == pow2(level as nat),
{
    let mut i: u8 = 0;
    let mut r: u64 = 1;
    proof {
        lemma2_to64();
        lemma2_to64_rest();
    }
    while i < level
        invariant
            i <= level,
            level <= 63,
            r == pow2(i as nat),
            pow2(63) == 0x8000000000000000,
        decreases level - i,
    {
        proof {
            lemma_pow2_unfold((i + 1) as nat);
            if ((i + 1) as nat) < 63 {
                lemma_pow2_strictly_increases((i + 1) as nat, 63);
            }
        }
        r = r * 2;
        i = i + 1;
    }
    r
}

/// `zero_chain_ok` at a longer length implies it at any shorter one.
proof fn lemma_zero_chain_ok_mono<L, H: Hasher<L>>(h: H, default_leaf: L, i: nat, len: nat)
    requires
        i <= len,
        zero_chain_ok(h, default_leaf, len),
    ensures
        zero_chain_ok(h, default_leaf, i),
    decreases len,
{
    if i < len && len > 1 {
        lemma_zero_chain_ok_mono(h, default_leaf, i, (len - 1) as nat);
    }
}

/// `walk_ok` at a higher level implies it at any lower one.
proof fn lemma_walk_ok_mono<L, H: Hasher<L>>(
    h: H,
    zeros: Seq<L>,
    frontier: Seq<L>,
    leaf: L,
    index: nat,
    i: nat,
    lvl: nat,
)
    requires
        i <= lvl,
        walk_ok(h, zeros, frontier, leaf, index, lvl),
    ensures
        walk_ok(h, zeros, frontier, leaf, index, i),
    decreases lvl,
{
    if i < lvl {
        lemma_walk_ok_mono(h, zeros, frontier, leaf, index, i, (lvl - 1) as nat);
    }
}

/// Structural well-formedness of a tree state.
pub open spec fn tree_wf<L>(m: TreeModel<L>) -> bool {
    &&& (m.initialized ==> {
        &&& m.level <= 63
        &&& m.zeros.len() == cache_len(m.level)
        &&& m.frontier.len() == m.zeros.len()
        &&& m.leaves.len() <= pow2(m.level)
    })
    &&& (!m.initialized ==> {
        &&& m.leaves.len() == 0
        &&& m.root is None
    })
}

impl<L: MerkleLeaf> SparseMerkleTree<L> {
    /// Structural well-formedness of the tree state.
    pub open spec fn wf(&self) -> bool {
        tree_wf(self@)
    }

    /// A fresh, uninitialized tree.
    pub fn new() -> (r: Self)
        ensures
            r.wf(),
            !r@.initialized,
    {
        SparseMerkleTree {
            initialized: false,
            level: 0,
            zeros: Vec::new(),
            frontier: Vec::new(),
            leafs: Vec::new(),
            root: None,
        }
    }

    /// Set the depth once, build the zero-hash cache by repeated
    /// self-combination of the default leaf, and seed the frontier with it.
    /// Re-initialization is rejected; a combiner failure leaves the tree
    /// uninitialized.
    #[verifier::loop_isolation(false)]
    pub fn init<H: Hasher<L>>(&mut self, level: u8, default_leaf: L, hasher: &H) -> (r: Result<
        (),
        MerkleTreeError,
    >)
        requires
            old(self).wf(),
            level <= 63,
        ensures
            final(self).wf(),
            old(self)@.initialized ==> {
                &&& r == Err::<(), MerkleTreeError>(MerkleTreeError::AlreadyInit)
                &&& final(self)@ == old(self)@
            },
            !old(self)@.initialized ==> {
                let len = cache_len(level as nat);
                if zero_chain_ok(*hasher, default_leaf, len) {
                    &&& r == Ok::<(), MerkleTreeError>(())
                    &&& final(self)@.initialized
                    &&& final(self)@.level == level as nat
                    &&& final(self)@.zeros == zero_chain(*hasher, default_leaf, len)
                    &&& final(self)@.frontier == final(self)@.zeros
                    &&& final(self)@.leaves.len() == 0
                    &&& final(self)@.root is None
                } else {
                    &&& r matches Err(MerkleTreeError::Hasher(_))
                    &&& final(self)@ == old(self)@
                }
            },
    {
        if self.initialized {
            return Err(MerkleTreeError::AlreadyInit);
        }
        let ghost len = cache_len(level as nat);
        let mut hashes: Vec<L> = Vec::new();
        hashes.push(default_leaf);
        proof {
            assert(hashes@ =~= zero_chain(*hasher, default_leaf, 1));
        }
        let mut i: usize = 1;
        while i < level as usize
            invariant
                1 <= i,
                level as usize <= 63,
                i <= 63,
                len == cache_len(level as nat),
                i as nat <= len,
                hashes@.len() == i,
                hashes@ == zero_chain(*hasher, default_leaf, i as nat),
                zero_chain_ok(*hasher, default_leaf, i as nat),
                !self.initialized,
                self@ == old(self)@,
            decreases level as usize - i,
        {
            let parent = match hasher.hash_two(&hashes[i - 1], &hashes[i - 1]) {
                Ok(p) => p,
                Err(e) => {
                    proof {
                        assert(len == level as nat);
                        assert(!zero_chain_ok(*hasher, default_leaf, (i + 1) as nat));
                        if zero_chain_ok(*hasher, default_leaf, len) {
                            lemma_zero_chain_ok_mono(*hasher, default_leaf, (i + 1) as nat, len);
                        }
                    }
                    return Err(MerkleTreeError::Hasher(e));
                },
            };
            hashes.push(parent);
            proof {
                assert(hashes@ =~= zero_chain(*hasher, default_leaf, (i + 1) as nat));
            }
            i += 1;
        }
        let frontier = clone_leaves(&hashes);
        self.level = level;
        self.zeros = hashes;
        self.frontier = frontier;
        self.initialized = true;
        Ok(())
    }

    /// Whether `root` equals the latest persisted root; no history is kept.
    pub fn is_valid_root(&self, root: &L) -> (r: Result<bool, MerkleTreeError>)
        ensures
            r is Ok,
            r->Ok_0 == (self@.root == Some(*root)),
    {
        match &self.root {
            Some(cur) => Ok(cur.eq_leaf(root)),
            None => Ok(false),
        }
    }

    /// Insert `leaf` at the next free index and derive the new root in one
    /// walk from the leaf level to the top. Fails with `ExceedMaxLeaf` when
    /// the tree is full, and propagates a combiner failure with the leaf
    /// already appended but frontier and root untouched.
    #[verifier::loop_isolation(false)]
    pub fn insert<H: Hasher<L>>(&mut self, leaf: L, hasher: &H) -> (r: Result<
        (u64, L),
        MerkleTreeError,
    >)
        requires
            old(self).wf(),
            old(self)@.initialized,
        ensures
            final(self).wf(),
            final(self)@ == step_state(old(self)@, leaf, *hasher),
            ({
                let m = old(self)@;
                let n = m.leaves.len();
                if n >= pow2(m.level) {
                    r == Err::<(u64, L), MerkleTreeError>(MerkleTreeError::ExceedMaxLeaf)
                } else if walk_ok(*hasher, m.zeros, m.frontier, leaf, n, m.level) {
                    r == Ok::<(u64, L), MerkleTreeError>(
                        (n as u64, node_hash(*hasher, m.zeros, m.frontier, leaf, n, m.level)),
                    )
                } else {
                    r matches Err(MerkleTreeError::Hasher(_))
                }
            }),
    {
        let ghost m = self@;
        let cap = pow2_u64(self.level);
        let index_usize = self.leafs.len();
        proof {
            if (m.level as nat) < 63 {
                lemma_pow2_strictly_increases(m.level as nat, 63);
            }
            lemma2_to64();
            lemma2_to64_rest();
        }
        let index = index_usize as u64;
        if index >= cap {
            return Err(MerkleTreeError::ExceedMaxLeaf);
        }
        self.leafs.push(leaf.clone_leaf());
        let mut cur_hash = leaf;
        let mut cur_idx: u64 = index;
        let mut new_frontier: Vec<L> = Vec::new();
        let level = self.level as usize;
        let mut i: usize = 0;
        proof {
            assert(pow2(0) == 1) by {
                lemma2_to64();
            }
        }
        while i < level
            invariant
                i <= level,
                level == m.level,
                self@.leaves == m.leaves.push(leaf),
                self@.frontier == m.frontier,
                self@.zeros == m.zeros,
                self@.root == m.root,
                self@.initialized,
                self@.level == m.level,
                m.zeros.len() == cache_len(m.level),
                m.frontier.len() == m.zeros.len(),
                index == m.leaves.len(),
                index < pow2(m.level),
                m.level <= 63,
                cur_hash == node_hash(*hasher, m.zeros, m.frontier, leaf, index as nat, i as nat),
                cur_idx == path_index(index as nat, i as nat),
                walk_ok(*hasher, m.zeros, m.frontier, leaf, index as nat, i as nat),
                new_frontier@ == frontier_after(
                    *hasher,
                    m.zeros,
                    m.frontier,
                    leaf,
                    index as nat,
                    m.level,
                ).subrange(0, i as int),
            decreases level - i,
        {
            let parent = if cur_idx % 2 == 0 {
                new_frontier.push(cur_hash.clone_leaf());
                hasher.hash_two(&cur_hash, &self.zeros[i])
            } else {
                new_frontier.push(self.frontier[i].clone_leaf());
                hasher.hash_two(&self.frontier[i], &cur_hash)
            };
            proof {
                let fa = frontier_after(*hasher, m.zeros, m.frontier, leaf, index as nat, m.level);
                assert(fa.subrange(0, (i + 1) as int) =~= fa.subrange(0, i as int).push(fa[i as int]));
            }
            cur_hash = match parent {
                Ok(p) => p,
                Err(e) => {
                    proof {
                        assert(!walk_ok(*hasher, m.zeros, m.frontier, leaf, index as nat, (i + 1) as nat));
                        if walk_ok(*hasher, m.zeros, m.frontier, leaf, index as nat, m.level) {
                            lemma_walk_ok_mono(
                                *hasher,
                                m.zeros,
                                m.frontier,
                                leaf,
                                index as nat,
                                (i + 1) as nat,
                                m.level,
                            );
                        }
                        assert(self@ =~= step_state(m, leaf, *hasher));
                    }
                    return Err(MerkleTreeError::Hasher(e));
                },
            };
            proof {
                lemma_pow2_pos(i as nat);
                lemma_pow2_unfold((i + 1) as nat);
                lemma_div_denominator(index as int, pow2(i as nat) as int, 2);
                lemma_pow2_adds(i as nat, 1);
                lemma2_to64();
                assert(pow2((i + 1) as nat) == pow2(i as nat) * 2);
                assert(path_index(index as nat, (i + 1) as nat) == path_index(
                    index as nat,
                    i as nat,
                ) / 2);
            }
            cur_idx = cur_idx / 2;
            i += 1;
        }
        // extend the new frontier with the untouched tail (only relevant at depth 0,
        // where the cache holds one entry but the walk visits no level)
        while i < self.frontier.len()
            invariant
                level <= i,
                i <= self.frontier.len(),
                self@.frontier == m.frontier,
                level == m.level,
                new_frontier@ == frontier_after(
                    *hasher,
                    m.zeros,
                    m.frontier,
                    leaf,
                    index as nat,
                    m.level,
                ).subrange(0, i as int),
            decreases self.frontier.len() - i,
        {
            new_frontier.push(self.frontier[i].clone_leaf());
            proof {
                let fa = frontier_after(*hasher, m.zeros, m.frontier, leaf, index as nat, m.level);
                assert(fa.subrange(0, (i + 1) as int) =~= fa.subrange(0, i as int).push(fa[i as int]));
            }
            i += 1;
        }
        proof {
            let fa = frontier_after(*hasher, m.zeros, m.frontier, leaf, index as nat, m.level);
            assert(new_frontier@ =~= fa);
        }
        self.frontier = new_frontier;
        self.root = Some(cur_hash.clone_leaf());
        proof {
            assert(self@ =~= step_state(m, leaf, *hasher));
        }
        Ok((index, cur_hash))
    }

    /// The latest root, or the final zero-hash cache entry before any insertion.
    pub fn get_latest_root(&self) -> (r: Result<L, MerkleTreeError>)
        requires
            self.wf(),
            self@.initialized,
        ensures
            r == Ok::<L, MerkleTreeError>(latest_root(self@)),
    {
        match &self.root {
            Some(cur) => Ok(cur.clone_leaf()),
            None => Ok(self.zeros[self.zeros.len() - 1].clone_leaf()),
        }
    }
}

} // verus!

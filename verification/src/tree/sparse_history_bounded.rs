use vstd::prelude::*;

use vstd::arithmetic::div_mod::lemma_fundamental_div_mod;
use vstd::arithmetic::div_mod::lemma_fundamental_div_mod_converse;
use vstd::arithmetic::div_mod::lemma_mod_division_less_than_divisor;
use vstd::arithmetic::div_mod::lemma_mod_self_0;
use vstd::arithmetic::div_mod::lemma_mod_sub_multiples_vanish;
use vstd::arithmetic::div_mod::lemma_small_mod;
use vstd::arithmetic::power2::pow2;
use vstd::seq_lib::group_to_multiset_ensures;

use crate::error::MerkleTreeError;
use crate::hasher::Hasher;
use crate::hasher::MerkleLeaf;
use crate::tree::sparse::SparseMerkleTree;
use crate::tree::sparse::TreeModel;
use crate::tree::sparse::cache_len;
use crate::tree::sparse::tree_wf;
use crate::tree::sparse::latest_root;
use crate::tree::sparse::node_hash;
use crate::tree::sparse::step_state;
use crate::tree::sparse::walk_ok;
use crate::tree::sparse::zero_chain;
use crate::tree::sparse::zero_chain_ok;

verus! {

broadcast use group_to_multiset_ensures;

/// Mathematical state of a tree with bounded, circular root history.
#[verifier::ext_equal]
pub struct BoundedModel<L> {
    /// State of the underlying tree.
    pub tree: TreeModel<L>,
    /// Position of the most recent entry in the circular buffer.
    pub index: nat,
    /// The slot-to-root arena: one entry per occupied slot position.
    pub slots: Seq<(u32, L)>,
    /// The presence record mirroring the roots held by the slots.
    pub presence: Seq<L>,
}

/// The roots held by the slots, in slot-entry order.
pub open spec fn slot_roots<L>(slots: Seq<(u32, L)>) -> Seq<L> {
    slots.map_values(|p: (u32, L)| p.1)
}

/// No slot position occurs twice.
pub open spec fn slot_keys_unique<L>(slots: Seq<(u32, L)>) -> bool {
    forall|a: int, b: int|
        0 <= a < b < slots.len() ==> (#[trigger] slots[a]).0 != (#[trigger] slots[b]).0
}

/// The presence record holds exactly the roots of the slots.
pub open spec fn slots_synced<L>(slots: Seq<(u32, L)>, presence: Seq<L>) -> bool {
    presence.to_multiset() == slot_roots(slots).to_multiset()
}

/// The slot arena without its entries at the given position, order kept.
pub open spec fn drop_key<L>(slots: Seq<(u32, L)>, key: u32) -> Seq<(u32, L)>
    decreases slots.len(),
{
    if slots.len() == 0 {
        Seq::empty()
    } else {
        let rest = drop_key(slots.drop_last(), key);
        if slots.last().0 == key {
            rest
        } else {
            rest.push(slots.last())
        }
    }
}

/// The slot arena after one recording at position `next`: the root that
/// occupied the slot, if any, is evicted, and the new root is appended.
pub open spec fn claim_slot<L>(slots: Seq<(u32, L)>, next: u32, root: L) -> Seq<(u32, L)> {
    drop_key(slots, next).push((next, root))
}

/// Dropping a position that no entry holds leaves the arena unchanged.
proof fn lemma_drop_key_absent<L>(slots: Seq<(u32, L)>, key: u32)
    requires
        forall|i: int| 0 <= i < slots.len() ==> (#[trigger] slots[i]).0 != key,
    ensures
        drop_key(slots, key) == slots,
    decreases slots.len(),
{
    if slots.len() > 0 {
        let prefix = slots.drop_last();
        assert(forall|i: int| 0 <= i < prefix.len() ==> (#[trigger] prefix[i]).0 != key);
        lemma_drop_key_absent(prefix, key);
        assert(drop_key(slots, key) =~= slots);
    } else {
        assert(drop_key(slots, key) =~= slots);
    }
}

/// On a key-unique arena, dropping an occupied position removes exactly the
/// one entry that holds it.
proof fn lemma_drop_key_unique<L>(slots: Seq<(u32, L)>, key: u32, j: int)
    requires
        slot_keys_unique(slots),
        0 <= j < slots.len(),
        slots[j].0 == key,
    ensures
        drop_key(slots, key) == slots.remove(j),
    decreases slots.len(),
{
    let prefix = slots.drop_last();
    if j == slots.len() - 1 {
        assert forall|i: int| 0 <= i < prefix.len() implies (#[trigger] prefix[i]).0 != key by {
            assert(prefix[i] == slots[i]);
            assert(slots[i].0 != slots[j].0);
        }
        lemma_drop_key_absent(prefix, key);
        assert(drop_key(slots, key) =~= slots.remove(j));
    } else {
        assert(slot_keys_unique(prefix));
        assert(prefix[j] == slots[j]);
        lemma_drop_key_unique(prefix, key, j);
        assert(slots.last().0 != key) by {
            assert(slots[j].0 != slots[slots.len() - 1].0);
        }
        assert(drop_key(prefix, key).push(slots.last()) =~= slots.remove(j));
    }
}

/// The slot entries whose position lies below `bound`, in their original
/// order: what the capacity sweep retains.
pub open spec fn keep_below<L>(slots: Seq<(u32, L)>, bound: u32) -> Seq<(u32, L)>
    decreases slots.len(),
{
    if slots.len() == 0 {
        Seq::empty()
    } else {
        let rest = keep_below(slots.drop_last(), bound);
        if slots.last().0 < bound {
            rest.push(slots.last())
        } else {
            rest
        }
    }
}

/// Find the position of a slot entry with the given key.
fn find_slot<L>(v: &Vec<(u32, L)>, key: u32) -> (r: Option<usize>)
    ensures
        match r {
            Some(j) => j < v@.len() && v@[j as int].0 == key,
            None => forall|k: int| 0 <= k < v@.len() ==> (#[trigger] v@[k]).0 != key,
        },
{
    let mut j: usize = 0;
    while j < v.len()
        invariant
            j <= v.len(),
            forall|k: int| 0 <= k < j ==> (#[trigger] v@[k]).0 != key,
        decreases v.len() - j,
    {
        if v[j].0 == key {
            return Some(j);
        }
        j += 1;
    }
    None
}

/// Find the position of a leaf value in a vector.
fn find_leaf<L: MerkleLeaf>(v: &Vec<L>, x: &L) -> (r: Option<usize>)
    ensures
        match r {
            Some(j) => j < v@.len() && v@[j as int] == *x,
            None => !v@.contains(*x),
        },
{
    let mut j: usize = 0;
    while j < v.len()
        invariant
            j <= v.len(),
            forall|k: int| 0 <= k < j ==> v@[k] != *x,
        decreases v.len() - j,
    {
        if v[j].eq_leaf(x) {
            return Some(j);
        }
        j += 1;
    }
    None
}

/// Like [`SparseMerkleTree`] but a candidate root is checked against the
/// roots of the last `HISTORY_LEVEL` insertions, kept in a circular buffer:
/// each insertion evicts the root occupying the slot it claims.
pub struct SparseMerkleTreeWithHistoryBounded<L, const HISTORY_LEVEL: u32> {
    tree: SparseMerkleTree<L>,
    history_index: u32,
    root_index: Vec<(u32, L)>,
    root_history: Vec<L>,
}

impl<L, const HISTORY_LEVEL: u32> View for SparseMerkleTreeWithHistoryBounded<L, HISTORY_LEVEL> {
    type V = BoundedModel<L>;

    closed spec fn view(&self) -> BoundedModel<L> {
        BoundedModel {
            tree: self.tree@,
            index: self.history_index as nat,
            slots: self.root_index@,
            presence: self.root_history@,
        }
    }
}

impl<L: MerkleLeaf, const HISTORY_LEVEL: u32> SparseMerkleTreeWithHistoryBounded<
    L,
    HISTORY_LEVEL,
> {
    /// Structural well-formedness: the underlying tree is well-formed, the
    /// position counter is within the capacity, slot positions are unique,
    /// and the presence record mirrors the slots exactly.
    pub open spec fn wf(&self) -> bool {
        &&& HISTORY_LEVEL >= 1
        &&& tree_wf(self@.tree)
        &&& self@.index < HISTORY_LEVEL as nat
        &&& slot_keys_unique(self@.slots)
        &&& slots_synced(self@.slots, self@.presence)
    }

    /// A fresh, uninitialized tree with empty history.
    pub fn new() -> (r: Self)
        requires
            HISTORY_LEVEL >= 1,
        ensures
            r.wf(),
            !r@.tree.initialized,
            r@.index == 0,
            r@.slots.len() == 0,
            r@.presence.len() == 0,
    {
        let r = SparseMerkleTreeWithHistoryBounded {
            tree: SparseMerkleTree::new(),
            history_index: 0,
            root_index: Vec::new(),
            root_history: Vec::new(),
        };
        proof {
            assert(slot_roots(r@.slots) =~= Seq::<L>::empty());
            assert(r@.presence.to_multiset() =~= slot_roots(r@.slots).to_multiset());
        }
        r
    }

    /// Initialize the underlying tree; the history state is untouched.
    pub fn init<H: Hasher<L>>(&mut self, level: u8, default_leaf: L, hasher: &H) -> (r: Result<
        (),
        MerkleTreeError,
    >)
        requires
            old(self).wf(),
            level <= 63,
        ensures
            final(self).wf(),
            final(self)@.index == old(self)@.index,
            final(self)@.slots == old(self)@.slots,
            final(self)@.presence == old(self)@.presence,
            old(self)@.tree.initialized ==> {
                &&& r == Err::<(), MerkleTreeError>(MerkleTreeError::AlreadyInit)
                &&& final(self)@ == old(self)@
            },
            !old(self)@.tree.initialized ==> {
                let len = cache_len(level as nat);
                if zero_chain_ok(*hasher, default_leaf, len) {
                    &&& r == Ok::<(), MerkleTreeError>(())
                    &&& final(self)@.tree.initialized
                    &&& final(self)@.tree.level == level as nat
                    &&& final(self)@.tree.zeros == zero_chain(*hasher, default_leaf, len)
                    &&& final(self)@.tree.frontier == final(self)@.tree.zeros
                    &&& final(self)@.tree.leaves.len() == 0
                    &&& final(self)@.tree.root is None
                } else {
                    &&& r matches Err(MerkleTreeError::Hasher(_))
                    &&& final(self)@ == old(self)@
                }
            },
    {
        let r = self.tree.init(level, default_leaf, hasher);
        proof {
            if old(self)@.tree.initialized {
                assert(self@ =~= old(self)@);
            }
        }
        r
    }

    /// Whether `root` is among the roots of the retained insertions.
    pub fn is_valid_root(&self, root: &L) -> (r: Result<bool, MerkleTreeError>)
        ensures
            r is Ok,
            r->Ok_0 == self@.presence.contains(*root),
    {
        match find_leaf(&self.root_history, root) {
            Some(j) => {
                proof {
                    assert(self@.presence.contains(*root));
                }
                Ok(true)
            },
            None => Ok(false),
        }
    }

    /// Insert into the underlying tree; on success, claim the next slot of
    /// the circular buffer, evicting the root that held it, and record the
    /// new root in the slot arena and the presence record together.
    pub fn insert<H: Hasher<L>>(&mut self, leaf: L, hasher: &H) -> (r: Result<
        (u64, L),
        MerkleTreeError,
    >)
        requires
            old(self).wf(),
            old(self)@.tree.initialized,
        ensures
            final(self).wf(),
            final(self)@.tree == step_state(old(self)@.tree, leaf, *hasher),
            ({
                let m = old(self)@.tree;
                let n = m.leaves.len();
                if n >= pow2(m.level) {
                    r == Err::<(u64, L), MerkleTreeError>(MerkleTreeError::ExceedMaxLeaf)
                } else if walk_ok(*hasher, m.zeros, m.frontier, leaf, n, m.level) {
                    r == Ok::<(u64, L), MerkleTreeError>(
                        (n as u64, node_hash(*hasher, m.zeros, m.frontier, leaf, n, m.level)),
                    )
                } else {
                    r matches Err(MerkleTreeError::Hasher(_))
                }
            }),
            r is Err ==> {
                &&& final(self)@.index == old(self)@.index
                &&& final(self)@.slots == old(self)@.slots
                &&& final(self)@.presence == old(self)@.presence
            },
            r is Ok ==> ({
                let root = r->Ok_0.1;
                let pre = old(self)@;
                let next = (pre.index + 1) % (HISTORY_LEVEL as nat);
                &&& final(self)@.index == next
                &&& final(self)@.slots == claim_slot(pre.slots, next as u32, root)
            }),
    {
        let ghost pre = self@;
        let ghost mut evicted: Option<int> = None;
        match self.tree.insert(leaf, hasher) {
            Err(e) => {
                Err(e)
            },
            Ok((index, new_root)) => {
                let next = (self.history_index + 1) % HISTORY_LEVEL;
                match find_slot(&self.root_index, next) {
                    Some(j) => {
                        proof {
                            evicted = Some(j as int);
                        }
                        let ghost slots0 = self.root_index@;
                        let ghost presence0 = self.root_history@;
                        let (_, old_root) = self.root_index.remove(j);
                        proof {
                            assert(slot_roots(slots0)[j as int] == old_root);
                            assert(slot_roots(slots0).contains(old_root));
                            assert(slot_roots(slots0).to_multiset().count(old_root) > 0);
                            assert(presence0.to_multiset().count(old_root) > 0);
                            assert(presence0.contains(old_root));
                        }
                        let pos = match find_leaf(&self.root_history, &old_root) {
                            Some(p) => p,
                            None => {
                                proof {
                                    assert(false);
                                }
                                return Err(MerkleTreeError::ExceedMaxLeaf);
                            },
                        };
                        self.root_history.remove(pos);
                        proof {
                            assert(slot_roots(self.root_index@) =~= slot_roots(slots0).remove(
                                j as int,
                            ));
                            assert(self.root_history@.to_multiset() =~= presence0.to_multiset()
                                .remove(old_root));
                            assert(slot_roots(slots0).remove(j as int).to_multiset()
                                =~= slot_roots(slots0).to_multiset().remove(old_root));
                        }
                    },
                    None => {},
                }
                let ghost slots1 = self.root_index@;
                let ghost presence1 = self.root_history@;
                self.root_history.push(new_root.clone_leaf());
                self.root_index.push((next, new_root.clone_leaf()));
                self.history_index = next;
                proof {
                    assert(slot_roots(self.root_index@) =~= slot_roots(slots1).push(new_root));
                    assert(slots_synced(self@.slots, self@.presence)) by {
                        assert(self@.presence.to_multiset() =~= presence1.to_multiset().insert(
                            new_root,
                        ));
                        assert(slot_roots(slots1).push(new_root).to_multiset() =~= slot_roots(
                            slots1,
                        ).to_multiset().insert(new_root));
                    }
                    assert(slot_keys_unique(self@.slots)) by {
                        assert forall|a: int, b: int|
                            0 <= a < b < self@.slots.len() implies (#[trigger] self@.slots[a]).0
                            != (#[trigger] self@.slots[b]).0 by {
                            if b == self@.slots.len() - 1 {
                                assert(self@.slots[b].0 == next);
                                assert(self@.slots[a] == slots1[a]);
                            }
                        }
                    }
                    let spec_next = (pre.index + 1) % (HISTORY_LEVEL as nat);
                    assert(next as nat == spec_next);
                    match evicted {
                        Some(j) => {
                            assert(0 <= j < pre.slots.len() && (pre.slots[j]).0 == next);
                            lemma_drop_key_unique(pre.slots, next, j);
                            assert(self@.slots == claim_slot(pre.slots, next, new_root));
                        },
                        None => {
                            assert(forall|k: int|
                                0 <= k < pre.slots.len() ==> (#[trigger] pre.slots[k]).0 != next);
                            lemma_drop_key_absent(pre.slots, next);
                            assert(self@.slots == claim_slot(pre.slots, next, new_root));
                        },
                    }
                }
                Ok((index, new_root))
            },
        }
    }

    /// Remove every slot entry at a position beyond the configured capacity
    /// (left over from a previously larger capacity) together with its
    /// presence entry, and normalize the position counter. Idempotent; not
    /// part of the steady-state insertion path.
    pub fn update_history_level(&mut self) -> (r: Result<(), MerkleTreeError>)
        requires
            old(self).wf(),
        ensures
            final(self).wf(),
            r == Ok::<(), MerkleTreeError>(()),
            final(self)@.tree == old(self)@.tree,
            final(self)@.index == old(self)@.index % (HISTORY_LEVEL as nat),
            final(self)@.slots == keep_below(old(self)@.slots, HISTORY_LEVEL),
            final(self)@.presence == slot_roots(final(self)@.slots),
    {
        self.history_index = self.history_index % HISTORY_LEVEL;
        let mut kept: Vec<(u32, L)> = Vec::new();
        let mut pres: Vec<L> = Vec::new();
        let mut j: usize = 0;
        proof {
            assert(kept@ =~= keep_below(self.root_index@.subrange(0, 0), HISTORY_LEVEL));
            assert(pres@ =~= slot_roots(kept@));
        }
        while j < self.root_index.len()
            invariant
                j <= self.root_index.len(),
                kept@ == keep_below(
                    self.root_index@.subrange(0, j as int),
                    HISTORY_LEVEL,
                ),
                pres@ == slot_roots(kept@),
            decreases self.root_index.len() - j,
        {
            let key = self.root_index[j].0;
            let ghost sub0 = self.root_index@.subrange(0, j as int);
            let ghost sub1 = self.root_index@.subrange(0, (j + 1) as int);
            proof {
                assert(sub1.drop_last() =~= sub0);
                assert(sub1.last() == self.root_index@[j as int]);
                assert(keep_below(sub1, HISTORY_LEVEL) == if sub1.last().0 < HISTORY_LEVEL {
                    keep_below(sub0, HISTORY_LEVEL).push(sub1.last())
                } else {
                    keep_below(sub0, HISTORY_LEVEL)
                });
            }
            if key < HISTORY_LEVEL {
                let root = self.root_index[j].1.clone_leaf();
                kept.push((key, root.clone_leaf()));
                pres.push(root);
                proof {
                    assert(self.root_index@[j as int] == (key, self.root_index@[j as int].1));
                    assert(slot_roots(kept@) =~= pres@);
                }
            }
            j += 1;
        }
        proof {
            assert(self.root_index@.subrange(0, self.root_index@.len() as int) =~= self
                .root_index@);
        }
        self.root_index = kept;
        self.root_history = pres;
        proof {
            assert(slot_keys_unique(self@.slots)) by {
                lemma_keep_below_unique(old(self)@.slots, HISTORY_LEVEL);
            }
        }
        Ok(())
    }

    /// The latest root of the underlying tree.
    pub fn get_latest_root(&self) -> (r: Result<L, MerkleTreeError>)
        requires
            self.wf(),
            self@.tree.initialized,
        ensures
            r == Ok::<L, MerkleTreeError>(latest_root(self@.tree)),
    {
        self.tree.get_latest_root()
    }
}


/// The position counter and slot arena after recording a sequence of roots
/// one by one into a circular buffer of capacity `k`, from a fresh state.
pub open spec fn record_roots<L>(roots: Seq<L>, k: u32) -> (nat, Seq<(u32, L)>)
    decreases roots.len(),
{
    if roots.len() == 0 {
        (0nat, Seq::empty())
    } else {
        let prev = record_roots(roots.drop_last(), k);
        let next = (((prev.0 + 1) % (k as nat)) as u32);
        (next as nat, claim_slot(prev.1, next, roots.last()))
    }
}

/// How many of `m` recordings a buffer of capacity `k` retains.
pub open spec fn window_len(m: nat, k: u32) -> nat {
    if m <= k as nat {
        m
    } else {
        k as nat
    }
}

/// The slot arena a buffer of capacity `k` is expected to hold after `m`
/// recordings: the last `min(m, k)` roots, in recording order, the `j`-th
/// recording (counting from one) sitting at position `j % k`.
pub open spec fn window_slots<L>(roots: Seq<L>, k: u32) -> Seq<(u32, L)> {
    let m = roots.len() as int;
    let kept = window_len(roots.len(), k) as int;
    Seq::new(
        kept as nat,
        |i: int| ((((m - kept + i + 1) % (k as int)) as u32, roots[m - kept + i])),
    )
}

/// Two recording numbers less than a full cycle apart sit at distinct
/// buffer positions.
proof fn lemma_mod_distinct(a: int, b: int, k: int)
    requires
        k >= 1,
        0 <= a,
        0 < b - a < k,
    ensures
        a % k != b % k,
{
    lemma_fundamental_div_mod(a, k);
    lemma_fundamental_div_mod(b, k);
    if a % k == b % k {
        let qa = a / k;
        let qb = b / k;
        assert(b - a == k * (qb - qa)) by (nonlinear_arith)
            requires
                a == k * qa + a % k,
                b == k * qb + b % k,
                a % k == b % k,
        ;
        assert(false) by (nonlinear_arith)
            requires
                0 < k * (qb - qa) < k,
        ;
    }
}

/// One more recording moves the position counter by one, modulo the capacity.
proof fn lemma_mod_succ(n: int, k: int)
    requires
        k >= 1,
        n >= 1,
    ensures
        ((n - 1) % k + 1) % k == n % k,
{
    lemma_fundamental_div_mod(n - 1, k);
    lemma_mod_division_less_than_divisor(n - 1, k);
    let q = (n - 1) / k;
    let r = (n - 1) % k;
    if r + 1 < k {
        lemma_small_mod((r + 1) as nat, k as nat);
        assert(n == q * k + (r + 1)) by (nonlinear_arith)
            requires
                n - 1 == k * q + r,
        ;
        lemma_fundamental_div_mod_converse(n, k, q, r + 1);
    } else {
        lemma_mod_self_0(k);
        assert(n == (q + 1) * k) by (nonlinear_arith)
            requires
                n - 1 == k * q + r,
                r == k - 1,
        ;
        lemma_fundamental_div_mod_converse(n, k, q + 1, 0);
    }
}

/// Bounded-history policy: after `m` recordings into a circular buffer of
/// capacity `k`, the arena holds exactly the roots of the most recent
/// `min(m, k)` recordings, each at its buffer position; every older root has
/// been evicted, in strict recording order.
pub proof fn lemma_bounded_window<L>(roots: Seq<L>, k: u32)
    requires
        k >= 1,
    ensures
        record_roots(roots, k).0 == roots.len() % (k as nat),
        record_roots(roots, k).1 == window_slots(roots, k),
    decreases roots.len(),
{
    let kint = k as int;
    let m = roots.len() as int;
    if m == 0 {
        lemma_small_mod(0, k as nat);
        assert(record_roots(roots, k).1 =~= window_slots(roots, k));
    } else {
        let prefix = roots.drop_last();
        lemma_bounded_window(prefix, k);
        let prev = record_roots(prefix, k);
        let w0 = window_slots(prefix, k);
        let next = (((prev.0 + 1) % (k as nat)) as u32);
        lemma_mod_succ(m, kint);
        lemma_mod_division_less_than_divisor((prev.0 + 1) as int, kint);
        assert(next as int == m % kint);
        let keptold = window_len(prefix.len(), k) as int;
        let kept = window_len(roots.len(), k) as int;
        let w1 = window_slots(roots, k);
        lemma_mod_division_less_than_divisor(m, kint);
        if m <= kint {
            // no eviction yet: every held position differs from the new one
            assert forall|i: int| 0 <= i < w0.len() implies (#[trigger] w0[i]).0 != next by {
                assert(w0[i].0 as int == (i + 1) % kint);
                if m < kint {
                    lemma_small_mod(m as nat, k as nat);
                    lemma_small_mod((i + 1) as nat, k as nat);
                } else {
                    lemma_mod_self_0(kint);
                    lemma_small_mod((i + 1) as nat, k as nat);
                }
            }
            lemma_drop_key_absent(w0, next);
            assert(claim_slot(w0, next, roots.last()) == w0.push((next, roots.last())));
            assert forall|i: int| 0 <= i < kept implies w0.push((next, roots.last()))[i]
                == #[trigger] w1[i] by {
                if i < kept - 1 {
                    assert(w0[i] == w1[i]);
                }
            }
            assert(record_roots(roots, k).1 =~= w1);
        } else {
            // the buffer is full: the new recording claims the position of
            // the oldest retained one, evicting it
            assert(keptold == kint && kept == kint);
            assert(w0[0].0 as int == (m - kint) % kint);
            assert((m - kint) % kint == m % kint) by {
                lemma_mod_sub_multiples_vanish(m, kint);
                assert(-kint + m == m - kint);
            }
            assert(w0[0].0 == next);
            assert(slot_keys_unique(w0)) by {
                assert forall|a: int, b: int| 0 <= a < b < w0.len() implies (#[trigger] w0[a]).0
                    != (#[trigger] w0[b]).0 by {
                    assert(w0[a].0 as int == (m - kint + a) % kint);
                    assert(w0[b].0 as int == (m - kint + b) % kint);
                    lemma_mod_distinct(m - kint + a, m - kint + b, kint);
                }
            }
            lemma_drop_key_unique(w0, next, 0);
            assert(claim_slot(w0, next, roots.last()) == w0.remove(0).push(
                (next, roots.last()),
            ));
            assert forall|i: int| 0 <= i < kint implies w0.remove(0).push((next, roots.last()))[i]
                == #[trigger] w1[i] by {
                if i < kint - 1 {
                    assert(w0.remove(0)[i] == w0[i + 1]);
                    assert(prefix[m - kint + i] == roots[m - kint + i]);
                }
            }
            assert(record_roots(roots, k).1 =~= w1);
        }
    }
}

/// The two mirrored structures never fall out of sync: a root is in the
/// presence record exactly when some slot of the arena holds it.
pub proof fn lemma_presence_matches_slots<L>(slots: Seq<(u32, L)>, presence: Seq<L>, root: L)
    requires
        slots_synced(slots, presence),
    ensures
        presence.contains(root) <==> slot_roots(slots).contains(root),
{
    assert(presence.contains(root) <==> presence.to_multiset().count(root) > 0);
    assert(slot_roots(slots).contains(root) <==> slot_roots(slots).to_multiset().count(root) > 0);
}

/// One more recording extends a run of recordings: what a successful
/// insertion does to the slot arena is exactly the next step of
/// `record_roots` on the sequence of roots produced so far.
pub proof fn lemma_record_roots_step<L>(roots: Seq<L>, r: L, k: u32)
    requires
        k >= 1,
    ensures
        record_roots(roots.push(r), k).0 == (record_roots(roots, k).0 + 1) % (k as nat),
        record_roots(roots.push(r), k).1 == claim_slot(
            record_roots(roots, k).1,
            (((record_roots(roots, k).0 + 1) % (k as nat)) as u32),
            r,
        ),
{
    assert(roots.push(r).drop_last() =~= roots);
    assert(roots.push(r).last() == r);
}

/// Bounded-history policy, stated over the retained roots: once more than
/// `k` roots have been recorded, the roots of the most recent `k` recordings
/// are all retained, and the very first root is retained no longer, provided
/// it does not reappear among those recent `k`.
pub proof fn lemma_bounded_eviction<L>(roots: Seq<L>, k: u32)
    requires
        k >= 1,
        roots.len() > k as nat,
        forall|j: int|
            roots.len() - k as int <= j < roots.len() ==> #[trigger] roots[j] != roots[0],
    ensures
        !slot_roots(record_roots(roots, k).1).contains(roots[0]),
        forall|j: int|
            roots.len() - k as int <= j < roots.len() ==> slot_roots(
                record_roots(roots, k).1,
            ).contains(#[trigger] roots[j]),
{
    lemma_bounded_window(roots, k);
    let m = roots.len() as int;
    let kint = k as int;
    let held = slot_roots(record_roots(roots, k).1);
    assert(forall|i: int| 0 <= i < kint ==> #[trigger] held[i] == roots[m - kint + i]);
    if held.contains(roots[0]) {
        let i = choose|i: int| 0 <= i < held.len() && held[i] == roots[0];
        assert(roots[m - kint + i] == roots[0]);
        assert(false);
    }
    assert forall|j: int| m - kint <= j < m implies held.contains(#[trigger] roots[j]) by {
        assert(held[j - (m - kint)] == roots[j]);
    }
}

/// Every retained slot entry is an entry of the unfiltered arena.
proof fn lemma_keep_below_from_slots<L>(slots: Seq<(u32, L)>, bound: u32)
    ensures
        forall|a: int|
            0 <= a < keep_below(slots, bound).len() ==> exists|i: int|
                0 <= i < slots.len() && slots[i] == #[trigger] keep_below(slots, bound)[a],
    decreases slots.len(),
{
    if slots.len() > 0 {
        let prefix = slots.drop_last();
        lemma_keep_below_from_slots(prefix, bound);
        let kp = keep_below(prefix, bound);
        let k = keep_below(slots, bound);
        assert forall|a: int| 0 <= a < k.len() implies exists|i: int|
            0 <= i < slots.len() && slots[i] == #[trigger] k[a] by {
            if slots.last().0 < bound && a == k.len() - 1 {
                assert(slots[slots.len() - 1] == k[a]);
            } else {
                assert(k[a] == kp[a]);
                let i = choose|i: int| 0 <= i < prefix.len() && prefix[i] == #[trigger] kp[a];
                assert(slots[i] == k[a]);
            }
        }
    }
}

/// The capacity sweep preserves slot-position uniqueness.
proof fn lemma_keep_below_unique<L>(slots: Seq<(u32, L)>, bound: u32)
    requires
        slot_keys_unique(slots),
    ensures
        slot_keys_unique(keep_below(slots, bound)),
    decreases slots.len(),
{
    if slots.len() > 0 {
        let prefix = slots.drop_last();
        assert(slot_keys_unique(prefix));
        lemma_keep_below_unique(prefix, bound);
        lemma_keep_below_from_slots(prefix, bound);
        let kp = keep_below(prefix, bound);
        let k = keep_below(slots, bound);
        if slots.last().0 < bound {
            assert forall|a: int, b: int| 0 <= a < b < k.len() implies (#[trigger] k[a]).0 != (
            #[trigger] k[b]).0 by {
                if b == k.len() - 1 {
                    assert(k[a] == kp[a]);
                    let i = choose|i: int| 0 <= i < prefix.len() && prefix[i] == #[trigger] kp[a];
                    assert(slots[i] == k[a]);
                    assert(slots[slots.len() - 1] == k[b]);
                } else {
                    assert(k[a] == kp[a] && k[b] == kp[b]);
                }
            }
        }
    }
}

} // verus!

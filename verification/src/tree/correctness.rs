use vstd::prelude::*;

use vstd::arithmetic::div_mod::lemma_div_denominator;
use vstd::arithmetic::div_mod::lemma_fundamental_div_mod;
use vstd::arithmetic::div_mod::lemma_fundamental_div_mod_converse;
use vstd::arithmetic::div_mod::lemma_mod_division_less_than_divisor;
use vstd::arithmetic::mul::lemma_mul_inequality;
use vstd::arithmetic::power2::lemma2_to64;
use vstd::arithmetic::power2::lemma_pow2_pos;
use vstd::arithmetic::power2::lemma_pow2_unfold;
use vstd::arithmetic::power2::pow2;

use crate::hasher::Hasher;
use crate::tree::sparse::TreeModel;
use crate::tree::sparse::cache_len;
use crate::tree::sparse::frontier_after;
use crate::tree::sparse::node_hash;
use crate::tree::sparse::path_index;
use crate::tree::sparse::step_output;
use crate::tree::sparse::step_state;
use crate::tree::sparse::walk_ok;
use crate::tree::sparse::zero_chain;

verus! {

/// The root of the subtree of height `lvl` whose leaf range starts at
/// position `pos * pow2(lvl)` in a full binary tree of default-padded
/// leaves: the reference against which the incremental walk is checked.
pub open spec fn full_root<L, H: Hasher<L>>(
    h: H,
    leaves: Seq<L>,
    zeros: Seq<L>,
    lvl: nat,
    pos: nat,
) -> L
    decreases lvl,
{
    if lvl == 0 {
        if pos < leaves.len() {
            leaves[pos as int]
        } else {
            zeros[0]
        }
    } else {
        h.spec_hash(
            full_root(h, leaves, zeros, (lvl - 1) as nat, 2 * pos),
            full_root(h, leaves, zeros, (lvl - 1) as nat, 2 * pos + 1),
        )
    }
}

/// The zero-hash cache is a self-combination chain.
pub open spec fn zeros_chained<L, H: Hasher<L>>(h: H, zeros: Seq<L>) -> bool {
    &&& zeros.len() >= 1
    &&& forall|j: int|
        1 <= j < zeros.len() ==> #[trigger] zeros[j] == h.spec_hash(zeros[j - 1], zeros[j - 1])
}

/// At every level where the insertion path of the next leaf turns right, the
/// frontier holds the root of the completed left sibling subtree.
pub open spec fn frontier_synced<L, H: Hasher<L>>(
    h: H,
    zeros: Seq<L>,
    leaves: Seq<L>,
    frontier: Seq<L>,
    level: nat,
) -> bool {
    forall|i: nat|
        i < level && #[trigger] path_index(leaves.len(), i) % 2 == 1 ==> frontier[i as int]
            == full_root(h, leaves, zeros, i, (path_index(leaves.len(), i) - 1) as nat)
}

/// The whole tree state agrees with the full-binary-tree reference under
/// combiner `h`: the cache is a proper chain, the frontier is synchronized,
/// and the stored root is the from-scratch root of the stored leaves.
pub open spec fn tree_synced<L, H: Hasher<L>>(h: H, m: TreeModel<L>) -> bool {
    &&& m.initialized
    &&& zeros_chained(h, m.zeros)
    &&& m.zeros.len() == cache_len(m.level)
    &&& m.frontier.len() == m.zeros.len()
    &&& m.leaves.len() <= pow2(m.level)
    &&& frontier_synced(h, m.zeros, m.leaves, m.frontier, m.level)
    &&& (m.leaves.len() > 0 ==> m.root == Some(full_root(h, m.leaves, m.zeros, m.level, 0)))
    &&& (m.leaves.len() == 0 ==> m.root is None)
}

/// The state a successful `init` establishes.
pub open spec fn init_model<L, H: Hasher<L>>(h: H, level: nat, default_leaf: L) -> TreeModel<L> {
    TreeModel {
        initialized: true,
        level: level,
        zeros: zero_chain(h, default_leaf, cache_len(level)),
        frontier: zero_chain(h, default_leaf, cache_len(level)),
        leaves: Seq::empty(),
        root: None,
    }
}

/// The tree state after inserting a sequence of leaves one by one.
pub open spec fn run_state<L, H: Hasher<L>>(m: TreeModel<L>, leaves: Seq<L>, h: H) -> TreeModel<L>
    decreases leaves.len(),
{
    if leaves.len() == 0 {
        m
    } else {
        run_state(step_state(m, leaves.first(), h), leaves.drop_first(), h)
    }
}

/// The per-insertion results of inserting a sequence of leaves one by one.
pub open spec fn run_outputs<L, H: Hasher<L>>(m: TreeModel<L>, leaves: Seq<L>, h: H) -> Seq<
    Option<(u64, L)>,
>
    decreases leaves.len(),
{
    if leaves.len() == 0 {
        Seq::empty()
    } else {
        seq![step_output(m, leaves.first(), h)] + run_outputs(
            step_state(m, leaves.first(), h),
            leaves.drop_first(),
            h,
        )
    }
}

/// The length of the zero-hash chain.
proof fn lemma_zero_chain_len<L, H: Hasher<L>>(h: H, default_leaf: L, len: nat)
    ensures
        zero_chain(h, default_leaf, len).len() == cache_len(len),
    decreases len,
{
    if len > 1 {
        lemma_zero_chain_len(h, default_leaf, (len - 1) as nat);
    }
}

/// The zero-hash chain satisfies the chain property.
proof fn lemma_zero_chain_chained<L, H: Hasher<L>>(h: H, default_leaf: L, len: nat)
    ensures
        zeros_chained(h, zero_chain(h, default_leaf, len)),
    decreases len,
{
    lemma_zero_chain_len(h, default_leaf, len);
    if len > 1 {
        lemma_zero_chain_chained(h, default_leaf, (len - 1) as nat);
        let prev = zero_chain(h, default_leaf, (len - 1) as nat);
        let cur = zero_chain(h, default_leaf, len);
        lemma_zero_chain_len(h, default_leaf, (len - 1) as nat);
        assert forall|j: int| 1 <= j < cur.len() implies #[trigger] cur[j] == h.spec_hash(
            cur[j - 1],
            cur[j - 1],
        ) by {
            if j < prev.len() {
                assert(cur[j] == prev[j]);
                assert(cur[j - 1] == prev[j - 1]);
            } else {
                assert(cur[j] == h.spec_hash(prev.last(), prev.last()));
                assert(cur[j - 1] == prev[prev.len() - 1]);
            }
        }
    }
}

/// Dividing by a power of two, one more unit of the dividend moves the
/// quotient by at most one.
proof fn lemma_div_succ_step(n: nat, p: nat)
    requires
        p >= 1,
    ensures
        (n + 1) / p == n / p || (n + 1) / p == n / p + 1,
    decreases n,
{
    let q = n as int / p as int;
    let r = n as int % p as int;
    lemma_fundamental_div_mod(n as int, p as int);
    lemma_mod_division_less_than_divisor(n as int, p as int);
    assert(p * q == q * p) by (nonlinear_arith);
    if r + 1 < p {
        lemma_fundamental_div_mod_converse(n as int + 1, p as int, q, r + 1);
    } else {
        assert(n as int + 1 == p * q + p);
        assert(p * q + p == (q + 1) * p) by (nonlinear_arith);
        lemma_fundamental_div_mod_converse(n as int + 1, p as int, q + 1, 0);
    }
}

/// A subtree that lies entirely beyond the stored leaves hashes to the
/// cached zero hash of its height.
pub proof fn lemma_empty_subtree<L, H: Hasher<L>>(
    h: H,
    leaves: Seq<L>,
    zeros: Seq<L>,
    lvl: nat,
    pos: nat,
)
    requires
        zeros_chained(h, zeros),
        lvl < zeros.len(),
        pos * pow2(lvl) >= leaves.len(),
    ensures
        full_root(h, leaves, zeros, lvl, pos) == zeros[lvl as int],
    decreases lvl,
{
    if lvl == 0 {
        assert(pow2(0) == 1) by {
            lemma2_to64();
        }
        assert(pos * 1 == pos) by (nonlinear_arith);
    } else {
        let k = (lvl - 1) as nat;
        lemma_pow2_unfold(lvl);
        assert((2 * pos) * pow2(k) == pos * (2 * pow2(k))) by (nonlinear_arith);
        assert((2 * pos + 1) * pow2(k) >= (2 * pos) * pow2(k)) by {
            lemma_pow2_pos(k);
            lemma_mul_inequality(2 * pos as int, 2 * pos as int + 1, pow2(k) as int);
        }
        lemma_empty_subtree(h, leaves, zeros, k, 2 * pos);
        lemma_empty_subtree(h, leaves, zeros, k, 2 * pos + 1);
    }
}

/// Appending a leaf does not change the root of a subtree that is already
/// completely filled.
pub proof fn lemma_push_preserves_full_subtree<L, H: Hasher<L>>(
    h: H,
    leaves: Seq<L>,
    zeros: Seq<L>,
    x: L,
    lvl: nat,
    pos: nat,
)
    requires
        (pos + 1) * pow2(lvl) <= leaves.len(),
    ensures
        full_root(h, leaves.push(x), zeros, lvl, pos) == full_root(h, leaves, zeros, lvl, pos),
    decreases lvl,
{
    if lvl == 0 {
        assert(pow2(0) == 1) by {
            lemma2_to64();
        }
        assert((pos + 1) * 1 == pos + 1) by (nonlinear_arith);
    } else {
        let k = (lvl - 1) as nat;
        lemma_pow2_unfold(lvl);
        assert((2 * pos + 1 + 1) * pow2(k) == (pos + 1) * (2 * pow2(k))) by (nonlinear_arith);
        assert((2 * pos + 1) * pow2(k) <= (2 * pos + 2) * pow2(k)) by {
            lemma_pow2_pos(k);
            lemma_mul_inequality(2 * pos as int + 1, 2 * pos as int + 2, pow2(k) as int);
        }
        lemma_push_preserves_full_subtree(h, leaves, zeros, x, k, 2 * pos);
        lemma_push_preserves_full_subtree(h, leaves, zeros, x, k, 2 * pos + 1);
    }
}

/// Bounds of the path index: `path_index(n, i) * pow2(i) <= n < (path_index(n, i) + 1) * pow2(i)`.
proof fn lemma_path_index_bounds(n: nat, i: nat)
    ensures
        path_index(n, i) * pow2(i) <= n,
        n < (path_index(n, i) + 1) * pow2(i),
    decreases i,
{
    let p = pow2(i);
    lemma_pow2_pos(i);
    let q = path_index(n, i);
    lemma_fundamental_div_mod(n as int, p as int);
    lemma_mod_division_less_than_divisor(n as int, p as int);
    assert(q * p == p * q) by (nonlinear_arith);
    assert((q + 1) * p == p * q + p) by (nonlinear_arith);
}

/// The path index one level up is the halved path index.
proof fn lemma_path_index_halves(n: nat, i: nat)
    ensures
        path_index(n, i + 1) == path_index(n, i) / 2,
{
    lemma_pow2_pos(i);
    lemma_div_denominator(n as int, pow2(i) as int, 2);
    lemma_pow2_unfold((i + 1) as nat);
    assert(pow2(i) * 2 == 2 * pow2(i)) by (nonlinear_arith);
}

/// The hash carried by the insertion walk equals, level by level, the
/// from-scratch root of the subtree on the insertion path, once the new
/// leaf is appended.
pub proof fn lemma_walk_matches_full<L, H: Hasher<L>>(
    h: H,
    zeros: Seq<L>,
    leaves: Seq<L>,
    frontier: Seq<L>,
    leaf: L,
    level: nat,
    i: nat,
)
    requires
        zeros_chained(h, zeros),
        level <= zeros.len(),
        frontier.len() == zeros.len(),
        frontier_synced(h, zeros, leaves, frontier, level),
        leaves.len() < pow2(level),
        i <= level,
    ensures
        node_hash(h, zeros, frontier, leaf, leaves.len(), i) == full_root(
            h,
            leaves.push(leaf),
            zeros,
            i,
            path_index(leaves.len(), i),
        ),
    decreases i,
{
    let n = leaves.len();
    let leaves2 = leaves.push(leaf);
    if i == 0 {
        assert(pow2(0) == 1) by {
            lemma2_to64();
        }
        assert(path_index(n, 0) == n);
    } else {
        let k = (i - 1) as nat;
        lemma_walk_matches_full(h, zeros, leaves, frontier, leaf, level, k);
        let idx = path_index(n, k);
        let up = path_index(n, i);
        lemma_path_index_halves(n, k);
        assert(up == idx / 2);
        lemma_path_index_bounds(n, k);
        if idx % 2 == 0 {
            assert(2 * up == idx);
            // the right sibling is still entirely empty
            assert((idx + 1) * pow2(k) >= n + 1);
            lemma_empty_subtree(h, leaves2, zeros, k, idx + 1);
            assert(full_root(h, leaves2, zeros, i, up) == h.spec_hash(
                full_root(h, leaves2, zeros, k, idx),
                zeros[k as int],
            ));
        } else {
            assert(2 * up == idx - 1);
            // the left sibling subtree is completely filled, so the appended
            // leaf does not change it, and the frontier holds its root
            assert(idx * pow2(k) <= n);
            assert(((idx - 1) + 1) * pow2(k) <= n);
            lemma_push_preserves_full_subtree(h, leaves, zeros, leaf, k, (idx - 1) as nat);
            assert(frontier[k as int] == full_root(h, leaves, zeros, k, (idx - 1) as nat));
            assert(full_root(h, leaves2, zeros, i, up) == h.spec_hash(
                full_root(h, leaves2, zeros, k, (idx - 1) as nat),
                full_root(h, leaves2, zeros, k, idx),
            ));
        }
    }
}

/// After an insertion, the updated frontier is synchronized with the grown
/// leaf sequence.
pub proof fn lemma_frontier_after_synced<L, H: Hasher<L>>(
    h: H,
    zeros: Seq<L>,
    leaves: Seq<L>,
    frontier: Seq<L>,
    leaf: L,
    level: nat,
)
    requires
        zeros_chained(h, zeros),
        level <= zeros.len(),
        frontier.len() == zeros.len(),
        frontier_synced(h, zeros, leaves, frontier, level),
        leaves.len() < pow2(level),
    ensures
        frontier_synced(
            h,
            zeros,
            leaves.push(leaf),
            frontier_after(h, zeros, frontier, leaf, leaves.len(), level),
            level,
        ),
{
    let n = leaves.len();
    let leaves2 = leaves.push(leaf);
    let fa = frontier_after(h, zeros, frontier, leaf, n, level);
    assert forall|i: nat|
        i < level && #[trigger] path_index(leaves2.len(), i) % 2 == 1 implies fa[i as int]
        == full_root(h, leaves2, zeros, i, (path_index(leaves2.len(), i) - 1) as nat) by {
        let idx = path_index(n, i);
        let idx2 = path_index((n + 1) as nat, i);
        lemma_pow2_pos(i);
        lemma_div_succ_step(n, pow2(i));
        assert(idx2 == idx || idx2 == idx + 1);
        if idx % 2 == 0 {
            // this level was refreshed with the walk hash; the new path is
            // odd here exactly when it moved one position to the right
            assert(idx2 == idx + 1);
            lemma_walk_matches_full(h, zeros, leaves, frontier, leaf, level, i);
            assert(fa[i as int] == node_hash(h, zeros, frontier, leaf, n, i));
        } else {
            // untouched level: the path index cannot have moved, and the
            // completed left sibling is unchanged by the appended leaf
            assert(idx2 == idx);
            assert(fa[i as int] == frontier[i as int]);
            lemma_path_index_bounds(n, i);
            assert(((idx - 1) + 1) * pow2(i) <= n);
            lemma_push_preserves_full_subtree(h, leaves, zeros, leaf, i, (idx - 1) as nat);
        }
    }
}

/// Frontier correctness: a successful insertion takes a synchronized tree to
/// a synchronized tree, and the root it stores and returns equals the root
/// computed from scratch over the full default-padded binary tree holding
/// the grown leaf sequence.
pub proof fn lemma_insert_preserves_synced<L, H: Hasher<L>>(h: H, m: TreeModel<L>, leaf: L)
    requires
        tree_synced(h, m),
        m.leaves.len() < pow2(m.level),
        walk_ok(h, m.zeros, m.frontier, leaf, m.leaves.len(), m.level),
    ensures
        tree_synced(h, step_state(m, leaf, h)),
        step_output(m, leaf, h) == Some(
            (
                m.leaves.len() as u64,
                full_root(h, m.leaves.push(leaf), m.zeros, m.level, 0),
            ),
        ),
{
    let n = m.leaves.len();
    lemma_walk_matches_full(h, m.zeros, m.leaves, m.frontier, leaf, m.level, m.level);
    lemma_path_index_bounds(n, m.level);
    assert(pow2(0) == 1) by {
        lemma2_to64();
    }
    assert(path_index(n, m.level) == 0) by {
        lemma_pow2_pos(m.level);
        assert(path_index(n, m.level) * pow2(m.level) <= n);
        if path_index(n, m.level) >= 1 {
            lemma_mul_inequality(1, path_index(n, m.level) as int, pow2(m.level) as int);
        }
    }
    lemma_frontier_after_synced(h, m.zeros, m.leaves, m.frontier, leaf, m.level);
}

/// A freshly initialized tree is synchronized with the empty leaf sequence.
pub proof fn lemma_init_synced<L, H: Hasher<L>>(h: H, level: nat, default_leaf: L)
    ensures
        tree_synced(h, init_model(h, level, default_leaf)),
{
    let m = init_model::<L, H>(h, level, default_leaf);
    lemma_zero_chain_len(h, default_leaf, cache_len(level));
    lemma_zero_chain_chained(h, default_leaf, cache_len(level));
    assert forall|i: nat|
        i < level && #[trigger] path_index(m.leaves.len(), i) % 2 == 1 implies m.frontier[i as int]
        == full_root(h, m.leaves, m.zeros, i, (path_index(m.leaves.len(), i) - 1) as nat) by {
        lemma_pow2_pos(i);
        assert(path_index(0, i) == 0);
    }
}

/// Whether every insertion of a run succeeds.
pub open spec fn run_ok<L, H: Hasher<L>>(m: TreeModel<L>, leaves: Seq<L>, h: H) -> bool
    decreases leaves.len(),
{
    if leaves.len() == 0 {
        true
    } else {
        step_output(m, leaves.first(), h) is Some && run_ok(
            step_state(m, leaves.first(), h),
            leaves.drop_first(),
            h,
        )
    }
}

/// Frontier correctness over a whole run: inserting a sequence of leaves
/// one by one into a synchronized tree keeps it synchronized, appends
/// exactly those leaves, and leaves as the stored root the root computed
/// from scratch over the full default-padded binary tree of all the leaves.
pub proof fn lemma_run_root_matches_full<L, H: Hasher<L>>(h: H, m: TreeModel<L>, leaves: Seq<L>)
    requires
        tree_synced(h, m),
        run_ok(m, leaves, h),
    ensures
        tree_synced(h, run_state(m, leaves, h)),
        run_state(m, leaves, h).level == m.level,
        run_state(m, leaves, h).zeros == m.zeros,
        run_state(m, leaves, h).leaves == m.leaves + leaves,
        m.leaves.len() + leaves.len() > 0 ==> run_state(m, leaves, h).root == Some(
            full_root(h, m.leaves + leaves, m.zeros, m.level, 0),
        ),
    decreases leaves.len(),
{
    if leaves.len() == 0 {
        assert(m.leaves + leaves =~= m.leaves);
    } else {
        let first = leaves.first();
        lemma_insert_preserves_synced(h, m, first);
        let m1 = step_state(m, first, h);
        lemma_run_root_matches_full(h, m1, leaves.drop_first());
        assert(m.leaves.push(first) + leaves.drop_first() =~= m.leaves + leaves);
    }
}

/// Latest-only policy: after inserting leaf `x` and then leaf `y`, the tree
/// holds exactly the root reported by the second insertion, so the first
/// root stays acceptable only if the two roots coincide.
pub proof fn lemma_latest_only<L, H: Hasher<L>>(m: TreeModel<L>, x: L, y: L, h: H)
    requires
        step_output(m, x, h) is Some,
        step_output(step_state(m, x, h), y, h) is Some,
    ensures
        ({
            let r1 = step_output(m, x, h)->Some_0.1;
            let m1 = step_state(m, x, h);
            let r2 = step_output(m1, y, h)->Some_0.1;
            let m2 = step_state(m1, y, h);
            &&& m2.root == Some(r2)
            &&& (m2.root == Some(r1) <==> r1 == r2)
        }),
{
}

/// Determinism: two freshly initialized trees of equal depth and equal
/// default leaf, driven by the same combiner over the same leaf sequence,
/// produce identical sequences of results and identical final states.
pub proof fn lemma_determinism<L, H: Hasher<L>>(
    m1: TreeModel<L>,
    m2: TreeModel<L>,
    h: H,
    level: nat,
    default_leaf: L,
    leaves: Seq<L>,
)
    requires
        m1 == init_model(h, level, default_leaf),
        m2 == init_model(h, level, default_leaf),
    ensures
        run_outputs(m1, leaves, h) == run_outputs(m2, leaves, h),
        run_state(m1, leaves, h) == run_state(m2, leaves, h),
{
}

} // verus!

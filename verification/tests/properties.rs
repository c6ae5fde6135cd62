use sparse_merkle::Blake2;
use sparse_merkle::Hasher;
use sparse_merkle::HasherError;
use sparse_merkle::MerkleTreeError;
use sparse_merkle::SparseMerkleTree;
use sparse_merkle::SparseMerkleTreeWithHistory;
use sparse_merkle::SparseMerkleTreeWithHistoryBounded;
use sparse_merkle::Word256;

fn leaf(x: u64) -> Word256 {
    Word256::new(0, 0, 0, x)
}

fn default_leaf() -> Word256 {
    Blake2
        .hash_two(&Word256::new(0, 0, 0, 0), &Word256::new(0, 0, 0, 0))
        .unwrap()
}

#[test]
fn hasher_error_custom() {
    let e = HasherError::custom("boom".to_string());
    assert!(matches!(e, HasherError::Custom(s) if s == "boom"));
}

#[test]
fn reinit_is_rejected() {
    let mut tree: SparseMerkleTree<Word256> = SparseMerkleTree::new();
    tree.init(4, default_leaf(), &Blake2).unwrap();
    let second = tree.init(7, leaf(9), &Blake2);
    assert!(matches!(second, Err(MerkleTreeError::AlreadyInit)));
    // the first initialization is untouched
    let root = tree.get_latest_root().unwrap();
    tree.insert(leaf(1), &Blake2).unwrap();
    assert_ne!(root, tree.get_latest_root().unwrap());
}

#[test]
fn capacity_is_enforced() {
    let mut tree: SparseMerkleTree<Word256> = SparseMerkleTree::new();
    tree.init(2, default_leaf(), &Blake2).unwrap();
    for expected in 0u64..4 {
        let (index, _) = tree.insert(leaf(expected), &Blake2).unwrap();
        assert_eq!(index, expected);
    }
    let root_before = tree.get_latest_root().unwrap();
    let overflow = tree.insert(leaf(99), &Blake2);
    assert!(matches!(overflow, Err(MerkleTreeError::ExceedMaxLeaf)));
    // the failed attempt left the tree unchanged
    assert_eq!(root_before, tree.get_latest_root().unwrap());
    assert!(tree.is_valid_root(&root_before).unwrap());
}

#[test]
fn duplicate_leaves_get_their_own_indices() {
    let mut tree: SparseMerkleTree<Word256> = SparseMerkleTree::new();
    tree.init(3, default_leaf(), &Blake2).unwrap();
    let (i0, _) = tree.insert(leaf(7), &Blake2).unwrap();
    let (i1, _) = tree.insert(leaf(7), &Blake2).unwrap();
    assert_eq!(i0, 0);
    assert_eq!(i1, 1);
}

#[test]
fn insertion_is_deterministic() {
    let mut a: SparseMerkleTree<Word256> = SparseMerkleTree::new();
    let mut b: SparseMerkleTree<Word256> = SparseMerkleTree::new();
    a.init(5, default_leaf(), &Blake2).unwrap();
    b.init(5, default_leaf(), &Blake2).unwrap();
    for x in [3u64, 1, 4, 1, 5] {
        let ra = a.insert(leaf(x), &Blake2).unwrap();
        let rb = b.insert(leaf(x), &Blake2).unwrap();
        assert_eq!(ra, rb);
    }
    assert_eq!(a.get_latest_root().unwrap(), b.get_latest_root().unwrap());
}

#[test]
fn incremental_root_matches_full_recomputation() {
    let depth = 3u8;
    let mut tree: SparseMerkleTree<Word256> = SparseMerkleTree::new();
    tree.init(depth, default_leaf(), &Blake2).unwrap();

    let leaves = [leaf(11), leaf(22), leaf(33), leaf(44), leaf(55)];
    let mut incremental = Word256::new(0, 0, 0, 0);
    for l in leaves {
        let (_, root) = tree.insert(l, &Blake2).unwrap();
        incremental = root;
    }

    // recompute from scratch over all 2^3 default-padded positions
    let mut layer: Vec<Word256> = leaves.to_vec();
    while layer.len() < 8 {
        layer.push(default_leaf());
    }
    for _ in 0..depth {
        let mut next = Vec::new();
        for pair in layer.chunks(2) {
            next.push(Blake2.hash_two(&pair[0], &pair[1]).unwrap());
        }
        layer = next;
    }
    assert_eq!(layer.len(), 1);
    assert_eq!(incremental, layer[0]);
    assert_eq!(incremental, tree.get_latest_root().unwrap());
}

#[test]
fn empty_tree_root_is_last_zero_hash() {
    let mut tree: SparseMerkleTree<Word256> = SparseMerkleTree::new();
    tree.init(3, default_leaf(), &Blake2).unwrap();
    // cache: zeros[0] = default, zeros[i] = hash(zeros[i-1], zeros[i-1])
    let z1 = Blake2.hash_two(&default_leaf(), &default_leaf()).unwrap();
    let z2 = Blake2.hash_two(&z1, &z1).unwrap();
    assert_eq!(tree.get_latest_root().unwrap(), z2);
    // no root has been produced yet, so nothing validates
    assert!(!tree.is_valid_root(&z2).unwrap());
}

#[test]
fn latest_only_policy_forgets_old_root() {
    let mut tree: SparseMerkleTree<Word256> = SparseMerkleTree::new();
    tree.init(4, default_leaf(), &Blake2).unwrap();
    let (_, r1) = tree.insert(leaf(1), &Blake2).unwrap();
    let (_, r2) = tree.insert(leaf(2), &Blake2).unwrap();
    assert!(!tree.is_valid_root(&r1).unwrap());
    assert!(tree.is_valid_root(&r2).unwrap());
}

#[test]
fn unbounded_history_retains_every_root() {
    let mut tree: SparseMerkleTreeWithHistory<Word256> = SparseMerkleTreeWithHistory::new();
    tree.init(4, default_leaf(), &Blake2).unwrap();
    let mut roots = Vec::new();
    for x in 0u64..10 {
        let (_, root) = tree.insert(leaf(x), &Blake2).unwrap();
        roots.push(root);
    }
    for root in &roots {
        assert!(tree.is_valid_root(root).unwrap());
    }
}

#[test]
fn bounded_history_evicts_in_insertion_order() {
    let mut tree: SparseMerkleTreeWithHistoryBounded<Word256, 3> =
        SparseMerkleTreeWithHistoryBounded::new();
    tree.init(4, default_leaf(), &Blake2).unwrap();
    let mut roots = Vec::new();
    for x in 0u64..5 {
        let (_, root) = tree.insert(leaf(x), &Blake2).unwrap();
        roots.push(root);
    }
    // after five insertions with capacity three, exactly the last three remain
    assert!(!tree.is_valid_root(&roots[0]).unwrap());
    assert!(!tree.is_valid_root(&roots[1]).unwrap());
    assert!(tree.is_valid_root(&roots[2]).unwrap());
    assert!(tree.is_valid_root(&roots[3]).unwrap());
    assert!(tree.is_valid_root(&roots[4]).unwrap());
}

#[test]
fn bounded_history_capacity_one_keeps_only_latest() {
    let mut tree: SparseMerkleTreeWithHistoryBounded<Word256, 1> =
        SparseMerkleTreeWithHistoryBounded::new();
    tree.init(4, default_leaf(), &Blake2).unwrap();
    let (_, r1) = tree.insert(leaf(1), &Blake2).unwrap();
    let (_, r2) = tree.insert(leaf(2), &Blake2).unwrap();
    assert!(!tree.is_valid_root(&r1).unwrap());
    assert!(tree.is_valid_root(&r2).unwrap());
}

#[test]
fn maintenance_sweep_keeps_retained_roots() {
    let mut tree: SparseMerkleTreeWithHistoryBounded<Word256, 4> =
        SparseMerkleTreeWithHistoryBounded::new();
    tree.init(4, default_leaf(), &Blake2).unwrap();
    let mut roots = Vec::new();
    for x in 0u64..3 {
        let (_, root) = tree.insert(leaf(x), &Blake2).unwrap();
        roots.push(root);
    }
    // every slot position is already within the capacity: the sweep keeps them all
    tree.update_history_level().unwrap();
    for root in &roots {
        assert!(tree.is_valid_root(root).unwrap());
    }
    tree.update_history_level().unwrap();
    for root in &roots {
        assert!(tree.is_valid_root(root).unwrap());
    }
}

#[test]
fn depth_zero_tree_holds_one_leaf() {
    let mut tree: SparseMerkleTree<Word256> = SparseMerkleTree::new();
    tree.init(0, default_leaf(), &Blake2).unwrap();
    // with no levels to walk, the root is the leaf itself
    assert_eq!(tree.get_latest_root().unwrap(), default_leaf());
    let (index, root) = tree.insert(leaf(42), &Blake2).unwrap();
    assert_eq!(index, 0);
    assert_eq!(root, leaf(42));
    let overflow = tree.insert(leaf(43), &Blake2);
    assert!(matches!(overflow, Err(MerkleTreeError::ExceedMaxLeaf)));
}

#[test]
fn maximum_depth_tree_accepts_insertions() {
    let mut tree: SparseMerkleTree<Word256> = SparseMerkleTree::new();
    tree.init(63, default_leaf(), &Blake2).unwrap();
    let (i0, r0) = tree.insert(leaf(1), &Blake2).unwrap();
    let (i1, r1) = tree.insert(leaf(2), &Blake2).unwrap();
    assert_eq!(i0, 0);
    assert_eq!(i1, 1);
    assert_ne!(r0, r1);
    assert!(tree.is_valid_root(&r1).unwrap());
}

use cosmwasm_std::Uint256;
use sparse_merkle::Blake2;
use sparse_merkle::Hasher;
use sparse_merkle::SparseMerkleTreeWithHistoryBounded;
use sparse_merkle::Word256;

const ZERO: [u8; 32] = [
    0, 0, 0, 0, 0, 0, 0, 0, 0, 0, 0, 0, 0, 0, 0, 0, 0, 0, 0, 0, 0, 0, 0, 0, 0, 0, 0, 0, 0, 0, 0,
    0,
];

fn word(bytes: [u8; 32]) -> Word256 {
    Word256::new(
        u64::from_be_bytes(bytes[0..8].try_into().unwrap()),
        u64::from_be_bytes(bytes[8..16].try_into().unwrap()),
        u64::from_be_bytes(bytes[16..24].try_into().unwrap()),
        u64::from_be_bytes(bytes[24..32].try_into().unwrap()),
    )
}

#[test]
fn sparse_history_bounded_init() {
    let mut tree: SparseMerkleTreeWithHistoryBounded<Word256, 5> =
        SparseMerkleTreeWithHistoryBounded::new();
    let zero = word(ZERO);

    tree.init(20, Blake2.hash_two(&zero, &zero).unwrap(), &Blake2)
        .unwrap();

    assert_eq!(
        tree.get_latest_root().unwrap(),
        word([
            20, 114, 250, 18, 41, 94, 49, 107, 184, 78, 231, 47, 187, 225, 122, 14, 76, 178, 156,
            226, 121, 99, 103, 48, 22, 79, 157, 174, 92, 246, 92, 50
        ])
    );
}

#[test]
fn sparse_history_bounded_root_history() {
    let mut tree: SparseMerkleTreeWithHistoryBounded<Word256, 5> =
        SparseMerkleTreeWithHistoryBounded::new();
    let zero = word(ZERO);
    let one = word(Uint256::one().to_be_bytes());

    tree.init(20, Blake2.hash_two(&zero, &zero).unwrap(), &Blake2)
        .unwrap();

    let leaf = Blake2.hash_two(&one, &one).unwrap();

    let (_, very_old_root) = tree.insert(leaf, &Blake2).unwrap();
    let (_, old_root) = tree.insert(leaf, &Blake2).unwrap();
    let _ = tree.insert(leaf, &Blake2).unwrap();
    let _ = tree.insert(leaf, &Blake2).unwrap();
    let _ = tree.insert(leaf, &Blake2).unwrap();
    let (_, new_root) = tree.insert(leaf, &Blake2).unwrap();

    assert!(!tree.is_valid_root(&very_old_root).unwrap());
    assert!(tree.is_valid_root(&old_root).unwrap());
    assert!(tree.is_valid_root(&new_root).unwrap());
}

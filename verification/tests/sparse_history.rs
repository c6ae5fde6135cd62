use cosmwasm_std::Uint256;
use sparse_merkle::Blake2;
use sparse_merkle::Hasher;
use sparse_merkle::SparseMerkleTreeWithHistory;
use sparse_merkle::Word256;

const ZERO: [u8; 32] = [
    0, 0, 0, 0, 0, 0, 0, 0, 0, 0, 0, 0, 0, 0, 0, 0, 0, 0, 0, 0, 0, 0, 0, 0, 0, 0, 0, 0, 0, 0, 0,
    0,
];

fn word(bytes: [u8; 32]) -> Word256 {
    Word256::new(
        u64::from_be_bytes(bytes[0..8].try_into().unwrap()),
        u64::from_be_bytes(bytes[8..16].try_into().unwrap()),
        u64::from_be_bytes(bytes[16..24].try_into().unwrap()),
        u64::from_be_bytes(bytes[24..32].try_into().unwrap()),
    )
}

#[test]
fn sparse_history_init() {
    let mut tree: SparseMerkleTreeWithHistory<Word256> = SparseMerkleTreeWithHistory::new();
    let zero = word(ZERO);

    tree.init(20, Blake2.hash_two(&zero, &zero).unwrap(), &Blake2)
        .unwrap();

    assert_eq!(
        tree.get_latest_root().unwrap(),
        word([
            20, 114, 250, 18, 41, 94, 49, 107, 184, 78, 231, 47, 187, 225, 122, 14, 76, 178, 156,
            226, 121, 99, 103, 48, 22, 79, 157, 174, 92, 246, 92, 50
        ])
    );
}

#[test]
fn sparse_history_insert() {
    let mut tree: SparseMerkleTreeWithHistory<Word256> = SparseMerkleTreeWithHistory::new();
    let zero = word(ZERO);
    let one = word(Uint256::one().to_be_bytes());

    tree.init(20, Blake2.hash_two(&zero, &zero).unwrap(), &Blake2)
        .unwrap();

    let leaf = Blake2.hash_two(&one, &one).unwrap();

    let (index, new_root) = tree.insert(leaf, &Blake2).unwrap();

    assert_eq!(index, 0);
    assert_eq!(
        new_root,
        word([
            144, 77, 181, 73, 235, 223, 13, 204, 30, 18, 199, 252, 182, 160, 89, 248, 240, 219,
            173, 150, 189, 114, 165, 70, 40, 159, 110, 9, 165, 185, 17, 229
        ])
    );
    assert_eq!(new_root, tree.get_latest_root().unwrap());
    assert!(tree.is_valid_root(&new_root).unwrap());

    let (index, new_root) = tree.insert(leaf, &Blake2).unwrap();

    assert_eq!(index, 1);
    assert_eq!(
        new_root,
        word([
            69, 102, 154, 15, 149, 187, 157, 26, 123, 248, 50, 67, 177, 207, 6, 143, 94, 80, 242,
            17, 127, 26, 94, 197, 222, 220, 255, 245, 136, 20, 62, 132
        ])
    );
    assert_eq!(new_root, tree.get_latest_root().unwrap());
    assert!(tree.is_valid_root(&new_root).unwrap());
}

#[test]
fn sparse_history_root_history() {
    let mut tree: SparseMerkleTreeWithHistory<Word256> = SparseMerkleTreeWithHistory::new();
    let zero = word(ZERO);
    let one = word(Uint256::one().to_be_bytes());

    tree.init(20, Blake2.hash_two(&zero, &zero).unwrap(), &Blake2)
        .unwrap();

    let leaf = Blake2.hash_two(&one, &one).unwrap();

    let (_, old_root) = tree.insert(leaf, &Blake2).unwrap();
    let (_, new_root) = tree.insert(leaf, &Blake2).unwrap();

    assert!(tree.is_valid_root(&old_root).unwrap());
    assert!(tree.is_valid_root(&new_root).unwrap());
}

use std::str::FromStr;

use cosmwasm_std::Uint256;
use sparse_merkle::Blake2;
use sparse_merkle::Hasher;
use sparse_merkle::SparseMerkleTree;
use sparse_merkle::Word256;

fn word(bytes: [u8; 32]) -> Word256 {
    Word256::new(
        u64::from_be_bytes(bytes[0..8].try_into().unwrap()),
        u64::from_be_bytes(bytes[8..16].try_into().unwrap()),
        u64::from_be_bytes(bytes[16..24].try_into().unwrap()),
        u64::from_be_bytes(bytes[24..32].try_into().unwrap()),
    )
}

fn from_dec(s: &str) -> Word256 {
    word(Uint256::from_str(s).unwrap().to_be_bytes())
}

fn u256(x: u128) -> Word256 {
    word(Uint256::from_u128(x).to_be_bytes())
}

#[test]
fn sparse_init() {
    let mut tree: SparseMerkleTree<Word256> = SparseMerkleTree::new();

    tree.init(20, Blake2.hash_two(&u256(0), &u256(0)).unwrap(), &Blake2)
        .unwrap();

    assert_eq!(
        tree.get_latest_root().unwrap(),
        from_dec("9249403463272353962338525770558810268347485650856754165003644360089862036530")
    );
}

#[test]
fn sparse_insert() {
    let mut tree: SparseMerkleTree<Word256> = SparseMerkleTree::new();

    tree.init(20, Blake2.hash_two(&u256(0), &u256(0)).unwrap(), &Blake2)
        .unwrap();

    let leaf = Blake2.hash_two(&u256(1), &u256(1)).unwrap();

    let (index, new_root) = tree.insert(leaf, &Blake2).unwrap();

    assert_eq!(index, 0);
    assert_eq!(
        new_root,
        from_dec("65270348628983318905821145914244198139930176154042934882987463098115489862117")
    );
    assert_eq!(new_root, tree.get_latest_root().unwrap());
    assert!(tree.is_valid_root(&new_root).unwrap());

    let (index, new_root) = tree.insert(leaf, &Blake2).unwrap();

    assert_eq!(index, 1);
    assert_eq!(
        new_root,
        from_dec("31390868241958093005646829964058364480768696680064791450319134920411060649604")
    );
    assert_eq!(new_root, tree.get_latest_root().unwrap());
    assert!(tree.is_valid_root(&new_root).unwrap());
}

#[test]
fn sparse_root_history() {
    let mut tree: SparseMerkleTree<Word256> = SparseMerkleTree::new();

    tree.init(20, Blake2.hash_two(&u256(0), &u256(0)).unwrap(), &Blake2)
        .unwrap();

    let leaf = Blake2.hash_two(&u256(5), &u256(5)).unwrap();

    let (_, old_root) = tree.insert(leaf, &Blake2).unwrap();
    let (_, new_root) = tree.insert(leaf, &Blake2).unwrap();

    assert!(!tree.is_valid_root(&old_root).unwrap());
    assert!(tree.is_valid_root(&new_root).unwrap());
}

use std::str::FromStr;

use cosmwasm_std::Uint256;
use sparse_merkle::Blake2;
use sparse_merkle::Hasher;
use sparse_merkle::Word256;

fn word(bytes: [u8; 32]) -> Word256 {
    Word256::new(
        u64::from_be_bytes(bytes[0..8].try_into().unwrap()),
        u64::from_be_bytes(bytes[8..16].try_into().unwrap()),
        u64::from_be_bytes(bytes[16..24].try_into().unwrap()),
        u64::from_be_bytes(bytes[24..32].try_into().unwrap()),
    )
}

#[test]
fn hash() {
    let one = word(Uint256::from_u128(1).to_be_bytes());
    let result = Blake2.hash_two(&one, &one).unwrap();

    assert_eq!(
        result,
        word(
            Uint256::from_str(
                "32330994018239876717743352644966702819050069979269935689071830732604725210220"
            )
            .unwrap()
            .to_be_bytes()
        )
    );
}

use vstd::prelude::*;

verus! {

/// Failure reported by a hash combiner implementation.
#[derive(Debug)]
pub enum HasherError {
    Custom(String),
}

impl HasherError {
    /// Wrap a textual description in a hasher error.
    pub fn custom(description: String) -> (r: Self)
        ensures
            r == HasherError::Custom(description),
    {
        HasherError::Custom(description)
    }
}

/// Errors of the tree operations.
#[derive(Debug)]
pub enum MerkleTreeError {
    /// The injected hash combiner failed; the cause is passed through.
    Hasher(HasherError),
    /// An insertion was attempted on a tree that already holds `2^level` leaves.
    ExceedMaxLeaf,
    /// `init` was called on a tree whose depth is already set.
    AlreadyInit,
}

} // verus!

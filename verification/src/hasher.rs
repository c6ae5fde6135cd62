use vstd::prelude::*;

use crate::error::HasherError;

verus! {

/// A two-input hash combiner supplied by the host.
///
/// `spec_hash` names the mathematical function the combiner computes and
/// `spec_hash_ok` the inputs on which it succeeds; `hash_two` must agree
/// with both. Implementations must be deterministic and side-effect-free.
pub trait Hasher<L>: Sized {
    /// The value `hash_two` returns on success.
    spec fn spec_hash(self, left: L, right: L) -> L;

    /// Whether `hash_two` succeeds on these inputs.
    spec fn spec_hash_ok(self, left: L, right: L) -> bool;

    /// Hash two elements together.
    fn hash_two(&self, left: &L, right: &L) -> (r: Result<L, HasherError>)
        ensures
            r is Ok <==> self.spec_hash_ok(*left, *right),
            r is Ok ==> r->Ok_0 == self.spec_hash(*left, *right),
    ;
}

/// Leaf capability: a tree leaf must be duplicable and comparable, and both
/// operations must agree with mathematical equality on the type.
pub trait MerkleLeaf: Sized {
    /// Produce a value equal to `self`.
    fn clone_leaf(&self) -> (r: Self)
        ensures
            r == *self,
    ;

    /// Decide equality of two leaves.
    fn eq_leaf(&self, other: &Self) -> (r: bool)
        ensures
            r == (*self == *other),
    ;
}

} // verus!

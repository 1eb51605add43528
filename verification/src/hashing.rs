//! The one trusted boundary of the library: the Merkle root digest is
//! computed by the `merkle` crate with ring's SHA-512 and is named, not
//! restated, by an uninterpreted spec function.

use vstd::prelude::*;

verus! {

/// The root digest of a Merkle tree built over the given leaf byte
/// strings: each leaf is hashed individually, hashes are combined
/// pairwise bottom-up, an unpaired node is promoted unchanged, and a
/// tree of zero leaves has the digest of the empty string as its root.
/// The digest is a function of the ordered leaf contents alone.
pub uninterp spec fn merkle_root_of(leaves: Seq<Seq<u8>>) -> Seq<u8>;

/// Relies on `merkle::MerkleTree::from_vec` and `MerkleTree::root_hash`
/// with `ring::digest::SHA512`: the tree is built from the leaf byte
/// strings alone (each leaf feeds the digest through `AsRef<[u8]>`), so
/// the root is a function of the ordered leaf contents, and a SHA-512
/// digest is 64 bytes long.
#[verifier::external_body]
pub(crate) fn merkle_root(leaves: Vec<Vec<u8>>) -> (r: Vec<u8>)
    ensures
        r@ == merkle_root_of(leaves.deep_view()),
        r@.len() == 64,
{
    let tree = merkle::MerkleTree::from_vec(&ring::digest::SHA512, leaves);
    tree.root_hash().clone()
}

} // verus!

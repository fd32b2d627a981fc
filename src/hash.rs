//! The pairwise hash of the tree, and the wire form of one proof step.

use tiny_keccak::{Hasher, Keccak};
use vstd::prelude::*;

verus! {

/// Keccak-256 of a byte string.
pub uninterp spec fn keccak256(data: Seq<u8>) -> Seq<u8>;

/// The hash of an inner node whose children hash to `left` and `right`.
pub open spec fn combine(left: Seq<u8>, right: Seq<u8>) -> Seq<u8> {
    keccak256(left + right)
}

/// Side code of a sibling that stands on the left of the path.
pub const LEFT: u8 = 0;

/// Side code of a sibling that stands on the right of the path.
pub const RIGHT: u8 = 1;

/// The 33 bytes of a proof step: the sibling hash, then its side code.
pub open spec fn node_bytes(hash: Seq<u8>, side: u8) -> Seq<u8> {
    hash.push(side)
}

/// Relies on tiny_keccak's `Keccak::v256`, `update` and `finalize`: the
/// 32 bytes written are the Keccak-256 digest of `data`.
#[verifier::external_body]
pub fn hash_it(data: &[u8], buffer: &mut [u8; 32])
    ensures
        final(buffer)@ == keccak256(data@),
{
    let mut k256 = Keccak::v256();
    k256.update(data);
    k256.finalize(buffer);
}

/// Writes into `buffer` the hash of the concatenation `left || right`.
pub fn hash_function(left: &[u8], right: &[u8], buffer: &mut [u8; 32])
    ensures
        final(buffer)@ == combine(left@, right@),
{
    let mut concat: Vec<u8> = Vec::new();
    concat.extend_from_slice(left);
    concat.extend_from_slice(right);
    assert(concat@ =~= left@ + right@);
    hash_it(concat.as_slice(), buffer);
}

/// Lays out one proof step: the 32-byte hash followed by the side code.
pub fn make_node(hash: [u8; 32], side: u8) -> (node: [u8; 33])
    ensures
        node@ == node_bytes(hash@, side),
{
    let mut node = [0u8; 33];
    let mut i: usize = 0;
    while i < 32
        invariant
            0 <= i <= 32,
            forall|j: int| 0 <= j < i ==> node@[j] == hash@[j],
        decreases 32 - i,
    {
        node[i] = hash[i];
        i = i + 1;
    }
    node[32] = side;
    assert(node@ =~= node_bytes(hash@, side));
    node
}

} // verus!

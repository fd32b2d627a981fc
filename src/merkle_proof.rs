//! Authentication paths: the sibling hashes that lead from one leaf to the root.

use vstd::prelude::*;
use vstd::slice::slice_subrange;

use crate::error::MerkleError;
use crate::hash::{combine, make_node, node_bytes, LEFT, RIGHT};
use crate::merkle_root::{
    hashes, is_power_of_two, lemma_root_of_halves, merkle_root, reduce_to_root,
};

verus! {

/// The byte strings held by a sequence of 33-byte proof steps.
pub open spec fn nodes(proof: Seq<[u8; 33]>) -> Seq<Seq<u8>> {
    proof.map_values(|n: [u8; 33]| n@)
}

/// The wire form of a path of (sibling, side) steps.
pub open spec fn path_bytes(path: Seq<(Seq<u8>, u8)>) -> Seq<Seq<u8>> {
    path.map_values(|s: (Seq<u8>, u8)| node_bytes(s.0, s.1))
}

/// The position of the first occurrence of `target` in `s`.
pub open spec fn first_index(s: Seq<Seq<u8>>, target: Seq<u8>) -> int {
    choose|i: int| 0 <= i < s.len() && s[i] == target && forall|j: int| 0 <= j < i ==> s[j] != target
}

/// The (sibling, side) steps for the element at `idx` of `range`, in
/// leaf-to-root order. The range is split into two contiguous halves; the
/// half without the element is summarised by its root, and the path goes on
/// into the other half, until two elements are left.
pub open spec fn proof_path(range: Seq<Seq<u8>>, idx: int) -> Seq<(Seq<u8>, u8)>
    decreases range.len(),
{
    if range.len() < 2 {
        seq![]
    } else if range.len() == 2 {
        if idx == 1 {
            seq![(range[0], LEFT)]
        } else {
            seq![(range[1], RIGHT)]
        }
    } else {
        let half = range.len() as int / 2;
        if idx < half {
            proof_path(range.subrange(0, half), idx).push(
                (merkle_root(range.subrange(half, range.len() as int)), RIGHT),
            )
        } else {
            proof_path(range.subrange(half, range.len() as int), idx - half).push(
                (merkle_root(range.subrange(0, half)), LEFT),
            )
        }
    }
}

/// The proof for `target` in `leaves`: the path of its first occurrence.
pub open spec fn merkle_proof(leaves: Seq<Seq<u8>>, target: Seq<u8>) -> Seq<(Seq<u8>, u8)> {
    proof_path(leaves, first_index(leaves, target))
}

/// The value reached from `leaf` by applying the steps of `path` in order:
/// a `LEFT` sibling is hashed in front of the running value, any other
/// sibling after it.
pub open spec fn replay(leaf: Seq<u8>, path: Seq<(Seq<u8>, u8)>) -> Seq<u8>
    decreases path.len(),
{
    if path.len() == 0 {
        leaf
    } else {
        let below = replay(leaf, path.drop_last());
        let step = path.last();
        if step.1 == LEFT {
            combine(step.0, below)
        } else {
            combine(below, step.0)
        }
    }
}

/// A target that occurs in `s` has a first occurrence.
pub proof fn lemma_first_index(s: Seq<Seq<u8>>, target: Seq<u8>)
    requires
        s.contains(target),
    ensures
        0 <= first_index(s, target) < s.len(),
        s[first_index(s, target)] == target,
        forall|j: int| 0 <= j < first_index(s, target) ==> s[j] != target,
    decreases s.len(),
{
    let front = s.drop_last();
    if front.contains(target) {
        lemma_first_index(front, target);
        let i = first_index(front, target);
        assert forall|j: int| 0 <= j < i implies s[j] != target by {
            assert(front[j] == s[j]);
        }
        assert(s[i] == front[i]);
    } else {
        let i = s.len() - 1;
        assert forall|j: int| 0 <= j < i implies s[j] != target by {
            if s[j] == target {
                assert(front[j] == target);
            }
        }
        assert(s[i] == target);
    }
}

/// On a range whose length is a power of two, the path of any element
/// replays from that element to the root of the range.
pub proof fn lemma_path_replays(range: Seq<Seq<u8>>, idx: int)
    requires
        is_power_of_two(range.len()),
        0 <= idx < range.len(),
    ensures
        replay(range[idx], proof_path(range, idx)) == merkle_root(range),
    decreases range.len(),
{
    let n = range.len() as int;
    if n == 2 {
        let path = proof_path(range, idx);
        assert(path.drop_last() =~= seq![]);
        assert(replay(range[idx], path.drop_last()) == range[idx]);
        lemma_root_of_halves(range.subrange(0, 1), range.subrange(1, 2));
        assert(range =~= range.subrange(0, 1) + range.subrange(1, 2));
        assert(replay(range[idx], path) == combine(range[0], range[1]));
    } else if n > 2 {
        let half = n / 2;
        let left = range.subrange(0, half);
        let right = range.subrange(half, n);
        assert(range =~= left + right);
        assert(is_power_of_two(half as nat));
        lemma_root_of_halves(left, right);
        if idx < half {
            lemma_path_replays(left, idx);
            assert(left[idx] == range[idx]);
            let below = proof_path(left, idx);
            assert(below.push((merkle_root(right), RIGHT)).drop_last() =~= below);
            assert(proof_path(range, idx) == below.push((merkle_root(right), RIGHT)));
        } else {
            lemma_path_replays(right, idx - half);
            assert(right[idx - half] == range[idx]);
            let below = proof_path(right, idx - half);
            assert(below.push((merkle_root(left), LEFT)).drop_last() =~= below);
            assert(proof_path(range, idx) == below.push((merkle_root(left), LEFT)));
        }
    }
}

/// For a leaf count that is a power of two, replaying the proof of any leaf
/// from that leaf gives the root of the whole sequence.
pub proof fn lemma_proof_replays_to_root(leaves: Seq<Seq<u8>>, target: Seq<u8>)
    requires
        is_power_of_two(leaves.len()),
        leaves.contains(target),
    ensures
        replay(target, merkle_proof(leaves, target)) == merkle_root(leaves),
{
    lemma_first_index(leaves, target);
    lemma_path_replays(leaves, first_index(leaves, target));
}

/// Whether two hashes hold the same bytes.
fn same_hash(a: &[u8; 32], b: &[u8; 32]) -> (r: bool)
    ensures
        r == (a@ == b@),
{
    let mut i: usize = 0;
    while i < 32
        invariant
            0 <= i <= 32,
            forall|j: int| 0 <= j < i ==> a@[j] == b@[j],
        decreases 32 - i,
    {
        if a[i] != b[i] {
            return false;
        }
        i = i + 1;
    }
    assert(a@ =~= b@);
    true
}

/// The position of the first leaf equal to `leaf`, if any.
fn position(leaves: &[[u8; 32]], leaf: &[u8; 32]) -> (r: Option<usize>)
    ensures
        match r {
            Some(i) => i < leaves@.len() && hashes(leaves@)[i as int] == leaf@ && forall|j: int|
                0 <= j < i ==> hashes(leaves@)[j] != leaf@,
            None => !hashes(leaves@).contains(leaf@),
        },
{
    let mut i: usize = 0;
    while i < leaves.len()
        invariant
            i <= leaves@.len(),
            forall|j: int| 0 <= j < i ==> hashes(leaves@)[j] != leaf@,
        decreases leaves@.len() - i,
    {
        if same_hash(&leaves[i], leaf) {
            return Some(i);
        }
        i = i + 1;
    }
    None
}

/// The path for the leaf at `idx` within `leaves[lo..hi]`.
fn path_in_range(leaves: &[[u8; 32]], lo: usize, hi: usize, idx: usize) -> (proof: Vec<[u8; 33]>)
    requires
        lo <= idx < hi <= leaves@.len(),
    ensures
        nodes(proof@) == path_bytes(proof_path(hashes(leaves@).subrange(lo as int, hi as int), idx - lo)),
    decreases hi - lo,
{
    let ghost range = hashes(leaves@).subrange(lo as int, hi as int);
    let len = hi - lo;
    let mut proof: Vec<[u8; 33]> = Vec::new();
    if len < 2 {
        assert(nodes(proof@) =~= path_bytes(proof_path(range, idx - lo)));
        return proof;
    }
    if len == 2 {
        if idx - lo == 1 {
            proof.push(make_node(leaves[lo], LEFT));
        } else {
            proof.push(make_node(leaves[lo + 1], RIGHT));
        }
        assert(nodes(proof@) =~= path_bytes(proof_path(range, idx - lo)));
        return proof;
    }
    let half = len / 2;
    let mid = lo + half;
    assert(hashes(leaves@).subrange(lo as int, mid as int) =~= range.subrange(0, half as int));
    assert(hashes(leaves@).subrange(mid as int, hi as int) =~= range.subrange(half as int, len as int));
    if idx < mid {
        proof = path_in_range(leaves, lo, mid, idx);
        let other = slice_subrange(leaves, mid, hi);
        assert(hashes(other@) =~= range.subrange(half as int, len as int));
        let sibling = reduce_to_root(other);
        let ghost below = proof_path(range.subrange(0, half as int), idx - lo);
        let ghost step = (sibling@, RIGHT);
        assert(proof_path(range, idx - lo) == below.push(step));
        assert(path_bytes(below.push(step)) =~= path_bytes(below).push(node_bytes(step.0, step.1)));
        let ghost prev = proof@;
        proof.push(make_node(sibling, RIGHT));
        assert(nodes(proof@) =~= nodes(prev).push(node_bytes(step.0, step.1)));
    } else {
        proof = path_in_range(leaves, mid, hi, idx);
        let other = slice_subrange(leaves, lo, mid);
        assert(hashes(other@) =~= range.subrange(0, half as int));
        let sibling = reduce_to_root(other);
        let ghost below = proof_path(range.subrange(half as int, len as int), idx - mid);
        let ghost step = (sibling@, LEFT);
        assert(proof_path(range, idx - lo) == below.push(step));
        assert(path_bytes(below.push(step)) =~= path_bytes(below).push(node_bytes(step.0, step.1)));
        let ghost prev = proof@;
        proof.push(make_node(sibling, LEFT));
        assert(nodes(proof@) =~= nodes(prev).push(node_bytes(step.0, step.1)));
    }
    assert(nodes(proof@) =~= path_bytes(proof_path(range, idx - lo)));
    proof
}

/// The authentication path of `leaf` in `leaves`, one 33-byte step per
/// level from the leaf up to the root. The leaf is taken at its first
/// occurrence. An empty or single-leaf tree has no proof, and a leaf that
/// does not occur has none either.
pub fn make_proof(leaves: &[[u8; 32]], leaf: [u8; 32]) -> (r: Result<Vec<[u8; 33]>, MerkleError>)
    ensures
        match r {
            Ok(proof) => leaves@.len() >= 2 && hashes(leaves@).contains(leaf@) && nodes(proof@)
                == path_bytes(merkle_proof(hashes(leaves@), leaf@)),
            Err(e) => (leaves@.len() == 0 && e == MerkleError::InvalidInput) || (leaves@.len() > 0
                && !hashes(leaves@).contains(leaf@) && e == MerkleError::LeafNotFound) || (
            leaves@.len() == 1 && hashes(leaves@).contains(leaf@) && e
                == MerkleError::InvalidInput),
        },
{
    let n = leaves.len();
    if n == 0 {
        return Err(MerkleError::InvalidInput);
    }
    match position(leaves, &leaf) {
        None => Err(MerkleError::LeafNotFound),
        Some(idx) => {
            if n < 2 {
                return Err(MerkleError::InvalidInput);
            }
            assert(first_index(hashes(leaves@), leaf@) == idx);
            assert(hashes(leaves@).subrange(0, n as int) =~= hashes(leaves@));
            Ok(path_in_range(leaves, 0, n, idx))
        }
    }
}

} // verus!

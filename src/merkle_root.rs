//! Reduction of an ordered leaf sequence to its Merkle root.

use vstd::prelude::*;
use vstd::slice::slice_to_vec;

use crate::error::MerkleError;
use crate::hash::{combine, hash_function};

verus! {

/// The byte strings held by a sequence of 32-byte hashes.
pub open spec fn hashes(leaves: Seq<[u8; 32]>) -> Seq<Seq<u8>> {
    leaves.map_values(|h: [u8; 32]| h@)
}

/// One level up: consecutive pairs are combined, and a trailing odd
/// element is carried forward unchanged.
pub open spec fn next_level(level: Seq<Seq<u8>>) -> Seq<Seq<u8>> {
    Seq::new(
        ((level.len() + 1) / 2) as nat,
        |i: int|
            if 2 * i + 1 < level.len() {
                combine(level[2 * i], level[2 * i + 1])
            } else {
                level[2 * i]
            },
    )
}

/// The root of a non-empty level: the level is reduced until one element is left.
pub open spec fn merkle_root(level: Seq<Seq<u8>>) -> Seq<u8>
    decreases level.len(),
{
    if level.len() <= 1 {
        level[0]
    } else {
        merkle_root(next_level(level))
    }
}

/// What `make_root` returns for `leaves`: the root of a non-empty
/// sequence, and `InvalidInput` for an empty one.
pub open spec fn root_outcome(leaves: Seq<[u8; 32]>, r: Result<[u8; 32], MerkleError>) -> bool {
    match r {
        Ok(root) => leaves.len() > 0 && root@ == merkle_root(hashes(leaves)),
        Err(e) => leaves.len() == 0 && e == MerkleError::InvalidInput,
    }
}

/// The root is a function of the leaves: two outcomes of `make_root` on
/// the same leaves are equal.
pub proof fn lemma_root_deterministic(
    leaves: Seq<[u8; 32]>,
    r1: Result<[u8; 32], MerkleError>,
    r2: Result<[u8; 32], MerkleError>,
)
    requires
        root_outcome(leaves, r1),
        root_outcome(leaves, r2),
    ensures
        r1 == r2,
{
    if let (Ok(a), Ok(b)) = (r1, r2) {
        assert(a =~= b);
    }
}

/// The root of a single leaf is that leaf.
pub proof fn lemma_root_single(x: Seq<u8>)
    ensures
        merkle_root(seq![x]) == x,
{
}

/// The root of two leaves is their combined hash.
pub proof fn lemma_root_pair(a: Seq<u8>, b: Seq<u8>)
    ensures
        merkle_root(seq![a, b]) == combine(a, b),
{
    let up = next_level(seq![a, b]);
    assert(up =~= seq![combine(a, b)]);
    assert(merkle_root(up) == combine(a, b));
}

/// Of three leaves the first two are combined and the third is carried
/// forward unchanged, then combined with them.
pub proof fn lemma_root_odd_carry(a: Seq<u8>, b: Seq<u8>, c: Seq<u8>)
    ensures
        merkle_root(seq![a, b, c]) == combine(combine(a, b), c),
{
    let up = next_level(seq![a, b, c]);
    assert(up =~= seq![combine(a, b), c]);
    lemma_root_pair(combine(a, b), c);
}

/// Whether `n` is a power of two.
pub open spec fn is_power_of_two(n: nat) -> bool
    decreases n,
{
    if n <= 1 {
        n == 1
    } else {
        n % 2 == 0 && is_power_of_two(n / 2)
    }
}

/// Pairing a level whose first part has even length pairs each part on its own.
pub proof fn lemma_next_level_split(x: Seq<Seq<u8>>, y: Seq<Seq<u8>>)
    requires
        x.len() % 2 == 0,
    ensures
        next_level(x + y) == next_level(x) + next_level(y),
{
    assert(next_level(x + y) =~= next_level(x) + next_level(y));
}

/// Two equal halves whose length is a power of two reduce to the hash of
/// their two roots.
pub proof fn lemma_root_of_halves(x: Seq<Seq<u8>>, y: Seq<Seq<u8>>)
    requires
        x.len() == y.len(),
        is_power_of_two(x.len()),
    ensures
        merkle_root(x + y) == combine(merkle_root(x), merkle_root(y)),
    decreases x.len(),
{
    if x.len() == 1 {
        let up = next_level(x + y);
        assert(up =~= seq![combine(x[0], y[0])]);
        assert(merkle_root(up) == combine(x[0], y[0]));
    } else {
        let (nx, ny) = (next_level(x), next_level(y));
        lemma_next_level_split(x, y);
        assert(nx.len() == x.len() / 2 && ny.len() == y.len() / 2);
        lemma_root_of_halves(nx, ny);
        assert(merkle_root(x + y) == merkle_root(nx + ny));
    }
}

/// Computes the next level of the tree from `level`.
#[verifier::rlimit(30)]
fn reduce_level(level: &Vec<[u8; 32]>) -> (next: Vec<[u8; 32]>)
    ensures
        hashes(next@) == next_level(hashes(level@)),
{
    let n = level.len();
    let ghost up = next_level(hashes(level@));
    let mut next: Vec<[u8; 32]> = Vec::new();
    let mut i: usize = 0;
    while i < n
        invariant
            n == level@.len(),
            i <= n,
            i % 2 == 0 || i == n,
            up == next_level(hashes(level@)),
            next@.len() == (i + 1) / 2,
            forall|j: int| 0 <= j < next@.len() ==> #[trigger] next@[j]@ == up[j],
        decreases n - i,
    {
        let mut node = [0u8; 32];
        if i + 1 < n {
            hash_function(level[i].as_slice(), level[i + 1].as_slice(), &mut node);
            i = i + 2;
        } else {
            node = level[i];
            i = i + 1;
        }
        next.push(node);
    }
    assert(hashes(next@) =~= up);
    next
}

/// The Merkle root of `leaves`; an empty sequence has none.
pub fn make_root(leaves: &[[u8; 32]]) -> (r: Result<[u8; 32], MerkleError>)
    ensures
        root_outcome(leaves@, r),
{
    if leaves.len() == 0 {
        return Err(MerkleError::InvalidInput);
    }
    Ok(reduce_to_root(leaves))
}

/// The Merkle root of a non-empty leaf sequence.
pub(crate) fn reduce_to_root(leaves: &[[u8; 32]]) -> (root: [u8; 32])
    requires
        leaves@.len() > 0,
    ensures
        root@ == merkle_root(hashes(leaves@)),
{
    let mut level = slice_to_vec(leaves);
    while level.len() > 1
        invariant
            level@.len() >= 1,
            merkle_root(hashes(level@)) == merkle_root(hashes(leaves@)),
        decreases level@.len(),
    {
        let next = reduce_level(&level);
        assert(hashes(next@).len() == next@.len());
        level = next;
    }
    level[0]
}

} // verus!

//! The theory of level reduction: what the root of a sequence of leaf hashes
//! is, what the inclusion proof of a leaf is, and why the one checks against
//! the other. Everything here is stated for an arbitrary pair function.
use vstd::prelude::*;

verus! {

/// The position next to `i` in its pair: the right neighbour of an even
/// position, the left neighbour of an odd one.
pub open spec fn sibling_index(i: int) -> int {
    if i % 2 == 0 {
        i + 1
    } else {
        i - 1
    }
}

/// The hash that entry `i` of a level is paired with: its neighbour, or the
/// entry itself where it is the odd one out at the end of the level.
pub open spec fn sibling_hash(level: Seq<Seq<u8>>, i: int) -> Seq<u8> {
    if sibling_index(i) < level.len() {
        level[sibling_index(i)]
    } else {
        level[i]
    }
}

/// Entry `p` of the level above `level`: the combination of entries `2p` and
/// `2p + 1`, or of entry `2p` with itself where it has no right neighbour.
pub open spec fn pair_hash(
    combine: spec_fn(Seq<u8>, Seq<u8>) -> Seq<u8>,
    level: Seq<Seq<u8>>,
    p: int,
) -> Seq<u8> {
    if 2 * p + 1 < level.len() {
        combine(level[2 * p], level[2 * p + 1])
    } else {
        combine(level[2 * p], level[2 * p])
    }
}

/// The level above `level`: its entries taken in consecutive pairs, left to
/// right, each pair combined.
pub open spec fn next_level(
    combine: spec_fn(Seq<u8>, Seq<u8>) -> Seq<u8>,
    level: Seq<Seq<u8>>,
) -> Seq<Seq<u8>> {
    Seq::new(((level.len() + 1) / 2) as nat, |p: int| pair_hash(combine, level, p))
}

/// The root of a tree over `leaves`: the one hash left when the level is
/// reduced until a single entry remains. A lone leaf is its own root.
pub open spec fn merkle_root(
    combine: spec_fn(Seq<u8>, Seq<u8>) -> Seq<u8>,
    leaves: Seq<Seq<u8>>,
) -> Seq<u8>
    decreases leaves.len(),
{
    if leaves.len() == 0 {
        Seq::empty()
    } else if leaves.len() == 1 {
        leaves[0]
    } else {
        merkle_root(combine, next_level(combine, leaves))
    }
}

/// The inclusion proof of leaf `i`: at each level from the leaves to just
/// below the root, the hash that the node on the leaf's path is paired with.
pub open spec fn merkle_proof(
    combine: spec_fn(Seq<u8>, Seq<u8>) -> Seq<u8>,
    leaves: Seq<Seq<u8>>,
    i: int,
) -> Seq<Seq<u8>>
    decreases leaves.len(),
{
    if leaves.len() <= 1 {
        Seq::empty()
    } else {
        seq![sibling_hash(leaves, i)] + merkle_proof(combine, next_level(combine, leaves), i / 2)
    }
}

/// One step up the tree: the parent of `hash` at position `index` whose pair
/// partner is `sibling`. An even position is the left child, an odd one the
/// right child.
pub open spec fn climb(
    combine: spec_fn(Seq<u8>, Seq<u8>) -> Seq<u8>,
    hash: Seq<u8>,
    index: int,
    sibling: Seq<u8>,
) -> Seq<u8> {
    if index % 2 == 0 {
        combine(hash, sibling)
    } else {
        combine(sibling, hash)
    }
}

/// The hash reached from `hash` at position `index` by climbing once for each
/// element of `proof`, in order, halving the position at each step.
pub open spec fn proof_root(
    combine: spec_fn(Seq<u8>, Seq<u8>) -> Seq<u8>,
    hash: Seq<u8>,
    index: int,
    proof: Seq<Seq<u8>>,
) -> Seq<u8>
    decreases proof.len(),
{
    if proof.len() == 0 {
        hash
    } else {
        proof_root(combine, climb(combine, hash, index, proof[0]), index / 2, proof.drop_first())
    }
}

/// The number of reductions that take `n` entries to one: the depth of every
/// leaf in a tree of `n` leaves.
pub open spec fn depth(n: nat) -> nat
    decreases n,
{
    if n <= 1 {
        0
    } else {
        1 + depth(((n + 1) / 2) as nat)
    }
}

/// Whether `i` is the first position of `hash` in `hashes`.
pub open spec fn first_position(hashes: Seq<Seq<u8>>, hash: Seq<u8>, i: int) -> bool {
    &&& 0 <= i < hashes.len()
    &&& hashes[i] == hash
    &&& forall|j: int| 0 <= j < i ==> hashes[j] != hash
}

/// A pair function under which no two different pairs share a parent hash.
pub open spec fn collision_free(combine: spec_fn(Seq<u8>, Seq<u8>) -> Seq<u8>) -> bool {
    forall|a: Seq<u8>, b: Seq<u8>, c: Seq<u8>, d: Seq<u8>|
        #[trigger] combine(a, b) == #[trigger] combine(c, d) ==> a == c && b == d
}

/// The tree of a single leaf has that leaf's hash as its root: nothing is
/// combined.
pub proof fn lemma_single_leaf_root(combine: spec_fn(Seq<u8>, Seq<u8>) -> Seq<u8>, leaf: Seq<u8>)
    ensures
        merkle_root(combine, seq![leaf]) == leaf,
        merkle_proof(combine, seq![leaf], 0) == Seq::<Seq<u8>>::empty(),
{
}

/// Climbing from an entry with the hash it is paired with reaches its parent
/// in the level above.
pub proof fn lemma_climb_reaches_parent(
    combine: spec_fn(Seq<u8>, Seq<u8>) -> Seq<u8>,
    level: Seq<Seq<u8>>,
    i: int,
)
    requires
        0 <= i < level.len(),
    ensures
        0 <= i / 2 < next_level(combine, level).len(),
        climb(combine, level[i], i, sibling_hash(level, i)) == next_level(combine, level)[i / 2],
{
}

/// The proof generated for a leaf verifies: replaying it from the leaf's hash
/// at the leaf's index ends at the root.
pub proof fn lemma_proof_verifies(
    combine: spec_fn(Seq<u8>, Seq<u8>) -> Seq<u8>,
    leaves: Seq<Seq<u8>>,
    i: int,
)
    requires
        0 <= i < leaves.len(),
    ensures
        proof_root(combine, leaves[i], i, merkle_proof(combine, leaves, i)) == merkle_root(
            combine,
            leaves,
        ),
    decreases leaves.len(),
{
    if leaves.len() > 1 {
        let up = next_level(combine, leaves);
        let proof = merkle_proof(combine, leaves, i);
        lemma_climb_reaches_parent(combine, leaves, i);
        lemma_proof_verifies(combine, up, i / 2);
        assert(proof.drop_first() == merkle_proof(combine, up, i / 2));
    }
}

/// A proof has one element for each level below the root: its length is the
/// depth of the leaves.
pub proof fn lemma_proof_length(
    combine: spec_fn(Seq<u8>, Seq<u8>) -> Seq<u8>,
    leaves: Seq<Seq<u8>>,
    i: int,
)
    ensures
        merkle_proof(combine, leaves, i).len() == depth(leaves.len()),
    decreases leaves.len(),
{
    if leaves.len() > 1 {
        lemma_proof_length(combine, next_level(combine, leaves), i / 2);
    }
}

/// Under a collision-free pair function, replaying one proof from two hashes
/// at the same index ends at the same hash only if the two hashes are equal.
pub proof fn lemma_proof_root_injective(
    combine: spec_fn(Seq<u8>, Seq<u8>) -> Seq<u8>,
    first: Seq<u8>,
    second: Seq<u8>,
    index: int,
    proof: Seq<Seq<u8>>,
)
    requires
        collision_free(combine),
        proof_root(combine, first, index, proof) == proof_root(combine, second, index, proof),
    ensures
        first == second,
    decreases proof.len(),
{
    if proof.len() > 0 {
        lemma_proof_root_injective(
            combine,
            climb(combine, first, index, proof[0]),
            climb(combine, second, index, proof[0]),
            index / 2,
            proof.drop_first(),
        );
    }
}

/// Under a collision-free pair function, a hash that is not the leaf's does
/// not verify with the leaf's proof at the leaf's index.
pub proof fn lemma_wrong_leaf_rejected(
    combine: spec_fn(Seq<u8>, Seq<u8>) -> Seq<u8>,
    leaves: Seq<Seq<u8>>,
    i: int,
    claimed: Seq<u8>,
)
    requires
        collision_free(combine),
        0 <= i < leaves.len(),
        claimed != leaves[i],
    ensures
        proof_root(combine, claimed, i, merkle_proof(combine, leaves, i)) != merkle_root(
            combine,
            leaves,
        ),
{
    lemma_proof_verifies(combine, leaves, i);
    if proof_root(combine, claimed, i, merkle_proof(combine, leaves, i)) == merkle_root(
        combine,
        leaves,
    ) {
        lemma_proof_root_injective(
            combine,
            claimed,
            leaves[i],
            i,
            merkle_proof(combine, leaves, i),
        );
    }
}

/// Level `k` of the tree over `leaves`: the leaves themselves for `k == 0`,
/// and the reduction of the level below for every other `k`.
pub open spec fn level_at(
    combine: spec_fn(Seq<u8>, Seq<u8>) -> Seq<u8>,
    leaves: Seq<Seq<u8>>,
    k: nat,
) -> Seq<Seq<u8>>
    decreases k,
{
    if k == 0 {
        leaves
    } else {
        next_level(combine, level_at(combine, leaves, (k - 1) as nat))
    }
}

/// The number of entries of level `k` in a tree of `n` leaves.
pub open spec fn level_len(n: nat, k: nat) -> nat
    decreases k,
{
    if k == 0 {
        n
    } else {
        (level_len(n, (k - 1) as nat) + 1) / 2
    }
}

/// Level `k` has `level_len` entries.
pub proof fn lemma_level_len(
    combine: spec_fn(Seq<u8>, Seq<u8>) -> Seq<u8>,
    leaves: Seq<Seq<u8>>,
    k: nat,
)
    ensures
        level_at(combine, leaves, k).len() == level_len(leaves.len(), k),
    decreases k,
{
    if k > 0 {
        lemma_level_len(combine, leaves, (k - 1) as nat);
    }
}

/// Level `k + 1` of `n` entries is as long as level `k` of the `(n + 1) / 2`
/// entries of their first reduction.
pub proof fn lemma_level_len_shift(n: nat, k: nat)
    ensures
        level_len(n, k + 1) == level_len(((n + 1) / 2) as nat, k),
    decreases k,
{
    if k == 0 {
        assert(level_len(n, 0) == n);
        assert(level_len(n, 1) == (level_len(n, 0) + 1) / 2);
    } else {
        lemma_level_len_shift(n, (k - 1) as nat);
        assert(level_len(n, k + 1) == (level_len(n, k) + 1) / 2);
    }
}

/// Level `k + 1` over the leaves is level `k` over the first reduction of the
/// leaves.
pub proof fn lemma_level_shift(
    combine: spec_fn(Seq<u8>, Seq<u8>) -> Seq<u8>,
    leaves: Seq<Seq<u8>>,
    k: nat,
)
    ensures
        level_at(combine, leaves, k + 1) == level_at(combine, next_level(combine, leaves), k),
    decreases k,
{
    let up = next_level(combine, leaves);
    if k == 0 {
        assert(level_at(combine, leaves, 0) == leaves);
        assert(level_at(combine, leaves, 1) == next_level(combine, level_at(combine, leaves, 0)));
    } else {
        lemma_level_shift(combine, leaves, (k - 1) as nat);
        assert(level_at(combine, leaves, k + 1) == next_level(
            combine,
            level_at(combine, leaves, k),
        ));
        assert(level_at(combine, up, k) == next_level(
            combine,
            level_at(combine, up, (k - 1) as nat),
        ));
    }
}

/// In a tree of at least one leaf, level `depth(n)` is the first level with a
/// single entry: every level below it has at least two.
pub proof fn lemma_top_level(n: nat)
    requires
        n >= 1,
    ensures
        level_len(n, depth(n)) == 1,
        forall|j: nat| j < depth(n) ==> #[trigger] level_len(n, j) >= 2,
    decreases n,
{
    if n >= 2 {
        let m = ((n + 1) / 2) as nat;
        lemma_top_level(m);
        lemma_level_len_shift(n, depth(m));
        assert forall|j: nat| j < depth(n) implies #[trigger] level_len(n, j) >= 2 by {
            if j > 0 {
                lemma_level_len_shift(n, (j - 1) as nat);
                assert(level_len(m, (j - 1) as nat) >= 2);
            }
        }
    }
}

/// The root is the one entry of the top level.
pub proof fn lemma_root_is_top(
    combine: spec_fn(Seq<u8>, Seq<u8>) -> Seq<u8>,
    leaves: Seq<Seq<u8>>,
)
    requires
        leaves.len() >= 1,
    ensures
        merkle_root(combine, leaves) == level_at(combine, leaves, depth(leaves.len()))[0],
    decreases leaves.len(),
{
    if leaves.len() >= 2 {
        let up = next_level(combine, leaves);
        lemma_root_is_top(combine, up);
        lemma_level_shift(combine, leaves, depth(up.len()));
    }
}

/// The tree of four leaves: two pairs, and the pair of their parents. The
/// proof of the first leaf is its neighbour and then the parent of the
/// other pair.
pub proof fn lemma_four_leaves(
    combine: spec_fn(Seq<u8>, Seq<u8>) -> Seq<u8>,
    a: Seq<u8>,
    b: Seq<u8>,
    c: Seq<u8>,
    d: Seq<u8>,
)
    ensures
        merkle_root(combine, seq![a, b, c, d]) == combine(combine(a, b), combine(c, d)),
        merkle_proof(combine, seq![a, b, c, d], 0) == seq![b, combine(c, d)],
{
    let leaves = seq![a, b, c, d];
    let up = seq![combine(a, b), combine(c, d)];
    let top = seq![combine(combine(a, b), combine(c, d))];
    assert(next_level(combine, leaves) =~= up);
    assert(next_level(combine, up) =~= top);
    assert(merkle_root(combine, top) == top[0]);
    assert(merkle_root(combine, up) == merkle_root(combine, top));
    assert(merkle_proof(combine, top, 0) =~= Seq::<Seq<u8>>::empty());
    assert(merkle_proof(combine, up, 0) =~= seq![combine(c, d)]);
    assert(merkle_proof(combine, leaves, 0) =~= seq![b, combine(c, d)]);
}

/// The tree of three leaves: the third leaf has no neighbour and is combined
/// with itself. Its proof is its own hash and then the parent of the first
/// two.
pub proof fn lemma_three_leaves(
    combine: spec_fn(Seq<u8>, Seq<u8>) -> Seq<u8>,
    a: Seq<u8>,
    b: Seq<u8>,
    c: Seq<u8>,
)
    ensures
        merkle_root(combine, seq![a, b, c]) == combine(combine(a, b), combine(c, c)),
        merkle_proof(combine, seq![a, b, c], 2) == seq![c, combine(a, b)],
{
    let leaves = seq![a, b, c];
    let up = seq![combine(a, b), combine(c, c)];
    let top = seq![combine(combine(a, b), combine(c, c))];
    assert(next_level(combine, leaves) =~= up);
    assert(next_level(combine, up) =~= top);
    assert(merkle_root(combine, top) == top[0]);
    assert(merkle_root(combine, up) == merkle_root(combine, top));
    assert(merkle_proof(combine, top, 0) =~= Seq::<Seq<u8>>::empty());
    assert(merkle_proof(combine, up, 1) =~= seq![combine(a, b)]);
    assert(merkle_proof(combine, leaves, 2) =~= seq![c, combine(a, b)]);
}

} // verus!

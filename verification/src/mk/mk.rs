//! The operations that every tree container offers, with what each of them
//! promises.
use crate::mk::reduction::collision_free;
use crate::mk::reduction::first_position;
use crate::mk::reduction::lemma_proof_verifies;
use crate::mk::reduction::lemma_wrong_leaf_rejected;
use crate::mk::reduction::merkle_proof;
use crate::mk::reduction::merkle_root;
use crate::mk::reduction::proof_root;
use crate::utils::crypto;
use crate::utils::crypto::hash_seq;
use crate::utils::crypto::HashableData;
use vstd::prelude::*;

verus! {

/// A trait defining operations for a Merkle tree whose leaves are handed out
/// as values of `MKNode`.
pub trait MerkleTree<MKNode> {
    /// The tree is well formed: it has a leaf, its structure stands for its
    /// leaves, and its root is the root of its leaves.
    spec fn wf(&self) -> bool;

    /// The hashes of the leaves, in index order.
    spec fn leaf_hashes(&self) -> Seq<Seq<u8>>;

    /// The root hash that the tree keeps.
    spec fn root(&self) -> Seq<u8>;

    /// The pair function of the tree's hasher.
    spec fn combine(&self) -> spec_fn(Seq<u8>, Seq<u8>) -> Seq<u8>;

    /// The hash that the tree's hasher gives to the bytes of an item.
    spec fn item_hash(&self, data: Seq<u8>) -> Seq<u8>;

    /// The hash that a node carries.
    spec fn node_hash(node: MKNode) -> Seq<u8>;

    /// In a well-formed tree the root that is kept is the root of the leaves.
    proof fn lemma_root(&self)
        requires
            self.wf(),
        ensures
            self.leaf_hashes().len() >= 1,
            self.root() == merkle_root(self.combine(), self.leaf_hashes()),
    ;

    /// Retrieves a leaf node by its index in the Merkle tree.
    ///
    /// Returns `Some(node)` if a leaf exists at the specified `idx`, otherwise `None`.
    fn get_leaf_by_idx(&self, idx: usize) -> (leaf: Option<MKNode>)
        requires
            self.wf(),
        ensures
            leaf is Some <==> idx < self.leaf_hashes().len(),
            leaf matches Some(node) ==> Self::node_hash(node) == self.leaf_hashes()[idx as int],
    ;

    /// Retrieves a leaf node by its hash value in the Merkle tree.
    ///
    /// Returns `Some(node)`, for the first leaf with the specified `hash`, if
    /// there is one, otherwise `None`.
    fn get_leaf_by_hash(&self, hash: &crypto::Hash) -> (leaf: Option<MKNode>)
        requires
            self.wf(),
        ensures
            leaf is Some <==> self.leaf_hashes().contains(hash@),
            leaf matches Some(node) ==> Self::node_hash(node) == hash@,
    ;

    /// Adds a new leaf node to the Merkle tree. This will rebuild the tree.
    fn add_leaf<T: HashableData>(&mut self, data: T)
        requires
            old(self).wf(),
        ensures
            final(self).wf(),
            final(self).combine() == old(self).combine(),
            final(self).leaf_hashes().len() == old(self).leaf_hashes().len() + 1,
            final(self).leaf_hashes() == old(self).leaf_hashes().push(
                old(self).item_hash(data.byte_seq()),
            ),
    ;

    /// Deletes a leaf node from the Merkle tree by its index, so that every
    /// later leaf moves down by one. This will rebuild the tree. An index
    /// that no leaf has changes nothing. The last leaf cannot be deleted: a
    /// tree is never empty.
    fn delete_leaf(&mut self, index: usize)
        requires
            old(self).wf(),
            index < old(self).leaf_hashes().len() ==> old(self).leaf_hashes().len() >= 2,
        ensures
            final(self).wf(),
            final(self).combine() == old(self).combine(),
            index < old(self).leaf_hashes().len() ==> {
                &&& final(self).leaf_hashes().len() == old(self).leaf_hashes().len() - 1
                &&& final(self).leaf_hashes() == old(self).leaf_hashes().remove(index as int)
            },
            index >= old(self).leaf_hashes().len() ==> {
                &&& final(self).leaf_hashes() == old(self).leaf_hashes()
                &&& final(self).root() == old(self).root()
            },
    ;

    /// Updates a leaf node in the Merkle tree by its index. This will rebuild
    /// the tree. An index that no leaf has changes nothing.
    fn update_leaf<T: HashableData>(&mut self, index: usize, data: T)
        requires
            old(self).wf(),
        ensures
            final(self).wf(),
            final(self).combine() == old(self).combine(),
            index < old(self).leaf_hashes().len() ==> final(self).leaf_hashes() == old(
                self,
            ).leaf_hashes().update(index as int, old(self).item_hash(data.byte_seq())),
            index >= old(self).leaf_hashes().len() ==> {
                &&& final(self).leaf_hashes() == old(self).leaf_hashes()
                &&& final(self).root() == old(self).root()
            },
    ;

    /// Generates a Merkle proof for a leaf node at the specified index.
    ///
    /// Returns `Some(proof)` if a leaf exists at the specified `leaf_idx`, otherwise `None`.
    fn gen_proof(&self, leaf_idx: usize) -> (made: Option<Vec<crypto::Hash>>)
        requires
            self.wf(),
        ensures
            made is Some <==> leaf_idx < self.leaf_hashes().len(),
            made matches Some(proof) ==> hash_seq(proof@) == merkle_proof(
                self.combine(),
                self.leaf_hashes(),
                leaf_idx as int,
            ),
    ;

    /// Verifies a Merkle proof for a leaf node.
    ///
    /// Returns `true` if replaying `proof` from `leaf_hash` at `leaf_idx` ends
    /// at the root that the tree keeps, otherwise `false`.
    fn verify_proof(&self, leaf_hash: &crypto::Hash, leaf_idx: usize, proof: Vec<crypto::Hash>) -> (valid:
        bool)
        ensures
            valid == (proof_root(self.combine(), leaf_hash@, leaf_idx as int, hash_seq(proof@))
                == self.root()),
    ;

    /// Checks if a hash exists as a leaf node in the Merkle tree.
    ///
    /// Returns `Some((idx, proof))`, for the first leaf with that `hash`, if
    /// there is one, otherwise `None`.
    fn contains_hash(&self, hash: &crypto::Hash) -> (found: Option<(usize, Vec<crypto::Hash>)>)
        requires
            self.wf(),
        ensures
            found is Some <==> self.leaf_hashes().contains(hash@),
            found matches Some((i, proof)) ==> {
                &&& first_position(self.leaf_hashes(), hash@, i as int)
                &&& hash_seq(proof@) == merkle_proof(self.combine(), self.leaf_hashes(), i as int)
            },
    ;
}

/// The proof of a leaf, as a well-formed tree generates it, verifies against
/// that tree: replayed from the leaf's hash at the leaf's index it ends at
/// the root that the tree keeps.
pub proof fn law_generated_proof_verifies<N, M: MerkleTree<N>>(tree: M, i: int)
    requires
        tree.wf(),
        0 <= i < tree.leaf_hashes().len(),
    ensures
        proof_root(
            tree.combine(),
            tree.leaf_hashes()[i],
            i,
            merkle_proof(tree.combine(), tree.leaf_hashes(), i),
        ) == tree.root(),
{
    tree.lemma_root();
    lemma_proof_verifies(tree.combine(), tree.leaf_hashes(), i);
}

/// Generating a proof twice for one index, with no change to the tree in
/// between, gives the same sequence of hashes both times, or no proof both
/// times.
pub proof fn law_gen_proof_repeats<N, M: MerkleTree<N>>(
    tree: M,
    leaf_idx: usize,
    first: Option<Vec<crypto::Hash>>,
    second: Option<Vec<crypto::Hash>>,
)
    requires
        tree.wf(),
        call_ensures(M::gen_proof, (&tree, leaf_idx), first),
        call_ensures(M::gen_proof, (&tree, leaf_idx), second),
    ensures
        first is Some <==> second is Some,
        first is Some ==> hash_seq(first->Some_0@) == hash_seq(second->Some_0@),
{
}

/// With a collision-free pair function, a well-formed tree rejects every
/// hash but the leaf's own when it is claimed for the leaf's index with the
/// leaf's proof.
pub proof fn law_wrong_leaf_rejected<N, M: MerkleTree<N>>(tree: M, i: int, claimed: Seq<u8>)
    requires
        tree.wf(),
        collision_free(tree.combine()),
        0 <= i < tree.leaf_hashes().len(),
        claimed != tree.leaf_hashes()[i],
    ensures
        proof_root(tree.combine(), claimed, i, merkle_proof(tree.combine(), tree.leaf_hashes(), i))
            != tree.root(),
{
    tree.lemma_root();
    lemma_wrong_leaf_rejected(tree.combine(), tree.leaf_hashes(), i, claimed);
}

/// A well-formed tree of a single leaf keeps that leaf's hash as its root,
/// and the proof of that leaf is empty.
pub proof fn law_single_leaf<N, M: MerkleTree<N>>(tree: M)
    requires
        tree.wf(),
        tree.leaf_hashes().len() == 1,
    ensures
        tree.root() == tree.leaf_hashes()[0],
        merkle_proof(tree.combine(), tree.leaf_hashes(), 0) == Seq::<Seq<u8>>::empty(),
{
    tree.lemma_root();
}

} // verus!

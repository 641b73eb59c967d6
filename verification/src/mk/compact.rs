//! The compact tree: it keeps the leaf hashes and the root, and derives every
//! level in between again whenever a root or a proof is asked for.
use crate::mk::reduction::first_position;
use crate::mk::reduction::lemma_proof_verifies;
use crate::mk::reduction::merkle_proof;
use crate::mk::reduction::merkle_root;
use crate::mk::reduction::next_level;
use crate::mk::reduction::proof_root;
use crate::mk::reduction::sibling_hash;
use crate::utils::crypto;
use crate::utils::crypto::combiner;
use crate::utils::crypto::copy_hash;
use crate::utils::crypto::data_hashes;
use crate::utils::crypto::hash_seq;
use crate::utils::crypto::same_hash;
use crate::utils::crypto::HashableData;
use crate::utils::crypto::Hasher;
use crate::utils::is_even;
use vstd::prelude::*;

verus! {

/// A node of the compact tree: nothing but its hash.
pub struct Node<T> {
    pub value: T,
}

impl<T> Clone for Node<T> where T: Clone {
    fn clone(&self) -> (copy: Self)
        ensures
            cloned::<T>(self.value, copy.value),
    {
        Node { value: self.value.clone() }
    }
}

/// A node that carries a hash.
pub type MKNode = Node<crypto::Hash>;

/// The answer of `gen_proof` to an index that no leaf has.
pub const NO_SUCH_LEAF: &'static str = "No leaf exists with the given index";

/// The answer of `try_from` to an empty list of items.
pub const EMPTY_DATA: &'static str = "data can't be empty";

/// The hashes that a sequence of nodes carries, in order.
pub open spec fn node_hashes(nodes: Seq<MKNode>) -> Seq<Seq<u8>> {
    Seq::new(nodes.len(), |i: int| nodes[i].value@)
}

/// A Merkle tree that holds its leaves and its root only.
pub struct CompactMerkleTree<H: Hasher> {
    pub hasher: H,
    pub leaves: Vec<MKNode>,
    pub root_hash: crypto::Hash,
}

impl<H: Hasher> CompactMerkleTree<H> {
    /// The hashes of the leaves, in index order.
    pub open spec fn leaf_hashes(&self) -> Seq<Seq<u8>> {
        node_hashes(self.leaves@)
    }

    /// The pair function of the tree's hasher.
    pub open spec fn combine(&self) -> spec_fn(Seq<u8>, Seq<u8>) -> Seq<u8> {
        combiner(self.hasher)
    }

    /// A tree is well formed when it has a leaf and its stored root is the
    /// root of its leaves.
    pub open spec fn wf(&self) -> bool {
        &&& self.leaves.len() >= 1
        &&& self.root_hash@ == merkle_root(self.combine(), self.leaf_hashes())
    }

    /// Builds the tree of `data`, hashed with `hasher`. There is no tree of
    /// nothing: an empty list gives `None`, and nothing else does.
    pub fn create<T: HashableData>(data: &[T], hasher: H) -> (made: Option<Self>)
        ensures
            made is None <==> data@.len() == 0,
            made matches Some(tree) ==> {
                &&& tree.wf()
                &&& tree.hasher == hasher
                &&& tree.leaves.len() == data@.len()
                &&& tree.leaf_hashes() == data_hashes(hasher, data@)
                &&& tree.root_hash@ == merkle_root(combiner(hasher), data_hashes(hasher, data@))
            },
    {
        if data.len() == 0 {
            return None;
        }
        let leaves = Self::create_leaves_from(data, &hasher);
        let root_hash = Self::calculate_root(Self::copy_nodes(&leaves), &hasher);
        Some(Self { hasher, leaves, root_hash })
    }

    /// The tree of `value`, hashed with `hasher`, or the reason why there is
    /// none: an empty list has no tree.
    pub fn try_from<T: HashableData>(value: &[T], hasher: H) -> (made: Result<Self, &'static str>)
        ensures
            made is Err <==> value@.len() == 0,
            made matches Err(message) ==> message@ == EMPTY_DATA@,
            made matches Ok(tree) ==> {
                &&& tree.wf()
                &&& tree.hasher == hasher
                &&& tree.leaf_hashes() == data_hashes(hasher, value@)
            },
    {
        match CompactMerkleTree::create(value, hasher) {
            Some(mk) => Ok(mk),
            None => Err(EMPTY_DATA),
        }
    }

    /// One leaf node for each item, in order, carrying the item's hash.
    pub fn create_leaves_from<T: HashableData>(data: &[T], hasher: &H) -> (leaves: Vec<MKNode>)
        ensures
            leaves.len() == data.len(),
            node_hashes(leaves@) == data_hashes(*hasher, data@),
    {
        let mut leaves: Vec<MKNode> = Vec::new();
        let mut i: usize = 0;
        while i < data.len()
            invariant
                i <= data.len(),
                leaves.len() == i,
                forall|j: int| 0 <= j < i ==> leaves[j].value@ == hasher.hashed(data[j].byte_seq()),
            decreases data.len() - i,
        {
            let value = hasher.get_hash_from_data(&data[i]);
            leaves.push(Node { value });
            i += 1;
        }
        assert(node_hashes(leaves@) =~= data_hashes(*hasher, data@));
        leaves
    }

    /// A copy of a list of nodes, with the same hashes in the same order.
    pub fn copy_nodes(nodes: &Vec<MKNode>) -> (copy: Vec<MKNode>)
        ensures
            copy.len() == nodes.len(),
            node_hashes(copy@) == node_hashes(nodes@),
    {
        let mut copy: Vec<MKNode> = Vec::new();
        let mut i: usize = 0;
        while i < nodes.len()
            invariant
                i <= nodes.len(),
                copy.len() == i,
                forall|j: int| 0 <= j < i ==> copy[j].value@ == nodes[j].value@,
            decreases nodes.len() - i,
        {
            copy.push(Node { value: copy_hash(&nodes[i].value) });
            i += 1;
        }
        assert(node_hashes(copy@) =~= node_hashes(nodes@));
        copy
    }

    /// The root over `leaves`: the level is reduced while more than one node
    /// remains.
    pub fn calculate_root(leaves: Vec<MKNode>, hasher: &H) -> (root: crypto::Hash)
        requires
            leaves.len() >= 1,
        ensures
            root@ == merkle_root(combiner(*hasher), node_hashes(leaves@)),
    {
        let mut level = leaves;
        while level.len() > 1
            invariant
                level.len() >= 1,
                merkle_root(combiner(*hasher), node_hashes(level@)) == merkle_root(
                    combiner(*hasher),
                    node_hashes(leaves@),
                ),
            decreases level.len(),
        {
            level = Self::get_parent_nodes(level.as_slice(), hasher);
        }
        copy_hash(&level[0].value)
    }

    /// The hash kept as the root.
    pub fn get_root_hash(&self) -> (root: crypto::Hash)
        ensures
            root@ == self.root_hash@,
    {
        copy_hash(&self.root_hash)
    }

    /// The level above `nodes`: consecutive pairs combined, a lone last node
    /// combined with itself.
    pub fn get_parent_nodes(nodes: &[MKNode], hasher: &H) -> (parents: Vec<MKNode>)
        ensures
            parents.len() == (nodes.len() + 1) / 2,
            node_hashes(parents@) == next_level(combiner(*hasher), node_hashes(nodes@)),
    {
        let ghost level = node_hashes(nodes@);
        let ghost up = next_level(combiner(*hasher), level);
        let mut parents: Vec<MKNode> = Vec::new();
        let mut i: usize = 0;
        while i < nodes.len()
            invariant
                i <= nodes.len(),
                i % 2 == 0 || i == nodes.len(),
                level == node_hashes(nodes@),
                up == next_level(combiner(*hasher), level),
                parents.len() == (i + 1) / 2,
                forall|p: int| 0 <= p < parents.len() ==> parents[p].value@ == up[p],
            decreases nodes.len() - i,
        {
            if i + 1 < nodes.len() {
                let value = hasher.get_combined_hash(&nodes[i].value, &nodes[i + 1].value);
                parents.push(Node { value });
                i += 2;
            } else {
                let value = hasher.get_combined_hash(&nodes[i].value, &nodes[i].value);
                parents.push(Node { value });
                i += 1;
            }
        }
        assert(node_hashes(parents@) =~= up);
        parents
    }

    /// The leaf at `idx`, where there is one.
    pub fn get_leaf_by_idx(&self, idx: usize) -> (leaf: Option<MKNode>)
        ensures
            leaf is Some <==> idx < self.leaves.len(),
            leaf matches Some(node) ==> node.value@ == self.leaf_hashes()[idx as int],
    {
        if idx < self.leaves.len() {
            Some(Node { value: copy_hash(&self.leaves[idx].value) })
        } else {
            None
        }
    }

    /// The first leaf that carries `hash`, where there is one.
    pub fn get_leaf_by_hash(&self, hash: crypto::Hash) -> (leaf: Option<MKNode>)
        ensures
            leaf is Some <==> self.leaf_hashes().contains(hash@),
            leaf matches Some(node) ==> node.value@ == hash@,
    {
        match self.position_of(&hash) {
            Some(i) => Some(Node { value: copy_hash(&self.leaves[i].value) }),
            None => None,
        }
    }

    /// The index of the first leaf that carries `hash`, where there is one.
    pub fn position_of(&self, hash: &crypto::Hash) -> (found: Option<usize>)
        ensures
            found is Some <==> self.leaf_hashes().contains(hash@),
            found matches Some(i) ==> first_position(self.leaf_hashes(), hash@, i as int),
    {
        let mut i: usize = 0;
        while i < self.leaves.len()
            invariant
                i <= self.leaves.len(),
                forall|j: int| 0 <= j < i ==> self.leaf_hashes()[j] != hash@,
            decreases self.leaves.len() - i,
        {
            if same_hash(&self.leaves[i].value, hash) {
                assert(self.leaf_hashes()[i as int] == hash@);
                return Some(i);
            }
            i += 1;
        }
        None
    }

    /// Appends the hash of `data` as the last leaf and derives the root again.
    pub fn add_leaf<T: HashableData>(&mut self, data: T)
        ensures
            final(self).wf(),
            final(self).hasher == old(self).hasher,
            final(self).leaves.len() == old(self).leaves.len() + 1,
            final(self).leaf_hashes() == old(self).leaf_hashes().push(
                old(self).hasher.hashed(data.byte_seq()),
            ),
    {
        let hash = self.hasher.get_hash_from_data(data);
        self.leaves.push(Node { value: hash });
        self.rebuild_root();
    }

    /// Removes the leaf at `index`, so that every later leaf moves down by
    /// one, and derives the root again. An index that no leaf has changes
    /// nothing. The last leaf cannot be removed: a tree is never empty.
    pub fn delete_leaf(&mut self, index: usize)
        requires
            index < old(self).leaves.len() ==> old(self).leaves.len() >= 2,
        ensures
            index < old(self).leaves.len() ==> {
                &&& final(self).wf()
                &&& final(self).hasher == old(self).hasher
                &&& final(self).leaves.len() == old(self).leaves.len() - 1
                &&& final(self).leaf_hashes() == old(self).leaf_hashes().remove(index as int)
            },
            index >= old(self).leaves.len() ==> *final(self) == *old(self),
    {
        if index < self.leaves.len() {
            self.leaves.remove(index);
            self.rebuild_root();
        }
    }

    /// Replaces the leaf at `index` by the hash of `data` and derives the root
    /// again. An index that no leaf has changes nothing.
    pub fn update_leaf<T: HashableData>(&mut self, index: usize, data: T)
        ensures
            index < old(self).leaves.len() ==> {
                &&& final(self).wf()
                &&& final(self).hasher == old(self).hasher
                &&& final(self).leaves.len() == old(self).leaves.len()
                &&& final(self).leaf_hashes() == old(self).leaf_hashes().update(
                    index as int,
                    old(self).hasher.hashed(data.byte_seq()),
                )
            },
            index >= old(self).leaves.len() ==> *final(self) == *old(self),
    {
        if index < self.leaves.len() {
            let value = self.hasher.get_hash_from_data(data);
            self.leaves[index].value = value;
            self.rebuild_root();
        }
    }

    /// Derives the root from the leaves as they now are, and keeps it.
    pub fn rebuild_root(&mut self)
        requires
            old(self).leaves.len() >= 1,
        ensures
            final(self).wf(),
            final(self).hasher == old(self).hasher,
            final(self).leaves == old(self).leaves,
    {
        let root_hash = Self::calculate_root(Self::copy_nodes(&self.leaves), &self.hasher);
        self.root_hash = root_hash;
    }

    /// The inclusion proof of the leaf at `leaf_idx`: the hash paired with the
    /// node on the leaf's path at each level, from the leaves to just below
    /// the root. An index that no leaf has is an error, and nothing else is.
    pub fn gen_proof(&self, leaf_idx: usize) -> (made: Result<Vec<crypto::Hash>, &'static str>)
        ensures
            made is Ok <==> leaf_idx < self.leaves.len(),
            made matches Ok(proof) ==> hash_seq(proof@) == merkle_proof(
                self.combine(),
                self.leaf_hashes(),
                leaf_idx as int,
            ),
            made matches Err(message) ==> message@ == NO_SUCH_LEAF@,
    {
        let mut proof: Vec<crypto::Hash> = Vec::new();
        if leaf_idx >= self.leaves.len() {
            return Err(NO_SUCH_LEAF);
        }
        let mut nodes = Self::copy_nodes(&self.leaves);
        let mut idx = leaf_idx;
        while nodes.len() > 1
            invariant
                idx < nodes.len(),
                hash_seq(proof@) + merkle_proof(self.combine(), node_hashes(nodes@), idx as int)
                    == merkle_proof(self.combine(), self.leaf_hashes(), leaf_idx as int),
            decreases nodes.len(),
        {
            let ghost level = node_hashes(nodes@);
            let ghost before = proof@;
            let sibling_idx = if is_even(idx) {
                idx + 1
            } else {
                idx - 1
            };
            if sibling_idx < nodes.len() {
                proof.push(copy_hash(&nodes[sibling_idx].value));
            } else {
                proof.push(copy_hash(&nodes[idx].value));
            }
            assert(hash_seq(proof@) == hash_seq(before) + seq![sibling_hash(level, idx as int)]);
            nodes = Self::get_parent_nodes(nodes.as_slice(), &self.hasher);
            idx /= 2;
        }
        assert(hash_seq(proof@) + Seq::<Seq<u8>>::empty() == hash_seq(proof@));
        Ok(proof)
    }

    /// Whether replaying `proof` from `leaf_hash` at `leaf_idx` ends at the
    /// stored root: at each step the running hash is combined with the next
    /// proof element, on the left where the index is even and on the right
    /// where it is odd, and the index is halved.
    pub fn verify_proof(&self, leaf_hash: crypto::Hash, leaf_idx: usize, proof: Vec<crypto::Hash>) -> (valid: bool)
        ensures
            valid == (proof_root(self.combine(), leaf_hash@, leaf_idx as int, hash_seq(proof@))
                == self.root_hash@),
    {
        let ghost steps = hash_seq(proof@);
        let mut current = leaf_hash;
        let mut idx = leaf_idx;
        let mut k: usize = 0;
        assert(steps.skip(0) == steps);
        while k < proof.len()
            invariant
                k <= proof.len(),
                steps == hash_seq(proof@),
                proof_root(self.combine(), current@, idx as int, steps.skip(k as int))
                    == proof_root(self.combine(), leaf_hash@, leaf_idx as int, steps),
            decreases proof.len() - k,
        {
            let ghost rest = steps.skip(k as int);
            assert(rest.drop_first() == steps.skip(k + 1));
            assert(rest[0] == proof@[k as int]@);
            if is_even(idx) {
                current = self.hasher.get_combined_hash(&current, &proof[k]);
            } else {
                current = self.hasher.get_combined_hash(&proof[k], &current);
            }
            idx /= 2;
            k += 1;
        }
        same_hash(&current, &self.root_hash)
    }

    /// Where `hash` first stands among the leaves, with the proof of that
    /// leaf; `None` where no leaf carries it.
    pub fn contains_hash(&self, hash: crypto::Hash) -> (found: Option<(usize, Vec<crypto::Hash>)>)
        ensures
            found is Some <==> self.leaf_hashes().contains(hash@),
            found matches Some((i, proof)) ==> {
                &&& first_position(self.leaf_hashes(), hash@, i as int)
                &&& hash_seq(proof@) == merkle_proof(self.combine(), self.leaf_hashes(), i as int)
            },
    {
        match self.position_of(&hash) {
            Some(leaf_idx) => {
                match self.gen_proof(leaf_idx) {
                    Ok(proof) => Some((leaf_idx, proof)),
                    Err(_) => None,
                }
            },
            None => None,
        }
    }
}

/// The proof of a leaf, as a well-formed tree generates it, verifies against
/// that tree: replayed from the leaf's hash at the leaf's index it ends at
/// the root that the tree keeps.
pub proof fn law_generated_proof_verifies<H: Hasher>(tree: CompactMerkleTree<H>, i: int)
    requires
        tree.wf(),
        0 <= i < tree.leaves.len(),
    ensures
        proof_root(
            tree.combine(),
            tree.leaf_hashes()[i],
            i,
            merkle_proof(tree.combine(), tree.leaf_hashes(), i),
        ) == tree.root_hash@,
{
    lemma_proof_verifies(tree.combine(), tree.leaf_hashes(), i);
}

/// Generating a proof twice for one index, with no change to the tree in
/// between, gives the same sequence of hashes both times, or the same error
/// both times.
pub proof fn law_gen_proof_repeats<H: Hasher>(
    tree: CompactMerkleTree<H>,
    leaf_idx: usize,
    first: Result<Vec<crypto::Hash>, &'static str>,
    second: Result<Vec<crypto::Hash>, &'static str>,
)
    requires
        call_ensures(CompactMerkleTree::<H>::gen_proof, (&tree, leaf_idx), first),
        call_ensures(CompactMerkleTree::<H>::gen_proof, (&tree, leaf_idx), second),
    ensures
        first is Ok <==> second is Ok,
        first is Ok ==> hash_seq(first->Ok_0@) == hash_seq(second->Ok_0@),
        first is Err ==> first->Err_0@ == second->Err_0@,
{
}

} // verus!

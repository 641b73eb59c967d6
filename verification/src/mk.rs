//! Merkle trees. [`MerkleTree`] is the plain materialised tree with BLAKE2b-512
//! as its hash; [`full`] and [`compact`] hold the two containers that take
//! their hasher from the caller, [`mk`] the operations they share,
//! [`reduction`] the theory of roots and proofs, and [`graph`] the layout of a
//! materialised tree.
pub mod compact;
pub mod full;
pub mod graph;
pub mod mk;
pub mod reduction;

use crate::mk::graph::building;
use crate::mk::graph::graph_wf;
use crate::mk::graph::joined;
use crate::mk::graph::lemma_build_done;
use crate::mk::graph::lemma_build_next;
use crate::mk::graph::lemma_build_start;
use crate::mk::graph::lemma_build_step;
use crate::mk::graph::lemma_graph_leaves;
use crate::mk::graph::lemma_graph_root;
use crate::mk::graph::lemma_joined;
use crate::mk::graph::lemma_slot_in_arena;
use crate::mk::graph::level_start;
use crate::mk::graph::node_ok;
use crate::mk::graph::node_values;
use crate::mk::graph::unlinked;
use crate::mk::reduction::depth;
use crate::mk::reduction::lemma_level_len;
use crate::mk::reduction::lemma_proof_verifies;
use crate::mk::reduction::lemma_top_level;
use crate::mk::reduction::level_at;
use crate::mk::reduction::level_len;
use crate::mk::reduction::merkle_proof;
use crate::mk::reduction::merkle_root;
use crate::mk::reduction::next_level;
use crate::mk::reduction::proof_root;
use crate::mk::reduction::sibling_hash;
use crate::mk::reduction::sibling_index;
use crate::tree::Node;
use crate::tree::TreeNode;
use crate::utils::crypto;
use crate::utils::crypto::blake2b512;
use crate::utils::crypto::blake2b512_digest;
use crate::utils::crypto::join_bytes;
use crate::utils::crypto::copy_hash;
use crate::utils::crypto::hash_seq;
use crate::utils::crypto::HashableData;
use vstd::prelude::*;

verus! {

/// A node of the tree: a hash with its links into the arena.
pub type MKNode = Node<crypto::Hash>;

/// The answer of `gen_proof` to an index that no leaf has.
pub const NO_SUCH_LEAF: &'static str = "No leaf exists with the given index";

/// A Merkle tree over BLAKE2b-512 that holds all its nodes. `nodes` is the
/// arena; `leaves` holds the handles of the leaves in index order, and `tree`
/// the handle of the root.
pub struct MerkleTree {
    pub nodes: Vec<MKNode>,
    pub tree: TreeNode,
    pub leaves: Vec<TreeNode>,
    pub root_hash: crypto::Hash,
}

/// Data that a tree can take as an item: anything that is hashable.
pub trait Data: HashableData {

}

impl<T: HashableData> Data for T {

}

/// The pair function of [`MerkleTree`]: the BLAKE2b-512 digest of the left
/// hash followed by the right one.
pub open spec fn blake2b_combine() -> spec_fn(Seq<u8>, Seq<u8>) -> Seq<u8> {
    |a: Seq<u8>, b: Seq<u8>| blake2b512_digest(a + b)
}

/// The leaf hashes of a list of items: the BLAKE2b-512 digest of each.
pub open spec fn blake2b_hashes<T: Data>(data: Seq<T>) -> Seq<Seq<u8>> {
    Seq::new(data.len(), |i: int| blake2b512_digest(data[i].byte_seq()))
}

impl MerkleTree {
    /// The hashes of the leaves, in index order.
    pub open spec fn leaf_hashes(&self) -> Seq<Seq<u8>> {
        Seq::new(self.leaves.len() as nat, |i: int| self.nodes[self.leaves[i] as int].value@)
    }

    /// The tree has a leaf, and every leaf handle points into the arena.
    /// This is all that a rebuild needs.
    pub open spec fn has_leaves(&self) -> bool {
        &&& self.leaves.len() >= 1
        &&& forall|i: int| 0 <= i < self.leaves.len() ==> #[trigger] self.leaves[i] < self.nodes.len()
    }

    /// The leaves are the first nodes of the arena, the arena is the tree
    /// over their hashes, `tree` is the root's handle, and `root_hash` is the
    /// root's hash.
    pub open spec fn wf(&self) -> bool {
        &&& self.leaves.len() >= 1
        &&& forall|i: int| 0 <= i < self.leaves.len() ==> #[trigger] self.leaves[i] == i
        &&& graph_wf(blake2b_combine(), self.nodes@, self.leaf_hashes())
        &&& self.tree == self.nodes.len() - 1
        &&& self.root_hash@ == self.nodes[self.tree as int].value@
        &&& self.root_hash@ == merkle_root(blake2b_combine(), self.leaf_hashes())
    }

    /// Builds the tree of `data`. There is no tree of nothing: an empty list
    /// gives `None`, and nothing else does.
    pub fn create<T: Data>(data: Vec<T>) -> (made: Option<Self>)
        ensures
            made is None <==> data@.len() == 0,
            made matches Some(tree) ==> {
                &&& tree.wf()
                &&& tree.leaves.len() == data@.len()
                &&& tree.leaf_hashes() == blake2b_hashes(data@)
                &&& tree.root_hash@ == merkle_root(blake2b_combine(), blake2b_hashes(data@))
            },
    {
        if data.len() == 0 {
            return None;
        }
        let count = data.len();
        let ghost items = data@;
        let mut nodes = MerkleTree::get_leaves_from(data);
        let ghost hashes = node_values(nodes@);
        let tree = MerkleTree::create_tree(&mut nodes);
        let root_hash = copy_hash(&nodes[tree].value);
        let mut leaves: Vec<TreeNode> = Vec::new();
        let mut i: usize = 0;
        while i < count
            invariant
                i <= count,
                leaves.len() == i,
                forall|j: int| 0 <= j < i ==> leaves[j] == j,
            decreases count - i,
        {
            leaves.push(i);
            i += 1;
        }
        let made = Self { nodes, tree, leaves, root_hash };
        proof {
            lemma_graph_root(blake2b_combine(), made.nodes@, hashes);
            lemma_graph_leaves(blake2b_combine(), made.nodes@, hashes);
            assert(made.leaf_hashes() == hashes);
        }
        Some(made)
    }

    /// The tree of `value`, which must not be empty.
    pub fn from<T: Data>(value: Vec<T>) -> (tree: Self)
        requires
            value@.len() >= 1,
        ensures
            tree.wf(),
            tree.leaves.len() == value@.len(),
            tree.leaf_hashes() == blake2b_hashes(value@),
            tree.root_hash@ == merkle_root(blake2b_combine(), blake2b_hashes(value@)),
    {
        MerkleTree::create(value).unwrap()
    }

    /// One bare leaf node for each item, in order, carrying the item's hash.
    pub fn get_leaves_from<T: Data>(data: Vec<T>) -> (leaves: Vec<MKNode>)
        ensures
            leaves.len() == data.len(),
            forall|i: int| 0 <= i < leaves.len() ==> (#[trigger] leaves[i]).is_bare(),
            node_values(leaves@) == blake2b_hashes(data@),
    {
        let mut leaves: Vec<MKNode> = Vec::new();
        let mut i: usize = 0;
        while i < data.len()
            invariant
                i <= data.len(),
                leaves.len() == i,
                forall|j: int| 0 <= j < i ==> (#[trigger] leaves[j]).is_bare(),
                forall|j: int| 0 <= j < i ==> leaves[j].value@ == blake2b512_digest(data[j].byte_seq()),
            decreases data.len() - i,
        {
            let value = MerkleTree::get_hash_from_data(&data[i]);
            leaves.push(Node::new(value, None, None, None));
            i += 1;
        }
        assert(node_values(leaves@) =~= blake2b_hashes(data@));
        leaves
    }

    /// Puts the tree on top of the bare leaves that `nodes` holds: level by
    /// level, until one node is left, a pair of nodes gets a parent that
    /// holds both and makes them siblings, and an odd last node gets a parent
    /// that holds it alone and leaves it without a sibling. Returns the node
    /// that is left, the root.
    pub fn create_tree(nodes: &mut Vec<MKNode>) -> (root: TreeNode)
        requires
            old(nodes).len() >= 1,
            forall|i: int| 0 <= i < old(nodes).len() ==> (#[trigger] old(nodes)[i]).is_bare(),
        ensures
            graph_wf(blake2b_combine(), final(nodes)@, node_values(old(nodes)@)),
            root == final(nodes).len() - 1,
    {
        let ghost combine = blake2b_combine();
        let ghost leaves = node_values(nodes@);
        let ghost n = leaves.len();
        let ghost mut k: nat = 0;
        let mut start: usize = 0;
        let mut len: usize = nodes.len();
        proof {
            lemma_build_start(combine, nodes@, leaves);
        }
        while len != 1
            invariant
                n == leaves.len(),
                combine == blake2b_combine(),
                start == level_start(n, k),
                len == level_len(n, k),
                building(combine, nodes@, leaves, k, 0),
            decreases len,
        {
            let mut i: usize = 0;
            while i < len
                invariant
                    n == leaves.len(),
                    combine == blake2b_combine(),
                    len >= 2,
                    start == level_start(n, k),
                    len == level_len(n, k),
                    building(combine, nodes@, leaves, k, i as int),
                decreases len - i,
            {
                let ghost before = nodes@;
                assert(nodes.len() == start + len + (i + 1) / 2);
                let a = start + i;
                if i + 1 < len {
                    let b = a + 1;
                    let value = MerkleTree::get_combined_hash(&nodes[a].value, &nodes[b].value);
                    let node = Node::new(value, Some(vec![a, b]), None, None);
                    nodes.push(node);
                    let parent = nodes.len() - 1;
                    let ghost pushed = nodes@;
                    Node::set_parent_and_siblings(nodes, parent, &[a, b]);
                    proof {
                        lemma_joined(combine, before, pushed, nodes@, a, b);
                        lemma_build_step(combine, before, nodes@, leaves, k, i as int);
                    }
                    i += 2;
                } else {
                    // hash with itself
                    let value = MerkleTree::get_combined_hash(&nodes[a].value, &nodes[a].value);
                    let node = Node::new(value, Some(vec![a]), None, None);
                    nodes.push(node);
                    let parent = nodes.len() - 1;
                    // does not have siblings
                    Node::set_parent(nodes, parent, a);
                    proof {
                        assert(unlinked(before, start + i));
                        assert(joined(combine, before, nodes@, a as int, a as int));
                        lemma_build_step(combine, before, nodes@, leaves, k, i as int);
                    }
                    i += 1;
                }
            }
            assert(nodes.len() == start + len + (len + 1) / 2);
            proof {
                lemma_build_next(combine, nodes@, leaves, k);
                k = k + 1;
            }
            start = start + len;
            len = nodes.len() - start;
        }
        proof {
            lemma_build_done(combine, nodes@, leaves, k);
        }
        start
    }

    /// Copies of the leaf nodes, in index order: each with its hash and its
    /// links.
    pub fn get_leaves(&self) -> (leaves: Vec<MKNode>)
        requires
            self.has_leaves(),
        ensures
            leaves.len() == self.leaves.len(),
            node_values(leaves@) == self.leaf_hashes(),
            forall|i: int|
                0 <= i < leaves.len() ==> {
                    let node = self.nodes[self.leaves[i] as int];
                    &&& (#[trigger] leaves[i]).parent == node.parent
                    &&& leaves[i].child_ids() == node.child_ids()
                    &&& leaves[i].sibling_ids() == node.sibling_ids()
                },
    {
        let mut leaves: Vec<MKNode> = Vec::new();
        let mut i: usize = 0;
        while i < self.leaves.len()
            invariant
                i <= self.leaves.len(),
                self.has_leaves(),
                leaves.len() == i,
                forall|j: int|
                    0 <= j < i ==> {
                        let node = self.nodes[self.leaves[j] as int];
                        &&& (#[trigger] leaves[j]).value@ == node.value@
                        &&& leaves[j].parent == node.parent
                        &&& leaves[j].child_ids() == node.child_ids()
                        &&& leaves[j].sibling_ids() == node.sibling_ids()
                    },
            decreases self.leaves.len() - i,
        {
            leaves.push(Node::<crypto::Hash>::clone(&self.nodes[self.leaves[i]]));
            i += 1;
        }
        assert(node_values(leaves@) =~= self.leaf_hashes());
        leaves
    }

    /// Appends the hash of `data` as the last leaf and rebuilds the tree.
    pub fn add_leaf<T: Data>(&mut self, data: T)
        requires
            old(self).wf(),
        ensures
            final(self).wf(),
            final(self).leaves.len() == old(self).leaves.len() + 1,
            final(self).leaf_hashes() == old(self).leaf_hashes().push(
                blake2b512_digest(data.byte_seq()),
            ),
    {
        proof {
            lemma_graph_leaves(blake2b_combine(), self.nodes@, self.leaf_hashes());
        }
        let ghost hashes = self.leaf_hashes();
        let hash = MerkleTree::get_hash_from_data(data);
        let node = Node::new(hash, None, None, None);
        self.nodes.push(node);
        self.leaves.push(self.nodes.len() - 1);
        assert(self.leaf_hashes() =~= hashes.push(hash@));
        self.rebuild_tree();
    }

    /// Removes the leaf at `index`, so that every later leaf moves down by
    /// one, and rebuilds the tree. An index that no leaf has changes
    /// nothing. The last leaf cannot be removed: a tree is never empty.
    pub fn delete_leaf<T: Data>(&mut self, index: usize)
        requires
            old(self).wf(),
            index < old(self).leaves.len() ==> old(self).leaves.len() >= 2,
        ensures
            final(self).wf(),
            index < old(self).leaves.len() ==> {
                &&& final(self).leaves.len() == old(self).leaves.len() - 1
                &&& final(self).leaf_hashes() == old(self).leaf_hashes().remove(index as int)
            },
            index >= old(self).leaves.len() ==> *final(self) == *old(self),
    {
        proof {
            lemma_graph_leaves(blake2b_combine(), self.nodes@, self.leaf_hashes());
        }
        let ghost hashes = self.leaf_hashes();
        if index < self.leaves.len() {
            self.leaves.remove(index);
            assert(self.leaf_hashes() =~= hashes.remove(index as int));
            self.rebuild_tree();
        }
    }

    /// Replaces the leaf at `index` by the hash of `data` and rebuilds the
    /// tree. An index that no leaf has changes nothing.
    pub fn update_left<T: Data>(&mut self, index: usize, data: T)
        requires
            old(self).wf(),
        ensures
            final(self).wf(),
            final(self).leaves.len() == old(self).leaves.len(),
            index < old(self).leaves.len() ==> final(self).leaf_hashes() == old(
                self,
            ).leaf_hashes().update(index as int, blake2b512_digest(data.byte_seq())),
            index >= old(self).leaves.len() ==> *final(self) == *old(self),
    {
        proof {
            lemma_graph_leaves(blake2b_combine(), self.nodes@, self.leaf_hashes());
        }
        let ghost hashes = self.leaf_hashes();
        if index < self.leaves.len() {
            let hash = MerkleTree::get_hash_from_data(data);
            let handle = self.leaves[index];
            self.nodes[handle].value = hash;
            assert(self.leaf_hashes() =~= hashes.update(index as int, hash@));
            self.rebuild_tree();
        }
    }

    /// Builds the arena again from the hashes of the current leaves, and
    /// keeps the new root.
    pub fn rebuild_tree(&mut self)
        requires
            old(self).has_leaves(),
        ensures
            final(self).wf(),
            final(self).leaves.len() == old(self).leaves.len(),
            final(self).leaf_hashes() == old(self).leaf_hashes(),
    {
        let ghost hashes = self.leaf_hashes();
        let mut nodes: Vec<MKNode> = Vec::new();
        let mut leaves: Vec<TreeNode> = Vec::new();
        let mut i: usize = 0;
        while i < self.leaves.len()
            invariant
                i <= self.leaves.len(),
                self.has_leaves(),
                hashes == self.leaf_hashes(),
                nodes.len() == i,
                leaves.len() == i,
                forall|j: int| 0 <= j < i ==> leaves[j] == j,
                forall|j: int| 0 <= j < i ==> (#[trigger] nodes[j]).is_bare(),
                forall|j: int| 0 <= j < i ==> nodes[j].value@ == hashes[j],
            decreases self.leaves.len() - i,
        {
            let value = copy_hash(&self.nodes[self.leaves[i]].value);
            nodes.push(Node::new(value, None, None, None));
            leaves.push(i);
            i += 1;
        }
        assert(node_values(nodes@) =~= hashes);
        let tree = MerkleTree::create_tree(&mut nodes);
        let root_hash = copy_hash(&nodes[tree].value);
        self.nodes = nodes;
        self.leaves = leaves;
        self.tree = tree;
        self.root_hash = root_hash;
        proof {
            lemma_graph_root(blake2b_combine(), self.nodes@, hashes);
            lemma_graph_leaves(blake2b_combine(), self.nodes@, hashes);
            assert(self.leaf_hashes() =~= hashes);
        }
    }

    /// The inclusion proof of the leaf at `leaf_idx`, collected on the walk
    /// from the leaf to the root: at each node below the root, the hash of
    /// its sibling, or its own hash where it was combined with itself. An
    /// index that no leaf has is an error, and nothing else is.
    pub fn gen_proof<T: Data>(&self, leaf_idx: usize) -> (made: Result<Vec<crypto::Hash>, &'static str>)
        requires
            self.wf(),
        ensures
            made is Ok <==> leaf_idx < self.leaves.len(),
            made matches Ok(proof) ==> hash_seq(proof@) == merkle_proof(
                blake2b_combine(),
                self.leaf_hashes(),
                leaf_idx as int,
            ),
            made matches Err(message) ==> message@ == NO_SUCH_LEAF@,
    {
        let mut proof: Vec<crypto::Hash> = Vec::new();
        if leaf_idx >= self.leaves.len() {
            return Err(NO_SUCH_LEAF);
        }
        let ghost combine = blake2b_combine();
        let ghost leaves = self.leaf_hashes();
        let ghost n = leaves.len();
        let ghost mut k: nat = 0;
        let ghost mut p: int = leaf_idx as int;
        let mut current = self.leaves[leaf_idx];
        assert(hash_seq(proof@) + merkle_proof(combine, leaves, p) == merkle_proof(
            combine,
            leaves,
            p,
        ));
        loop
            invariant_except_break
                self.wf(),
                combine == blake2b_combine(),
                leaves == self.leaf_hashes(),
                n == leaves.len(),
                k <= depth(n),
                0 <= p < level_len(n, k),
                current == level_start(n, k) + p,
                hash_seq(proof@) + merkle_proof(combine, level_at(combine, leaves, k), p)
                    == merkle_proof(combine, leaves, leaf_idx as int),
            ensures
                hash_seq(proof@) == merkle_proof(
                    blake2b_combine(),
                    self.leaf_hashes(),
                    leaf_idx as int,
                ),
            decreases level_len(n, k),
        {
            let ghost level = level_at(combine, leaves, k);
            let ghost before = proof@;
            proof {
                lemma_top_level(n);
                lemma_level_len(combine, leaves, k);
                lemma_slot_in_arena(combine, self.nodes@, leaves, k, p);
                assert(node_ok(combine, self.nodes@, leaves, k, p));
                if sibling_index(p) < level_len(n, k) {
                    lemma_slot_in_arena(combine, self.nodes@, leaves, k, sibling_index(p));
                    assert(node_ok(combine, self.nodes@, leaves, k, sibling_index(p)));
                }
            }
            let sibling = self.nodes[current].get_sibling(0);
            let parent = self.nodes[current].get_parent();
            let up = match parent {
                Some(up) => up,
                None => {
                    // this means we've reached the root node
                    assert(hash_seq(proof@) + Seq::<Seq<u8>>::empty() == hash_seq(proof@));
                    break ;
                },
            };
            match sibling {
                Some(other) => {
                    proof.push(copy_hash(&self.nodes[other].value));
                },
                None => {
                    proof.push(copy_hash(&self.nodes[current].value));
                },
            }
            proof {
                assert(hash_seq(proof@) == hash_seq(before) + seq![sibling_hash(level, p)]);
                assert(level_at(combine, leaves, k + 1) == next_level(combine, level));
                k = k + 1;
                p = p / 2;
            }
            current = up;
        }
        Ok(proof)
    }

    /// The hash of a pair: the digest of the left hash followed by the right
    /// one.
    fn get_combined_hash(a: &crypto::Hash, b: &crypto::Hash) -> (h: crypto::Hash)
        ensures
            h@ == blake2b_combine()(a@, b@),
    {
        let joined = join_bytes(a.as_slice(), b.as_slice());
        blake2b512(joined.as_slice())
    }

    /// The hash of an item: the digest of its bytes.
    fn get_hash_from_data<T: Data>(el: T) -> (h: crypto::Hash)
        ensures
            h@ == blake2b512_digest(el.byte_seq()),
    {
        blake2b512(el.as_bytes())
    }
}

/// The proof of a leaf, as a well-formed tree generates it, replayed from the
/// leaf's hash at the leaf's index, ends at the root that the tree keeps.
pub proof fn law_generated_proof_verifies(tree: MerkleTree, i: int)
    requires
        tree.wf(),
        0 <= i < tree.leaves.len(),
    ensures
        proof_root(
            blake2b_combine(),
            tree.leaf_hashes()[i],
            i,
            merkle_proof(blake2b_combine(), tree.leaf_hashes(), i),
        ) == tree.root_hash@,
{
    lemma_proof_verifies(blake2b_combine(), tree.leaf_hashes(), i);
}

/// Generating a proof twice for one index, with no change to the tree in
/// between, gives the same sequence of hashes both times, or the same error
/// both times.
pub proof fn law_gen_proof_repeats<T: Data>(
    tree: MerkleTree,
    leaf_idx: usize,
    first: Result<Vec<crypto::Hash>, &'static str>,
    second: Result<Vec<crypto::Hash>, &'static str>,
)
    requires
        tree.wf(),
        call_ensures(MerkleTree::gen_proof::<T>, (&tree, leaf_idx), first),
        call_ensures(MerkleTree::gen_proof::<T>, (&tree, leaf_idx), second),
    ensures
        first is Ok <==> second is Ok,
        first is Ok ==> hash_seq(first->Ok_0@) == hash_seq(second->Ok_0@),
        first is Err ==> first->Err_0@ == second->Err_0@,
{
}

} // verus!

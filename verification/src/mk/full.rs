//! The full tree: it materialises every node of the tree in an arena, with
//! the links to parents and siblings, so that a proof is a walk from a leaf
//! up to the root.
use crate::mk::graph::building;
use crate::mk::graph::graph_wf;
use crate::mk::graph::joined;
use crate::mk::graph::lemma_build_done;
use crate::mk::graph::lemma_build_next;
use crate::mk::graph::lemma_build_start;
use crate::mk::graph::lemma_build_step;
use crate::mk::graph::lemma_graph_leaves;
use crate::mk::graph::lemma_graph_root;
use crate::mk::graph::lemma_joined;
use crate::mk::graph::lemma_slot_in_arena;
use crate::mk::graph::level_start;
use crate::mk::graph::node_ok;
use crate::mk::graph::node_values;
use crate::mk::mk::MerkleTree;
use crate::mk::reduction::depth;
use crate::mk::reduction::first_position;
use crate::mk::reduction::lemma_level_len;
use crate::mk::reduction::lemma_proof_verifies;
use crate::mk::reduction::lemma_top_level;
use crate::mk::reduction::level_at;
use crate::mk::reduction::level_len;
use crate::mk::reduction::merkle_proof;
use crate::mk::reduction::merkle_root;
use crate::mk::reduction::next_level;
use crate::mk::reduction::proof_root;
use crate::mk::reduction::sibling_hash;
use crate::mk::reduction::sibling_index;
use crate::tree::Node;
use crate::tree::TreeNode;
use crate::utils::crypto;
use crate::utils::crypto::combiner;
use crate::utils::crypto::copy_hash;
use crate::utils::crypto::data_hashes;
use crate::utils::crypto::hash_seq;
use crate::utils::crypto::same_hash;
use crate::utils::crypto::HashableData;
use crate::utils::crypto::Hasher;
use crate::utils::is_even;
use vstd::prelude::*;

verus! {

/// A node of the full tree: a hash with its links into the arena.
pub type MKNode = Node<crypto::Hash>;

/// A Merkle tree that holds all its nodes. `nodes` is the arena; `leaves`
/// holds the handles of the leaves in index order, and `tree` the handle of
/// the root.
pub struct FullMerkleTree<H: Hasher> {
    pub hasher: H,
    pub nodes: Vec<MKNode>,
    pub tree: TreeNode,
    pub leaves: Vec<TreeNode>,
    pub root_hash: crypto::Hash,
}

impl<H: Hasher> FullMerkleTree<H> {
    /// The tree has a leaf, and every leaf handle points into the arena.
    /// This is all that a rebuild needs.
    pub open spec fn has_leaves(&self) -> bool {
        &&& self.leaves.len() >= 1
        &&& forall|i: int| 0 <= i < self.leaves.len() ==> #[trigger] self.leaves[i] < self.nodes.len()
    }

    /// Builds the tree of `data`, hashed with `hasher`. There is no tree of
    /// nothing: an empty list gives `None`, and nothing else does.
    pub fn create<T: HashableData>(data: &[T], hasher: H) -> (made: Option<Self>)
        ensures
            made is None <==> data@.len() == 0,
            made matches Some(tree) ==> {
                &&& tree.wf()
                &&& tree.hasher == hasher
                &&& tree.leaves.len() == data@.len()
                &&& tree.leaf_hashes() == data_hashes(hasher, data@)
                &&& tree.root_hash@ == merkle_root(combiner(hasher), data_hashes(hasher, data@))
            },
    {
        if data.len() == 0 {
            return None;
        }
        let mut nodes = Self::create_leaves_from(data, &hasher);
        let ghost hashes = node_values(nodes@);
        assert(hashes == data_hashes(hasher, data@));
        let leaves = Self::handles(data.len());
        let tree = Self::create_tree(&mut nodes, &hasher);
        let root_hash = copy_hash(&nodes[tree].value);
        let made = Self { hasher, nodes, tree, leaves, root_hash };
        proof {
            lemma_graph_root(combiner(hasher), made.nodes@, hashes);
            lemma_graph_leaves(combiner(hasher), made.nodes@, hashes);
            assert(made.leaf_hashes() == hashes);
        }
        Some(made)
    }

    /// One bare leaf node for each item, in order, carrying the item's hash.
    pub fn create_leaves_from<T: HashableData>(data: &[T], hasher: &H) -> (leaves: Vec<MKNode>)
        ensures
            leaves.len() == data.len(),
            forall|i: int| 0 <= i < leaves.len() ==> (#[trigger] leaves[i]).is_bare(),
            node_values(leaves@) == data_hashes(*hasher, data@),
    {
        let mut leaves: Vec<MKNode> = Vec::new();
        let mut i: usize = 0;
        while i < data.len()
            invariant
                i <= data.len(),
                leaves.len() == i,
                forall|j: int| 0 <= j < i ==> (#[trigger] leaves[j]).is_bare(),
                forall|j: int| 0 <= j < i ==> leaves[j].value@ == hasher.hashed(data[j].byte_seq()),
            decreases data.len() - i,
        {
            let value = hasher.get_hash_from_data(&data[i]);
            leaves.push(Node::new(value, None, None, None));
            i += 1;
        }
        assert(node_values(leaves@) =~= data_hashes(*hasher, data@));
        leaves
    }

    /// The handles `0, 1, ..` of the first `count` nodes of an arena.
    pub fn handles(count: usize) -> (list: Vec<TreeNode>)
        ensures
            list.len() == count,
            forall|i: int| 0 <= i < count ==> list[i] == i,
    {
        let mut list: Vec<TreeNode> = Vec::new();
        let mut i: usize = 0;
        while i < count
            invariant
                i <= count,
                list.len() == i,
                forall|j: int| 0 <= j < i ==> list[j] == j,
            decreases count - i,
        {
            list.push(i);
            i += 1;
        }
        list
    }

    /// Puts the tree on top of the bare leaves that `nodes` holds: level by
    /// level, each pair of nodes gets a parent, and an odd last node gets a
    /// parent of its own, until one node is left. Returns that node, the
    /// root.
    pub fn create_tree(nodes: &mut Vec<MKNode>, hasher: &H) -> (root: TreeNode)
        requires
            old(nodes).len() >= 1,
            forall|i: int| 0 <= i < old(nodes).len() ==> (#[trigger] old(nodes)[i]).is_bare(),
        ensures
            graph_wf(combiner(*hasher), final(nodes)@, node_values(old(nodes)@)),
            root == final(nodes).len() - 1,
    {
        let ghost combine = combiner(*hasher);
        let ghost leaves = node_values(nodes@);
        let ghost n = leaves.len();
        let ghost mut k: nat = 0;
        let mut start: usize = 0;
        let mut len: usize = nodes.len();
        proof {
            lemma_build_start(combine, nodes@, leaves);
        }
        while len > 1
            invariant
                n == leaves.len(),
                combine == combiner(*hasher),
                start == level_start(n, k),
                len == level_len(n, k),
                building(combine, nodes@, leaves, k, 0),
            decreases len,
        {
            let mut i: usize = 0;
            while i < len
                invariant
                    n == leaves.len(),
                    combine == combiner(*hasher),
                    len >= 2,
                    start == level_start(n, k),
                    len == level_len(n, k),
                    building(combine, nodes@, leaves, k, i as int),
                decreases len - i,
            {
                let ghost before = nodes@;
                assert(nodes.len() == start + len + (i + 1) / 2);
                let a = start + i;
                if i + 1 < len {
                    Self::create_node(nodes, a, a + 1, hasher);
                    proof {
                        lemma_build_step(combine, before, nodes@, leaves, k, i as int);
                    }
                    i += 2;
                } else {
                    Self::create_node(nodes, a, a, hasher);
                    proof {
                        lemma_build_step(combine, before, nodes@, leaves, k, i as int);
                    }
                    i += 1;
                }
            }
            assert(nodes.len() == start + len + (len + 1) / 2);
            proof {
                lemma_build_next(combine, nodes@, leaves, k);
                k = k + 1;
            }
            start = start + len;
            len = nodes.len() - start;
        }
        proof {
            lemma_build_done(combine, nodes@, leaves, k);
        }
        start
    }

    /// Puts a new node at the end of the arena as the parent of the nodes
    /// `a` and `b`, with their combined hash, and returns its handle. The
    /// two become each other's only sibling. With `a == b` the node is
    /// combined with itself: the parent holds it once, and it gets no
    /// sibling.
    pub fn create_node(nodes: &mut Vec<MKNode>, a: TreeNode, b: TreeNode, hasher: &H) -> (parent:
        TreeNode)
        requires
            a < old(nodes).len(),
            b < old(nodes).len(),
        ensures
            parent == old(nodes).len(),
            joined(combiner(*hasher), old(nodes)@, final(nodes)@, a as int, b as int),
    {
        let ghost before = nodes@;
        let value = hasher.get_combined_hash(&nodes[a].value, &nodes[b].value);
        let children = if a == b {
            vec![a]
        } else {
            vec![a, b]
        };
        assert(children@ =~= if a == b {
            seq![a]
        } else {
            seq![a, b]
        });
        let node = Node::new(value, Some(children), None, None);
        nodes.push(node);
        let parent = nodes.len() - 1;
        let ghost pushed = nodes@;
        Node::set_parent_and_siblings(nodes, parent, &[a, b]);
        proof {
            lemma_joined(combiner(*hasher), before, pushed, nodes@, a, b);
        }
        parent
    }

    /// Builds the arena again from the hashes of the current leaves, and
    /// keeps the new root.
    pub fn rebuild_tree(&mut self)
        requires
            old(self).has_leaves(),
        ensures
            final(self).wf(),
            final(self).hasher == old(self).hasher,
            final(self).leaves.len() == old(self).leaves.len(),
            final(self).leaf_hashes() == old(self).leaf_hashes(),
    {
        let ghost hashes = self.leaf_hashes();
        let mut nodes: Vec<MKNode> = Vec::new();
        let mut i: usize = 0;
        while i < self.leaves.len()
            invariant
                i <= self.leaves.len(),
                self.has_leaves(),
                hashes == self.leaf_hashes(),
                nodes.len() == i,
                forall|j: int| 0 <= j < i ==> (#[trigger] nodes[j]).is_bare(),
                forall|j: int| 0 <= j < i ==> nodes[j].value@ == hashes[j],
            decreases self.leaves.len() - i,
        {
            let value = copy_hash(&self.nodes[self.leaves[i]].value);
            nodes.push(Node::new(value, None, None, None));
            i += 1;
        }
        assert(node_values(nodes@) =~= hashes);
        let tree = Self::create_tree(&mut nodes, &self.hasher);
        let root_hash = copy_hash(&nodes[tree].value);
        let leaves = Self::handles(self.leaves.len());
        self.nodes = nodes;
        self.leaves = leaves;
        self.tree = tree;
        self.root_hash = root_hash;
        proof {
            lemma_graph_root(self.combine(), self.nodes@, hashes);
            lemma_graph_leaves(self.combine(), self.nodes@, hashes);
            assert(self.leaf_hashes() =~= hashes);
        }
    }

    /// The index of the first leaf that carries `hash`, where there is one.
    pub fn position_of(&self, hash: &crypto::Hash) -> (found: Option<usize>)
        requires
            self.has_leaves(),
        ensures
            found is Some <==> self.leaf_hashes().contains(hash@),
            found matches Some(i) ==> first_position(self.leaf_hashes(), hash@, i as int),
    {
        let mut i: usize = 0;
        while i < self.leaves.len()
            invariant
                i <= self.leaves.len(),
                self.has_leaves(),
                forall|j: int| 0 <= j < i ==> self.leaf_hashes()[j] != hash@,
            decreases self.leaves.len() - i,
        {
            if same_hash(&self.nodes[self.leaves[i]].value, hash) {
                assert(self.leaf_hashes()[i as int] == hash@);
                return Some(i);
            }
            i += 1;
        }
        None
    }

    /// `node` is a copy of the node at `handle`: it has the same hash and
    /// the same links.
    pub open spec fn is_copy_of(&self, node: MKNode, handle: int) -> bool {
        &&& node.value@ == self.nodes[handle].value@
        &&& node.parent == self.nodes[handle].parent
        &&& node.child_ids() == self.nodes[handle].child_ids()
        &&& node.sibling_ids() == self.nodes[handle].sibling_ids()
    }

    /// A copy of the node at `handle`: its hash and its links.
    pub fn node_at(&self, handle: TreeNode) -> (node: MKNode)
        requires
            handle < self.nodes.len(),
        ensures
            self.is_copy_of(node, handle as int),
    {
        Node::<crypto::Hash>::clone(&self.nodes[handle])
    }
}

impl<H: Hasher> MerkleTree<MKNode> for FullMerkleTree<H> {
    /// The leaves are the first nodes of the arena, the arena is the tree
    /// over their hashes, `tree` is the root's handle, and `root_hash` is the
    /// root's hash.
    open spec fn wf(&self) -> bool {
        &&& self.leaves.len() >= 1
        &&& forall|i: int| 0 <= i < self.leaves.len() ==> #[trigger] self.leaves[i] == i
        &&& graph_wf(self.combine(), self.nodes@, self.leaf_hashes())
        &&& self.tree == self.nodes.len() - 1
        &&& self.root_hash@ == self.nodes[self.tree as int].value@
        &&& self.root_hash@ == merkle_root(self.combine(), self.leaf_hashes())
    }

    open spec fn leaf_hashes(&self) -> Seq<Seq<u8>> {
        Seq::new(self.leaves.len() as nat, |i: int| self.nodes[self.leaves[i] as int].value@)
    }

    open spec fn root(&self) -> Seq<u8> {
        self.root_hash@
    }

    open spec fn combine(&self) -> spec_fn(Seq<u8>, Seq<u8>) -> Seq<u8> {
        combiner(self.hasher)
    }

    open spec fn item_hash(&self, data: Seq<u8>) -> Seq<u8> {
        self.hasher.hashed(data)
    }

    open spec fn node_hash(node: MKNode) -> Seq<u8> {
        node.value@
    }

    proof fn lemma_root(&self) {
    }

    fn get_leaf_by_idx(&self, idx: usize) -> (leaf: Option<MKNode>)
        ensures
            leaf matches Some(node) ==> self.is_copy_of(node, idx as int),
    {
        proof {
            lemma_graph_leaves(self.combine(), self.nodes@, self.leaf_hashes());
        }
        if idx < self.leaves.len() {
            Some(self.node_at(self.leaves[idx]))
        } else {
            None
        }
    }

    fn get_leaf_by_hash(&self, hash: &crypto::Hash) -> (leaf: Option<MKNode>)
        ensures
            leaf matches Some(node) ==> exists|i: int|
                first_position(self.leaf_hashes(), hash@, i) && self.is_copy_of(node, i),
    {
        proof {
            lemma_graph_leaves(self.combine(), self.nodes@, self.leaf_hashes());
        }
        match self.position_of(hash) {
            Some(i) => Some(self.node_at(self.leaves[i])),
            None => None,
        }
    }

    fn add_leaf<T: HashableData>(&mut self, data: T)
        ensures
            final(self).hasher == old(self).hasher,
            final(self).leaves.len() == old(self).leaves.len() + 1,
    {
        proof {
            lemma_graph_leaves(self.combine(), self.nodes@, self.leaf_hashes());
        }
        let ghost hashes = self.leaf_hashes();
        let hash = self.hasher.get_hash_from_data(data);
        let node = Node::new(hash, None, None, None);
        self.nodes.push(node);
        self.leaves.push(self.nodes.len() - 1);
        assert(self.leaf_hashes() =~= hashes.push(hash@));
        self.rebuild_tree();
    }

    fn delete_leaf(&mut self, index: usize)
        ensures
            final(self).hasher == old(self).hasher,
            index < old(self).leaves.len() ==> final(self).leaves.len() == old(self).leaves.len()
                - 1,
            index >= old(self).leaves.len() ==> *final(self) == *old(self),
    {
        proof {
            lemma_graph_leaves(self.combine(), self.nodes@, self.leaf_hashes());
        }
        let ghost hashes = self.leaf_hashes();
        if index < self.leaves.len() {
            self.leaves.remove(index);
            assert(self.leaf_hashes() =~= hashes.remove(index as int));
            self.rebuild_tree();
        }
    }

    fn update_leaf<T: HashableData>(&mut self, index: usize, data: T)
        ensures
            final(self).hasher == old(self).hasher,
            final(self).leaves.len() == old(self).leaves.len(),
            index >= old(self).leaves.len() ==> *final(self) == *old(self),
    {
        proof {
            lemma_graph_leaves(self.combine(), self.nodes@, self.leaf_hashes());
        }
        let ghost hashes = self.leaf_hashes();
        if index < self.leaves.len() {
            let hash = self.hasher.get_hash_from_data(data);
            let handle = self.leaves[index];
            self.nodes[handle].value = hash;
            assert(self.leaf_hashes() =~= hashes.update(index as int, hash@));
            self.rebuild_tree();
        }
    }

    fn gen_proof(&self, leaf_idx: usize) -> (made: Option<Vec<crypto::Hash>>) {
        let mut proof: Vec<crypto::Hash> = Vec::new();
        if leaf_idx >= self.leaves.len() {
            return None;
        }
        let ghost combine = self.combine();
        let ghost leaves = self.leaf_hashes();
        let ghost n = leaves.len();
        let ghost mut k: nat = 0;
        let ghost mut p: int = leaf_idx as int;
        let mut current = self.leaves[leaf_idx];
        assert(hash_seq(proof@) + merkle_proof(combine, leaves, p) == merkle_proof(
            combine,
            leaves,
            p,
        ));
        loop
            invariant_except_break
                self.wf(),
                combine == self.combine(),
                leaves == self.leaf_hashes(),
                n == leaves.len(),
                k <= depth(n),
                0 <= p < level_len(n, k),
                current == level_start(n, k) + p,
                hash_seq(proof@) + merkle_proof(combine, level_at(combine, leaves, k), p)
                    == merkle_proof(combine, leaves, leaf_idx as int),
            ensures
                hash_seq(proof@) == merkle_proof(self.combine(), self.leaf_hashes(), leaf_idx as int),
            decreases level_len(n, k),
        {
            let ghost level = level_at(combine, leaves, k);
            let ghost before = proof@;
            proof {
                lemma_top_level(n);
                lemma_level_len(combine, leaves, k);
                lemma_slot_in_arena(combine, self.nodes@, leaves, k, p);
                assert(node_ok(combine, self.nodes@, leaves, k, p));
                if sibling_index(p) < level_len(n, k) {
                    lemma_slot_in_arena(combine, self.nodes@, leaves, k, sibling_index(p));
                    assert(node_ok(combine, self.nodes@, leaves, k, sibling_index(p)));
                }
            }
            let sibling = self.nodes[current].get_sibling(0);
            let parent = self.nodes[current].get_parent();
            let up = match parent {
                Some(up) => up,
                None => {
                    assert(hash_seq(proof@) + Seq::<Seq<u8>>::empty() == hash_seq(proof@));
                    break ;
                },
            };
            match sibling {
                Some(other) => {
                    proof.push(copy_hash(&self.nodes[other].value));
                },
                None => {
                    proof.push(copy_hash(&self.nodes[current].value));
                },
            }
            proof {
                assert(hash_seq(proof@) == hash_seq(before) + seq![sibling_hash(level, p)]);
                assert(level_at(combine, leaves, k + 1) == next_level(combine, level));
                k = k + 1;
                p = p / 2;
            }
            current = up;
        }
        Some(proof)
    }

    fn verify_proof(&self, leaf_hash: &crypto::Hash, leaf_idx: usize, proof: Vec<crypto::Hash>) -> (valid:
        bool) {
        let ghost steps = hash_seq(proof@);
        let mut current = copy_hash(leaf_hash);
        let mut idx = leaf_idx;
        let mut k: usize = 0;
        assert(steps.skip(0) == steps);
        while k < proof.len()
            invariant
                k <= proof.len(),
                steps == hash_seq(proof@),
                proof_root(self.combine(), current@, idx as int, steps.skip(k as int))
                    == proof_root(self.combine(), leaf_hash@, leaf_idx as int, steps),
            decreases proof.len() - k,
        {
            let ghost rest = steps.skip(k as int);
            assert(rest.drop_first() == steps.skip(k + 1));
            assert(rest[0] == proof@[k as int]@);
            if is_even(idx) {
                current = self.hasher.get_combined_hash(&current, &proof[k]);
            } else {
                current = self.hasher.get_combined_hash(&proof[k], &current);
            }
            idx /= 2;
            k += 1;
        }
        same_hash(&current, &self.root_hash)
    }

    fn contains_hash(&self, hash: &crypto::Hash) -> (found: Option<(usize, Vec<crypto::Hash>)>) {
        proof {
            lemma_graph_leaves(self.combine(), self.nodes@, self.leaf_hashes());
        }
        match self.position_of(hash) {
            Some(leaf_idx) => {
                match self.gen_proof(leaf_idx) {
                    Some(proof) => Some((leaf_idx, proof)),
                    None => None,
                }
            },
            None => None,
        }
    }
}

/// Whether `hash` is the hash of a leaf of `mk`: the leaf is looked up, its
/// proof is generated, and the proof is verified against the root.
pub fn verify_block_by_hash<H: Hasher>(hash: &crypto::Hash, mk: &FullMerkleTree<H>) -> (contained:
    bool)
    requires
        mk.wf(),
    ensures
        contained == mk.leaf_hashes().contains(hash@),
{
    if let Some((idx, proof)) = mk.contains_hash(hash) {
        proof {
            lemma_proof_verifies(mk.combine(), mk.leaf_hashes(), idx as int);
        }
        return mk.verify_proof(hash, idx, proof);
    }
    false
}

} // verus!

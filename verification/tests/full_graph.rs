use merkle_tree::mk::full::verify_block_by_hash;
use merkle_tree::mk::full::FullMerkleTree;
use merkle_tree::mk::mk::MerkleTree;
use merkle_tree::tree::Node;
use merkle_tree::utils::crypto::Hasher;
use merkle_tree::utils::crypto::Sha256Hasher;

fn lh(item: &str) -> Vec<u8> {
    Sha256Hasher::new().get_hash_from_data(item)
}

fn ch(a: &Vec<u8>, b: &Vec<u8>) -> Vec<u8> {
    Sha256Hasher::new().get_combined_hash(a, b)
}

fn numbered(count: usize) -> Vec<String> {
    (0..count).map(|i| format!("leaf {}", i)).collect()
}

#[test]
fn full_create_fails_on_empty_input() {
    let data: Vec<&str> = vec![];
    assert!(FullMerkleTree::create(data.as_slice(), Sha256Hasher::new()).is_none());
}

#[test]
fn full_single_leaf_is_its_own_root() {
    let data = vec!["only"];
    let tree = FullMerkleTree::create(data.as_slice(), Sha256Hasher::new()).unwrap();
    assert_eq!(tree.root_hash, lh("only"));
    assert_eq!(tree.nodes.len(), 1);
    assert_eq!(tree.tree, 0);
    assert_eq!(tree.nodes[0].parent, None);
    assert_eq!(tree.nodes[0].get_sibling(0), None);
    assert_eq!(tree.gen_proof(0).unwrap(), Vec::<Vec<u8>>::new());
    assert!(tree.verify_proof(&lh("only"), 0, vec![]));
}

#[test]
fn full_graph_of_four_leaves() {
    let data = vec!["hello", "how", "are", "you"];
    let tree = FullMerkleTree::create(data.as_slice(), Sha256Hasher::new()).unwrap();
    assert_eq!(tree.leaves, vec![0, 1, 2, 3]);
    assert_eq!(tree.nodes.len(), 7);
    assert_eq!(tree.tree, 6);
    for leaf in 0..4 {
        assert_eq!(tree.nodes[leaf].children, None);
        assert_eq!(tree.nodes[leaf].parent, Some(4 + leaf / 2));
        assert_eq!(tree.nodes[leaf].get_sibling(0), Some(leaf ^ 1));
        assert_eq!(tree.nodes[leaf].get_sibling(1), None);
    }
    assert_eq!(tree.nodes[4].children, Some(vec![0, 1]));
    assert_eq!(tree.nodes[5].children, Some(vec![2, 3]));
    assert_eq!(tree.nodes[4].value, ch(&lh("hello"), &lh("how")));
    assert_eq!(tree.nodes[5].value, ch(&lh("are"), &lh("you")));
    assert_eq!(tree.nodes[4].parent, Some(6));
    assert_eq!(tree.nodes[5].parent, Some(6));
    assert_eq!(tree.nodes[4].get_sibling(0), Some(5));
    assert_eq!(tree.nodes[5].get_sibling(0), Some(4));
    assert_eq!(tree.nodes[6].children, Some(vec![4, 5]));
    assert_eq!(tree.nodes[6].parent, None);
    assert_eq!(tree.nodes[6].get_sibling(0), None);
    assert_eq!(tree.nodes[6].value, tree.root_hash);
}

#[test]
fn full_graph_of_three_leaves_has_a_lone_child() {
    let data = vec!["how", "are", "you"];
    let tree = FullMerkleTree::create(data.as_slice(), Sha256Hasher::new()).unwrap();
    assert_eq!(tree.nodes.len(), 6);
    assert_eq!(tree.tree, 5);
    assert_eq!(tree.nodes[2].parent, Some(4));
    assert_eq!(tree.nodes[2].get_sibling(0), None);
    assert_eq!(tree.nodes[4].children, Some(vec![2]));
    assert_eq!(tree.nodes[4].value, ch(&lh("you"), &lh("you")));
    assert_eq!(tree.nodes[3].children, Some(vec![0, 1]));
    assert_eq!(tree.nodes[5].children, Some(vec![3, 4]));
    assert_eq!(tree.nodes[5].get_parent(), None);
}

#[test]
fn full_proof_of_the_odd_leaf_holds_its_own_hash() {
    let data = vec!["how", "are", "you"];
    let tree = FullMerkleTree::create(data.as_slice(), Sha256Hasher::new()).unwrap();
    assert_eq!(
        tree.gen_proof(2).unwrap(),
        vec![lh("you"), ch(&lh("how"), &lh("are"))]
    );
}

#[test]
fn full_every_generated_proof_verifies() {
    for count in 1..=17 {
        let data = numbered(count);
        let tree = FullMerkleTree::create(data.as_slice(), Sha256Hasher::new()).unwrap();
        for i in 0..count {
            let leaf = tree.get_leaf_by_idx(i).unwrap();
            assert!(tree.verify_proof(&leaf.value, i, tree.gen_proof(i).unwrap()));
        }
    }
}

#[test]
fn full_gen_proof_gives_the_same_proof_twice() {
    let data = numbered(6);
    let tree = FullMerkleTree::create(data.as_slice(), Sha256Hasher::new()).unwrap();
    for i in 0..7 {
        assert_eq!(tree.gen_proof(i), tree.gen_proof(i));
    }
}

#[test]
fn full_gen_proof_has_no_proof_for_a_missing_leaf() {
    let data = vec!["how", "are", "you"];
    let tree = FullMerkleTree::create(data.as_slice(), Sha256Hasher::new()).unwrap();
    assert!(tree.gen_proof(3).is_none());
    assert!(tree.get_leaf_by_idx(3).is_none());
    assert!(tree.get_leaf_by_hash(&lh("absent")).is_none());
    assert!(tree.contains_hash(&lh("absent")).is_none());
}

#[test]
fn full_add_leaf_changes_the_root_and_keeps_the_old_leaves() {
    let data = vec!["how", "are", "you"];
    let mut tree = FullMerkleTree::create(data.as_slice(), Sha256Hasher::new()).unwrap();
    let before = tree.root_hash.clone();
    tree.add_leaf("hello");
    assert_ne!(tree.root_hash, before);
    assert_eq!(tree.leaves, vec![0, 1, 2, 3]);
    assert_eq!(tree.get_leaf_by_idx(0).unwrap().value, lh("how"));
    assert_eq!(tree.get_leaf_by_idx(3).unwrap().value, lh("hello"));
    assert_eq!(
        tree.root_hash,
        ch(&ch(&lh("how"), &lh("are")), &ch(&lh("you"), &lh("hello")))
    );
    assert_eq!(tree.nodes.len(), 7);
    assert_eq!(tree.nodes[2].get_sibling(0), Some(3));
}

#[test]
fn full_delete_leaf_keeps_the_other_leaves() {
    let data = vec!["hello", "how", "are", "you"];
    let mut tree = FullMerkleTree::create(data.as_slice(), Sha256Hasher::new()).unwrap();
    tree.delete_leaf(0);
    assert_eq!(tree.get_leaf_by_idx(0).unwrap().value, lh("how"));
    assert_eq!(tree.get_leaf_by_idx(1).unwrap().value, lh("are"));
    assert_eq!(tree.get_leaf_by_idx(2).unwrap().value, lh("you"));
    assert_eq!(
        tree.root_hash,
        ch(&ch(&lh("how"), &lh("are")), &ch(&lh("you"), &lh("you")))
    );
    assert_eq!(tree.nodes.len(), 6);
    assert_eq!(tree.nodes[2].get_sibling(0), None);
    assert!(tree.verify_proof(&lh("you"), 2, tree.gen_proof(2).unwrap()));
}

#[test]
fn full_mutations_ignore_an_index_without_a_leaf() {
    let data = vec!["hello", "how"];
    let mut tree = FullMerkleTree::create(data.as_slice(), Sha256Hasher::new()).unwrap();
    let before = tree.root_hash.clone();
    tree.delete_leaf(2);
    assert_eq!(tree.leaves.len(), 2);
    assert_eq!(tree.root_hash, before);
    tree.update_leaf(2, "hi");
    assert_eq!(tree.leaves.len(), 2);
    assert_eq!(tree.root_hash, before);
}

#[test]
fn full_rebuild_gives_the_same_tree_again() {
    let data = vec!["hello", "how", "are"];
    let mut tree = FullMerkleTree::create(data.as_slice(), Sha256Hasher::new()).unwrap();
    let before = tree.root_hash.clone();
    tree.rebuild_tree();
    assert_eq!(tree.root_hash, before);
    assert_eq!(tree.nodes.len(), 6);
    assert_eq!(tree.leaves, vec![0, 1, 2]);
}

#[test]
fn full_create_node_joins_two_nodes() {
    let hasher = Sha256Hasher::new();
    let mut nodes = vec![
        Node::new(lh("a"), None, None, None),
        Node::new(lh("b"), None, None, None),
    ];
    let parent = FullMerkleTree::create_node(&mut nodes, 0, 1, &hasher);
    assert_eq!(parent, 2);
    assert_eq!(nodes.len(), 3);
    assert_eq!(nodes[2].value, ch(&lh("a"), &lh("b")));
    assert_eq!(nodes[2].children, Some(vec![0, 1]));
    assert_eq!(nodes[0].parent, Some(2));
    assert_eq!(nodes[1].parent, Some(2));
    assert_eq!(nodes[0].get_sibling(0), Some(1));
    assert_eq!(nodes[1].get_sibling(0), Some(0));

    let lone = FullMerkleTree::create_node(&mut nodes, 2, 2, &hasher);
    assert_eq!(lone, 3);
    assert_eq!(nodes[3].value, ch(&nodes[2].value, &nodes[2].value));
    assert_eq!(nodes[3].children, Some(vec![2]));
    assert_eq!(nodes[2].parent, Some(3));
    assert_eq!(nodes[2].get_sibling(0), None);
}

#[test]
fn full_create_tree_returns_the_root() {
    let hasher = Sha256Hasher::new();
    let data = vec!["a", "b", "c", "d", "e"];
    let mut nodes = FullMerkleTree::create_leaves_from(data.as_slice(), &hasher);
    assert_eq!(nodes.len(), 5);
    let root = FullMerkleTree::create_tree(&mut nodes, &hasher);
    assert_eq!(nodes.len(), 5 + 3 + 2 + 1);
    assert_eq!(root, 10);
    let ee = ch(&lh("e"), &lh("e"));
    assert_eq!(
        nodes[root].value,
        ch(
            &ch(&ch(&lh("a"), &lh("b")), &ch(&lh("c"), &lh("d"))),
            &ch(&ee, &ee)
        )
    );
    assert_eq!(FullMerkleTree::<Sha256Hasher>::handles(3), vec![0, 1, 2]);
}

#[test]
fn full_node_at_copies_a_node() {
    let data = vec!["hello", "how", "are", "you"];
    let tree = FullMerkleTree::create(data.as_slice(), Sha256Hasher::new()).unwrap();
    let node = tree.node_at(5);
    assert_eq!(node.value, ch(&lh("are"), &lh("you")));
    assert_eq!(node.parent, Some(6));
    assert_eq!(node.children, Some(vec![2, 3]));
    assert_eq!(node.siblings, Some(vec![4]));
    assert_eq!(tree.position_of(&lh("are")), Some(2));
}

#[test]
fn verify_block_by_hash_tells_leaves_from_other_hashes() {
    let data = vec!["hello", "how", "are", "you"];
    let tree = FullMerkleTree::create(data.as_slice(), Sha256Hasher::new()).unwrap();
    assert!(verify_block_by_hash(&lh("hello"), &tree));
    assert!(verify_block_by_hash(&lh("you"), &tree));
    assert!(!verify_block_by_hash(&lh("absent"), &tree));
    assert!(!verify_block_by_hash(&tree.root_hash, &tree));
}

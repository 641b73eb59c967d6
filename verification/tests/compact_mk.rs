use merkle_tree::mk::compact::CompactMerkleTree;
use merkle_tree::mk::compact::Node;
use merkle_tree::mk::compact::EMPTY_DATA;
use merkle_tree::mk::compact::NO_SUCH_LEAF;
use merkle_tree::mk::full::FullMerkleTree;
use merkle_tree::mk::mk::MerkleTree;
use merkle_tree::utils::crypto::Blake2s256Hasher;
use merkle_tree::utils::crypto::Hasher;
use merkle_tree::utils::crypto::Sha256Hasher;

fn from_hex(text: &str) -> Vec<u8> {
    let digits: Vec<u8> = text
        .bytes()
        .map(|c| (c as char).to_digit(16).unwrap() as u8)
        .collect();
    digits.chunks(2).map(|pair| pair[0] * 16 + pair[1]).collect()
}

fn h(item: &str) -> Vec<u8> {
    Sha256Hasher::new().get_hash_from_data(item)
}

fn c(a: &Vec<u8>, b: &Vec<u8>) -> Vec<u8> {
    Sha256Hasher::new().get_combined_hash(a, b)
}

fn items(count: usize) -> Vec<String> {
    (0..count).map(|i| format!("item {}", i)).collect()
}

fn depth(count: usize) -> usize {
    let mut n = count;
    let mut d = 0;
    while n > 1 {
        n = (n + 1) / 2;
        d += 1;
    }
    d
}

#[test]
fn compact_create_fails_on_empty_input() {
    let data: Vec<&str> = vec![];
    assert!(CompactMerkleTree::create(data.as_slice(), Sha256Hasher::new()).is_none());
}

#[test]
fn compact_try_from_reports_empty_input() {
    let data: Vec<&str> = vec![];
    let made = CompactMerkleTree::try_from(data.as_slice(), Sha256Hasher::new());
    assert_eq!(made.err(), Some(EMPTY_DATA));
    assert_eq!(EMPTY_DATA, "data can't be empty");

    let data = vec!["a", "b"];
    let tree = CompactMerkleTree::try_from(data.as_slice(), Sha256Hasher::new())
        .ok()
        .unwrap();
    assert_eq!(tree.root_hash, c(&h("a"), &h("b")));
}

#[test]
fn compact_single_leaf_is_its_own_root() {
    let data = vec!["only"];
    let tree = CompactMerkleTree::create(data.as_slice(), Sha256Hasher::new()).unwrap();
    assert_eq!(tree.leaves.len(), 1);
    assert_eq!(tree.root_hash, h("only"));
    assert_eq!(tree.gen_proof(0).unwrap(), Vec::<Vec<u8>>::new());
    assert!(tree.verify_proof(h("only"), 0, vec![]));
}

#[test]
fn compact_root_of_four_items() {
    let data = vec!["hello", "how", "are", "you"];
    let tree = CompactMerkleTree::create(data.as_slice(), Sha256Hasher::new()).unwrap();
    assert_eq!(tree.leaves.len(), 4);
    assert_eq!(
        tree.root_hash,
        c(&c(&h("hello"), &h("how")), &c(&h("are"), &h("you")))
    );
    assert_eq!(
        tree.root_hash,
        from_hex("93ac4039a7dbf3536410b3b645d023dfea8a3cbe22012eea77765d47197d5b8a")
    );
    assert_eq!(
        tree.gen_proof(0).unwrap(),
        vec![h("how"), c(&h("are"), &h("you"))]
    );
    assert_eq!(
        tree.gen_proof(3).unwrap(),
        vec![h("are"), c(&h("hello"), &h("how"))]
    );
}

#[test]
fn compact_root_of_three_items_duplicates_the_odd_one() {
    let data = vec!["how", "are", "you"];
    let tree = CompactMerkleTree::create(data.as_slice(), Sha256Hasher::new()).unwrap();
    assert_eq!(
        tree.root_hash,
        c(&c(&h("how"), &h("are")), &c(&h("you"), &h("you")))
    );
    assert_eq!(
        tree.root_hash,
        from_hex("46b6a7d7f46fbf73639f58f25cedfdb3ef0b9e933b55d0dfe2ba463f7a448311")
    );
    assert_eq!(
        tree.gen_proof(2).unwrap(),
        vec![h("you"), c(&h("how"), &h("are"))]
    );
    assert_eq!(
        tree.gen_proof(0).unwrap(),
        vec![h("are"), c(&h("you"), &h("you"))]
    );
}

#[test]
fn compact_root_of_five_items_duplicates_on_two_levels() {
    let data = vec!["a", "b", "c", "d", "e"];
    let tree = CompactMerkleTree::create(data.as_slice(), Sha256Hasher::new()).unwrap();
    let ee = c(&h("e"), &h("e"));
    assert_eq!(
        tree.root_hash,
        c(
            &c(&c(&h("a"), &h("b")), &c(&h("c"), &h("d"))),
            &c(&ee, &ee)
        )
    );
    assert_eq!(
        tree.root_hash,
        from_hex("dd14d0ba516bb654a3052b76f051db026f4e322d0be081468fab99440f9e7305")
    );
    assert_eq!(
        tree.gen_proof(4).unwrap(),
        vec![
            h("e"),
            ee.clone(),
            c(&c(&h("a"), &h("b")), &c(&h("c"), &h("d")))
        ]
    );
}

#[test]
fn compact_gen_proof_rejects_an_index_without_a_leaf() {
    let data = vec!["how", "are", "you"];
    let tree = CompactMerkleTree::create(data.as_slice(), Sha256Hasher::new()).unwrap();
    assert_eq!(tree.gen_proof(3), Err(NO_SUCH_LEAF));
    assert_eq!(tree.gen_proof(usize::MAX), Err(NO_SUCH_LEAF));
    assert_eq!(NO_SUCH_LEAF, "No leaf exists with the given index");
}

#[test]
fn compact_every_generated_proof_verifies() {
    for count in 1..=17 {
        let data = items(count);
        let tree = CompactMerkleTree::create(data.as_slice(), Sha256Hasher::new()).unwrap();
        for i in 0..count {
            let leaf = tree.get_leaf_by_idx(i).unwrap();
            let proof = tree.gen_proof(i).unwrap();
            assert_eq!(proof.len(), depth(count));
            assert!(tree.verify_proof(leaf.value, i, proof));
        }
    }
}

#[test]
fn compact_verify_rejects_a_wrong_leaf_hash() {
    let data = vec!["hello", "how", "are", "you"];
    let tree = CompactMerkleTree::create(data.as_slice(), Sha256Hasher::new()).unwrap();
    assert!(!tree.verify_proof(h("not right"), 0, tree.gen_proof(0).unwrap()));
    assert!(!tree.verify_proof(h("how"), 0, tree.gen_proof(0).unwrap()));
}

#[test]
fn compact_verify_rejects_a_wrong_index_or_proof() {
    let data = vec!["hello", "how", "are", "you"];
    let tree = CompactMerkleTree::create(data.as_slice(), Sha256Hasher::new()).unwrap();
    assert!(!tree.verify_proof(h("hello"), 1, tree.gen_proof(0).unwrap()));
    assert!(!tree.verify_proof(h("hello"), 0, tree.gen_proof(1).unwrap()));
    assert!(!tree.verify_proof(h("hello"), 0, vec![]));
    let mut long = tree.gen_proof(0).unwrap();
    long.push(h("more"));
    assert!(!tree.verify_proof(h("hello"), 0, long));
    assert!(tree.verify_proof(tree.get_root_hash(), 0, vec![]));
}

#[test]
fn compact_gen_proof_gives_the_same_proof_twice() {
    let data = items(7);
    let tree = CompactMerkleTree::create(data.as_slice(), Blake2s256Hasher::new()).unwrap();
    for i in 0..7 {
        assert_eq!(tree.gen_proof(i), tree.gen_proof(i));
    }
    assert_eq!(tree.gen_proof(7), tree.gen_proof(7));
}

#[test]
fn compact_add_leaf_appends_and_changes_the_root() {
    let data = vec!["how", "are", "you"];
    let mut tree = CompactMerkleTree::create(data.as_slice(), Sha256Hasher::new()).unwrap();
    let before = tree.get_root_hash();
    tree.add_leaf("hello");
    assert_eq!(tree.leaves.len(), 4);
    assert_ne!(tree.get_root_hash(), before);
    assert_eq!(tree.leaves[3].value, h("hello"));
    assert_eq!(tree.leaves[0].value, h("how"));

    let all = vec!["how", "are", "you", "hello"];
    let fresh = CompactMerkleTree::create(all.as_slice(), Sha256Hasher::new()).unwrap();
    assert_eq!(tree.root_hash, fresh.root_hash);
}

#[test]
fn compact_delete_leaf_shifts_the_later_leaves_down() {
    let data = vec!["hello", "how", "are", "you"];
    let mut tree = CompactMerkleTree::create(data.as_slice(), Sha256Hasher::new()).unwrap();
    tree.delete_leaf(1);
    assert_eq!(tree.leaves.len(), 3);
    assert_eq!(tree.leaves[0].value, h("hello"));
    assert_eq!(tree.leaves[1].value, h("are"));
    assert_eq!(tree.leaves[2].value, h("you"));
    assert_eq!(
        tree.root_hash,
        c(&c(&h("hello"), &h("are")), &c(&h("you"), &h("you")))
    );
}

#[test]
fn compact_delete_leaf_ignores_an_index_without_a_leaf() {
    let data = vec!["hello", "how"];
    let mut tree = CompactMerkleTree::create(data.as_slice(), Sha256Hasher::new()).unwrap();
    let before = tree.get_root_hash();
    tree.delete_leaf(2);
    assert_eq!(tree.leaves.len(), 2);
    assert_eq!(tree.root_hash, before);
}

#[test]
fn compact_update_leaf_replaces_in_place() {
    let data = vec!["hello", "how", "are", "you"];
    let mut tree = CompactMerkleTree::create(data.as_slice(), Sha256Hasher::new()).unwrap();
    tree.update_leaf(0, "hi");
    assert_eq!(tree.leaves.len(), 4);
    assert_eq!(tree.leaves[0].value, h("hi"));
    assert_eq!(tree.leaves[1].value, h("how"));
    assert_eq!(
        tree.root_hash,
        c(&c(&h("hi"), &h("how")), &c(&h("are"), &h("you")))
    );
}

#[test]
fn compact_update_leaf_ignores_an_index_without_a_leaf() {
    let data = vec!["hello", "how"];
    let mut tree = CompactMerkleTree::create(data.as_slice(), Sha256Hasher::new()).unwrap();
    let before = tree.get_root_hash();
    tree.update_leaf(2, "hi");
    assert_eq!(tree.leaves.len(), 2);
    assert_eq!(tree.root_hash, before);
    assert_eq!(tree.leaves[1].value, h("how"));
}

#[test]
fn compact_lookup_by_index_and_by_hash() {
    let data = vec!["hello", "how", "are", "you"];
    let tree = CompactMerkleTree::create(data.as_slice(), Sha256Hasher::new()).unwrap();
    assert_eq!(tree.get_leaf_by_idx(2).unwrap().value, h("are"));
    assert!(tree.get_leaf_by_idx(4).is_none());
    assert_eq!(tree.get_leaf_by_hash(h("are")).unwrap().value, h("are"));
    assert!(tree.get_leaf_by_hash(h("absent")).is_none());
    assert_eq!(tree.position_of(&h("you")), Some(3));
    assert_eq!(tree.position_of(&h("absent")), None);
}

#[test]
fn compact_contains_hash_gives_index_and_proof() {
    let data = vec!["hello", "how", "are", "you"];
    let tree = CompactMerkleTree::create(data.as_slice(), Sha256Hasher::new()).unwrap();
    assert_eq!(
        tree.contains_hash(h("are")),
        Some((2, tree.gen_proof(2).unwrap()))
    );
    assert_eq!(tree.contains_hash(h("absent")), None);
}

#[test]
fn compact_contains_hash_finds_the_first_of_equal_leaves() {
    let data = vec!["same", "other", "same"];
    let tree = CompactMerkleTree::create(data.as_slice(), Sha256Hasher::new()).unwrap();
    assert_eq!(
        tree.contains_hash(h("same")),
        Some((0, tree.gen_proof(0).unwrap()))
    );
}

#[test]
fn compact_get_parent_nodes_reduces_one_level() {
    let hasher = Sha256Hasher::new();
    let level = vec![
        Node { value: h("a") },
        Node { value: h("b") },
        Node { value: h("c") },
    ];
    let up = CompactMerkleTree::get_parent_nodes(level.as_slice(), &hasher);
    assert_eq!(up.len(), 2);
    assert_eq!(up[0].value, c(&h("a"), &h("b")));
    assert_eq!(up[1].value, c(&h("c"), &h("c")));

    let none: Vec<Node<Vec<u8>>> = vec![];
    assert_eq!(
        CompactMerkleTree::get_parent_nodes(none.as_slice(), &hasher).len(),
        0
    );
}

#[test]
fn compact_calculate_root_reduces_to_one_hash() {
    let hasher = Sha256Hasher::new();
    let one = vec![Node { value: h("a") }];
    assert_eq!(CompactMerkleTree::calculate_root(one, &hasher), h("a"));
    let two = vec![Node { value: h("a") }, Node { value: h("b") }];
    assert_eq!(
        CompactMerkleTree::calculate_root(two, &hasher),
        c(&h("a"), &h("b"))
    );
}

#[test]
fn compact_node_clone_keeps_the_value() {
    let node = Node { value: h("a") };
    assert_eq!(node.clone().value, h("a"));
}

#[test]
fn compact_and_full_agree_on_roots_and_proofs() {
    for count in 1..=12 {
        let data = items(count);
        let compact = CompactMerkleTree::create(data.as_slice(), Sha256Hasher::new()).unwrap();
        let full = FullMerkleTree::create(data.as_slice(), Sha256Hasher::new()).unwrap();
        assert_eq!(compact.root_hash, full.root_hash);
        for i in 0..count {
            assert_eq!(compact.gen_proof(i).unwrap(), full.gen_proof(i).unwrap());
        }
        assert!(full.gen_proof(count).is_none());
    }
}

#[test]
fn compact_works_with_another_hasher() {
    let hasher = Blake2s256Hasher::new();
    let data = vec!["how", "are", "you"];
    let tree = CompactMerkleTree::create(data.as_slice(), Blake2s256Hasher::new()).unwrap();
    let expected = hasher.get_combined_hash(
        &hasher.get_combined_hash(
            &hasher.get_hash_from_data("how"),
            &hasher.get_hash_from_data("are"),
        ),
        &hasher.get_combined_hash(
            &hasher.get_hash_from_data("you"),
            &hasher.get_hash_from_data("you"),
        ),
    );
    assert_eq!(tree.root_hash, expected);
    assert!(tree.verify_proof(
        hasher.get_hash_from_data("you"),
        2,
        tree.gen_proof(2).unwrap()
    ));
}

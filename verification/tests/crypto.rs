use merkle_tree::utils::crypto::join_bytes;
use merkle_tree::utils::crypto::copy_hash;
use merkle_tree::utils::crypto::same_hash;
use merkle_tree::utils::crypto::Blake2s256Hasher;
use merkle_tree::utils::crypto::HashableData;
use merkle_tree::utils::crypto::Hasher;
use merkle_tree::utils::crypto::Sha256Hasher;
use sha2::Digest;

fn unhex(text: &str) -> Vec<u8> {
    let digits: Vec<u8> = text
        .bytes()
        .map(|c| (c as char).to_digit(16).unwrap() as u8)
        .collect();
    digits.chunks(2).map(|pair| pair[0] * 16 + pair[1]).collect()
}

#[test]
fn sha256_hasher_gives_the_known_digest_of_abc() {
    let hash = Sha256Hasher::new().get_hash_from_data("abc");
    assert_eq!(
        hash,
        unhex("ba7816bf8f01cfea414140de5dae2223b00361a396177a9cb410ff61f20015ad")
    );
}

#[test]
fn sha256_hasher_takes_empty_input() {
    let hash = Sha256Hasher::new().get_hash_from_data("");
    assert_eq!(
        hash,
        unhex("e3b0c44298fc1c149afbf4c8996fb92427ae41e4649b934ca495991b7852b855")
    );
}

#[test]
fn blake2s_hasher_gives_the_known_digest_of_abc() {
    let hash = Blake2s256Hasher::new().get_hash_from_data("abc");
    assert_eq!(
        hash,
        unhex("508c5e8c327c14e2e1a72ba34eeb452f37458b209ed63a294d999b4c86675982")
    );
}

#[test]
fn hashers_agree_with_the_digest_crates() {
    let data = "some longer input, well over one block of sixty-four bytes in length, to be sure";
    assert_eq!(
        Sha256Hasher::new().get_hash_from_data(data),
        sha2::Sha256::digest(data.as_bytes()).to_vec()
    );
    assert_eq!(
        Blake2s256Hasher::new().get_hash_from_data(data),
        blake2::Blake2s256::digest(data.as_bytes()).to_vec()
    );
}

#[test]
fn digest_lengths_follow_the_algorithm() {
    assert_eq!(Sha256Hasher::new().get_hash_from_data("x").len(), 32);
    assert_eq!(Blake2s256Hasher::new().get_hash_from_data("x").len(), 32);
}

#[test]
fn combined_hash_is_the_digest_of_left_then_right() {
    let hasher = Sha256Hasher::new();
    let a = hasher.get_hash_from_data("left");
    let b = hasher.get_hash_from_data("right");
    let mut joined = a.clone();
    joined.extend_from_slice(&b);
    assert_eq!(
        hasher.get_combined_hash(&a, &b),
        sha2::Sha256::digest(&joined).to_vec()
    );

    let hasher = Blake2s256Hasher::new();
    let a = hasher.get_hash_from_data("left");
    let b = hasher.get_hash_from_data("right");
    let mut joined = a.clone();
    joined.extend_from_slice(&b);
    assert_eq!(
        hasher.get_combined_hash(&a, &b),
        blake2::Blake2s256::digest(&joined).to_vec()
    );
}

#[test]
fn combined_hash_is_what_feeding_the_two_hashes_in_turn_gives() {
    let hasher = Sha256Hasher::new();
    let a = hasher.get_hash_from_data("left");
    let b = hasher.get_hash_from_data("right");
    let mut state = sha2::Sha256::new_with_prefix(&a);
    state.update(&b);
    assert_eq!(hasher.get_combined_hash(&a, &b), state.finalize().to_vec());

    let hasher = Blake2s256Hasher::new();
    let a = hasher.get_hash_from_data("left");
    let b = hasher.get_hash_from_data("right");
    let mut state = blake2::Blake2s256::new_with_prefix(&a);
    state.update(&b);
    assert_eq!(hasher.get_combined_hash(&a, &b), state.finalize().to_vec());
}

#[test]
fn combined_hash_depends_on_the_order() {
    let hasher = Sha256Hasher::new();
    let a = hasher.get_hash_from_data("left");
    let b = hasher.get_hash_from_data("right");
    assert_ne!(
        hasher.get_combined_hash(&a, &b),
        hasher.get_combined_hash(&b, &a)
    );
}

#[test]
fn hashing_is_repeatable() {
    let hasher = Sha256Hasher::new();
    assert_eq!(
        hasher.get_hash_from_data("again"),
        hasher.get_hash_from_data("again")
    );
    let a = hasher.get_hash_from_data("a");
    let b = hasher.get_hash_from_data("b");
    assert_eq!(
        hasher.get_combined_hash(&a, &b),
        hasher.get_combined_hash(&a, &b)
    );
}

#[test]
fn every_kind_of_data_shows_the_same_bytes() {
    let text = "héllo";
    let owned = String::from(text);
    let bytes: Vec<u8> = text.as_bytes().to_vec();
    assert_eq!(HashableData::as_bytes(text), text.as_bytes());
    assert_eq!(HashableData::as_bytes(&owned), text.as_bytes());
    assert_eq!(HashableData::as_bytes(&bytes), text.as_bytes());
    assert_eq!(HashableData::as_bytes(bytes.as_slice()), text.as_bytes());
    assert_eq!(HashableData::as_bytes(&&text), text.as_bytes());

    let hasher = Sha256Hasher::new();
    let expected = hasher.get_hash_from_data(text);
    assert_eq!(hasher.get_hash_from_data(owned), expected);
    assert_eq!(hasher.get_hash_from_data(bytes.as_slice()), expected);
    assert_eq!(hasher.get_hash_from_data(bytes), expected);
}

#[test]
fn join_bytes_puts_left_before_right() {
    assert_eq!(join_bytes(&[1, 2], &[3]), vec![1, 2, 3]);
    assert_eq!(join_bytes(&[], &[3]), vec![3]);
    assert_eq!(join_bytes(&[1], &[]), vec![1]);
    assert_eq!(join_bytes(&[], &[]), Vec::<u8>::new());
}

#[test]
fn same_hash_compares_bytes() {
    assert!(same_hash(&vec![1, 2, 3], &vec![1, 2, 3]));
    assert!(!same_hash(&vec![1, 2, 3], &vec![1, 2, 4]));
    assert!(!same_hash(&vec![1, 2, 3], &vec![1, 2]));
    assert!(same_hash(&vec![], &vec![]));
}

#[test]
fn copy_hash_keeps_the_bytes() {
    assert_eq!(copy_hash(&vec![9, 8, 7]), vec![9, 8, 7]);
    assert_eq!(copy_hash(&vec![]), Vec::<u8>::new());
}

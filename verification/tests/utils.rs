use merkle_tree::utils::is_even;
use merkle_tree::utils::IsEven;

#[test]
fn is_even_on_usize() {
    assert!(is_even(0usize));
    assert!(!is_even(1usize));
    assert!(is_even(2usize));
    assert!(!is_even(usize::MAX));
}

#[test]
fn is_even_on_i32() {
    assert!(is_even(0i32));
    assert!(is_even(4i32));
    assert!(!is_even(7i32));
    assert!(!is_even(-3i32));
    assert!(is_even(-4i32));
    assert!(is_even(i32::MIN));
    assert!(!is_even(i32::MAX));
}

#[test]
fn is_even_as_a_method() {
    assert!(IsEven::is_even(10usize));
    assert!(!IsEven::is_even(11i32));
}

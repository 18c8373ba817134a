use mastergen::derivation::crunch;
use mastergen::derivation::derive_from_token;
use mastergen::derivation::derive_password;
use mastergen::derivation::DerivationError;

// The published SHA-256 digest of the ASCII bytes `test`.
const SHA256_OF_TEST: &str = "9f86d081884c7d659a2feaa0c55ad015a3bf4f1b2b0b822cd15d6c15b0f00a08";

// The published SHA-256 digest of the empty byte string.
const SHA256_OF_EMPTY: &str = "e3b0c44298fc1c149afbf4c8996fb92427ae41e4649b934ca495991b7852b855";

#[test]
fn known_vector_at_depth_one() {
    let r = derive_password("test", 1).unwrap();
    assert_eq!(r, SHA256_OF_TEST);
}

#[test]
fn empty_seed_is_legal_and_deterministic() {
    let r = derive_password("", 1).unwrap();
    assert_eq!(r, SHA256_OF_EMPTY);
}

#[test]
fn derivation_is_deterministic() {
    let a = derive_password("correct horse battery staple", 7).unwrap();
    let b = derive_password("correct horse battery staple", 7).unwrap();
    assert_eq!(a, b);
}

#[test]
fn depth_changes_the_result() {
    let a = derive_password("test", 1).unwrap();
    let b = derive_password("test", 2).unwrap();
    let c = derive_password("test", 3).unwrap();
    assert_ne!(a, b);
    assert_ne!(b, c);
    assert_ne!(a, c);
}

#[test]
fn depth_iterates_the_single_step() {
    let once = crunch("test");
    assert_eq!(once, SHA256_OF_TEST);
    let twice = crunch(&once);
    assert_eq!(derive_password("test", 2).unwrap(), twice);
    let thrice = crunch(&twice);
    assert_eq!(derive_password("test", 3).unwrap(), thrice);
}

#[test]
fn surrounding_whitespace_does_not_change_the_result() {
    let a = derive_password("  test  ", 1).unwrap();
    let b = derive_password("test", 1).unwrap();
    assert_eq!(a, b);
    let c = derive_password("\t test \n", 5).unwrap();
    let d = derive_password("test", 5).unwrap();
    assert_eq!(c, d);
}

#[test]
fn interior_whitespace_is_kept() {
    let a = derive_password("a b", 1).unwrap();
    let b = derive_password("ab", 1).unwrap();
    assert_ne!(a, b);
}

#[test]
fn non_positive_depth_is_rejected() {
    assert_eq!(derive_password("test", 0), Err(DerivationError::InvalidDepth));
    assert_eq!(derive_password("test", -1), Err(DerivationError::InvalidDepth));
    assert_eq!(derive_password("test", -2147483648), Err(DerivationError::InvalidDepth));
}

#[test]
fn result_is_64_lowercase_hex_characters() {
    let r = derive_password("any seed at all", 4).unwrap();
    assert_eq!(r.len(), 64);
    assert!(r.chars().all(|c| matches!(c, '0'..='9' | 'a'..='f')));
}

#[test]
fn token_driven_derivation_validates_first() {
    assert_eq!(derive_from_token("test", "1").unwrap(), SHA256_OF_TEST);
    assert_eq!(derive_from_token("test", "1.2").unwrap(), SHA256_OF_TEST);
    assert_eq!(derive_from_token("test", "0"), Err(DerivationError::InvalidDepth));
    assert_eq!(derive_from_token("test", "-1"), Err(DerivationError::InvalidDepth));
    assert_eq!(derive_from_token("test", "abc"), Err(DerivationError::InvalidDepth));
    assert_eq!(derive_from_token("test", ""), Err(DerivationError::InvalidDepth));
}

#[test]
fn unicode_seed_hashes_by_its_bytes() {
    let a = derive_password("p\u{e4}ssword", 2).unwrap();
    let b = derive_password("p\u{e4}ssword", 2).unwrap();
    assert_eq!(a, b);
    assert_ne!(a, derive_password("password", 2).unwrap());
}

use armamagna::signature::{FnvHasher, Signature};

#[test]
fn test_new_signature() {
    let sig = Signature::new("cba");
    assert_eq!(sig.get_char_number(), 3);
    assert_eq!(sig.to_string(), "abc");
}

#[test]
fn test_add_signature() {
    let mut sig1 = Signature::new("aab");
    let sig2 = Signature::new("bc");
    sig1.add(&sig2);
    // counts: a=2, b=2, c=1
    assert_eq!(sig1.to_string(), "aabbc");
}

#[test]
fn test_sub_signature() {
    let mut sig1 = Signature::new("aabbc");
    let sig2 = Signature::new("abc");
    sig1.sub(&sig2);
    // counts: a=1, b=1, c=0
    assert_eq!(sig1.to_string(), "ab");
}

#[test]
fn test_is_subset_of() {
    let sig1 = Signature::new("abc");
    let sig2 = Signature::new("aabbcc");
    assert!(sig1.is_subset_of(&sig2));
    assert!(!sig2.is_subset_of(&sig1));
}

#[test]
fn test_add_sub_round_trip() {
    // adding a signature and subtracting it again restores the original
    let mut sig = Signature::new("hello");
    let other = Signature::new("world");
    let before = sig.to_string();
    sig.add(&other);
    sig.sub(&other);
    assert_eq!(sig.to_string(), before);
}

#[test]
fn test_subset_sub_complement() {
    // for a subset, subtraction succeeds and adding it back restores the whole
    let small = Signature::new("aba");
    let mut big = Signature::new("alabama");
    assert!(small.is_subset_of(&big));
    big.sub(&small);
    assert_eq!(big.to_string(), "aalm");
    big.add(&small);
    assert_eq!(big.to_string(), "aaaablm");
}

#[test]
fn test_add_if_within_prunes() {
    let bound = Signature::new("aab");
    let mut running = Signature::new("a");
    // "ab" fits: a=2, b=1 stays within the bound
    assert!(running.add_if_within(&Signature::new("ab"), &bound));
    assert_eq!(running.to_string(), "aab");
    // another "a" would exceed the bound; the state must stay untouched
    assert!(!running.add_if_within(&Signature::new("a"), &bound));
    assert_eq!(running.to_string(), "aab");
}

#[test]
fn test_new_empty() {
    let sig = Signature::new_empty();
    assert_eq!(sig.get_char_number(), 0);
    assert_eq!(sig.to_string(), "");
}

#[test]
fn test_fnv_hasher_step() {
    let mut h = FnvHasher::default();
    assert_eq!(h.finish(), 0xcbf29ce484222325u64);
    h.write_u64(1);
    let expected = (0xcbf29ce484222325u64 ^ 1).wrapping_mul(0x100000001b3);
    assert_eq!(h.finish(), expected);
    let mut h16 = FnvHasher::default();
    h16.write_u16(1);
    assert_eq!(h16.finish(), expected);
}

#[test]
fn test_fnv_write_bytes_matches_steps() {
    let mut a = FnvHasher::default();
    a.write(&[7u8, 9u8]);
    let mut b = FnvHasher::default();
    b.write_u64(7);
    b.write_u64(9);
    assert_eq!(a.finish(), b.finish());
}

#[test]
fn test_equal_signatures_hash_equal() {
    // the hash is a function of the counts alone, not of the letter order
    let a = Signature::new("listen");
    let b = Signature::new("silent");
    assert!(a == b);
    assert_eq!(a.hash_value(), b.hash_value());
    let c = Signature::new("enlists");
    assert!(a != c);
}

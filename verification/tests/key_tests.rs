use starlings_core::base::key::Key;
use std::collections::HashSet;

#[test]
fn test_key_equality() {
    let k1 = Key::U32(42);
    let k2 = Key::U32(42);
    let k3 = Key::U32(43);
    assert_eq!(k1, k2);
    assert_ne!(k1, k3);

    let s1 = Key::InternedString(42);
    let s2 = Key::InternedString(42);
    let s3 = Key::InternedString(43);
    assert_eq!(s1, s2);
    assert_ne!(s1, s3);

    let b1 = Key::Bytes(vec![1, 2, 3]);
    let b2 = Key::Bytes(vec![1, 2, 3]);
    let b3 = Key::Bytes(vec![1, 2, 4]);
    assert_eq!(b1, b2);
    assert_ne!(b1, b3);

    let u64_1 = Key::U64(1000000);
    let u64_2 = Key::U64(1000000);
    assert_eq!(u64_1, u64_2);
}

#[test]
fn test_key_hash() {
    let mut set = HashSet::new();
    set.insert(Key::U32(42));
    set.insert(Key::InternedString(100));
    set.insert(Key::Bytes(vec![1, 2, 3]));

    assert!(set.contains(&Key::U32(42)));
    assert!(set.contains(&Key::InternedString(100)));
    assert!(!set.contains(&Key::InternedString(101)));
    assert!(set.contains(&Key::Bytes(vec![1, 2, 3])));
    assert!(!set.contains(&Key::U32(43)));
}

#[test]
fn test_different_types_not_equal() {
    let k1 = Key::U32(42);
    let k2 = Key::U64(42);
    let k3 = Key::InternedString(42);

    assert_ne!(k1, k2);
    assert_ne!(k1, k3);
    assert_ne!(k2, k3);
}

#[test]
fn test_interned_string_helpers() {
    let key = Key::InternedString(123);
    assert!(key.is_interned_string());
    assert_eq!(key.as_interned_string(), Some(123));

    let key_u32 = Key::U32(42);
    assert!(!key_u32.is_interned_string());
    assert_eq!(key_u32.as_interned_string(), None);
}

#[test]
fn key_constructors_build_each_variant() {
    assert_eq!(Key::from_u32(7), Key::U32(7));
    assert_eq!(Key::from_u64(1 << 40), Key::U64(1 << 40));
    assert_eq!(Key::from_bytes(vec![9, 8]), Key::Bytes(vec![9, 8]));
    assert_eq!(Key::from_interned_string(5), Key::InternedString(5));
    assert!(Key::from_interned_string(5).is_interned_string());
    assert_eq!(Key::from_bytes(vec![1]).as_interned_string(), None);
}

use std::cmp::Ordering;
use std::collections::hash_map::DefaultHasher;
use std::collections::HashSet;
use std::hash::Hash;
use std::hash::Hasher;
use typed_generational_arena::delegate_untyped_index;
use typed_generational_arena::Index;

fn hash_of<H: Hash>(value: &H) -> u64 {
    let mut hasher = DefaultHasher::new();
    value.hash(&mut hasher);
    hasher.finish()
}

#[test]
fn a_handle_is_its_pair() {
    let h: Index<String> = Index::new(3, 7);
    let pair = h.as_untyped();
    assert_eq!(pair.index, 3);
    assert_eq!(pair.generation, 7);
    assert_eq!(pair, delegate_untyped_index::Index { index: 3, generation: 7 });
}

#[test]
fn handles_are_equal_when_their_pairs_are() {
    let a: Index<u8> = Index::new(1, 2);
    let b: Index<u8> = Index::new(1, 2);
    let c: Index<u8> = Index::new(1, 3);
    let d: Index<u8> = Index::new(2, 2);
    assert!(a == b);
    assert!(a != c);
    assert!(a != d);
    assert_eq!(a, b);
    assert_ne!(c, d);
}

#[test]
fn handles_are_ordered_by_position_then_generation() {
    let a: Index<u8> = Index::new(1, 9);
    let b: Index<u8> = Index::new(2, 0);
    let c: Index<u8> = Index::new(2, 1);
    assert!(a < b);
    assert!(b < c);
    assert!(c > a);
    assert!(a <= a);
    assert!(a >= a);
    assert_eq!(a.partial_cmp(&b), Some(Ordering::Less));
    assert_eq!(c.partial_cmp(&b), Some(Ordering::Greater));
    assert_eq!(b.partial_cmp(&b), Some(Ordering::Equal));
    assert_eq!(a.cmp(&b), Ordering::Less);
    assert_eq!(c.cmp(&b), Ordering::Greater);
    assert_eq!(b.cmp(&b), Ordering::Equal);
    assert_eq!(a.cmp(&b), a.as_untyped().cmp(&b.as_untyped()));
    assert_eq!(c.cmp(&b), c.as_untyped().cmp(&b.as_untyped()));
    let mut sorted = vec![c, a, b];
    sorted.sort();
    assert_eq!(sorted, vec![a, b, c]);
}

#[test]
fn handles_hash_as_their_pairs_agree() {
    let a: Index<u8> = Index::new(4, 5);
    let b: Index<u8> = Index::new(4, 5);
    let c: Index<u8> = Index::new(5, 4);
    assert_eq!(hash_of(&a), hash_of(&b));
    assert_eq!(hash_of(&a), hash_of(&a.as_untyped()));
    assert_eq!(hash_of(&c), hash_of(&c.as_untyped()));
    assert_ne!(hash_of(&a), hash_of(&c));
    let mut set = HashSet::new();
    assert!(set.insert(a));
    assert!(!set.insert(b));
    assert!(set.insert(c));
    assert_eq!(set.len(), 2);
}

#[test]
fn handles_are_copied_freely() {
    let a: Index<String> = Index::new(1, 1);
    let b = a;
    let c = a.clone();
    assert_eq!(a, b);
    assert_eq!(a, c);
}

#[test]
fn handles_can_be_printed() {
    let a: Index<u8> = Index::new(1, 2);
    let text = format!("{:?}", a);
    assert!(text.contains("index: 1"));
    assert!(text.contains("generation: 2"));
}

use typed_generational_arena::Arena;
use typed_generational_arena::Index;

#[test]
fn new_arena_is_empty_with_default_capacity() {
    let arena: Arena<u32> = Arena::new();
    assert_eq!(arena.len(), 0);
    assert!(arena.is_empty());
    assert_eq!(arena.capacity(), 4);
}

#[test]
fn with_capacity_zero_has_one_slot() {
    let mut arena: Arena<u32> = Arena::with_capacity(0);
    assert_eq!(arena.capacity(), 1);
    assert!(arena.try_insert(1).is_ok());
    assert_eq!(arena.try_insert(2), Err(2));
}

#[test]
fn with_capacity_fills_in_ascending_order() {
    let mut arena = Arena::with_capacity(10);
    assert_eq!(arena.capacity(), 10);
    for i in 0..10usize {
        let h = arena.try_insert(i).unwrap();
        assert_eq!(h.as_untyped().index, i);
        assert_eq!(h.as_untyped().generation, 0);
        assert_eq!(arena.capacity(), 10);
    }
    assert_eq!(arena.try_insert(99), Err(99));
    assert_eq!(arena.len(), 10);
}

#[test]
fn capacity_one_scenario() {
    let mut arena = Arena::with_capacity(1);
    let h = arena.try_insert(42).unwrap();
    assert_eq!(arena.get(h), Some(&42));
    assert_eq!(arena.try_insert(99), Err(99));
    assert_eq!(arena.capacity(), 1);
    let h7 = arena.insert(7);
    assert!(arena.capacity() > 1);
    assert_eq!(arena.capacity(), 2);
    assert_eq!(arena.get(h7), Some(&7));
    assert_eq!(arena.get(h), Some(&42));
    assert_eq!(arena.len(), 2);
}

#[test]
fn reuse_after_removal_scenario() {
    let mut arena = Arena::new();
    let ha = arena.insert("a");
    let hb = arena.insert("b");
    assert_eq!(arena.remove(ha), Some("a"));
    assert_eq!(arena.remove(ha), None);
    let hc = arena.insert("c");
    assert_eq!(arena.get(ha), None);
    assert_eq!(arena.get(hc), Some(&"c"));
    assert_ne!(hc, ha);
    assert_eq!(arena.get(hb), Some(&"b"));
    assert_eq!(hc.as_untyped().index, ha.as_untyped().index);
    assert_eq!(hc.as_untyped().generation, 1);
    assert_eq!(arena.len(), 2);
}

#[test]
fn insert_then_get_returns_the_value() {
    let mut arena = Arena::with_capacity(2);
    for v in 0..20u64 {
        let h = arena.insert(v * 3);
        assert_eq!(arena.get(h), Some(&(v * 3)));
        assert!(arena.contains(h));
    }
    assert_eq!(arena.len(), 20);
}

#[test]
fn insert_doubles_a_full_arena() {
    let mut arena = Arena::with_capacity(1);
    arena.insert(0);
    assert_eq!(arena.capacity(), 1);
    arena.insert(1);
    assert_eq!(arena.capacity(), 2);
    arena.insert(2);
    assert_eq!(arena.capacity(), 4);
    arena.insert(3);
    assert_eq!(arena.capacity(), 4);
    arena.insert(4);
    assert_eq!(arena.capacity(), 8);
}

#[test]
fn removal_is_last_in_first_out() {
    let mut arena = Arena::with_capacity(4);
    let a = arena.insert('a');
    let b = arena.insert('b');
    let c = arena.insert('c');
    assert_eq!(arena.remove(a), Some('a'));
    assert_eq!(arena.remove(c), Some('c'));
    assert_eq!(arena.len(), 1);
    let x = arena.insert('x');
    let y = arena.insert('y');
    let z = arena.insert('z');
    assert_eq!(x.as_untyped().index, 2);
    assert_eq!(y.as_untyped().index, 0);
    assert_eq!(z.as_untyped().index, 3);
    assert_eq!(x.as_untyped().generation, 2);
    assert_eq!(y.as_untyped().generation, 2);
    assert_eq!(arena.get(b), Some(&'b'));
    assert_eq!(arena.capacity(), 4);
}

#[test]
fn remove_with_a_stale_handle_changes_nothing() {
    let mut arena = Arena::with_capacity(2);
    let a = arena.insert(1);
    assert_eq!(arena.remove(a), Some(1));
    let b = arena.insert(2);
    assert_eq!(arena.remove(a), None);
    assert_eq!(arena.get(b), Some(&2));
    assert_eq!(arena.len(), 1);
    let c = arena.insert(3);
    assert_eq!(c.as_untyped().index, 1);
    assert_eq!(c.as_untyped().generation, 1);
}

#[test]
fn remove_out_of_range_is_absent() {
    let mut arena = Arena::with_capacity(2);
    let a = arena.insert(1);
    let far: Index<i32> = Index::new(7, 0);
    assert_eq!(arena.remove(far), None);
    assert_eq!(arena.get(far), None);
    assert!(!arena.contains(far));
    assert!(arena.get_mut(far).is_none());
    assert_eq!(arena.len(), 1);
    assert_eq!(arena.get(a), Some(&1));
}

#[test]
fn remove_of_a_free_slot_is_absent() {
    let mut arena: Arena<i32> = Arena::with_capacity(2);
    let free: Index<i32> = Index::new(1, 0);
    assert_eq!(arena.remove(free), None);
    let a = arena.insert(5);
    assert_eq!(a.as_untyped().index, 0);
    let b = arena.insert(6);
    assert_eq!(b.as_untyped().index, 1);
}

#[test]
fn get_mut_writes_one_value() {
    let mut arena = Arena::new();
    let a = arena.insert(10);
    let b = arena.insert(20);
    *arena.get_mut(a).unwrap() += 1;
    assert_eq!(arena.get(a), Some(&11));
    assert_eq!(arena.get(b), Some(&20));
    assert_eq!(arena.remove(a), Some(11));
    assert!(arena.get_mut(a).is_none());
}

#[test]
fn get2_mut_writes_two_values() {
    let mut arena = Arena::new();
    let a = arena.insert(0);
    let b = arena.insert(1);
    let c = arena.insert(2);
    {
        let (x, y) = arena.get2_mut(a, b);
        *x.unwrap() = 3;
        *y.unwrap() = 4;
    }
    assert_eq!(arena.get(a), Some(&3));
    assert_eq!(arena.get(b), Some(&4));
    assert_eq!(arena.get(c), Some(&2));
    {
        let (y, x) = arena.get2_mut(b, a);
        *x.unwrap() += 10;
        *y.unwrap() += 20;
    }
    assert_eq!(arena.get(a), Some(&13));
    assert_eq!(arena.get(b), Some(&24));
    assert_eq!(arena.len(), 3);
}

#[test]
fn get2_mut_with_one_absent_side() {
    let mut arena = Arena::with_capacity(2);
    let a = arena.insert(1);
    let b = arena.insert(2);
    let far: Index<i32> = Index::new(9, 0);
    {
        let (x, y) = arena.get2_mut(far, b);
        assert!(x.is_none());
        assert_eq!(y, Some(&mut 2));
    }
    {
        let (x, y) = arena.get2_mut(a, far);
        assert_eq!(x, Some(&mut 1));
        assert!(y.is_none());
    }
    arena.remove(a);
    {
        let (x, y) = arena.get2_mut(a, b);
        assert!(x.is_none());
        assert_eq!(y, Some(&mut 2));
    }
}

#[test]
fn get2_mut_on_one_position_takes_the_later_generation() {
    let mut arena = Arena::with_capacity(1);
    let old = arena.insert(1);
    arena.remove(old);
    let new = arena.insert(2);
    assert_eq!(old.as_untyped().index, new.as_untyped().index);
    {
        let (x, y) = arena.get2_mut(old, new);
        assert!(x.is_none());
        assert_eq!(y, Some(&mut 2));
    }
    {
        let (x, y) = arena.get2_mut(new, old);
        assert_eq!(x, Some(&mut 2));
        assert!(y.is_none());
    }
    let newer: Index<i32> = Index::new(0, 5);
    {
        let (x, y) = arena.get2_mut(new, newer);
        assert!(x.is_none());
        assert!(y.is_none());
    }
}

#[test]
fn reserve_adds_exactly_the_slots_asked_for() {
    let mut arena: Arena<u8> = Arena::with_capacity(10);
    arena.reserve(5);
    assert_eq!(arena.capacity(), 15);
    assert_eq!(arena.len(), 0);
}

#[test]
fn reserve_puts_the_new_slots_first() {
    let mut arena = Arena::with_capacity(2);
    arena.reserve(2);
    let order: Vec<usize> = (0..4).map(|v| arena.try_insert(v).unwrap().as_untyped().index).collect();
    assert_eq!(order, vec![2, 3, 0, 1]);
    assert_eq!(arena.try_insert(9), Err(9));
}

#[test]
fn reserve_nothing_changes_nothing() {
    let mut arena = Arena::with_capacity(2);
    let a = arena.insert(1);
    arena.reserve(0);
    assert_eq!(arena.capacity(), 2);
    assert_eq!(arena.len(), 1);
    let b = arena.try_insert(2).unwrap();
    assert_eq!(b.as_untyped().index, 1);
    assert_eq!(arena.get(a), Some(&1));
    assert_eq!(arena.try_insert(3), Err(3));
}

#[test]
fn clear_empties_and_keeps_capacity() {
    let mut arena = Arena::with_capacity(1);
    let a = arena.insert(42);
    let b = arena.insert(43);
    arena.clear();
    assert_eq!(arena.capacity(), 2);
    assert_eq!(arena.len(), 0);
    assert!(arena.is_empty());
    assert_eq!(arena.get(a), None);
    assert_eq!(arena.get(b), None);
    assert!(!arena.contains(a));
    let c = arena.try_insert(1).unwrap();
    let d = arena.try_insert(2).unwrap();
    assert_eq!(c.as_untyped().index, 0);
    assert_eq!(d.as_untyped().index, 1);
    assert_eq!(arena.try_insert(3), Err(3));
}

#[test]
fn clear_advances_the_generation_where_there_was_a_value() {
    let mut arena = Arena::with_capacity(2);
    let a = arena.insert(1);
    arena.remove(a);
    let b = arena.insert(2);
    assert_eq!(arena.generation(), 1);
    arena.clear();
    assert_eq!(arena.generation(), 2);
    let c = arena.insert(3);
    assert_eq!(c.as_untyped().index, 0);
    assert_eq!(c.as_untyped().generation, 2);
    assert_eq!(arena.get(a), None);
    assert_eq!(arena.get(b), None);
    assert_eq!(arena.get(c), Some(&3));
}

#[test]
fn clear_of_an_empty_arena_keeps_the_generation() {
    let mut arena = Arena::with_capacity(2);
    arena.clear();
    assert_eq!(arena.generation(), 0);
    let a = arena.insert(1);
    arena.remove(a);
    assert_eq!(arena.generation(), 1);
    arena.clear();
    assert_eq!(arena.generation(), 1);
    let b = arena.insert(2);
    assert_eq!(b.as_untyped().generation, 1);
    assert_eq!(arena.get(a), None);
}

#[test]
fn handles_from_before_a_clear_stay_absent() {
    let mut arena = Arena::with_capacity(1);
    let h = arena.insert(1);
    arena.clear();
    assert_eq!(arena.get(h), None);
    let h2 = arena.insert(2);
    assert_ne!(h2, h);
    assert_eq!(h2.as_untyped().index, h.as_untyped().index);
    assert_eq!(arena.get(h), None);
    assert!(!arena.contains(h));
    assert_eq!(arena.get(h2), Some(&2));
    assert_eq!(arena.remove(h), None);
    assert_eq!(arena.get(h2), Some(&2));
    arena.clear();
    let h3 = arena.insert(3);
    assert_eq!(arena.get(h), None);
    assert_eq!(arena.get(h2), None);
    assert_eq!(arena.get(h3), Some(&3));
}

#[test]
fn retain_removes_what_the_predicate_refuses() {
    let mut crew = Arena::new();
    let jim = crew.insert("Jim Hawkins");
    let john = crew.insert("John Silver");
    let alex = crew.insert("Alexander Smollett");
    let hands = crew.insert("Israel Hands");
    let pirates = ["John Silver", "Israel Hands"];
    crew.retain(|_index, member| !pirates.contains(member));
    assert_eq!(crew.len(), 2);
    assert_eq!(crew.get(jim), Some(&"Jim Hawkins"));
    assert_eq!(crew.get(alex), Some(&"Alexander Smollett"));
    assert_eq!(crew.get(john), None);
    assert_eq!(crew.get(hands), None);
    let next = crew.insert("Ben Gunn");
    assert_eq!(next.as_untyped().index, 3);
    assert_eq!(next.as_untyped().generation, 2);
}

#[test]
fn retain_hands_each_handle_to_the_predicate() {
    let mut arena = Arena::new();
    let a = arena.insert(1);
    let b = arena.insert(2);
    let c = arena.insert(3);
    let mut seen = Vec::new();
    arena.retain(|index, value| {
        seen.push((index, *value));
        index != b
    });
    assert_eq!(seen, vec![(a, 1), (b, 2), (c, 3)]);
    assert!(arena.contains(a));
    assert!(!arena.contains(b));
    assert!(arena.contains(c));
}

#[test]
fn retain_looks_only_below_the_length() {
    let mut arena = Arena::with_capacity(4);
    let a = arena.insert('a');
    let b = arena.insert('b');
    let c = arena.insert('c');
    arena.remove(a);
    assert_eq!(arena.len(), 2);
    let mut asked = Vec::new();
    arena.retain(|index, _| {
        asked.push(index);
        false
    });
    assert_eq!(asked, vec![b]);
    assert!(!arena.contains(b));
    assert!(arena.contains(c));
    assert_eq!(arena.len(), 1);
}

#[test]
fn contains_follows_get() {
    let mut arena = Arena::new();
    let idx = arena.insert(42);
    assert!(arena.contains(idx));
    arena.remove(idx);
    assert!(!arena.contains(idx));
}

#[test]
fn len_counts_the_values() {
    let mut arena = Arena::new();
    assert_eq!(arena.len(), 0);
    let idx = arena.insert(42);
    assert_eq!(arena.len(), 1);
    let _ = arena.insert(0);
    assert_eq!(arena.len(), 2);
    assert_eq!(arena.remove(idx), Some(42));
    assert_eq!(arena.len(), 1);
    assert!(!arena.is_empty());
    assert_eq!(arena.iter().len(), 1);
}

#[test]
fn clone_is_independent() {
    let mut arena = Arena::new();
    let a = arena.insert(1);
    let mut copy = arena.clone();
    *copy.get_mut(a).unwrap() = 2;
    assert_eq!(arena.get(a), Some(&1));
    assert_eq!(copy.get(a), Some(&2));
}

#[test]
fn clone_keeps_handles_and_free_list() {
    let mut arena = Arena::with_capacity(3);
    let a = arena.insert(String::from("a"));
    let b = arena.insert(String::from("b"));
    arena.remove(a);
    let mut copy = arena.clone();
    assert_eq!(copy.len(), 1);
    assert_eq!(copy.capacity(), 3);
    assert_eq!(copy.generation(), 1);
    assert_eq!(copy.get(b), Some(&String::from("b")));
    assert_eq!(copy.get(a), None);
    let c = copy.insert(String::from("c"));
    let d = arena.insert(String::from("d"));
    assert_eq!(c, d);
    assert_eq!(c.as_untyped().index, 0);
    assert_eq!(c.as_untyped().generation, 1);
}

#[test]
fn generation_advances_with_removals_and_clears() {
    let mut arena = Arena::new();
    assert_eq!(arena.generation(), 0);
    let a = arena.insert(1);
    let b = arena.insert(2);
    assert_eq!(arena.generation(), 0);
    arena.remove(a);
    assert_eq!(arena.generation(), 1);
    arena.remove(a);
    assert_eq!(arena.generation(), 1);
    arena.remove(b);
    assert_eq!(arena.generation(), 2);
    arena.clear();
    assert_eq!(arena.generation(), 2);
    let c = arena.insert(3);
    assert_eq!(c.as_untyped().generation, 2);
    arena.clear();
    assert_eq!(arena.generation(), 3);
}

#[test]
fn with_size_hint_prefers_the_upper_bound() {
    let known: Arena<u8> = Arena::with_size_hint(2, Some(7));
    assert_eq!(known.capacity(), 7);
    assert_eq!(known.len(), 0);
    let open_ended: Arena<u8> = Arena::with_size_hint(3, None);
    assert_eq!(open_ended.capacity(), 3);
    let nothing: Arena<u8> = Arena::with_size_hint(0, None);
    assert_eq!(nothing.capacity(), 1);
    let empty: Arena<u8> = Arena::with_size_hint(5, Some(0));
    assert_eq!(empty.capacity(), 1);
}

#[test]
fn full_means_as_many_values_as_slots() {
    let mut arena = Arena::with_capacity(3);
    let a = arena.insert(1);
    arena.insert(2);
    arena.insert(3);
    assert_eq!(arena.len(), arena.capacity());
    assert_eq!(arena.try_insert(4), Err(4));
    arena.remove(a);
    assert!(arena.len() < arena.capacity());
    assert!(arena.try_insert(4).is_ok());
    assert_eq!(arena.try_insert(5), Err(5));
}

#[test]
fn extend_inserts_in_order() {
    let mut arena = Arena::with_capacity(2);
    let first = arena.insert(10);
    arena.extend(vec![20, 30, 40].into_iter());
    assert_eq!(arena.len(), 4);
    assert_eq!(arena.capacity(), 4);
    assert_eq!(arena.get(first), Some(&10));
    let second: Index<i32> = Index::new(1, 0);
    let third: Index<i32> = Index::new(2, 0);
    let fourth: Index<i32> = Index::new(3, 0);
    assert_eq!(arena.get(second), Some(&20));
    assert_eq!(arena.get(third), Some(&30));
    assert_eq!(arena.get(fourth), Some(&40));
    arena.extend(Vec::new().into_iter());
    assert_eq!(arena.len(), 4);
}

#[test]
fn from_iter_sizes_by_the_upper_bound() {
    let arena = Arena::from_iter(vec!['a', 'b', 'c'].into_iter());
    assert_eq!(arena.len(), 3);
    assert_eq!(arena.capacity(), 3);
    let mut it = arena.iter();
    assert_eq!(it.next(), Some((Index::new(0, 0), &'a')));
    assert_eq!(it.next(), Some((Index::new(1, 0), &'b')));
    assert_eq!(it.next(), Some((Index::new(2, 0), &'c')));
    assert_eq!(it.next(), None);
}

#[test]
fn from_iter_of_nothing_has_one_slot() {
    let arena: Arena<u8> = Arena::from_iter(Vec::new().into_iter());
    assert_eq!(arena.len(), 0);
    assert_eq!(arena.capacity(), 1);
}

#[test]
fn from_iter_without_an_upper_bound_grows() {
    let arena = Arena::from_iter((0u32..).take_while(|x| *x < 5));
    assert_eq!(arena.len(), 5);
    assert_eq!(arena.capacity(), 8);
    let last: Index<u32> = Index::new(4, 0);
    assert_eq!(arena.get(last), Some(&4));
}

#[test]
fn stale_handles_stay_absent_through_later_insertions() {
    let mut arena = Arena::with_capacity(2);
    let a = arena.insert(1);
    let b = arena.insert(2);
    arena.remove(a);
    arena.remove(b);
    for v in 0..10 {
        let h = arena.insert(v);
        assert_ne!(h, a);
        assert_ne!(h, b);
        assert_eq!(arena.get(a), None);
        assert_eq!(arena.get(b), None);
        assert_eq!(arena.get(h), Some(&v));
    }
}

#[test]
fn retain_leaves_accepted_values_as_they_are() {
    let mut arena = Arena::with_capacity(8);
    let handles: Vec<_> = (0..6).map(|v| arena.insert(v)).collect();
    arena.remove(handles[1]);
    arena.remove(handles[4]);
    arena.retain(|_, value| *value % 2 == 0);
    assert_eq!(arena.get(handles[0]), Some(&0));
    assert_eq!(arena.get(handles[2]), Some(&2));
    assert_eq!(arena.get(handles[3]), None);
    assert_eq!(arena.get(handles[5]), Some(&5));
    assert_eq!(arena.len(), 3);
}

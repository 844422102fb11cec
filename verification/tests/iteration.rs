use typed_generational_arena::Arena;
use typed_generational_arena::Index;

#[test]
fn iter_yields_handles_and_values_in_position_order() {
    let mut arena = Arena::new();
    let a = arena.insert(10);
    let b = arena.insert(20);
    let c = arena.insert(30);
    arena.remove(b);
    let mut it = arena.iter();
    assert_eq!(it.len(), 2);
    assert_eq!(it.size_hint(), (2, Some(2)));
    assert_eq!(it.next(), Some((a, &10)));
    assert_eq!(it.len(), 1);
    assert_eq!(it.next(), Some((c, &30)));
    assert_eq!(it.len(), 0);
    assert_eq!(it.next(), None);
    assert_eq!(it.next(), None);
    assert_eq!(it.next_back(), None);
}

#[test]
fn iter_count_is_len() {
    let mut arena = Arena::with_capacity(3);
    let mut handles = Vec::new();
    for v in 0..9 {
        handles.push(arena.insert(v));
    }
    arena.remove(handles[0]);
    arena.remove(handles[4]);
    arena.remove(handles[8]);
    let mut it = arena.iter();
    let mut count = 0;
    while let Some(_) = it.next() {
        count += 1;
    }
    assert_eq!(count, arena.len());
    assert_eq!(count, 6);
}

#[test]
fn iter_from_both_ends_meets_in_the_middle() {
    let mut arena = Arena::new();
    let a = arena.insert('a');
    let b = arena.insert('b');
    let c = arena.insert('c');
    let d = arena.insert('d');
    arena.remove(d);
    let mut it = arena.iter();
    assert_eq!(it.next_back(), Some((c, &'c')));
    assert_eq!(it.next(), Some((a, &'a')));
    assert_eq!(it.len(), 1);
    assert_eq!(it.next_back(), Some((b, &'b')));
    assert_eq!(it.next(), None);
    assert_eq!(it.next_back(), None);
    assert_eq!(it.len(), 0);
}

#[test]
fn iter_of_an_empty_arena_yields_nothing() {
    let arena: Arena<u8> = Arena::new();
    let mut it = arena.iter();
    assert_eq!(it.len(), 0);
    assert_eq!(it.next(), None);
}

#[test]
fn iter_mut_writes_through() {
    let mut arena = Arena::new();
    let a = arena.insert(1);
    let b = arena.insert(2);
    let c = arena.insert(3);
    arena.remove(b);
    {
        let mut it = arena.iter_mut();
        assert_eq!(it.len(), 2);
        assert_eq!(it.size_hint(), (2, Some(2)));
        let (h, v) = it.next().unwrap();
        assert_eq!(h, a);
        *v += 5;
        assert_eq!(it.len(), 1);
        let (h, v) = it.next().unwrap();
        assert_eq!(h, c);
        *v += 5;
        assert!(it.next().is_none());
        assert_eq!(it.len(), 0);
    }
    assert_eq!(arena.get(a), Some(&6));
    assert_eq!(arena.get(c), Some(&8));
    assert_eq!(arena.get(b), None);
    assert_eq!(arena.len(), 2);
    let again = arena.insert(9);
    assert_eq!(again.as_untyped().index, 1);
}

#[test]
fn iter_mut_holds_several_references_at_once() {
    let mut arena = Arena::new();
    let a = arena.insert(1);
    let b = arena.insert(2);
    let c = arena.insert(3);
    {
        let mut it = arena.iter_mut();
        let (ha, first) = it.next().unwrap();
        let (hc, last) = it.next_back().unwrap();
        let (hb, middle) = it.next_back().unwrap();
        assert!(it.next().is_none());
        assert!(it.next_back().is_none());
        assert_eq!((ha, hb, hc), (a, b, c));
        core::mem::swap(first, last);
        *middle = 20;
    }
    assert_eq!(arena.get(a), Some(&3));
    assert_eq!(arena.get(b), Some(&20));
    assert_eq!(arena.get(c), Some(&1));
}

#[test]
fn iter_mut_not_advanced_changes_nothing() {
    let mut arena = Arena::new();
    let a = arena.insert(1);
    {
        let it = arena.iter_mut();
        assert_eq!(it.len(), 1);
    }
    assert_eq!(arena.get(a), Some(&1));
    assert_eq!(arena.len(), 1);
}

#[test]
fn into_iter_yields_the_values() {
    let mut arena = Arena::new();
    for i in 0..10u32 {
        arena.insert(i * i);
    }
    let third: Index<u32> = Index::new(3, 0);
    arena.remove(third);
    let mut it = arena.into_iter();
    assert_eq!(it.len(), 9);
    assert_eq!(it.size_hint(), (9, Some(9)));
    let mut seen = Vec::new();
    while let Some(v) = it.next() {
        seen.push(v);
    }
    assert_eq!(seen, vec![0, 1, 4, 16, 25, 36, 49, 64, 81]);
    assert_eq!(it.len(), 0);
    assert_eq!(it.next_back(), None);
}

#[test]
fn into_iter_from_both_ends() {
    let mut arena = Arena::with_capacity(8);
    let a = arena.insert(String::from("a"));
    arena.insert(String::from("b"));
    arena.insert(String::from("c"));
    arena.insert(String::from("d"));
    arena.remove(a);
    let mut it = arena.into_iter();
    assert_eq!(it.next_back(), Some(String::from("d")));
    assert_eq!(it.next(), Some(String::from("b")));
    assert_eq!(it.len(), 1);
    assert_eq!(it.next(), Some(String::from("c")));
    assert_eq!(it.next(), None);
    assert_eq!(it.next_back(), None);
}

#[test]
fn drain_yields_everything_in_position_order() {
    let mut arena = Arena::new();
    let a = arena.insert("hello");
    let b = arena.insert("big");
    let c = arena.insert("world");
    arena.remove(b);
    {
        let mut drain = arena.drain();
        assert_eq!(drain.next(), Some((a, "hello")));
        assert_eq!(drain.next(), Some((c, "world")));
        assert_eq!(drain.next(), None);
        assert_eq!(drain.next(), None);
    }
    assert!(arena.get(a).is_none());
    assert!(arena.get(c).is_none());
    assert_eq!(arena.len(), 0);
    assert!(arena.is_empty());
}

#[test]
fn drain_removes_even_when_not_consumed() {
    let mut arena = Arena::with_capacity(4);
    let a = arena.insert(1);
    let b = arena.insert(2);
    let c = arena.insert(3);
    arena.remove(b);
    {
        let mut drain = arena.drain();
        assert_eq!(drain.next(), Some((a, 1)));
    }
    assert_eq!(arena.len(), 0);
    assert_eq!(arena.capacity(), 4);
    assert!(!arena.contains(a));
    assert!(!arena.contains(c));
    {
        let _ = arena.drain();
    }
    assert_eq!(arena.len(), 0);
    let x = arena.try_insert(7).unwrap();
    let y = arena.try_insert(8).unwrap();
    let z = arena.try_insert(9).unwrap();
    let w = arena.try_insert(10).unwrap();
    assert_eq!(x.as_untyped().index, 0);
    assert_eq!(y.as_untyped().index, 2);
    assert_eq!(z.as_untyped().index, 1);
    assert_eq!(w.as_untyped().index, 3);
    assert_eq!(x.as_untyped().generation, 3);
    assert_eq!(arena.try_insert(11), Err(11));
    assert_eq!(arena.get(a), None);
    assert_eq!(arena.get(x), Some(&7));
}

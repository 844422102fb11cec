use typed_generational_arena::ArenaIndex;
use typed_generational_arena::GenerationalIndex;
use typed_generational_arena::IgnoreGeneration;

#[test]
fn numeric_generations_start_at_zero() {
    assert_eq!(<u64 as GenerationalIndex>::first_generation(), 0u64);
    assert_eq!(<u32 as GenerationalIndex>::first_generation(), 0u32);
}

#[test]
fn numeric_generations_advance_by_one() {
    let mut wide: u64 = 5;
    wide.increment_generation();
    assert_eq!(wide, 6);
    let mut first = <u64 as GenerationalIndex>::first_generation();
    first.increment_generation();
    first.increment_generation();
    assert_eq!(first, 2);
    let mut narrow: u32 = u32::MAX - 1;
    narrow.increment_generation();
    assert_eq!(narrow, u32::MAX);
}

#[test]
fn the_ignored_generation_never_changes() {
    let mut g = IgnoreGeneration::first_generation();
    assert_eq!(g, IgnoreGeneration);
    g.increment_generation();
    assert_eq!(g, IgnoreGeneration);
    let copy = g;
    assert_eq!(copy, g);
}

#[test]
fn wide_positions_convert_both_ways() {
    assert_eq!(<usize as ArenaIndex>::from_idx(0), Some(0usize));
    assert_eq!(<usize as ArenaIndex>::from_idx(usize::MAX), Some(usize::MAX));
    assert_eq!(ArenaIndex::to_idx(&17usize), Some(17));
    assert_eq!(ArenaIndex::to_idx(&usize::MAX), Some(usize::MAX));
}

#[test]
fn narrow_positions_convert_within_their_range() {
    assert_eq!(<u32 as ArenaIndex>::from_idx(7), Some(7u32));
    assert_eq!(<u32 as ArenaIndex>::from_idx(u32::MAX as usize), Some(u32::MAX));
    assert_eq!(ArenaIndex::to_idx(&7u32), Some(7usize));
    assert_eq!(ArenaIndex::to_idx(&u32::MAX), Some(u32::MAX as usize));
}

#[test]
fn narrow_positions_refuse_what_does_not_fit() {
    if (usize::MAX as u128) > (u32::MAX as u128) {
        assert_eq!(<u32 as ArenaIndex>::from_idx(u32::MAX as usize + 1), None);
        assert_eq!(<u32 as ArenaIndex>::from_idx(usize::MAX), None);
    } else {
        assert_eq!(<u32 as ArenaIndex>::from_idx(usize::MAX), Some(u32::MAX));
    }
}

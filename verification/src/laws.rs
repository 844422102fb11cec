//! What holds of every arena, stated over its model.
//!
//! The operations of an arena are specified by the functions of
//! [`ArenaView`]: `fill` and `grown` for insertion, `vacate` for removal,
//! `reserve`, `cleared` and `drained`. The laws here are about those
//! functions, so they hold of every arena that the operations produce.
use crate::delegate_untyped_index::Index;
use crate::view::ascending;
use crate::view::entries_in;
use crate::view::lemma_entries_agree;
use crate::view::lemma_entries_none;
use crate::view::lemma_occupied_counts;
use crate::view::lemma_entries_sound;
use crate::view::lemma_entries_split;
use crate::view::lemma_entries_update_len;
use crate::view::positions;
use crate::view::ArenaView;
use crate::view::Occupant;
use vstd::prelude::*;

verus! {

/// A handle is stale in an arena where it does not resolve and its
/// generation is behind the arena's. No insertion can stamp a slot with
/// such a generation again.
pub open spec fn stale<T>(a: ArenaView<T>, h: Index) -> bool {
    !a.contains(h) && h.generation < a.generation
}

/// A new arena is well formed and empty, and no handle resolves in it.
pub proof fn lemma_fresh<T>(n: nat)
    requires
        1 <= n <= usize::MAX,
    ensures
        ArenaView::<T>::fresh(n).wf(),
        ArenaView::<T>::fresh(n).len() == 0,
        ArenaView::<T>::fresh(n).capacity() == n,
        forall|h: Index| !ArenaView::<T>::fresh(n).contains(h),
{
    let a = ArenaView::<T>::fresh(n);
    assert forall|i: int| 0 <= i < a.slots.len() && (#[trigger] a.slots[i]) is None implies a.free.contains(
        i as usize,
    ) by {
        assert(a.free[i] == i as usize);
    }
    lemma_entries_none(a.slots, 0, n as int);
}

/// Insertion into a free slot keeps the arena well formed and its
/// capacity, adds one to its length, and makes the returned handle resolve
/// to the value. Every other handle resolves as before.
pub proof fn lemma_fill<T>(a: ArenaView<T>, value: T)
    requires
        a.wf(),
        !a.is_full(),
    ensures
        a.fill(value).wf(),
        a.fill(value).capacity() == a.capacity(),
        a.fill(value).len() == a.len() + 1,
        !a.contains(a.next_handle()),
        a.fill(value).contains(a.next_handle()),
        a.fill(value).value(a.next_handle()) == value,
        forall|h: Index|
            h != a.next_handle() ==> (a.fill(value).contains(h) <==> a.contains(h)),
        forall|h: Index| a.contains(h) ==> a.fill(value).value(h) == a.value(h),
{
    let b = a.fill(value);
    let at = a.free[0];
    assert(a.slots[a.free[0] as int] is None);
    assert forall|k: int| 0 <= k < b.free.len() implies b.free[k] < b.slots.len()
        && (#[trigger] b.slots[b.free[k] as int]) is None by {
        assert(b.free[k] == a.free[k + 1]);
        assert(a.slots[a.free[k + 1] as int] is None);
    }
    assert forall|i: int| 0 <= i < b.slots.len() && (#[trigger] b.slots[i]) is None implies b.free.contains(
        i as usize,
    ) by {
        assert(a.slots[i] is None);
        let m = choose|m: int| 0 <= m < a.free.len() && a.free[m] == i as usize;
        assert(b.free[m - 1] == i as usize);
    }
    assert forall|i: int| 0 <= i < b.slots.len() && (#[trigger] b.slots[i]) is Some implies b.slots[i]->0.generation
        <= b.generation by {
        if i != at {
            assert(a.slots[i] is Some);
        }
    }
    lemma_entries_update_len(
        a.slots,
        at as int,
        Some(Occupant { generation: a.generation, value }),
    );
}

/// Growth keeps the arena well formed, its length, and what every handle
/// resolves to; the capacity grows by exactly the number of new slots.
pub proof fn lemma_reserve<T>(a: ArenaView<T>, additional: nat)
    requires
        a.wf(),
        a.capacity() + additional <= usize::MAX,
    ensures
        a.reserve(additional).wf(),
        a.reserve(additional).capacity() == a.capacity() + additional,
        a.reserve(additional).len() == a.len(),
        a.reserve(additional).entries() == a.entries(),
        additional > 0 ==> !a.reserve(additional).is_full(),
        forall|h: Index| a.reserve(additional).contains(h) <==> a.contains(h),
        forall|h: Index| a.contains(h) ==> a.reserve(additional).value(h) == a.value(h),
{
    let b = a.reserve(additional);
    let n = a.slots.len() as int;
    let run = ascending(n, additional);
    assert forall|k: int| 0 <= k < b.free.len() implies b.free[k] < b.slots.len()
        && (#[trigger] b.slots[b.free[k] as int]) is None by {
        if k >= additional {
            assert(b.free[k] == a.free[k - additional]);
            assert(a.slots[a.free[k - additional] as int] is None);
        }
    }
    assert forall|x: int, y: int| 0 <= x < b.free.len() && 0 <= y < b.free.len() && x != y implies b.free[x]
        != b.free[y] by {
        if x >= additional {
            assert(a.slots[a.free[x - additional] as int] is None);
        }
        if y >= additional {
            assert(a.slots[a.free[y - additional] as int] is None);
        }
    }
    assert forall|i: int| 0 <= i < b.slots.len() && (#[trigger] b.slots[i]) is None implies b.free.contains(
        i as usize,
    ) by {
        if i >= n {
            assert(b.free[i - n] == i as usize);
        } else {
            assert(a.slots[i] is None);
            let m = choose|m: int| 0 <= m < a.free.len() && a.free[m] == i as usize;
            assert(b.free[m + additional] == i as usize);
        }
    }
    assert forall|i: int| 0 <= i < b.slots.len() && (#[trigger] b.slots[i]) is Some implies b.slots[i]->0.generation
        <= b.generation by {
        assert(a.slots[i] is Some);
    }
    lemma_entries_split(b.slots, 0, n, n + additional);
    lemma_entries_none(b.slots, n, n + additional);
    lemma_entries_agree(b.slots, a.slots, 0, n);
    assert(entries_in(b.slots, 0, n) + Seq::empty() =~= entries_in(b.slots, 0, n));
}

/// Removal of a value keeps the arena well formed and its capacity, takes
/// one from its length and advances its generation. The handle is stale
/// from then on; a handle to another slot resolves as before.
pub proof fn lemma_vacate<T>(a: ArenaView<T>, h: Index)
    requires
        a.wf(),
        a.contains(h),
        a.generation < u64::MAX,
    ensures
        a.vacate(h.index).wf(),
        a.vacate(h.index).capacity() == a.capacity(),
        a.vacate(h.index).len() == a.len() - 1,
        a.vacate(h.index).generation > a.generation,
        !a.vacate(h.index).is_full(),
        a.vacate(h.index).next_handle().index == h.index,
        stale(a.vacate(h.index), h),
        forall|k: Index| k.index != h.index ==> (a.vacate(h.index).contains(k) <==> a.contains(k)),
        forall|k: Index|
            k.index != h.index && a.contains(k) ==> a.vacate(h.index).value(k) == a.value(k),
{
    let b = a.vacate(h.index);
    assert forall|k: int| 0 <= k < b.free.len() implies b.free[k] < b.slots.len()
        && (#[trigger] b.slots[b.free[k] as int]) is None by {
        if k > 0 {
            assert(b.free[k] == a.free[k - 1]);
            assert(a.slots[a.free[k - 1] as int] is None);
        }
    }
    assert forall|x: int, y: int| 0 <= x < b.free.len() && 0 <= y < b.free.len() && x != y implies b.free[x]
        != b.free[y] by {
        if x > 0 {
            assert(a.slots[a.free[x - 1] as int] is None);
        }
        if y > 0 {
            assert(a.slots[a.free[y - 1] as int] is None);
        }
    }
    assert forall|i: int| 0 <= i < b.slots.len() && (#[trigger] b.slots[i]) is None implies b.free.contains(
        i as usize,
    ) by {
        if i == h.index {
            assert(b.free[0] == h.index);
        } else {
            assert(a.slots[i] is None);
            let m = choose|m: int| 0 <= m < a.free.len() && a.free[m] == i as usize;
            assert(b.free[m + 1] == i as usize);
        }
    }
    assert forall|i: int| 0 <= i < b.slots.len() && (#[trigger] b.slots[i]) is Some implies b.slots[i]->0.generation
        <= b.generation by {
        assert(a.slots[i] is Some);
    }
    assert(a.slots[h.index as int] is Some);
    lemma_entries_update_len(a.slots, h.index as int, None);
}

/// A stale handle stays stale through every operation: nothing that
/// reuses its slot makes it resolve again.
pub proof fn lemma_stale_stays<T>(a: ArenaView<T>, h: Index, value: T, k: Index, additional: nat)
    requires
        a.wf(),
        stale(a, h),
    ensures
        !a.is_full() ==> stale(a.fill(value), h),
        stale(a.reserve(additional), h),
        a.contains(k) && a.generation < u64::MAX ==> stale(a.vacate(k.index), h),
        (a.len() > 0 ==> a.generation < u64::MAX) ==> stale(a.cleared(), h),
        a.generation + a.len() <= u64::MAX ==> stale(a.drained(), h),
        a.contains(k) ==> stale(a.with_value(k.index, value), h),
{
    if !a.is_full() {
        assert(a.slots[a.free[0] as int] is None);
    }
}

/// The generation never goes back: a removal advances it by one, a drain
/// by one for each value, a clear by one where there was a value, and
/// nothing else changes it.
pub proof fn lemma_generation_only_advances<T>(a: ArenaView<T>, h: Index, value: T, additional: nat)
    requires
        a.wf(),
    ensures
        a.fill(value).generation == a.generation,
        a.grown().generation == a.generation,
        a.reserve(additional).generation == a.generation,
        a.len() == 0 ==> a.cleared().generation == a.generation,
        a.len() > 0 && a.generation < u64::MAX ==> a.cleared().generation == a.generation + 1,
        a.with_value(h.index, value).generation == a.generation,
        a.generation < u64::MAX ==> a.vacate(h.index).generation == a.generation + 1,
        a.generation + a.len() <= u64::MAX ==> a.drained().generation == a.generation + a.len(),
{
}

/// What went in comes out: the handle that an insertion returns resolves
/// to the inserted value, whether or not the arena had to grow.
pub proof fn lemma_insert_then_get<T>(a: ArenaView<T>, value: T)
    requires
        a.wf(),
        a.is_full() ==> 2 * a.capacity() <= usize::MAX,
    ensures
        a.grown().wf(),
        a.grown().fill(value).wf(),
        a.grown().fill(value).contains(a.grown().next_handle()),
        a.grown().fill(value).value(a.grown().next_handle()) == value,
        a.grown().fill(value).len() == a.len() + 1,
        a.grown().fill(value).capacity() >= a.capacity(),
{
    if a.is_full() {
        lemma_reserve(a, a.slots.len());
    }
    lemma_fill(a.grown(), value);
}

/// Any number of insertions keeps the arena well formed, adds their
/// number to its length, and leaves every stale handle stale: whichever
/// slots the new values take, no handle from before a removal names one
/// of them.
pub proof fn lemma_extended<T>(a: ArenaView<T>, values: Seq<T>, h: Index)
    requires
        a.wf(),
        2 * (a.len() + values.len()) <= usize::MAX,
    ensures
        a.extended(values).wf(),
        a.extended(values).len() == a.len() + values.len(),
        a.extended(values).capacity() >= a.capacity(),
        a.extended(values).generation == a.generation,
        stale(a, h) ==> stale(a.extended(values), h),
    decreases values.len(),
{
    if values.len() > 0 {
        lemma_len_and_free(a);
        lemma_insert_then_get(a, values[0]);
        if a.is_full() {
            lemma_reserve(a, a.slots.len());
        }
        if stale(a, h) {
            lemma_stale_stays(a, h, values[0], h, a.slots.len());
            lemma_stale_stays(a.grown(), h, values[0], h, 0);
        }
        lemma_extended(a.grown().fill(values[0]), values.drop_first(), h);
    }
}

/// A handle does not outlive its value. Insert a value, remove it, insert
/// another: the second takes the slot of the first, the first handle does
/// not resolve, and the second resolves to the second value.
pub proof fn lemma_reuse_does_not_alias<T>(a: ArenaView<T>, v1: T, v2: T)
    requires
        a.wf(),
        a.generation < u64::MAX,
        a.is_full() ==> 2 * a.capacity() <= usize::MAX,
    ensures
        ({
            let h1 = a.grown().next_handle();
            let b = a.grown().fill(v1);
            let c = b.vacate(h1.index);
            let h2 = c.grown().next_handle();
            let d = c.grown().fill(v2);
            &&& c.grown() == c
            &&& h2.index == h1.index
            &&& h2 != h1
            &&& d.wf()
            &&& !d.contains(h1)
            &&& d.contains(h2)
            &&& d.value(h2) == v2
        }),
{
    lemma_insert_then_get(a, v1);
    let h1 = a.grown().next_handle();
    let b = a.grown().fill(v1);
    lemma_vacate(b, h1);
    let c = b.vacate(h1.index);
    lemma_fill(c, v2);
    lemma_stale_stays(c, h1, v2, h1, 0);
}

/// After a clear the arena is well formed and empty, with the capacity
/// that it had, and no handle resolves. Every handle that resolved before
/// is stale, and so is every handle that was stale already: none of them
/// resolves again, whatever goes in.
pub proof fn lemma_cleared<T>(a: ArenaView<T>)
    requires
        a.wf(),
        a.len() > 0 ==> a.generation < u64::MAX,
    ensures
        a.cleared().wf(),
        a.cleared().len() == 0,
        a.cleared().capacity() == a.capacity(),
        a.cleared().generation >= a.generation,
        a.len() > 0 ==> a.cleared().generation == a.generation + 1,
        a.len() == 0 ==> a.cleared().generation == a.generation,
        forall|h: Index| !a.cleared().contains(h),
        forall|h: Index| a.contains(h) || stale(a, h) ==> stale(a.cleared(), h),
{
    let b = a.cleared();
    assert forall|i: int| 0 <= i < b.slots.len() && (#[trigger] b.slots[i]) is None implies b.free.contains(
        i as usize,
    ) by {
        assert(b.free[i] == i as usize);
    }
    lemma_entries_none(b.slots, 0, b.slots.len() as int);
    assert forall|h: Index| a.contains(h) implies stale(b, h) by {
        assert(a.slots[h.index as int] is Some);
        lemma_occupied_counts(a.slots, h.index as int);
    }
}

/// After a drain the arena is well formed and empty, with the capacity
/// that it had, and no handle resolves: every handle that resolved before
/// is stale.
pub proof fn lemma_drained<T>(a: ArenaView<T>)
    requires
        a.wf(),
        a.generation + a.len() <= u64::MAX,
    ensures
        a.drained().wf(),
        a.drained().len() == 0,
        a.drained().capacity() == a.capacity(),
        forall|h: Index| !a.drained().contains(h),
        forall|h: Index| a.contains(h) ==> stale(a.drained(), h),
{
    let b = a.drained();
    let n = a.slots.len() as int;
    let taken = positions(a.entries());
    lemma_entries_sound(a.slots, 0, n);
    lemma_entries_ascend(a.slots, 0, n);
    assert forall|k: int| 0 <= k < b.free.len() implies b.free[k] < b.slots.len()
        && (#[trigger] b.slots[b.free[k] as int]) is None by {
        if k < taken.len() {
            assert(taken[k] == a.entries()[k].0.index);
        } else {
            assert(b.free[k] == a.free[k - taken.len()]);
            assert(a.slots[a.free[k - taken.len()] as int] is None);
        }
    }
    assert forall|x: int, y: int| 0 <= x < b.free.len() && 0 <= y < b.free.len() && x != y implies b.free[x]
        != b.free[y] by {
        if x < taken.len() {
            assert(a.slots[a.entries()[x].0.index as int] is Some);
        } else {
            assert(a.slots[a.free[x - taken.len()] as int] is None);
        }
        if y < taken.len() {
            assert(a.slots[a.entries()[y].0.index as int] is Some);
        } else {
            assert(a.slots[a.free[y - taken.len()] as int] is None);
        }
    }
    assert forall|i: int| 0 <= i < b.slots.len() && (#[trigger] b.slots[i]) is None implies b.free.contains(
        i as usize,
    ) by {
        if a.slots[i] is None {
            let m = choose|m: int| 0 <= m < a.free.len() && a.free[m] == i as usize;
            assert(b.free[m + taken.len()] == i as usize);
        } else {
            let e = (
                Index { index: i as usize, generation: a.slots[i]->0.generation },
                a.slots[i]->0.value,
            );
            assert(a.entries().contains(e));
            let m = choose|m: int| 0 <= m < a.entries().len() && a.entries()[m] == e;
            assert(b.free[m] == i as usize);
        }
    }
    lemma_entries_none(b.slots, 0, n);
    assert forall|h: Index| a.contains(h) implies stale(b, h) by {
        let e = (h, a.value(h));
        assert(a.slots[h.index as int] is Some);
        assert(a.entries().contains(e));
    }
}

/// The entries of a range stand in the strict order of their positions.
pub proof fn lemma_entries_ascend<T>(slots: Seq<Option<Occupant<T>>>, lo: int, hi: int)
    requires
        0 <= lo <= hi <= slots.len(),
        slots.len() <= usize::MAX,
    ensures
        forall|x: int, y: int|
            0 <= x < y < entries_in(slots, lo, hi).len() ==> (#[trigger] entries_in(
                slots,
                lo,
                hi,
            )[x]).0.index < (#[trigger] entries_in(slots, lo, hi)[y]).0.index,
    decreases hi - lo,
{
    if lo < hi {
        lemma_entries_ascend(slots, lo, hi - 1);
        lemma_entries_sound(slots, lo, hi - 1);
    }
}

/// The free positions below `n`.
pub open spec fn free_below<T>(slots: Seq<Option<Occupant<T>>>, n: int) -> Set<usize> {
    Set::new(|p: usize| p < n && slots[p as int] is None)
}

/// Below any bound, every position is free or has its entry.
pub proof fn lemma_free_or_entry<T>(slots: Seq<Option<Occupant<T>>>, n: int)
    requires
        0 <= n <= slots.len() <= usize::MAX,
    ensures
        free_below(slots, n).finite(),
        free_below(slots, n).len() + entries_in(slots, 0, n).len() == n,
    decreases n,
{
    if n == 0 {
        assert(free_below(slots, 0) =~= Set::<usize>::empty());
    } else {
        lemma_free_or_entry(slots, n - 1);
        if slots[n - 1] is None {
            assert(free_below(slots, n) =~= free_below(slots, n - 1).insert((n - 1) as usize));
        } else {
            assert(free_below(slots, n) =~= free_below(slots, n - 1));
        }
    }
}

/// Every slot is occupied or on the free list: the length and the length
/// of the free list make up the capacity. So an arena is full, and
/// refuses a value that it is not to grow for, exactly where it holds as
/// many values as it has slots.
pub proof fn lemma_len_and_free<T>(a: ArenaView<T>)
    requires
        a.wf(),
    ensures
        a.len() + a.free.len() == a.capacity(),
        a.is_full() <==> a.len() == a.capacity(),
{
    let n = a.slots.len() as int;
    lemma_free_or_entry(a.slots, n);
    a.free.unique_seq_to_set();
    assert(a.free.to_set() =~= free_below(a.slots, n)) by {
        assert forall|p: usize| a.free.to_set().contains(p) implies free_below(a.slots, n).contains(
            p,
        ) by {
            let k = choose|k: int| 0 <= k < a.free.len() && a.free[k] == p;
            assert(a.slots[a.free[k] as int] is None);
        }
        assert forall|p: usize| free_below(a.slots, n).contains(p) implies a.free.to_set().contains(
            p,
        ) by {
            assert(a.slots[p as int] is None);
            assert(a.free.contains(p));
        }
    }
}

} // verus!

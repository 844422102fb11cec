//! The arena and its operations.
use crate::index::Index;
use crate::iter::Drain;
use crate::iter::IntoIter;
use crate::iter::Iter;
use crate::iter::IterMut;
use crate::laws::stale;
use crate::slots::Entry;
use crate::slots::free_order;
use crate::slots::free_run;
use crate::slots::head_of;
use crate::slots::is_free_list;
use crate::slots::lemma_free_list_unique;
use crate::slots::lemma_links_extend;
use crate::slots::lemma_links_fill;
use crate::slots::lemma_links_fresh;
use crate::slots::lemma_links_revalue;
use crate::slots::lemma_links_vacate;
use crate::slots::lemma_same_links;
use crate::slots::push_free_run;
use crate::slots::same_links;
use crate::slots::slots_model;
use crate::view::ArenaView;
use crate::view::ascending;
use crate::view::entries_in;
use crate::view::lemma_entries_len;
use crate::view::lemma_entries_none;
use crate::view::lemma_entries_one;
use crate::view::lemma_entries_split;
use crate::view::lemma_entries_update_len;
use crate::view::lemma_vacated_agree;
use crate::view::Occupant;
use crate::view::positions;
use crate::view::vacated;
use vstd::pervasive::unreached;
use vstd::prelude::*;
use vstd::std_specs::iter::IteratorSpec;

verus! {

/// An arena of values of type `T`, each named by the [`Index`] that its
/// insertion returned.
#[derive(Debug)]
pub struct Arena<T> {
    items: Vec<Entry<T>>,
    generation: u64,
    len: usize,
    free_list_head: Option<usize>,
}

const DEFAULT_CAPACITY: usize = 4;

/// The handle of the occupant `o` of `position`.
pub open spec fn handle_at<T>(position: int, o: Occupant<T>) -> Index<T> {
    Index::<T>::from_pair(
        crate::delegate_untyped_index::Index { index: position as usize, generation: o.generation },
    )
}

/// `predicate` may be asked about the occupant `o` of `position`.
pub open spec fn may_ask<T, F: FnMut(Index<T>, &T) -> bool>(
    predicate: F,
    position: int,
    o: Occupant<T>,
) -> bool {
    call_requires(predicate, (handle_at(position, o), &o.value))
}

/// `predicate`, asked about the occupant `o` of `position`, can answer
/// `keep`.
pub open spec fn verdict<T, F: FnMut(Index<T>, &T) -> bool>(
    predicate: F,
    position: int,
    o: Occupant<T>,
    keep: bool,
) -> bool {
    call_ensures(predicate, (handle_at(position, o), &o.value), keep)
}

/// What `retain` does to the slot at position `i`: a free slot stays
/// free, a value that `predicate` accepts stays as it is, and a value
/// that it refuses is gone.
pub open spec fn settled<T, F: FnMut(Index<T>, &T) -> bool>(
    predicate: F,
    i: int,
    before: Option<Occupant<T>>,
    after: Option<Occupant<T>>,
) -> bool {
    match before {
        None => after is None,
        Some(o) => {
            ||| after == Some(o) && verdict(predicate, i, o, true)
            ||| after is None && verdict(predicate, i, o, false)
        },
    }
}

/// What looking at position `i` does to an arena: a free slot and an
/// accepted value stay, a refused value is removed.
spec fn retain_step<T, F: FnMut(Index<T>, &T) -> bool>(
    predicate: F,
    i: int,
    before: ArenaView<T>,
    after: ArenaView<T>,
) -> bool {
    match before.slots[i] {
        None => after == before,
        Some(o) => {
            ||| after == before && verdict(predicate, i, o, true)
            ||| after == before.vacate(i as usize) && verdict(predicate, i, o, false)
        },
    }
}

/// What an arena is after the positions below `i` were looked at.
#[verifier::opaque]
spec fn retain_progress<T, F: FnMut(Index<T>, &T) -> bool>(
    predicate: F,
    i: int,
    before: ArenaView<T>,
    now: ArenaView<T>,
) -> bool {
    &&& now.slots.len() == before.slots.len()
    &&& forall|j: int| i <= j < before.slots.len() ==> (#[trigger] now.slots[j]) == before.slots[j]
    &&& forall|j: int|
        0 <= j < i ==> settled(predicate, j, #[trigger] before.slots[j], now.slots[j])
    &&& now.free == vacated(before.slots, now.slots, i) + before.free
    &&& now.generation == before.generation + vacated(before.slots, now.slots, i).len()
    &&& now.len() + vacated(before.slots, now.slots, i).len() == before.len()
}

proof fn lemma_retain_start<T, F: FnMut(Index<T>, &T) -> bool>(predicate: F, before: ArenaView<T>)
    ensures
        retain_progress(predicate, 0, before, before),
{
    reveal(retain_progress);
    assert(vacated(before.slots, before.slots, 0) + before.free =~= before.free);
}

proof fn lemma_retain_ready<T, F: FnMut(Index<T>, &T) -> bool>(
    predicate: F,
    i: int,
    before: ArenaView<T>,
    now: ArenaView<T>,
)
    requires
        retain_progress(predicate, i, before, now),
        now.wf(),
        0 <= i < before.len(),
        before.len() <= before.slots.len(),
        before.generation + before.len() <= u64::MAX,
    ensures
        now.slots.len() == before.slots.len(),
        now.slots[i] == before.slots[i],
        now.slots[i] is Some ==> now.generation < u64::MAX,
{
    reveal(retain_progress);
    if now.slots[i] is Some {
        lemma_entries_update_len(now.slots, i, None);
    }
}

proof fn lemma_retain_next<T, F: FnMut(Index<T>, &T) -> bool>(
    predicate: F,
    i: int,
    before: ArenaView<T>,
    prev: ArenaView<T>,
    now: ArenaView<T>,
)
    requires
        retain_progress(predicate, i, before, prev),
        retain_step(predicate, i, prev, now),
        prev.wf(),
        prev.slots[i] is Some ==> prev.generation < u64::MAX,
        0 <= i < before.slots.len() <= usize::MAX,
    ensures
        retain_progress(predicate, i + 1, before, now),
{
    reveal(retain_progress);
    assert(prev.slots[i] == before.slots[i]);
    assert forall|j: int| 0 <= j < i implies now.slots[j] == prev.slots[j] by {}
    lemma_vacated_agree(before.slots, prev.slots, now.slots, i);
    assert forall|j: int| i + 1 <= j < before.slots.len() implies (#[trigger] now.slots[j])
        == before.slots[j] by {
        assert(prev.slots[j] == before.slots[j]);
    }
    if now != prev {
        assert(now == prev.vacate(i as usize));
        assert(now.free =~= vacated(before.slots, now.slots, i + 1) + before.free);
        lemma_entries_update_len(prev.slots, i, None);
    }
    assert forall|j: int| 0 <= j < i + 1 implies settled(
        predicate,
        j,
        #[trigger] before.slots[j],
        now.slots[j],
    ) by {
        if j < i {
            assert(now.slots[j] == prev.slots[j]);
        }
    }
}

proof fn lemma_retain_done<T, F: FnMut(Index<T>, &T) -> bool>(
    predicate: F,
    n: int,
    before: ArenaView<T>,
    now: ArenaView<T>,
)
    requires
        retain_progress(predicate, n, before, now),
        0 <= n <= before.slots.len(),
    ensures
        now.slots.len() == before.slots.len(),
        forall|i: int| n <= i < before.slots.len() ==> (#[trigger] now.slots[i]) == before.slots[i],
        forall|i: int|
            0 <= i < n ==> settled(predicate, i, #[trigger] before.slots[i], now.slots[i]),
        now.free == vacated(before.slots, now.slots, n) + before.free,
        now.generation == before.generation + vacated(before.slots, now.slots, n).len(),
        now.len() + vacated(before.slots, now.slots, n).len() == before.len(),
        forall|i: int|
            0 <= i < before.slots.len() && (#[trigger] now.slots[i]) is Some ==> now.slots[i]
                == before.slots[i],
        forall|i: int|
            0 <= i < before.slots.len() && (#[trigger] before.slots[i]) is Some && now.slots[i] is None
                ==> verdict(predicate, i, before.slots[i]->0, false),
        (forall|i: int| n <= i < before.slots.len() ==> (#[trigger] before.slots[i]) is None)
            ==> forall|i: int|
            0 <= i < before.slots.len() && (#[trigger] now.slots[i]) is Some ==> verdict(
                predicate,
                i,
                now.slots[i]->0,
                true,
            ),
        forall|i: int|
            0 <= i < before.slots.len() && (#[trigger] before.slots[i]) is Some && !verdict(
                predicate,
                i,
                before.slots[i]->0,
                false,
            ) ==> now.slots[i] == before.slots[i],
        forall|h: crate::delegate_untyped_index::Index| stale(before, h) ==> stale(now, h),
{
    reveal(retain_progress);
    assert forall|i: int|
        0 <= i < before.slots.len() && (#[trigger] before.slots[i]) is Some && !verdict(
            predicate,
            i,
            before.slots[i]->0,
            false,
        ) implies now.slots[i] == before.slots[i] by {
        if i >= n {
            assert(now.slots[i] == before.slots[i]);
        }
    }
    assert forall|h: crate::delegate_untyped_index::Index| stale(before, h) implies stale(
        now,
        h,
    ) by {
        if h.index < now.slots.len() {
            let b = before.slots[h.index as int];
            let a = now.slots[h.index as int];
            if h.index >= n {
                assert(a == b);
            }
        }
    }
    assert forall|i: int|
        0 <= i < before.slots.len() && (#[trigger] now.slots[i]) is Some implies now.slots[i]
        == before.slots[i] by {
        let b = before.slots[i];
    }
    assert forall|i: int|
        0 <= i < before.slots.len() && (#[trigger] before.slots[i]) is Some && now.slots[i] is None implies verdict(
        predicate,
        i,
        before.slots[i]->0,
        false,
    ) by {
        if i >= n {
            assert(now.slots[i] == before.slots[i]);
        }
    }
    if forall|i: int| n <= i < before.slots.len() ==> (#[trigger] before.slots[i]) is None {
        assert forall|i: int|
            0 <= i < before.slots.len() && (#[trigger] now.slots[i]) is Some implies verdict(
            predicate,
            i,
            now.slots[i]->0,
            true,
        ) by {
            let b = before.slots[i];
        }
    }
}

impl<T> View for Arena<T> {
    type V = ArenaView<T>;

    closed spec fn view(&self) -> ArenaView<T> {
        ArenaView {
            slots: slots_model(self.items@),
            free: free_order(self.items@, self.free_list_head),
            generation: self.generation,
        }
    }
}

/// `Iterator::size_hint`: the bounds that `iter` announces for the number
/// of values it has yet to yield. Nothing is known of them.
#[verifier::external_body]
fn announced_len<I: Iterator>(iter: &I) -> (r: (usize, Option<usize>)) {
    iter.size_hint()
}

/// The value of an occupied slot that carries the stamp `generation`.
fn occupant_mut<T>(entry: &mut Entry<T>, generation: u64) -> (r: Option<&mut T>)
    ensures
        match r {
            Some(v) => {
                &&& *old(entry) is Occupied
                &&& old(entry)->generation == generation
                &&& *v == old(entry)->value
                &&& *final(entry) == (Entry::Occupied { generation, value: *final(v) })
            },
            None => {
                &&& !(*old(entry) is Occupied && old(entry)->generation == generation)
                &&& *final(entry) == *old(entry)
            },
        },
{
    match entry {
        Entry::Occupied { generation: stamp, value } => {
            if *stamp == generation {
                Some(value)
            } else {
                None
            }
        },
        Entry::Free { .. } => None,
    }
}

impl<T> Arena<T> {
    /// The links of the slot store form its free list, and the length is
    /// the number of occupied slots.
    pub closed spec fn inv(&self) -> bool {
        &&& is_free_list(
            self.items@,
            self.free_list_head,
            free_order(self.items@, self.free_list_head),
        )
        &&& self.len == entries_in(slots_model(self.items@), 0, self.items@.len() as int).len()
    }

    /// The arena is well formed. Every arena that this library hands out
    /// is, and every operation keeps it so.
    pub open spec fn wf(&self) -> bool {
        self.inv() && self@.wf()
    }

    proof fn lemma_facts(&self)
        requires
            self.inv(),
        ensures
            self@.free.no_duplicates(),
            self.free_list_head == head_of(self@.free),
            forall|k: int|
                0 <= k < self@.free.len() ==> self@.free[k] < self@.slots.len()
                    && (#[trigger] self@.slots[self@.free[k] as int]) is None,
            forall|i: int|
                0 <= i < self@.slots.len() && (#[trigger] self@.slots[i]) is None
                    ==> self@.free.contains(i as usize),
            self@.slots.len() == self.items@.len(),
    {
        let f = self@.free;
        assert forall|k: int| 0 <= k < f.len() implies (#[trigger] f[k]) < self@.slots.len()
            && self@.slots[f[k] as int] is None by {
            assert(self.items@[f[k] as int] is Free);
        }
        assert forall|i: int| 0 <= i < self@.slots.len() && (#[trigger] self@.slots[i]) is None implies f.contains(
            i as usize,
        ) by {
            assert(self.items@[i] is Free);
        }
    }

    /// Constructs a new, empty arena, with room for a few values.
    pub fn new() -> (r: Arena<T>)
        ensures
            r.wf(),
            r@ == ArenaView::<T>::fresh(4),
            r@.len() == 0,
    {
        Arena::with_capacity(DEFAULT_CAPACITY)
    }

    /// Constructs a new, empty arena with `n` slots, or with one slot
    /// where `n` is 0. The slots are linked in ascending order.
    pub fn with_capacity(n: usize) -> (r: Arena<T>)
        ensures
            r.wf(),
            r@ == ArenaView::<T>::fresh(
                if n == 0 {
                    1nat
                } else {
                    n as nat
                },
            ),
            r@.len() == 0,
    {
        let n: usize = if n == 0 {
            1
        } else {
            n
        };
        let mut items: Vec<Entry<T>> = Vec::new();
        push_free_run(&mut items, n, None);
        let arena = Arena { items, generation: 0, len: 0, free_list_head: Some(0) };
        proof {
            assert(arena.items@ =~= free_run::<T>(0, n as nat, None));
            lemma_links_fresh::<T>(n as nat);
            lemma_free_list_unique(arena.items@, arena.free_list_head, ascending(0, n as nat));
            arena.lemma_facts();
        }
        arena
    }

    /// Constructs a new, empty arena sized for a sequence that announces
    /// between `lower` and `upper` values: with `upper` slots, with
    /// `lower` slots where no upper bound is known, and with one slot at
    /// least.
    pub fn with_size_hint(lower: usize, upper: Option<usize>) -> (r: Arena<T>)
        ensures
            r.wf(),
            r@ == ArenaView::<T>::fresh(
                match upper {
                    Some(n) => if n == 0 {
                        1nat
                    } else {
                        n as nat
                    },
                    None => if lower == 0 {
                        1nat
                    } else {
                        lower as nat
                    },
                },
            ),
            r@.len() == 0,
    {
        let cap: usize = match upper {
            Some(n) => n,
            None => lower,
        };
        Arena::with_capacity(cap)
    }

    /// Drops every value. All slots become free, linked in ascending
    /// order, and the number of slots stays. Where the arena held a value
    /// the generation advances by one: every handle from before is stale
    /// afterwards, and stays so whatever goes in.
    pub fn clear(&mut self)
        requires
            old(self).wf(),
            old(self)@.len() > 0 ==> old(self)@.generation < u64::MAX,
        ensures
            final(self).wf(),
            final(self)@ == old(self)@.cleared(),
            final(self)@.len() == 0,
            final(self)@.capacity() == old(self)@.capacity(),
            final(self)@.generation >= old(self)@.generation,
            forall|h: crate::delegate_untyped_index::Index| !final(self)@.contains(h),
            forall|h: crate::delegate_untyped_index::Index|
                old(self)@.contains(h) || stale(old(self)@, h) ==> stale(final(self)@, h),
    {
        let end: usize = self.items.len();
        self.items.clear();
        push_free_run(&mut self.items, end, None);
        if self.len > 0 {
            self.generation = self.generation + 1;
        }
        self.free_list_head = Some(0);
        self.len = 0;
        proof {
            assert(self.items@ =~= free_run::<T>(0, end as nat, None));
            lemma_links_fresh::<T>(end as nat);
            lemma_free_list_unique(self.items@, self.free_list_head, ascending(0, end as nat));
            self.lemma_facts();
            crate::laws::lemma_cleared(old(self)@);
        }
    }

    /// Puts `value` into the slot at the head of the free list and returns
    /// its handle. Where no slot is free the arena stays as it is and the
    /// value comes back. The arena never grows here.
    pub fn try_insert(&mut self, value: T) -> (r: Result<Index<T>, T>)
        requires
            old(self).wf(),
        ensures
            final(self).wf(),
            final(self)@.capacity() == old(self)@.capacity(),
            r is Err <==> old(self)@.len() == old(self)@.capacity(),
            match r {
                Ok(h) => {
                    &&& !old(self)@.is_full()
                    &&& h@ == old(self)@.next_handle()
                    &&& final(self)@ == old(self)@.fill(value)
                    &&& final(self)@.len() == old(self)@.len() + 1
                    &&& final(self)@.contains(h@)
                    &&& final(self)@.value(h@) == value
                },
                Err(v) => {
                    &&& old(self)@.is_full()
                    &&& v == value
                    &&& final(self)@ == old(self)@
                },
            },
            forall|h: crate::delegate_untyped_index::Index|
                stale(old(self)@, h) ==> stale(final(self)@, h),
    {
        proof {
            self.lemma_facts();
            crate::laws::lemma_len_and_free(self@);
            if !self@.is_full() {
                crate::laws::lemma_fill(self@, value);
            }
        }
        match self.free_list_head {
            None => Err(value),
            Some(i) => {
                let ghost f = self@.free;
                let ghost before = self.items@;
                assert(f[0] == i);
                assert(before[f[0] as int] is Free);
                let next_free: Option<usize> = match &self.items[i] {
                    Entry::Free { next_free } => *next_free,
                    Entry::Occupied { .. } => unreached(),
                };
                proof {
                    lemma_entries_update_len(
                        slots_model(before),
                        i as int,
                        Some(Occupant { generation: self.generation, value }),
                    );
                    lemma_entries_len(
                        slots_model(before).update(
                            i as int,
                            Some(Occupant { generation: self.generation, value }),
                        ),
                        0,
                        before.len() as int,
                    );
                }
                self.free_list_head = next_free;
                self.len = self.len + 1;
                self.items[i] = Entry::Occupied { generation: self.generation, value };
                proof {
                    let e = Entry::Occupied { generation: self.generation, value };
                    lemma_links_fill(before, Some(i), f, e);
                    lemma_free_list_unique(
                        self.items@,
                        self.free_list_head,
                        f.subrange(1, f.len() as int),
                    );
                    assert(self@ == old(self)@.fill(value));
                    self.lemma_facts();
                }
                Ok(Index::new(i, self.generation))
            },
        }
    }

    /// Puts `value` into the arena and returns its handle. Where no slot
    /// is free the arena first grows by as many slots as it has.
    pub fn insert(&mut self, value: T) -> (r: Index<T>)
        requires
            old(self).wf(),
            old(self)@.is_full() ==> 2 * old(self)@.capacity() <= usize::MAX,
        ensures
            final(self).wf(),
            final(self)@.capacity() >= old(self)@.capacity(),
            r@ == old(self)@.grown().next_handle(),
            final(self)@ == old(self)@.grown().fill(value),
            final(self)@.contains(r@),
            final(self)@.value(r@) == value,
            final(self)@.len() == old(self)@.len() + 1,
            forall|h: crate::delegate_untyped_index::Index|
                stale(old(self)@, h) ==> stale(final(self)@, h),
    {
        proof {
            self.lemma_facts();
            crate::laws::lemma_insert_then_get(old(self)@, value);
        }
        match self.try_insert(value) {
            Ok(i) => i,
            Err(value) => self.insert_slow_path(value),
        }
    }

    fn insert_slow_path(&mut self, value: T) -> (r: Index<T>)
        requires
            old(self).wf(),
            old(self)@.is_full(),
            2 * old(self)@.capacity() <= usize::MAX,
        ensures
            final(self).wf(),
            final(self)@.capacity() >= old(self)@.capacity(),
            r@ == old(self)@.grown().next_handle(),
            final(self)@ == old(self)@.grown().fill(value),
            final(self)@.contains(r@),
            final(self)@.value(r@) == value,
            final(self)@.len() == old(self)@.len() + 1,
            forall|h: crate::delegate_untyped_index::Index|
                stale(old(self)@, h) ==> stale(final(self)@, h),
    {
        let len: usize = self.items.len();
        proof {
            self.lemma_facts();
            crate::laws::lemma_insert_then_get(old(self)@, value);
        }
        self.reserve(len);
        match self.try_insert(value) {
            Ok(i) => i,
            Err(_) => unreached(),
        }
    }

    /// Takes the value that `i` names out of the arena. Its slot becomes
    /// the head of the free list and the arena's generation advances, so
    /// `i` never resolves again. Where `i` does not resolve, nothing
    /// changes.
    pub fn remove(&mut self, i: Index<T>) -> (r: Option<T>)
        requires
            old(self).wf(),
            old(self)@.contains(i@) ==> old(self)@.generation < u64::MAX,
        ensures
            final(self).wf(),
            match r {
                Some(value) => {
                    &&& old(self)@.contains(i@)
                    &&& value == old(self)@.value(i@)
                    &&& final(self)@ == old(self)@.vacate(i@.index)
                    &&& final(self)@.len() == old(self)@.len() - 1
                    &&& final(self)@.generation == old(self)@.generation + 1
                },
                None => {
                    &&& !old(self)@.contains(i@)
                    &&& final(self)@ == old(self)@
                },
            },
            r is Some ==> stale(final(self)@, i@),
            forall|h: crate::delegate_untyped_index::Index|
                stale(old(self)@, h) ==> stale(final(self)@, h),
    {
        let at = i.as_untyped();
        if at.index >= self.items.len() {
            return None;
        }
        let live: bool = match &self.items[at.index] {
            Entry::Occupied { generation, .. } => *generation == at.generation,
            Entry::Free { .. } => false,
        };
        if !live {
            return None;
        }
        let ghost f = self@.free;
        let ghost before = self.items@;
        proof {
            self.lemma_facts();
            lemma_entries_update_len(slots_model(before), at.index as int, None);
        }
        let mut entry = Entry::Free { next_free: self.free_list_head };
        core::mem::swap(&mut self.items[at.index], &mut entry);
        self.generation = self.generation + 1;
        self.free_list_head = Some(at.index);
        self.len = self.len - 1;
        proof {
            crate::laws::lemma_vacate(old(self)@, i@);
            lemma_links_vacate(before, old(self).free_list_head, f, at.index);
            lemma_free_list_unique(self.items@, self.free_list_head, seq![at.index] + f);
            assert(self@ == old(self)@.vacate(at.index));
            self.lemma_facts();
        }
        match entry {
            Entry::Occupied { value, .. } => Some(value),
            Entry::Free { .. } => unreached(),
        }
    }

    /// Looks at the slot at position `i`: where it is occupied and
    /// `predicate` answers `false` for its value, removes the value.
    fn retain_at<F: FnMut(Index<T>, &T) -> bool>(&mut self, i: usize, predicate: &mut F)
        requires
            old(self).wf(),
            i < old(self)@.capacity(),
            old(self)@.slots[i as int] is Some ==> old(self)@.generation < u64::MAX && may_ask(
                *old(predicate),
                i as int,
                old(self)@.slots[i as int]->0,
            ),
        ensures
            final(self).wf(),
            *final(predicate) == *old(predicate),
            retain_step(*old(predicate), i as int, old(self)@, final(self)@),
    {
        proof {
            self.lemma_facts();
        }
        let remove: Option<Index<T>> = match &self.items[i] {
            Entry::Occupied { generation, value } => {
                let index = Index::new(i, *generation);
                if predicate(index, value) {
                    None
                } else {
                    Some(index)
                }
            },
            Entry::Free { .. } => None,
        };
        if let Some(index) = remove {
            self.remove(index);
        }
    }

    /// Asks `predicate` about the values at the positions below the
    /// arena's length, in ascending order, and removes each value for
    /// which it answers `false`. The length is taken once, before the
    /// first question; positions from it on are not looked at.
    ///
    /// Every removed value is one that `predicate` refused, and a value
    /// that it cannot refuse stays as it is. Every value that stays at a
    /// position below the length is one that it accepted; so is every
    /// value that stays at all, where no position from the length on was
    /// occupied.
    pub fn retain(&mut self, mut predicate: impl FnMut(Index<T>, &T) -> bool)
        requires
            old(self).wf(),
            old(self)@.generation + old(self)@.len() <= u64::MAX,
            forall|i: int|
                0 <= i < old(self)@.len() && (#[trigger] old(self)@.slots[i]) is Some ==> may_ask(
                    predicate,
                    i,
                    old(self)@.slots[i]->0,
                ),
        ensures
            final(self).wf(),
            final(self)@.capacity() == old(self)@.capacity(),
            forall|i: int|
                old(self)@.len() <= i < old(self)@.capacity() ==> (#[trigger] final(self)@.slots[i])
                    == old(self)@.slots[i],
            forall|i: int|
                0 <= i < old(self)@.len() ==> settled(
                    predicate,
                    i,
                    #[trigger] old(self)@.slots[i],
                    final(self)@.slots[i],
                ),
            final(self)@.free == vacated(
                old(self)@.slots,
                final(self)@.slots,
                old(self)@.len() as int,
            ) + old(self)@.free,
            final(self)@.generation == old(self)@.generation + vacated(
                old(self)@.slots,
                final(self)@.slots,
                old(self)@.len() as int,
            ).len(),
            final(self)@.len() == old(self)@.len() - vacated(
                old(self)@.slots,
                final(self)@.slots,
                old(self)@.len() as int,
            ).len(),
            forall|i: int|
                0 <= i < old(self)@.capacity() && (#[trigger] final(self)@.slots[i]) is Some
                    ==> final(self)@.slots[i] == old(self)@.slots[i],
            forall|i: int|
                0 <= i < old(self)@.capacity() && (#[trigger] old(self)@.slots[i]) is Some
                    && final(self)@.slots[i] is None ==> verdict(
                    predicate,
                    i,
                    old(self)@.slots[i]->0,
                    false,
                ),
            (forall|i: int|
                old(self)@.len() <= i < old(self)@.capacity() ==> (#[trigger] old(self)@.slots[i]) is None)
                ==> forall|i: int|
                0 <= i < old(self)@.capacity() && (#[trigger] final(self)@.slots[i]) is Some
                    ==> verdict(predicate, i, final(self)@.slots[i]->0, true),
            forall|i: int|
                0 <= i < old(self)@.capacity() && (#[trigger] old(self)@.slots[i]) is Some
                    && !verdict(predicate, i, old(self)@.slots[i]->0, false) ==> final(self)@.slots[i]
                    == old(self)@.slots[i],
            forall|h: crate::delegate_untyped_index::Index|
                stale(old(self)@, h) ==> stale(final(self)@, h),
    {
        let n: usize = self.len;
        let ghost asked = predicate;
        proof {
            self.lemma_facts();
            lemma_entries_len(self@.slots, 0, self@.slots.len() as int);
            lemma_retain_start(asked, old(self)@);
        }
        let mut i: usize = 0;
        while i < n
            invariant
                self.wf(),
                predicate == asked,
                i <= n,
                n == old(self)@.len(),
                n <= old(self)@.capacity(),
                old(self)@.generation + old(self)@.len() <= u64::MAX,
                forall|i: int|
                    0 <= i < old(self)@.len() && (#[trigger] old(self)@.slots[i]) is Some ==> may_ask(
                        asked,
                        i,
                        old(self)@.slots[i]->0,
                    ),
                retain_progress(asked, i as int, old(self)@, self@),
            decreases n - i,
        {
            let ghost prev = self@;
            proof {
                lemma_retain_ready(asked, i as int, old(self)@, prev);
            }
            self.retain_at(i, &mut predicate);
            proof {
                lemma_retain_next(asked, i as int, old(self)@, prev, self@);
            }
            i = i + 1;
        }
        proof {
            lemma_retain_done(asked, n as int, old(self)@, self@);
        }
    }

    /// Whether `i` names a value in the arena.
    pub fn contains(&self, i: Index<T>) -> (r: bool)
        requires
            self.wf(),
        ensures
            r == self@.contains(i@),
    {
        self.get(i).is_some()
    }

    /// The value that `i` names, if it names one.
    pub fn get(&self, i: Index<T>) -> (r: Option<&T>)
        requires
            self.wf(),
        ensures
            match r {
                Some(v) => self@.contains(i@) && *v == self@.value(i@),
                None => !self@.contains(i@),
            },
    {
        let at = i.as_untyped();
        if at.index >= self.items.len() {
            return None;
        }
        match &self.items[at.index] {
            Entry::Occupied { generation, value } => {
                if *generation == at.generation {
                    Some(value)
                } else {
                    None
                }
            },
            Entry::Free { .. } => None,
        }
    }

    /// The value that `i` names, for writing, if it names one. What is
    /// written through the reference is the slot's value afterwards;
    /// nothing else changes.
    pub fn get_mut(&mut self, i: Index<T>) -> (r: Option<&mut T>)
        requires
            old(self).wf(),
        ensures
            final(self).wf(),
            match r {
                Some(v) => {
                    &&& old(self)@.contains(i@)
                    &&& *v == old(self)@.value(i@)
                    &&& final(self)@ == old(self)@.with_value(i@.index, *final(v))
                },
                None => {
                    &&& !old(self)@.contains(i@)
                    &&& final(self)@ == old(self)@
                },
            },
            final(self)@.same_shape(old(self)@),
            final(self)@.len() == old(self)@.len(),
            forall|j: int|
                0 <= j < old(self)@.capacity() && j != i@.index ==> final(self)@.slots[j] == old(
                    self,
                )@.slots[j],
    {
        let at = i.as_untyped();
        if at.index >= self.items.len() {
            return None;
        }
        let ghost f = self@.free;
        let ghost before = self.items@;
        let r = occupant_mut(&mut self.items[at.index], at.generation);
        proof {
            if r is Some {
                let value = *final(r->0);
                lemma_links_revalue(before, self.free_list_head, f, at.index, value);
                let e = Entry::Occupied { generation: at.generation, value };
                lemma_free_list_unique(
                    before.update(at.index as int, e),
                    self.free_list_head,
                    f,
                );
                Self::lemma_revalued_wf(old(self)@, at.index, value);
                assert(after_borrow(self.items)@ == before.update(at.index as int, e));
            } else {
                assert(before.update(at.index as int, before[at.index as int]) =~= before);
                assert(after_borrow(self.items)@ == before);
            }
        }
        r
    }

    /// The values that `i1` and `i2` name, both for writing at once, each
    /// absent where its handle does not resolve. The two handles must not
    /// be the same pair; where they share a position, only the one with
    /// the greater generation can resolve. What is written through the
    /// references are the two slots' values afterwards; no other slot
    /// changes.
    pub fn get2_mut(&mut self, i1: Index<T>, i2: Index<T>) -> (r: (Option<&mut T>, Option<&mut T>))
        requires
            old(self).wf(),
            i1@ != i2@,
        ensures
            final(self).wf(),
            match r.0 {
                Some(v) => {
                    &&& old(self)@.contains(i1@)
                    &&& i1@.index != i2@.index || i1@.generation > i2@.generation
                    &&& *v == old(self)@.value(i1@)
                },
                None => !(old(self)@.contains(i1@) && (i1@.index != i2@.index || i1@.generation
                    > i2@.generation)),
            },
            match r.1 {
                Some(v) => {
                    &&& old(self)@.contains(i2@)
                    &&& i1@.index != i2@.index || i2@.generation > i1@.generation
                    &&& *v == old(self)@.value(i2@)
                },
                None => !(old(self)@.contains(i2@) && (i1@.index != i2@.index || i2@.generation
                    > i1@.generation)),
            },
            final(self)@ == old(self)@.with_written(
                i1@.index,
                match r.0 {
                    Some(v) => Some(*final(v)),
                    None => None,
                },
            ).with_written(
                i2@.index,
                match r.1 {
                    Some(v) => Some(*final(v)),
                    None => None,
                },
            ),
            final(self)@.same_shape(old(self)@),
            final(self)@.len() == old(self)@.len(),
            forall|j: int|
                0 <= j < old(self)@.capacity() && j != i1@.index && j != i2@.index ==> final(self)@.slots[j] == old(self)@.slots[j],
    {
        let at1 = i1.as_untyped();
        let at2 = i2.as_untyped();
        let len: usize = self.items.len();

        if at1.index == at2.index {
            if at1.generation > at2.generation {
                return (self.get_mut(i1), None);
            }
            return (None, self.get_mut(i2));
        }
        if at1.index >= len {
            return (None, self.get_mut(i2));
        } else if at2.index >= len {
            return (self.get_mut(i1), None);
        }
        let ghost f = self@.free;
        let ghost before = self.items@;
        let ghost head = self.free_list_head;

        let (raw_item1, raw_item2) = {
            let mid: usize = if at1.index < at2.index {
                at2.index
            } else {
                at1.index
            };
            let (xs, ys) = self.items.as_mut_slice().split_at_mut(mid);
            if at1.index < at2.index {
                (&mut xs[at1.index], &mut ys[0])
            } else {
                (&mut ys[0], &mut xs[at2.index])
            }
        };
        let item1 = occupant_mut(raw_item1, at1.generation);
        let item2 = occupant_mut(raw_item2, at2.generation);
        proof {
            let w1 = if item1 is Some {
                Some(*final(item1->0))
            } else {
                None
            };
            let w2 = if item2 is Some {
                Some(*final(item2->0))
            } else {
                None
            };
            let e1 = if item1 is Some {
                Entry::Occupied { generation: at1.generation, value: w1->0 }
            } else {
                before[at1.index as int]
            };
            let e2 = if item2 is Some {
                Entry::Occupied { generation: at2.generation, value: w2->0 }
            } else {
                before[at2.index as int]
            };
            let mid1 = before.update(at1.index as int, e1);
            let mid2 = mid1.update(at2.index as int, e2);
            assert(after_borrow(self.items)@ =~= mid2);
            let v0 = old(self)@;
            let v1 = v0.with_written(at1.index, w1);
            let v2 = v1.with_written(at2.index, w2);
            if item1 is Some {
                lemma_links_revalue(before, head, f, at1.index, w1->0);
                Self::lemma_revalued_wf(v0, at1.index, w1->0);
            } else {
                assert(mid1 =~= before);
            }
            assert(is_free_list(mid1, head, f));
            assert(slots_model(mid1) == v1.slots);
            if item2 is Some {
                lemma_links_revalue(mid1, head, f, at2.index, w2->0);
                Self::lemma_revalued_wf(v1, at2.index, w2->0);
            } else {
                assert(mid2 =~= mid1);
            }
            assert(is_free_list(mid2, head, f));
            assert(slots_model(mid2) == v2.slots);
            lemma_free_list_unique(mid2, head, f);
        }
        (item1, item2)
    }

    proof fn lemma_revalued_wf(a: ArenaView<T>, position: usize, value: T)
        requires
            a.wf(),
            position < a.slots.len(),
            a.slots[position as int] is Some,
        ensures
            a.with_value(position, value).wf(),
    {
        let b = a.with_value(position, value);
        assert forall|k: int| 0 <= k < b.free.len() implies b.free[k] < b.slots.len()
            && (#[trigger] b.slots[b.free[k] as int]) is None by {
            assert(a.slots[a.free[k] as int] is None);
        }
        assert forall|i: int| 0 <= i < b.slots.len() && (#[trigger] b.slots[i]) is None implies b.free.contains(
            i as usize,
        ) by {
            assert(a.slots[i] is None);
        }
        assert forall|i: int| 0 <= i < b.slots.len() && (#[trigger] b.slots[i]) is Some implies b.slots[i]->0.generation
            <= b.generation by {
            assert(a.slots[i] is Some);
        }
    }

    /// The number of values in the arena.
    pub fn len(&self) -> (r: usize)
        requires
            self.wf(),
        ensures
            r == self@.len(),
    {
        self.len
    }

    /// Whether the arena holds no value.
    pub fn is_empty(&self) -> (r: bool)
        requires
            self.wf(),
        ensures
            r == (self@.len() == 0),
    {
        self.len == 0
    }

    /// The number of slots: how many values the arena can hold without
    /// growing, those it holds included.
    pub fn capacity(&self) -> (r: usize)
        requires
            self.wf(),
        ensures
            r == self@.capacity(),
    {
        self.items.len()
    }

    /// The arena's generation: the stamp that the next insertion gives.
    /// Every removal advances it, and so does a clear of an arena that
    /// holds a value.
    pub fn generation(&self) -> (r: u64)
        requires
            self.wf(),
        ensures
            r == self@.generation,
    {
        self.generation
    }

    /// Adds `additional_capacity` free slots. They go in front of the free
    /// list, in ascending order.
    pub fn reserve(&mut self, additional_capacity: usize)
        requires
            old(self).wf(),
            old(self)@.capacity() + additional_capacity <= usize::MAX,
        ensures
            final(self).wf(),
            final(self)@.capacity() == old(self)@.capacity() + additional_capacity,
            final(self)@ == old(self)@.reserve(additional_capacity as nat),
            final(self)@.len() == old(self)@.len(),
            forall|h: crate::delegate_untyped_index::Index|
                stale(old(self)@, h) ==> stale(final(self)@, h),
    {
        let start: usize = self.items.len();
        let old_head = self.free_list_head;
        let ghost f = self@.free;
        let ghost before = self.items@;
        proof {
            self.lemma_facts();
            crate::laws::lemma_reserve(self@, additional_capacity as nat);
        }
        if additional_capacity == 0 {
            proof {
                assert(ascending(start as int, 0) + f =~= f);
                assert(old(self)@.slots + Seq::new(0nat, |i: int| None::<Occupant<T>>)
                    =~= old(self)@.slots);
            }
            return ;
        }
        push_free_run(&mut self.items, additional_capacity, old_head);
        self.free_list_head = Some(start);
        proof {
            lemma_links_extend(before, old_head, f, additional_capacity as nat);
            lemma_free_list_unique(
                self.items@,
                self.free_list_head,
                ascending(start as int, additional_capacity as nat) + f,
            );
            assert(self@ == old(self)@.reserve(additional_capacity as nat));
            self.lemma_facts();
            assert forall|i: int|
                0 <= i < self@.slots.len() && (#[trigger] self@.slots[i]) is Some implies self@.slots[i]->0.generation
                <= self@.generation by {
                assert(old(self)@.slots[i] is Some);
            }
        }
    }

    /// A pass over the values, by shared reference: each handle with its
    /// value, in the order of the positions.
    pub fn iter(&self) -> (r: Iter<'_, T>)
        requires
            self.wf(),
        ensures
            r.wf(),
            r.remaining() == self@.entries(),
            r.remaining().len() == self@.len(),
    {
        Iter::over(self.items.as_slice(), self.len)
    }

    /// A pass over the values, by exclusive reference: each handle with a
    /// reference to write its value through, in the order of the
    /// positions.
    ///
    /// The pass borrows the slots. Where they come back changed in the
    /// values of occupied slots only, which is all that the pass lets
    /// through, the arena is well formed afterwards, of the same shape as
    /// before, with the slots as the borrow left them.
    pub fn iter_mut(&mut self) -> (r: IterMut<'_, T>)
        requires
            old(self).wf(),
        ensures
            r.wf(),
            r.start() == 0,
            r.remaining() == old(self)@.entries(),
            r.remaining().len() == old(self)@.len(),
            slots_model(r.lent()@) == old(self)@.slots,
            same_links(r.lent()@, final(r.lent())@) ==> {
                &&& final(self).wf()
                &&& final(self)@.same_shape(old(self)@)
                &&& final(self)@.slots == slots_model(final(r.lent())@)
            },
    {
        let ghost f = self@.free;
        let ghost before = self.items@;
        let ghost head = self.free_list_head;
        proof {
            self.lemma_facts();
        }
        let r = IterMut::over(self.items.as_mut_slice(), self.len);
        proof {
            Self::lemma_returned(old(self)@, before, head, f, final(r.lent())@);
            assert(after_borrow(self.items)@ == final(r.lent())@);
        }
        r
    }

    proof fn lemma_returned(
        a: ArenaView<T>,
        items: Seq<Entry<T>>,
        head: Option<usize>,
        f: Seq<usize>,
        later: Seq<Entry<T>>,
    )
        requires
            a.wf(),
            a.slots == slots_model(items),
            a.free == f,
            is_free_list(items, head, f),
        ensures
            same_links(items, later) ==> {
                let b = ArenaView { slots: slots_model(later), free: f, generation: a.generation };
                &&& is_free_list(later, head, free_order(later, head))
                &&& free_order(later, head) == f
                &&& entries_in(slots_model(later), 0, later.len() as int).len() == entries_in(
                    slots_model(items),
                    0,
                    items.len() as int,
                ).len()
                &&& b.wf()
                &&& b.same_shape(a)
            },
    {
        if same_links(items, later) {
            lemma_same_links(items, head, f, later);
            lemma_free_list_unique(later, head, f);
            let b = ArenaView { slots: slots_model(later), free: f, generation: a.generation };
            assert forall|k: int| 0 <= k < b.free.len() implies b.free[k]
                < b.slots.len() && (#[trigger] b.slots[b.free[k] as int]) is None by {
                assert(a.slots[a.free[k] as int] is None);
                assert(items[f[k] as int] is Free);
            }
            assert forall|i: int|
                0 <= i < b.slots.len() && (#[trigger] b.slots[i]) is None implies b.free.contains(
                i as usize,
            ) by {
                if items[i] is Occupied {
                    assert(later[i] is Occupied);
                }
                assert(a.slots[i] is None);
            }
            assert forall|i: int|
                0 <= i < b.slots.len() && (#[trigger] b.slots[i]) is Some implies b.slots[i]->0.generation
                <= b.generation by {
                if items[i] is Free {
                    assert(later[i] is Free);
                }
                assert(a.slots[i] is Some);
            }
            assert forall|i: int| 0 <= i < b.slots.len() implies ((#[trigger] b.slots[i]) is Some
                <==> a.slots[i] is Some) by {
                if items[i] is Free {
                    assert(later[i] is Free);
                } else {
                    assert(later[i] is Occupied);
                }
            }
            assert forall|i: int|
                0 <= i < b.slots.len() && (#[trigger] b.slots[i]) is Some implies b.slots[i]->0.generation
                == a.slots[i]->0.generation by {
                if items[i] is Free {
                    assert(later[i] is Free);
                } else {
                    assert(later[i] is Occupied);
                }
            }
        }
    }

    /// Takes every value out of the arena, the one at the highest position
    /// first, each as `remove` takes it. The values come back with their
    /// handles, in the order of the positions. The arena has lost them all
    /// when this returns, however much of the result is looked at.
    pub fn drain(&mut self) -> (r: Drain<'_, T>)
        requires
            old(self).wf(),
            old(self)@.generation + old(self)@.len() <= u64::MAX,
        ensures
            final(self).wf(),
            r.remaining() == old(self)@.entries(),
            final(self)@ == old(self)@.drained(),
            final(self)@.len() == 0,
            final(self)@.capacity() == old(self)@.capacity(),
            forall|h: crate::delegate_untyped_index::Index| !final(self)@.contains(h),
            forall|h: crate::delegate_untyped_index::Index|
                old(self)@.contains(h) || stale(old(self)@, h) ==> stale(final(self)@, h),
    {
        proof {
            crate::laws::lemma_drained(self@);
        }
        let mut drain: Drain<'_, T> = Drain::empty();
        let mut i: usize = self.items.len();
        let ghost slots = self@.slots;
        let ghost end = self@.slots.len() as int;
        proof {
            self.lemma_facts();
        }
        while i > 0
            invariant
                self.wf(),
                slots == old(self)@.slots,
                end == slots.len(),
                self@.slots.len() == end,
                i <= end,
                old(self)@.generation + old(self)@.len() <= u64::MAX,
                forall|j: int| 0 <= j < i ==> self@.slots[j] == slots[j],
                forall|j: int| i <= j < end ==> self@.slots[j] is None,
                drain.remaining() == entries_in(slots, i as int, end),
                self@.free == positions(entries_in(slots, i as int, end)) + old(self)@.free,
                self@.generation == old(self)@.generation + entries_in(slots, i as int, end).len(),
                self@.len() + entries_in(slots, i as int, end).len() == old(self)@.len(),
            decreases i,
        {
            i = i - 1;
            let ghost prev = self@;
            proof {
                self.lemma_facts();
                lemma_entries_split(slots, i as int, i + 1, end);
                lemma_entries_one(slots, i as int);
            }
            let stamp: Option<u64> = match &self.items[i] {
                Entry::Occupied { generation, .. } => Some(*generation),
                Entry::Free { .. } => None,
            };
            match stamp {
                Some(generation) => {
                    let index = Index::new(i, generation);
                    proof {
                        assert(self@.contains(index@));
                        lemma_entries_update_len(self@.slots, i as int, None);
                    }
                    match self.remove(index) {
                        Some(value) => {
                            drain.put_first(index, value);
                        },
                        None => unreached(),
                    }
                    proof {
                        let rest = entries_in(slots, i + 1, end);
                        let all = entries_in(slots, i as int, end);
                        assert(positions(all) =~= seq![i] + positions(rest));
                        assert(self@.free =~= positions(all) + old(self)@.free);
                    }
                },
                None => {
                    proof {
                        assert(Seq::<(crate::delegate_untyped_index::Index, T)>::empty()
                            + entries_in(slots, i + 1, end) =~= entries_in(slots, i + 1, end));
                    }
                },
            }
        }
        proof {
            assert(self@.slots =~= Seq::new(slots.len(), |i: int| None::<Occupant<T>>));
            lemma_entries_none(self@.slots, 0, end);
        }
        drain
    }

    /// A pass that consumes the arena and yields its values, in the order
    /// of the positions.
    pub fn into_iter(self) -> (r: IntoIter<T>)
        requires
            self.wf(),
        ensures
            r.wf(),
            r.remaining() == self@.entries(),
            r.remaining().len() == self@.len(),
    {
        IntoIter::over(self.items, self.len)
    }

    /// Puts the values that `iter` yields into the arena, in their order,
    /// each as `insert` puts it.
    pub fn extend<I: Iterator<Item = T>>(&mut self, iter: I)
        requires
            old(self).wf(),
            iter.obeys_prophetic_iter_laws(),
            iter.decrease() is Some,
            2 * (old(self)@.len() + iter.remaining().len()) <= usize::MAX,
        ensures
            final(self).wf(),
            final(self)@ == old(self)@.extended(iter.remaining()),
            final(self)@.len() == old(self)@.len() + iter.remaining().len(),
            final(self)@.capacity() >= old(self)@.capacity(),
            forall|h: crate::delegate_untyped_index::Index|
                stale(old(self)@, h) ==> stale(final(self)@, h),
    {
        let mut iter = iter;
        let ghost all = iter.remaining();
        let ghost mut done: int = 0;
        proof {
            assert(all.skip(0) =~= all);
        }
        loop
            invariant
                self.wf(),
                iter.obeys_prophetic_iter_laws(),
                iter.decrease() is Some,
                0 <= done <= all.len(),
                iter.remaining() == all.skip(done),
                self@.len() == old(self)@.len() + done,
                self@.capacity() >= old(self)@.capacity(),
                self@.extended(all.skip(done)) == old(self)@.extended(all),
                2 * (old(self)@.len() + all.len()) <= usize::MAX,
                forall|h: crate::delegate_untyped_index::Index|
                    stale(old(self)@, h) ==> stale(self@, h),
            ensures
                self.wf(),
                forall|h: crate::delegate_untyped_index::Index|
                    stale(old(self)@, h) ==> stale(self@, h),
                self@ == old(self)@.extended(all),
                self@.len() == old(self)@.len() + all.len(),
                self@.capacity() >= old(self)@.capacity(),
            decreases iter.decrease()->0,
        {
            match iter.next() {
                Some(t) => {
                    proof {
                        crate::laws::lemma_len_and_free(self@);
                        assert(all.skip(done).drop_first() =~= all.skip(done + 1));
                        done = done + 1;
                    }
                    self.insert(t);
                },
                None => {
                    break ;
                },
            }
        }
    }

    /// Constructs an arena of the values that `iter` yields, in their
    /// order. The arena is sized by what `iter` announces of its length,
    /// and grows where that was too little.
    pub fn from_iter<I: Iterator<Item = T>>(iter: I) -> (r: Arena<T>)
        requires
            iter.obeys_prophetic_iter_laws(),
            iter.decrease() is Some,
            2 * iter.remaining().len() <= usize::MAX,
        ensures
            r.wf(),
            r@.len() == iter.remaining().len(),
            exists|n: nat| 1 <= n && r@ == #[trigger] ArenaView::<T>::fresh(n).extended(iter.remaining()),
    {
        let (lower, upper) = announced_len(&iter);
        let mut arena = Arena::with_size_hint(lower, upper);
        arena.extend(iter);
        arena
    }
}

impl<T: Clone> Clone for Arena<T> {
    /// A copy of the arena: of the same shape, with a clone of each value
    /// in its place.
    fn clone(&self) -> (r: Arena<T>)
        ensures
            self.wf() ==> {
                &&& r.wf()
                &&& r@.same_shape(self@)
                &&& r@.len() == self@.len()
                &&& forall|i: int|
                    0 <= i < self@.capacity() && (#[trigger] self@.slots[i]) is Some ==> cloned(
                        self@.slots[i]->0.value,
                        r@.slots[i]->0.value,
                    )
            },
    {
        let mut items: Vec<Entry<T>> = Vec::new();
        let mut i: usize = 0;
        while i < self.items.len()
            invariant
                i <= self.items@.len(),
                items@.len() == i,
                forall|j: int|
                    0 <= j < i && (#[trigger] self.items@[j]) is Free ==> items@[j] == self.items@[j],
                forall|j: int|
                    0 <= j < i && (#[trigger] self.items@[j]) is Occupied ==> {
                        &&& items@[j] is Occupied
                        &&& items@[j]->generation == self.items@[j]->generation
                        &&& cloned(self.items@[j]->value, items@[j]->value)
                    },
            decreases self.items@.len() - i,
        {
            let entry = match &self.items[i] {
                Entry::Free { next_free } => Entry::Free { next_free: *next_free },
                Entry::Occupied { generation, value } => Entry::Occupied {
                    generation: *generation,
                    value: value.clone(),
                },
            };
            items.push(entry);
            i = i + 1;
        }
        let r = Arena {
            items,
            generation: self.generation,
            len: self.len,
            free_list_head: self.free_list_head,
        };
        proof {
            if self.wf() {
                self.lemma_facts();
                Self::lemma_returned(
                    self@,
                    self.items@,
                    self.free_list_head,
                    self@.free,
                    r.items@,
                );
                assert(same_links(self.items@, r.items@));
                assert forall|i: int|
                    0 <= i < self@.capacity() && (#[trigger] self@.slots[i]) is Some implies cloned(
                    self@.slots[i]->0.value,
                    r@.slots[i]->0.value,
                ) by {
                    assert(self.items@[i] is Occupied);
                }
            }
        }
        r
    }
}

} // verus!

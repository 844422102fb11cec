//! The mathematical model of an arena.
use vstd::prelude::*;

verus! {

/// What an occupied slot holds: the generation stamped at insertion, and the
/// value.
pub struct Occupant<T> {
    pub generation: u64,
    pub value: T,
}

/// An arena as a mathematical value.
///
/// `slots[i]` is `None` where position `i` is free. `free` is the free list
/// from its head on: the position that the next insertion fills comes first.
/// `generation` is the arena's counter, which advances whenever a value
/// leaves the arena.
pub struct ArenaView<T> {
    pub slots: Seq<Option<Occupant<T>>>,
    pub free: Seq<usize>,
    pub generation: u64,
}

/// The positions `start`, `start + 1`, ... , `start + n - 1`.
pub open spec fn ascending(start: int, n: nat) -> Seq<usize> {
    Seq::new(n, |j: int| (start + j) as usize)
}

/// The occupied slots at the positions from `lo` up to, not including, `hi`,
/// each as its handle's pair and its value, in the order of the positions.
pub open spec fn entries_in<T>(slots: Seq<Option<Occupant<T>>>, lo: int, hi: int) -> Seq<
    (crate::delegate_untyped_index::Index, T),
>
    recommends
        0 <= lo <= hi <= slots.len(),
    decreases hi - lo,
{
    if lo >= hi {
        Seq::empty()
    } else {
        let before = entries_in(slots, lo, hi - 1);
        match slots[hi - 1] {
            Some(o) => before.push(
                (
                    crate::delegate_untyped_index::Index {
                        index: (hi - 1) as usize,
                        generation: o.generation,
                    },
                    o.value,
                ),
            ),
            None => before,
        }
    }
}

/// The positions below `n` that are occupied in `before` and free in
/// `after`, the highest first.
pub open spec fn vacated<T>(
    before: Seq<Option<Occupant<T>>>,
    after: Seq<Option<Occupant<T>>>,
    n: int,
) -> Seq<usize>
    recommends
        0 <= n <= before.len(),
        before.len() == after.len(),
    decreases n,
{
    if n <= 0 {
        Seq::empty()
    } else if before[n - 1] is Some && after[n - 1] is None {
        seq![(n - 1) as usize] + vacated(before, after, n - 1)
    } else {
        vacated(before, after, n - 1)
    }
}

/// The positions of `entries`, in their order.
pub open spec fn positions<T>(entries: Seq<(crate::delegate_untyped_index::Index, T)>) -> Seq<
    usize,
> {
    Seq::new(entries.len(), |k: int| entries[k].0.index)
}

impl<T> ArenaView<T> {
    /// The invariants of an arena: there is at least one slot, the free list
    /// holds exactly the free positions, each once, and no slot is stamped
    /// with a generation beyond the arena's.
    pub open spec fn wf(self) -> bool {
        &&& 1 <= self.slots.len() <= usize::MAX
        &&& self.free.no_duplicates()
        &&& forall|k: int|
            0 <= k < self.free.len() ==> self.free[k] < self.slots.len()
                && (#[trigger] self.slots[self.free[k] as int]) is None
        &&& forall|i: int|
            0 <= i < self.slots.len() && (#[trigger] self.slots[i]) is None ==> self.free.contains(
                i as usize,
            )
        &&& forall|i: int|
            0 <= i < self.slots.len() && (#[trigger] self.slots[i]) is Some
                ==> self.slots[i]->0.generation <= self.generation
    }

    /// The number of slots.
    pub open spec fn capacity(self) -> nat {
        self.slots.len()
    }

    /// The occupied slots, each as its handle's pair and its value, in the
    /// order of their positions. This is what a pass over the arena yields.
    pub open spec fn entries(self) -> Seq<(crate::delegate_untyped_index::Index, T)> {
        entries_in(self.slots, 0, self.slots.len() as int)
    }

    /// The number of occupied slots.
    pub open spec fn len(self) -> nat {
        self.entries().len()
    }

    /// No slot is free.
    pub open spec fn is_full(self) -> bool {
        self.free.len() == 0
    }

    /// The handle resolves: its position is in range, the slot there is
    /// occupied, and the slot's generation is the handle's.
    pub open spec fn contains(self, h: crate::delegate_untyped_index::Index) -> bool {
        &&& h.index < self.slots.len()
        &&& self.slots[h.index as int] is Some
        &&& self.slots[h.index as int]->0.generation == h.generation
    }

    /// The value that a resolving handle names.
    pub open spec fn value(self, h: crate::delegate_untyped_index::Index) -> T
        recommends
            self.contains(h),
    {
        self.slots[h.index as int]->0.value
    }

    /// The handle that the next insertion returns, where a slot is free.
    pub open spec fn next_handle(self) -> crate::delegate_untyped_index::Index
        recommends
            !self.is_full(),
    {
        crate::delegate_untyped_index::Index { index: self.free[0], generation: self.generation }
    }

    /// An arena of `n` free slots linked in ascending order, at generation 0.
    pub open spec fn fresh(n: nat) -> Self {
        ArenaView { slots: Seq::new(n, |i: int| None), free: ascending(0, n), generation: 0 }
    }

    /// The arena with `additional` free slots more. They go in front of the
    /// free list, in ascending order.
    pub open spec fn reserve(self, additional: nat) -> Self {
        ArenaView {
            slots: self.slots + Seq::new(additional, |i: int| None),
            free: ascending(self.slots.len() as int, additional) + self.free,
            generation: self.generation,
        }
    }

    /// The arena with `value` in the slot at the head of the free list,
    /// stamped with the arena's generation.
    pub open spec fn fill(self, value: T) -> Self
        recommends
            !self.is_full(),
    {
        ArenaView {
            slots: self.slots.update(
                self.free[0] as int,
                Some(Occupant { generation: self.generation, value }),
            ),
            free: self.free.subrange(1, self.free.len() as int),
            generation: self.generation,
        }
    }

    /// The arena that takes `value` whatever its state: where no slot is
    /// free it first grows by as many slots as it has.
    pub open spec fn grown(self) -> Self {
        if self.is_full() {
            self.reserve(self.slots.len())
        } else {
            self
        }
    }

    /// The arena that has taken `values`, one after the other.
    pub open spec fn extended(self, values: Seq<T>) -> Self
        decreases values.len(),
    {
        if values.len() == 0 {
            self
        } else {
            self.grown().fill(values[0]).extended(values.drop_first())
        }
    }

    /// The arena with the slot at `position` freed: the position becomes the
    /// head of the free list and the generation advances by one.
    pub open spec fn vacate(self, position: usize) -> Self {
        ArenaView {
            slots: self.slots.update(position as int, None),
            free: seq![position] + self.free,
            generation: (self.generation + 1) as u64,
        }
    }

    /// The arena with all its slots free, linked in ascending order. Where
    /// it held a value the generation advances by one, so that no handle
    /// from before can name what goes in afterwards.
    pub open spec fn cleared(self) -> Self {
        ArenaView {
            slots: Seq::new(self.slots.len(), |i: int| None),
            free: ascending(0, self.slots.len()),
            generation: if self.len() > 0 {
                (self.generation + 1) as u64
            } else {
                self.generation
            },
        }
    }

    /// The arena with every value taken out: the positions that were
    /// occupied go in front of the free list, in ascending order, and the
    /// generation advances by one for each of them.
    pub open spec fn drained(self) -> Self {
        ArenaView {
            slots: Seq::new(self.slots.len(), |i: int| None),
            free: positions(self.entries()) + self.free,
            generation: (self.generation + self.len()) as u64,
        }
    }

    /// The arena with `value` in place of the value at the occupied
    /// `position`.
    pub open spec fn with_value(self, position: usize, value: T) -> Self
        recommends
            position < self.slots.len(),
            self.slots[position as int] is Some,
    {
        ArenaView {
            slots: self.slots.update(
                position as int,
                Some(Occupant { generation: self.slots[position as int]->0.generation, value }),
            ),
            free: self.free,
            generation: self.generation,
        }
    }

    /// The arena after a write of `written`, where there is one, to the
    /// value at the occupied `position`.
    pub open spec fn with_written(self, position: usize, written: Option<T>) -> Self {
        match written {
            Some(value) => self.with_value(position, value),
            None => self,
        }
    }

    /// The two arenas have the same free list and generation, are occupied
    /// at the same positions, and carry the same stamps there: they differ
    /// at most in their values.
    pub open spec fn same_shape(self, other: Self) -> bool {
        &&& self.free == other.free
        &&& self.generation == other.generation
        &&& self.slots.len() == other.slots.len()
        &&& forall|i: int|
            0 <= i < self.slots.len() ==> ((#[trigger] self.slots[i]) is Some <==> other.slots[i] is Some)
        &&& forall|i: int|
            0 <= i < self.slots.len() && (#[trigger] self.slots[i]) is Some
                ==> self.slots[i]->0.generation == other.slots[i]->0.generation
    }
}

/// Entries of a range are those of its lower part followed by those of its
/// upper part.
pub proof fn lemma_entries_split<T>(slots: Seq<Option<Occupant<T>>>, lo: int, mid: int, hi: int)
    requires
        lo <= mid <= hi,
    ensures
        entries_in(slots, lo, hi) == entries_in(slots, lo, mid) + entries_in(slots, mid, hi),
    decreases hi - mid,
{
    if mid < hi {
        lemma_entries_split(slots, lo, mid, hi - 1);
        let a = entries_in(slots, lo, mid);
        let b = entries_in(slots, mid, hi - 1);
        match slots[hi - 1] {
            Some(o) => {
                let e = (
                    crate::delegate_untyped_index::Index {
                        index: (hi - 1) as usize,
                        generation: o.generation,
                    },
                    o.value,
                );
                assert((a + b).push(e) =~= a + b.push(e));
            },
            None => {},
        }
    } else {
        assert(entries_in(slots, lo, mid) + Seq::empty() =~= entries_in(slots, lo, mid));
    }
}

/// Entries of a range depend on the slots of that range only.
pub proof fn lemma_entries_agree<T>(
    a: Seq<Option<Occupant<T>>>,
    b: Seq<Option<Occupant<T>>>,
    lo: int,
    hi: int,
)
    requires
        forall|i: int| lo <= i < hi ==> a[i] == b[i],
    ensures
        entries_in(a, lo, hi) == entries_in(b, lo, hi),
    decreases hi - lo,
{
    if lo < hi {
        lemma_entries_agree(a, b, lo, hi - 1);
    }
}

/// The entries of one position: one entry where it is occupied, none where
/// it is free.
pub proof fn lemma_entries_one<T>(slots: Seq<Option<Occupant<T>>>, i: int)
    ensures
        slots[i] is None ==> entries_in(slots, i, i + 1) == Seq::<
            (crate::delegate_untyped_index::Index, T),
        >::empty(),
        slots[i] is Some ==> entries_in(slots, i, i + 1) == seq![
            (
                crate::delegate_untyped_index::Index {
                    index: i as usize,
                    generation: slots[i]->0.generation,
                },
                slots[i]->0.value,
            ),
        ],
{
    reveal_with_fuel(entries_in, 2);
    assert(entries_in(slots, i, i) =~= Seq::empty());
    if slots[i] is Some {
        let e = (
            crate::delegate_untyped_index::Index {
                index: i as usize,
                generation: slots[i]->0.generation,
            },
            slots[i]->0.value,
        );
        assert(Seq::<(crate::delegate_untyped_index::Index, T)>::empty().push(e) =~= seq![e]);
    }
}

/// The entries of a slot store, parted at position `i`.
pub proof fn lemma_entries_around<T>(slots: Seq<Option<Occupant<T>>>, i: int)
    requires
        0 <= i < slots.len(),
    ensures
        entries_in(slots, 0, slots.len() as int) == entries_in(slots, 0, i) + entries_in(
            slots,
            i,
            i + 1,
        ) + entries_in(slots, i + 1, slots.len() as int),
{
    let n = slots.len() as int;
    lemma_entries_split(slots, 0, i, n);
    lemma_entries_split(slots, i, i + 1, n);
    assert(entries_in(slots, 0, i) + (entries_in(slots, i, i + 1) + entries_in(slots, i + 1, n))
        =~= entries_in(slots, 0, i) + entries_in(slots, i, i + 1) + entries_in(slots, i + 1, n));
}

/// What a change of the one slot at `i` does to the number of entries.
pub proof fn lemma_entries_update_len<T>(
    slots: Seq<Option<Occupant<T>>>,
    i: int,
    x: Option<Occupant<T>>,
)
    requires
        0 <= i < slots.len(),
    ensures
        entries_in(slots.update(i, x), 0, slots.len() as int).len() == entries_in(
            slots,
            0,
            slots.len() as int,
        ).len() - (if slots[i] is Some {
            1int
        } else {
            0int
        }) + (if x is Some {
            1int
        } else {
            0int
        }),
{
    let n = slots.len() as int;
    let after = slots.update(i, x);
    lemma_entries_around(slots, i);
    lemma_entries_around(after, i);
    lemma_entries_agree(slots, after, 0, i);
    lemma_entries_agree(slots, after, i + 1, n);
    lemma_entries_one(slots, i);
    lemma_entries_one(after, i);
}

/// Two slot stores that are occupied at the same positions of a range have
/// as many entries there.
pub proof fn lemma_entries_same_count<T>(
    a: Seq<Option<Occupant<T>>>,
    b: Seq<Option<Occupant<T>>>,
    lo: int,
    hi: int,
)
    requires
        forall|i: int| lo <= i < hi ==> (a[i] is Some <==> b[i] is Some),
    ensures
        entries_in(a, lo, hi).len() == entries_in(b, lo, hi).len(),
    decreases hi - lo,
{
    if lo < hi {
        lemma_entries_same_count(a, b, lo, hi - 1);
    }
}

/// An occupied slot makes for an entry: where a handle resolves, the arena
/// holds a value.
pub proof fn lemma_occupied_counts<T>(slots: Seq<Option<Occupant<T>>>, i: int)
    requires
        0 <= i < slots.len(),
        slots[i] is Some,
    ensures
        entries_in(slots, 0, slots.len() as int).len() > 0,
{
    lemma_entries_update_len(slots, i, None);
}

/// A range holds at most as many entries as positions.
pub proof fn lemma_entries_len<T>(slots: Seq<Option<Occupant<T>>>, lo: int, hi: int)
    requires
        lo <= hi,
    ensures
        entries_in(slots, lo, hi).len() <= hi - lo,
    decreases hi - lo,
{
    if lo < hi {
        lemma_entries_len(slots, lo, hi - 1);
    }
}

/// A range without an occupied slot has no entries.
pub proof fn lemma_entries_none<T>(slots: Seq<Option<Occupant<T>>>, lo: int, hi: int)
    requires
        forall|i: int| lo <= i < hi ==> slots[i] is None,
    ensures
        entries_in(slots, lo, hi) == Seq::<(crate::delegate_untyped_index::Index, T)>::empty(),
    decreases hi - lo,
{
    if lo < hi {
        lemma_entries_none(slots, lo, hi - 1);
    }
}

/// Every entry of a range stands for an occupied slot of that range, and
/// every occupied slot of the range has its entry.
pub proof fn lemma_entries_sound<T>(slots: Seq<Option<Occupant<T>>>, lo: int, hi: int)
    requires
        0 <= lo <= hi <= slots.len(),
        slots.len() <= usize::MAX,
    ensures
        forall|k: int|
            0 <= k < entries_in(slots, lo, hi).len() ==> {
                let e = #[trigger] entries_in(slots, lo, hi)[k];
                &&& lo <= e.0.index < hi
                &&& slots[e.0.index as int] is Some
                &&& slots[e.0.index as int]->0.generation == e.0.generation
                &&& slots[e.0.index as int]->0.value == e.1
            },
        forall|i: int|
            lo <= i < hi && (#[trigger] slots[i]) is Some ==> entries_in(slots, lo, hi).contains(
                (
                    crate::delegate_untyped_index::Index {
                        index: i as usize,
                        generation: slots[i]->0.generation,
                    },
                    slots[i]->0.value,
                ),
            ),
    decreases hi - lo,
{
    if lo < hi {
        lemma_entries_sound(slots, lo, hi - 1);
        let before = entries_in(slots, lo, hi - 1);
        let all = entries_in(slots, lo, hi);
        assert forall|i: int| lo <= i < hi && (#[trigger] slots[i]) is Some implies all.contains(
            (
                crate::delegate_untyped_index::Index {
                    index: i as usize,
                    generation: slots[i]->0.generation,
                },
                slots[i]->0.value,
            ),
        ) by {
            let e = (
                crate::delegate_untyped_index::Index {
                    index: i as usize,
                    generation: slots[i]->0.generation,
                },
                slots[i]->0.value,
            );
            if i < hi - 1 {
                assert(before.contains(e));
                let k = choose|k: int| 0 <= k < before.len() && before[k] == e;
                assert(all[k] == e);
            } else {
                assert(all[all.len() - 1] == e);
            }
        }
    }
}

/// The positions vacated below `n` depend on the slots below `n` only.
pub proof fn lemma_vacated_agree<T>(
    before: Seq<Option<Occupant<T>>>,
    a: Seq<Option<Occupant<T>>>,
    b: Seq<Option<Occupant<T>>>,
    n: int,
)
    requires
        forall|i: int| 0 <= i < n ==> a[i] == b[i],
    ensures
        vacated(before, a, n) == vacated(before, b, n),
    decreases n,
{
    if n > 0 {
        lemma_vacated_agree(before, a, b, n - 1);
    }
}

} // verus!

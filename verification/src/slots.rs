//! The slot store: tagged slots, and the free list threaded through them.
use crate::view::ascending;
use crate::view::entries_in;
use crate::view::lemma_entries_agree;
use crate::view::lemma_entries_none;
use crate::view::lemma_entries_same_count;
use crate::view::lemma_entries_split;
use crate::view::lemma_entries_update_len;
use crate::view::Occupant;
use vstd::prelude::*;

verus! {

/// One physical slot.
#[derive(Clone, Debug)]
pub enum Entry<T> {
    /// An empty slot, linked to the free slot after it.
    Free { next_free: Option<usize> },
    /// A slot that holds `value`, stamped with the generation at which it
    /// went in.
    Occupied { generation: u64, value: T },
}

impl<T> Default for Entry<T> {
    /// A free slot without a link.
    fn default() -> (r: Entry<T>)
        ensures
            r == (Entry::<T>::Free { next_free: None }),
    {
        Entry::Free { next_free: None }
    }
}

/// The model of one slot.
pub open spec fn slot_model<T>(e: Entry<T>) -> Option<Occupant<T>> {
    match e {
        Entry::Free { .. } => None,
        Entry::Occupied { generation, value } => Some(Occupant { generation, value }),
    }
}

/// The model of the slot store.
pub open spec fn slots_model<T>(items: Seq<Entry<T>>) -> Seq<Option<Occupant<T>>> {
    Seq::new(items.len(), |i: int| slot_model(items[i]))
}

/// `later` is `now` but for the values of its occupied slots: the two are
/// of one length, their free slots are the same, and their occupied slots
/// carry the same stamps.
pub open spec fn same_links<T>(now: Seq<Entry<T>>, later: Seq<Entry<T>>) -> bool {
    &&& now.len() == later.len()
    &&& forall|i: int| 0 <= i < now.len() && (#[trigger] now[i]) is Free ==> later[i] == now[i]
    &&& forall|i: int|
        0 <= i < now.len() && (#[trigger] now[i]) is Occupied ==> later[i] is Occupied
            && later[i]->generation == now[i]->generation
}

/// The model of the slots `items` that stand at the positions from `start`
/// on: no position below `start` is occupied.
pub open spec fn slots_from<T>(start: int, items: Seq<Entry<T>>) -> Seq<Option<Occupant<T>>> {
    Seq::new(
        (start + items.len()) as nat,
        |i: int|
            if i < start {
                None
            } else {
                slot_model(items[i - start])
            },
    )
}

/// The link that the `k`-th member of the free list `f` carries.
pub open spec fn link_after(f: Seq<usize>, k: int) -> Option<usize> {
    if k + 1 < f.len() {
        Some(f[k + 1])
    } else {
        None
    }
}

/// The head pointer of the free list `f`.
pub open spec fn head_of(f: Seq<usize>) -> Option<usize> {
    if f.len() > 0 {
        Some(f[0])
    } else {
        None
    }
}

/// `f` is the free list of `items` under `head`: the links lead from `head`
/// through `f` in order and end after its last member, no position occurs
/// twice, and every free slot is a member.
pub open spec fn is_free_list<T>(items: Seq<Entry<T>>, head: Option<usize>, f: Seq<usize>) -> bool {
    &&& items.len() <= usize::MAX
    &&& head == head_of(f)
    &&& forall|k: int|
        0 <= k < f.len() ==> {
            &&& f[k] < items.len()
            &&& (#[trigger] items[f[k] as int]) is Free
            &&& items[f[k] as int]->next_free == link_after(f, k)
        }
    &&& f.no_duplicates()
    &&& forall|i: int| 0 <= i < items.len() && (#[trigger] items[i]) is Free ==> f.contains(i as usize)
}

/// The free list of `items` under `head`, where there is one.
pub open spec fn free_order<T>(items: Seq<Entry<T>>, head: Option<usize>) -> Seq<usize> {
    choose|f: Seq<usize>| is_free_list(items, head, f)
}

proof fn lemma_free_lists_agree<T>(
    items: Seq<Entry<T>>,
    head: Option<usize>,
    f: Seq<usize>,
    g: Seq<usize>,
    k: int,
)
    requires
        is_free_list(items, head, f),
        is_free_list(items, head, g),
        0 <= k < f.len(),
    ensures
        k < g.len(),
        f[k] == g[k],
    decreases k,
{
    if k > 0 {
        lemma_free_lists_agree(items, head, f, g, k - 1);
        assert(items[f[k - 1] as int]->next_free == link_after(f, k - 1));
        assert(items[g[k - 1] as int]->next_free == link_after(g, k - 1));
    }
}

/// A slot store has at most one free list: whatever satisfies
/// `is_free_list` is `free_order`.
pub proof fn lemma_free_list_unique<T>(items: Seq<Entry<T>>, head: Option<usize>, f: Seq<usize>)
    requires
        is_free_list(items, head, f),
    ensures
        free_order(items, head) == f,
{
    let g = free_order(items, head);
    assert(is_free_list(items, head, g));
    if f.len() > 0 {
        lemma_free_lists_agree(items, head, f, g, f.len() - 1);
    }
    if g.len() > 0 {
        lemma_free_lists_agree(items, head, g, f, g.len() - 1);
    }
    assert forall|k: int| 0 <= k < f.len() implies f[k] == g[k] by {
        lemma_free_lists_agree(items, head, f, g, k);
    }
    assert(f =~= g);
}

/// `n` free slots for the positions from `start` on, each linked to the
/// next and the last to `tail`.
pub open spec fn free_run<T>(start: int, n: nat, tail: Option<usize>) -> Seq<Entry<T>> {
    Seq::new(
        n,
        |j: int|
            Entry::Free {
                next_free: if j + 1 < n {
                    Some((start + j + 1) as usize)
                } else {
                    tail
                },
            },
    )
}

/// Appends `additional` free slots to `items`, linked in ascending order,
/// the last of them to `tail`.
pub(crate) fn push_free_run<T>(items: &mut Vec<Entry<T>>, additional: usize, tail: Option<usize>)
    requires
        old(items)@.len() + additional <= usize::MAX,
    ensures
        final(items)@ == old(items)@ + free_run::<T>(old(items)@.len() as int, additional as nat, tail),
{
    let start: usize = items.len();
    let end: usize = start + additional;
    let mut i: usize = start;
    while i < end
        invariant
            start <= i <= end,
            end == start + additional,
            start == old(items)@.len(),
            items@.len() == i,
            forall|m: int| 0 <= m < start ==> items@[m] == old(items)@[m],
            forall|m: int|
                start <= m < i ==> items@[m] == free_run::<T>(
                    start as int,
                    additional as nat,
                    tail,
                )[m - start],
        decreases end - i,
    {
        if i == end - 1 {
            items.push(Entry::Free { next_free: tail });
        } else {
            items.push(Entry::Free { next_free: Some(i + 1) });
        }
        i = i + 1;
    }
    assert(items@ =~= old(items)@ + free_run::<T>(start as int, additional as nat, tail));
}

/// The slot at the head of the free list `f` takes a value.
pub proof fn lemma_links_fill<T>(items: Seq<Entry<T>>, head: Option<usize>, f: Seq<usize>, e: Entry<T>)
    requires
        is_free_list(items, head, f),
        f.len() > 0,
        e is Occupied,
    ensures
        is_free_list(items.update(f[0] as int, e), link_after(f, 0), f.subrange(1, f.len() as int)),
        slots_model(items.update(f[0] as int, e)) == slots_model(items).update(
            f[0] as int,
            slot_model(e),
        ),
{
    let i = f[0] as int;
    let after = items.update(i, e);
    let g = f.subrange(1, f.len() as int);
    assert(items[f[0] as int] is Free);
    assert forall|k: int| 0 <= k < g.len() implies {
        &&& g[k] < after.len()
        &&& (#[trigger] after[g[k] as int]) is Free
        &&& after[g[k] as int]->next_free == link_after(g, k)
    } by {
        assert(g[k] == f[k + 1]);
        assert(f[k + 1] != f[0]);
        assert(items[f[k + 1] as int] is Free);
        assert(link_after(f, k + 1) == link_after(g, k));
    }
    assert forall|j: int| 0 <= j < after.len() && (#[trigger] after[j]) is Free implies g.contains(
        j as usize,
    ) by {
        assert(items[j] is Free);
        assert(f.contains(j as usize));
        let m = choose|m: int| 0 <= m < f.len() && f[m] == j as usize;
        assert(g[m - 1] == j as usize);
    }
    assert(slots_model(after) =~= slots_model(items).update(i, slot_model(e)));
}

/// The occupied slot at `position` becomes the head of the free list `f`.
pub proof fn lemma_links_vacate<T>(items: Seq<Entry<T>>, head: Option<usize>, f: Seq<usize>, position: usize)
    requires
        is_free_list(items, head, f),
        position < items.len(),
        items[position as int] is Occupied,
    ensures
        is_free_list(
            items.update(position as int, Entry::Free { next_free: head }),
            Some(position),
            seq![position] + f,
        ),
        slots_model(items.update(position as int, Entry::Free { next_free: head })) == slots_model(
            items,
        ).update(position as int, None),
{
    let after = items.update(position as int, Entry::Free { next_free: head });
    let g = seq![position] + f;
    assert forall|k: int| 0 <= k < g.len() implies {
        &&& g[k] < after.len()
        &&& (#[trigger] after[g[k] as int]) is Free
        &&& after[g[k] as int]->next_free == link_after(g, k)
    } by {
        if k > 0 {
            assert(g[k] == f[k - 1]);
            assert(items[f[k - 1] as int] is Free);
            assert(link_after(f, k - 1) == link_after(g, k));
        } else {
            assert(link_after(g, 0) == head_of(f));
        }
    }
    assert forall|a: int, b: int| 0 <= a < g.len() && 0 <= b < g.len() && a != b implies g[a]
        != g[b] by {
        if a > 0 {
            assert(items[f[a - 1] as int] is Free);
        }
        if b > 0 {
            assert(items[f[b - 1] as int] is Free);
        }
    }
    assert forall|j: int| 0 <= j < after.len() && (#[trigger] after[j]) is Free implies g.contains(
        j as usize,
    ) by {
        if j == position {
            assert(g[0] == position);
        } else {
            assert(items[j] is Free);
            let m = choose|m: int| 0 <= m < f.len() && f[m] == j as usize;
            assert(g[m + 1] == j as usize);
        }
    }
    assert(slots_model(after) =~= slots_model(items).update(position as int, None));
}

/// A run of fresh free slots goes behind the slot store and in front of the
/// free list `f`.
pub proof fn lemma_links_extend<T>(items: Seq<Entry<T>>, head: Option<usize>, f: Seq<usize>, additional: nat)
    requires
        is_free_list(items, head, f),
        additional > 0,
        items.len() + additional <= usize::MAX,
    ensures
        is_free_list(
            items + free_run::<T>(items.len() as int, additional, head),
            Some(items.len() as usize),
            ascending(items.len() as int, additional) + f,
        ),
        slots_model(items + free_run::<T>(items.len() as int, additional, head)) == slots_model(
            items,
        ) + Seq::new(additional, |i: int| None),
        entries_in(
            slots_model(items + free_run::<T>(items.len() as int, additional, head)),
            0,
            (items.len() + additional) as int,
        ) == entries_in(slots_model(items), 0, items.len() as int),
{
    let n = items.len() as int;
    let run = free_run::<T>(n, additional, head);
    let after = items + run;
    let g = ascending(n, additional) + f;
    assert forall|k: int| 0 <= k < g.len() implies {
        &&& g[k] < after.len()
        &&& (#[trigger] after[g[k] as int]) is Free
        &&& after[g[k] as int]->next_free == link_after(g, k)
    } by {
        if k < additional {
            assert(g[k] == n + k);
            assert(after[n + k] == run[k]);
            if k + 1 < additional {
                assert(g[k + 1] == n + k + 1);
            } else {
                assert(link_after(g, k) == head_of(f));
            }
        } else {
            assert(g[k] == f[k - additional]);
            assert(items[f[k - additional] as int] is Free);
            assert(after[g[k] as int] == items[f[k - additional] as int]);
            assert(link_after(f, k - additional) == link_after(g, k));
        }
    }
    assert forall|a: int, b: int| 0 <= a < g.len() && 0 <= b < g.len() && a != b implies g[a]
        != g[b] by {
        if a >= additional {
            assert(items[f[a - additional] as int] is Free);
        }
        if b >= additional {
            assert(items[f[b - additional] as int] is Free);
        }
    }
    assert forall|j: int| 0 <= j < after.len() && (#[trigger] after[j]) is Free implies g.contains(
        j as usize,
    ) by {
        if j >= n {
            assert(g[j - n] == j as usize);
        } else {
            assert(items[j] is Free);
            let m = choose|m: int| 0 <= m < f.len() && f[m] == j as usize;
            assert(g[m + additional] == j as usize);
        }
    }
    let slots = slots_model(after);
    assert(slots =~= slots_model(items) + Seq::new(additional, |i: int| None));
    lemma_entries_split(slots, 0, n, n + additional);
    lemma_entries_none(slots, n, n + additional);
    lemma_entries_agree(slots, slots_model(items), 0, n);
    assert(entries_in(slots, 0, n) + Seq::empty() =~= entries_in(slots, 0, n));
}

/// A slot store that is one run of free slots.
pub proof fn lemma_links_fresh<T>(n: nat)
    requires
        0 < n <= usize::MAX,
    ensures
        is_free_list(free_run::<T>(0, n, None), Some(0usize), ascending(0, n)),
        slots_model(free_run::<T>(0, n, None)) == Seq::new(n, |i: int| None::<Occupant<T>>),
        entries_in(slots_model(free_run::<T>(0, n, None)), 0, n as int).len() == 0,
{
    let none = Seq::<Entry<T>>::empty();
    assert(is_free_list(none, None, Seq::<usize>::empty()));
    lemma_links_extend(none, None, Seq::<usize>::empty(), n);
    assert(none + free_run::<T>(0, n, None) =~= free_run::<T>(0, n, None));
    assert(ascending(0, n) + Seq::<usize>::empty() =~= ascending(0, n));
    let slots = slots_model(free_run::<T>(0, n, None));
    assert(slots =~= Seq::new(n, |i: int| None::<Occupant<T>>));
    lemma_entries_none(slots, 0, n as int);
}

/// The value in the occupied slot at `position` changes, its stamp stays.
pub proof fn lemma_links_revalue<T>(
    items: Seq<Entry<T>>,
    head: Option<usize>,
    f: Seq<usize>,
    position: usize,
    value: T,
)
    requires
        is_free_list(items, head, f),
        position < items.len(),
        items[position as int] is Occupied,
    ensures
        ({
            let e = Entry::Occupied { generation: items[position as int]->generation, value };
            &&& is_free_list(items.update(position as int, e), head, f)
            &&& slots_model(items.update(position as int, e)) == slots_model(items).update(
                position as int,
                slot_model(e),
            )
            &&& entries_in(slots_model(items.update(position as int, e)), 0, items.len() as int).len()
                == entries_in(slots_model(items), 0, items.len() as int).len()
        }),
{
    let e = Entry::Occupied { generation: items[position as int]->generation, value };
    let after = items.update(position as int, e);
    assert forall|k: int| 0 <= k < f.len() implies {
        &&& f[k] < after.len()
        &&& (#[trigger] after[f[k] as int]) is Free
        &&& after[f[k] as int]->next_free == link_after(f, k)
    } by {
        assert(items[f[k] as int] is Free);
    }
    assert forall|j: int| 0 <= j < after.len() && (#[trigger] after[j]) is Free implies f.contains(
        j as usize,
    ) by {
        assert(items[j] is Free);
    }
    assert(slots_model(after) =~= slots_model(items).update(position as int, slot_model(e)));
    lemma_entries_update_len(slots_model(items), position as int, slot_model(e));
}

/// The slots come back from a borrow that changed values only.
pub proof fn lemma_same_links<T>(
    items: Seq<Entry<T>>,
    head: Option<usize>,
    f: Seq<usize>,
    later: Seq<Entry<T>>,
)
    requires
        is_free_list(items, head, f),
        same_links(items, later),
    ensures
        is_free_list(later, head, f),
        entries_in(slots_model(later), 0, later.len() as int).len() == entries_in(
            slots_model(items),
            0,
            items.len() as int,
        ).len(),
{
    assert forall|k: int| 0 <= k < f.len() implies {
        &&& f[k] < later.len()
        &&& (#[trigger] later[f[k] as int]) is Free
        &&& later[f[k] as int]->next_free == link_after(f, k)
    } by {
        assert(items[f[k] as int] is Free);
    }
    assert forall|j: int| 0 <= j < later.len() && (#[trigger] later[j]) is Free implies f.contains(
        j as usize,
    ) by {
        if items[j] is Occupied {
            assert(later[j] is Occupied);
        }
        assert(items[j] is Free);
    }
    assert forall|i: int| 0 <= i < items.len() implies (slots_model(later)[i] is Some
        <==> slots_model(items)[i] is Some) by {
        if items[i] is Occupied {
            assert(later[i] is Occupied);
        } else {
            assert(items[i] is Free);
        }
    }
    lemma_entries_same_count(slots_model(later), slots_model(items), 0, items.len() as int);
}

} // verus!

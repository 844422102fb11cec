//! Passes over an arena.
use core::marker::PhantomData;
use crate::index::Index;
use crate::slots::Entry;
use crate::slots::slots_from;
use crate::slots::slots_model;
use crate::view::entries_in;
use crate::view::lemma_entries_agree;
use crate::view::lemma_entries_len;
use crate::view::lemma_entries_one;
use crate::view::lemma_entries_split;
use vstd::prelude::*;

verus! {

/// A pass over the values of an arena, by shared reference.
///
/// Yields each occupied slot's handle and value, in the order of the
/// positions, from either end.
#[derive(Clone, Debug)]
pub struct Iter<'a, T: 'a> {
    items: &'a [Entry<T>],
    front: usize,
    back: usize,
    len: usize,
}

impl<'a, T> Iter<'a, T> {
    /// What the pass has yet to yield, in order: each handle's pair with
    /// its value.
    pub closed spec fn remaining(&self) -> Seq<(crate::delegate_untyped_index::Index, T)> {
        entries_in(slots_model(self.items@), self.front as int, self.back as int)
    }

    /// The pass is well formed: its count is the number of values that it
    /// has yet to yield.
    pub closed spec fn wf(&self) -> bool {
        &&& self.front <= self.back <= self.items@.len()
        &&& self.len == self.remaining().len()
    }

    /// The pass over all of `items`, of which `len` are occupied.
    pub(crate) fn over(items: &'a [Entry<T>], len: usize) -> (r: Iter<'a, T>)
        requires
            len == entries_in(slots_model(items@), 0, items@.len() as int).len(),
        ensures
            r.wf(),
            r.remaining() == entries_in(slots_model(items@), 0, items@.len() as int),
    {
        Iter { items, front: 0, back: items.len(), len }
    }

    /// The next value from the front.
    pub fn next(&mut self) -> (r: Option<(Index<T>, &'a T)>)
        requires
            old(self).wf(),
        ensures
            final(self).wf(),
            match r {
                Some((h, v)) => {
                    &&& old(self).remaining().len() > 0
                    &&& (h@, *v) == old(self).remaining()[0]
                    &&& final(self).remaining() == old(self).remaining().drop_first()
                },
                None => {
                    &&& old(self).remaining().len() == 0
                    &&& final(self).remaining().len() == 0
                },
            },
    {
        let items: &'a [Entry<T>] = self.items;
        let ghost slots = slots_model(items@);
        while self.front < self.back
            invariant
                self.items == items,
                slots == slots_model(items@),
                self.back == old(self).back,
                self.len == old(self).len,
                old(self).wf(),
                old(self).items == items,
                self.front <= self.back <= items@.len(),
                entries_in(slots, self.front as int, self.back as int) == old(self).remaining(),
            decreases self.back - self.front,
        {
            let position: usize = self.front;
            proof {
                lemma_entries_split(slots, position as int, position + 1, self.back as int);
                lemma_entries_one(slots, position as int);
            }
            self.front = self.front + 1;
            match &items[position] {
                Entry::Free { .. } => {
                    assert(Seq::<(crate::delegate_untyped_index::Index, T)>::empty() + entries_in(
                        slots,
                        position + 1,
                        self.back as int,
                    ) =~= entries_in(slots, position + 1, self.back as int));
                },
                Entry::Occupied { generation, value } => {
                    self.len = self.len - 1;
                    let index = Index::new(position, *generation);
                    assert(old(self).remaining().drop_first() =~= entries_in(
                        slots,
                        position + 1,
                        self.back as int,
                    ));
                    return Some((index, value));
                },
            }
        }
        None
    }

    /// The next value from the back.
    pub fn next_back(&mut self) -> (r: Option<(Index<T>, &'a T)>)
        requires
            old(self).wf(),
        ensures
            final(self).wf(),
            match r {
                Some((h, v)) => {
                    &&& old(self).remaining().len() > 0
                    &&& (h@, *v) == old(self).remaining().last()
                    &&& final(self).remaining() == old(self).remaining().drop_last()
                },
                None => {
                    &&& old(self).remaining().len() == 0
                    &&& final(self).remaining().len() == 0
                },
            },
    {
        let items: &'a [Entry<T>] = self.items;
        let ghost slots = slots_model(items@);
        while self.front < self.back
            invariant
                self.items == items,
                slots == slots_model(items@),
                self.front == old(self).front,
                self.len == old(self).len,
                old(self).wf(),
                old(self).items == items,
                self.front <= self.back <= items@.len(),
                entries_in(slots, self.front as int, self.back as int) == old(self).remaining(),
            decreases self.back - self.front,
        {
            self.back = self.back - 1;
            let position: usize = self.back;
            match &items[position] {
                Entry::Free { .. } => {},
                Entry::Occupied { generation, value } => {
                    self.len = self.len - 1;
                    let index = Index::new(position, *generation);
                    assert(old(self).remaining().drop_last() =~= entries_in(
                        slots,
                        self.front as int,
                        position as int,
                    ));
                    return Some((index, value));
                },
            }
        }
        None
    }

    /// How many values the pass has yet to yield.
    pub fn len(&self) -> (r: usize)
        requires
            self.wf(),
        ensures
            r == self.remaining().len(),
    {
        self.len
    }

    /// The bounds on what is left, which are both the exact count.
    pub fn size_hint(&self) -> (r: (usize, Option<usize>))
        requires
            self.wf(),
        ensures
            r.0 == self.remaining().len(),
            r.1 == Some(r.0),
    {
        (self.len, Some(self.len))
    }
}

/// A pass over the values of an arena, by exclusive reference.
///
/// Yields each occupied slot's handle and a reference to write its value
/// through, in the order of the positions, from either end. The pass holds
/// the borrow of the slots that it has not passed yet.
#[derive(Debug)]
pub struct IterMut<'a, T: 'a> {
    rest: &'a mut [Entry<T>],
    front: usize,
    len: usize,
}

impl<'a, T> IterMut<'a, T> {
    /// The borrow of the slots that the pass has not passed yet. Its
    /// current value is those slots as they are; its final value is what
    /// they are when the borrow ends.
    pub closed spec fn lent(&self) -> &'a mut [Entry<T>] {
        self.rest
    }

    /// The position of the first slot that the pass has not passed yet.
    pub closed spec fn start(&self) -> usize {
        self.front
    }

    /// What the pass has yet to yield, in order: each handle's pair with
    /// the value as it is now.
    pub closed spec fn remaining(&self) -> Seq<(crate::delegate_untyped_index::Index, T)> {
        entries_in(
            slots_from(self.front as int, self.rest@),
            self.front as int,
            self.front + self.rest@.len(),
        )
    }

    /// The pass is well formed: its count is the number of values that it
    /// has yet to yield.
    pub closed spec fn wf(&self) -> bool {
        &&& self.front + self.rest@.len() <= usize::MAX
        &&& self.len == self.remaining().len()
    }

    /// Once the pass is not used any more, the slots that it still holds
    /// stay as they are.
    pub proof fn lemma_ended(&self)
        requires
            has_resolved(*self),
        ensures
            final(self.lent())@ == self.lent()@,
    {
    }

    /// The pass over all of `items`, of which `len` are occupied.
    pub(crate) fn over(items: &'a mut [Entry<T>], len: usize) -> (r: IterMut<'a, T>)
        requires
            len == entries_in(slots_model(old(items)@), 0, old(items)@.len() as int).len(),
        ensures
            r.wf(),
            r.start() == 0,
            r.lent()@ == old(items)@,
            final(items)@ == final(r.lent())@,
            r.remaining() == entries_in(slots_model(old(items)@), 0, old(items)@.len() as int),
    {
        let slots: usize = items.len();
        proof {
            assert(slots == items@.len());
            assert(slots_from(0, items@) =~= slots_model(items@));
        }
        IterMut { rest: items, front: 0, len }
    }

    /// The next value from the front.
    ///
    /// The slots that the pass held before are, in the end, the free slots
    /// that it skipped, the slot of the yielded value with what was written
    /// through the reference, and then the slots that it still holds.
    pub fn next(&mut self) -> (r: Option<(Index<T>, &'a mut T)>)
        requires
            old(self).wf(),
        ensures
            final(self).wf(),
            match r {
                Some((h, v)) => {
                    &&& old(self).remaining().len() > 0
                    &&& (h@, *v) == old(self).remaining()[0]
                    &&& final(self).remaining() == old(self).remaining().drop_first()
                    &&& old(self).start() <= h@.index < old(self).start() + old(self).lent()@.len()
                    &&& old(self).lent()@[h@.index - old(self).start()] == (Entry::Occupied {
                        generation: h@.generation,
                        value: *v,
                    })
                    &&& final(self).start() == h@.index + 1
                    &&& final(self).lent()@ == old(self).lent()@.skip(
                        h@.index + 1 - old(self).start(),
                    )
                    &&& final(old(self).lent())@ == old(self).lent()@.take(
                        h@.index - old(self).start(),
                    ).push(Entry::Occupied { generation: h@.generation, value: *final(v) })
                        + final(final(self).lent())@
                },
                None => {
                    &&& old(self).remaining().len() == 0
                    &&& final(self).remaining().len() == 0
                    &&& final(self).lent()@.len() == 0
                    &&& final(old(self).lent())@ == old(self).lent()@ + final(final(self).lent())@
                },
            },
    {
        let ghost all = self.rest@;
        let ghost first = self.front as int;
        let ghost end = self.front + self.rest@.len();
        let ghost slots = slots_from(first, all);
        while self.rest.len() > 0
            invariant
                old(self).wf(),
                all == old(self).rest@,
                first == old(self).front,
                end == first + all.len(),
                slots == slots_from(first, all),
                self.len == old(self).len,
                first <= self.front,
                self.front + self.rest@.len() == end,
                self.rest@ == all.skip(self.front - first),
                entries_in(slots, self.front as int, end) == old(self).remaining(),
                final(old(self).rest)@ == all.take(self.front - first) + final(self.rest)@,
            decreases self.rest@.len(),
        {
            let position: usize = self.front;
            let ghost done = position - first;
            proof {
                lemma_entries_split(slots, position as int, position + 1, end);
                lemma_entries_one(slots, position as int);
            }
            let mut held: &'a mut [Entry<T>] = &mut [];
            core::mem::swap(&mut self.rest, &mut held);
            let (head, tail) = held.split_at_mut(1);
            self.rest = tail;
            self.front = self.front + 1;
            assert(self.rest@ =~= all.skip(done + 1));
            assert(head@ =~= seq![all[done]]);
            match &mut head[0] {
                Entry::Free { .. } => {
                    proof {
                        assert(Seq::<(crate::delegate_untyped_index::Index, T)>::empty()
                            + entries_in(slots, position + 1, end) =~= entries_in(
                            slots,
                            position + 1,
                            end,
                        ));
                        assert(all.take(done) + (seq![all[done]] + final(self.rest)@) =~= all.take(
                            done + 1,
                        ) + final(self.rest)@);
                    }
                },
                Entry::Occupied { generation, value } => {
                    self.len = self.len - 1;
                    let index = Index::new(position, *generation);
                    proof {
                        assert(old(self).remaining().drop_first() =~= entries_in(
                            slots,
                            position + 1,
                            end,
                        ));
                        lemma_entries_agree(
                            slots,
                            slots_from(self.front as int, self.rest@),
                            position + 1,
                            end,
                        );
                        let e = Entry::Occupied { generation: *generation, value: *final(value) };
                        assert(all.take(done) + (seq![e] + final(self.rest)@) =~= all.take(
                            done,
                        ).push(e) + final(self.rest)@);
                    }
                    return Some((index, value));
                },
            }
        }
        proof {
            lemma_entries_len(slots, self.front as int, end);
            assert(all.take(all.len() as int) =~= all);
        }
        None
    }

    /// The next value from the back.
    ///
    /// The slots that the pass held before are, in the end, the slots that
    /// it still holds, the slot of the yielded value with what was written
    /// through the reference, and then the free slots that it skipped.
    pub fn next_back(&mut self) -> (r: Option<(Index<T>, &'a mut T)>)
        requires
            old(self).wf(),
        ensures
            final(self).wf(),
            final(self).start() == old(self).start(),
            match r {
                Some((h, v)) => {
                    &&& old(self).remaining().len() > 0
                    &&& (h@, *v) == old(self).remaining().last()
                    &&& final(self).remaining() == old(self).remaining().drop_last()
                    &&& old(self).start() <= h@.index < old(self).start() + old(self).lent()@.len()
                    &&& old(self).lent()@[h@.index - old(self).start()] == (Entry::Occupied {
                        generation: h@.generation,
                        value: *v,
                    })
                    &&& final(self).lent()@ == old(self).lent()@.take(
                        h@.index - old(self).start(),
                    )
                    &&& final(old(self).lent())@ == final(final(self).lent())@.push(
                        Entry::Occupied { generation: h@.generation, value: *final(v) },
                    ) + old(self).lent()@.skip(h@.index + 1 - old(self).start())
                },
                None => {
                    &&& old(self).remaining().len() == 0
                    &&& final(self).remaining().len() == 0
                    &&& final(self).lent()@.len() == 0
                    &&& final(old(self).lent())@ == final(final(self).lent())@ + old(self).lent()@
                },
            },
    {
        let ghost all = self.rest@;
        let ghost first = self.front as int;
        let ghost slots = slots_from(first, all);
        while self.rest.len() > 0
            invariant
                old(self).wf(),
                all == old(self).rest@,
                first == old(self).front,
                slots == slots_from(first, all),
                self.len == old(self).len,
                self.front == first,
                self.rest@.len() <= all.len(),
                self.rest@ == all.take(self.rest@.len() as int),
                entries_in(slots, first, first + self.rest@.len()) == old(self).remaining(),
                final(old(self).rest)@ == final(self.rest)@ + all.skip(self.rest@.len() as int),
            decreases self.rest@.len(),
        {
            let last: usize = self.rest.len() - 1;
            let position: usize = self.front + last;
            let mut held: &'a mut [Entry<T>] = &mut [];
            core::mem::swap(&mut self.rest, &mut held);
            let (init, tail) = held.split_at_mut(last);
            self.rest = init;
            assert(self.rest@ =~= all.take(last as int));
            assert(tail@ =~= seq![all[last as int]]);
            match &mut tail[0] {
                Entry::Free { .. } => {
                    proof {
                        assert(final(self.rest)@ + seq![all[last as int]] + all.skip(last + 1)
                            =~= final(self.rest)@ + all.skip(last as int));
                    }
                },
                Entry::Occupied { generation, value } => {
                    self.len = self.len - 1;
                    let index = Index::new(position, *generation);
                    proof {
                        assert(old(self).remaining().drop_last() =~= entries_in(
                            slots,
                            first,
                            position as int,
                        ));
                        lemma_entries_agree(
                            slots,
                            slots_from(first, self.rest@),
                            first,
                            position as int,
                        );
                        let e = Entry::Occupied { generation: *generation, value: *final(value) };
                        let kept = final(self.rest)@;
                        assert(kept + seq![e] + all.skip(last + 1) =~= kept.push(e) + all.skip(
                            last + 1,
                        ));
                    }
                    return Some((index, value));
                },
            }
        }
        proof {
            assert(all.skip(0) =~= all);
        }
        None
    }

    /// How many values the pass has yet to yield.
    pub fn len(&self) -> (r: usize)
        requires
            self.wf(),
        ensures
            r == self.remaining().len(),
    {
        self.len
    }

    /// The bounds on what is left, which are both the exact count.
    pub fn size_hint(&self) -> (r: (usize, Option<usize>))
        requires
            self.wf(),
        ensures
            r.0 == self.remaining().len(),
            r.1 == Some(r.0),
    {
        (self.len, Some(self.len))
    }
}

/// A pass that takes the values out of an arena that it has consumed.
///
/// Yields each value, in the order of the positions, from either end.
#[derive(Clone, Debug)]
pub struct IntoIter<T> {
    items: Vec<Entry<T>>,
    front: usize,
    len: usize,
}

impl<T> IntoIter<T> {
    /// What the pass has yet to yield, in order: each value with the pair
    /// of the handle that named it.
    pub closed spec fn remaining(&self) -> Seq<(crate::delegate_untyped_index::Index, T)> {
        entries_in(slots_model(self.items@), self.front as int, self.items@.len() as int)
    }

    /// The pass is well formed: its count is the number of values that it
    /// has yet to yield.
    pub closed spec fn wf(&self) -> bool {
        &&& self.front <= self.items@.len()
        &&& self.len == self.remaining().len()
    }

    /// The pass over all of `items`, of which `len` are occupied.
    pub(crate) fn over(items: Vec<Entry<T>>, len: usize) -> (r: IntoIter<T>)
        requires
            len == entries_in(slots_model(items@), 0, items@.len() as int).len(),
        ensures
            r.wf(),
            r.remaining() == entries_in(slots_model(items@), 0, items@.len() as int),
    {
        IntoIter { items, front: 0, len }
    }

    /// The next value from the front.
    pub fn next(&mut self) -> (r: Option<T>)
        requires
            old(self).wf(),
        ensures
            final(self).wf(),
            match r {
                Some(v) => {
                    &&& old(self).remaining().len() > 0
                    &&& v == old(self).remaining()[0].1
                    &&& final(self).remaining() == old(self).remaining().drop_first()
                },
                None => {
                    &&& old(self).remaining().len() == 0
                    &&& final(self).remaining().len() == 0
                },
            },
    {
        while self.front < self.items.len()
            invariant
                old(self).wf(),
                self.len == old(self).len,
                self.front <= self.items@.len(),
                self.remaining() == old(self).remaining(),
            decreases self.items@.len() - self.front,
        {
            let position: usize = self.front;
            let ghost slots = slots_model(self.items@);
            let ghost end = self.items@.len() as int;
            proof {
                lemma_entries_split(slots, position as int, position + 1, end);
                lemma_entries_one(slots, position as int);
            }
            let mut entry = Entry::default();
            core::mem::swap(&mut self.items[position], &mut entry);
            self.front = self.front + 1;
            proof {
                lemma_entries_agree(slots, slots_model(self.items@), position + 1, end);
            }
            match entry {
                Entry::Free { .. } => {
                    assert(Seq::<(crate::delegate_untyped_index::Index, T)>::empty() + entries_in(
                        slots,
                        position + 1,
                        end,
                    ) =~= entries_in(slots, position + 1, end));
                },
                Entry::Occupied { value, .. } => {
                    self.len = self.len - 1;
                    assert(old(self).remaining().drop_first() =~= entries_in(
                        slots,
                        position + 1,
                        end,
                    ));
                    return Some(value);
                },
            }
        }
        None
    }

    /// The next value from the back.
    pub fn next_back(&mut self) -> (r: Option<T>)
        requires
            old(self).wf(),
        ensures
            final(self).wf(),
            match r {
                Some(v) => {
                    &&& old(self).remaining().len() > 0
                    &&& v == old(self).remaining().last().1
                    &&& final(self).remaining() == old(self).remaining().drop_last()
                },
                None => {
                    &&& old(self).remaining().len() == 0
                    &&& final(self).remaining().len() == 0
                },
            },
    {
        while self.front < self.items.len()
            invariant
                old(self).wf(),
                self.len == old(self).len,
                self.front == old(self).front,
                self.front <= self.items@.len(),
                self.remaining() == old(self).remaining(),
            decreases self.items@.len() - self.front,
        {
            let ghost slots = slots_model(self.items@);
            let ghost end = self.items@.len() as int;
            let entry = self.items.pop();
            proof {
                lemma_entries_agree(slots, slots_model(self.items@), self.front as int, end - 1);
            }
            match entry {
                Some(Entry::Occupied { value, .. }) => {
                    self.len = self.len - 1;
                    assert(old(self).remaining().drop_last() =~= entries_in(
                        slots,
                        self.front as int,
                        end - 1,
                    ));
                    return Some(value);
                },
                _ => {},
            }
        }
        None
    }

    /// How many values the pass has yet to yield.
    pub fn len(&self) -> (r: usize)
        requires
            self.wf(),
        ensures
            r == self.remaining().len(),
    {
        self.len
    }

    /// The bounds on what is left, which are both the exact count.
    pub fn size_hint(&self) -> (r: (usize, Option<usize>))
        requires
            self.wf(),
        ensures
            r.0 == self.remaining().len(),
            r.1 == Some(r.0),
    {
        (self.len, Some(self.len))
    }
}

/// The values that were drained from an arena, each with the handle that
/// named it, in the order of the positions.
///
/// The arena has lost them all by the time this exists, whether or not
/// they are taken from here.
#[derive(Debug)]
pub struct Drain<'a, T: 'a> {
    taken: Vec<(Index<T>, T)>,
    _arena: PhantomData<&'a mut T>,
}

impl<'a, T> Drain<'a, T> {
    /// What is yet to be yielded, in order: each handle's pair with its
    /// value.
    pub closed spec fn remaining(&self) -> Seq<(crate::delegate_untyped_index::Index, T)> {
        Seq::new(
            self.taken@.len(),
            |k: int|
                (self.taken@[self.taken@.len() - 1 - k].0@, self.taken@[self.taken@.len() - 1 - k].1),
        )
    }

    /// Nothing drained yet.
    pub(crate) fn empty() -> (r: Drain<'a, T>)
        ensures
            r.remaining() == Seq::<(crate::delegate_untyped_index::Index, T)>::empty(),
    {
        let r = Drain { taken: Vec::new(), _arena: PhantomData };
        assert(r.remaining() =~= Seq::empty());
        r
    }

    /// Puts `value`, which `index` named, in front of what is yet to be
    /// yielded.
    pub(crate) fn put_first(&mut self, index: Index<T>, value: T)
        ensures
            final(self).remaining() == seq![(index@, value)] + old(self).remaining(),
    {
        self.taken.push((index, value));
        assert(self.remaining() =~= seq![(index@, value)] + old(self).remaining());
    }

    /// The next value, with its handle.
    pub fn next(&mut self) -> (r: Option<(Index<T>, T)>)
        ensures
            match r {
                Some((h, v)) => {
                    &&& old(self).remaining().len() > 0
                    &&& (h@, v) == old(self).remaining()[0]
                    &&& final(self).remaining() == old(self).remaining().drop_first()
                },
                None => {
                    &&& old(self).remaining().len() == 0
                    &&& final(self).remaining().len() == 0
                },
            },
    {
        let r = self.taken.pop();
        assert(r is Some ==> self.remaining() =~= old(self).remaining().drop_first());
        r
    }
}

} // verus!

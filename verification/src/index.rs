//! Typed handles.
use core::cmp::Ordering;
use core::marker::PhantomData;
use vstd::prelude::*;
use vstd::std_specs::cmp::PartialEqSpecImpl;
use vstd::std_specs::cmp::PartialOrdSpecImpl;

verus! {

/// A handle to a value of type `T` in an [`Arena`](crate::Arena).
///
/// Inserting a value returns its handle. The element type is a compile-time
/// tag only: a handle is the pair of position and generation that its view
/// shows, and it is compared, ordered and hashed as that pair.
#[derive(Debug, Hash, Ord)]
pub struct Index<T> {
    index: usize,
    generation: u64,
    _phantom: PhantomData<T>,
}

impl<T> View for Index<T> {
    type V = crate::delegate_untyped_index::Index;

    closed spec fn view(&self) -> crate::delegate_untyped_index::Index {
        crate::delegate_untyped_index::Index { index: self.index, generation: self.generation }
    }
}

/// The order of two pairs: by position, then by generation.
pub open spec fn pair_order(
    a: crate::delegate_untyped_index::Index,
    b: crate::delegate_untyped_index::Index,
) -> Ordering {
    if a.index < b.index {
        Ordering::Less
    } else if a.index > b.index {
        Ordering::Greater
    } else if a.generation < b.generation {
        Ordering::Less
    } else if a.generation > b.generation {
        Ordering::Greater
    } else {
        Ordering::Equal
    }
}

impl<T> Index<T> {
    /// The handle whose pair is `pair`.
    pub closed spec fn from_pair(pair: crate::delegate_untyped_index::Index) -> Index<T> {
        Index { index: pair.index, generation: pair.generation, _phantom: PhantomData }
    }

    /// The handle for `index` and `generation`.
    pub fn new(index: usize, generation: u64) -> (r: Index<T>)
        ensures
            r@.index == index,
            r@.generation == generation,
            r == Index::<T>::from_pair(r@),
    {
        Index { index, generation, _phantom: PhantomData }
    }

    /// The handle's pair, without the element type.
    pub fn as_untyped(&self) -> (r: crate::delegate_untyped_index::Index)
        ensures
            r == self@,
    {
        crate::delegate_untyped_index::Index { index: self.index, generation: self.generation }
    }

    /// A handle is its pair: two handles with the same pair are the same
    /// handle, and every pair is the pair of its handle.
    pub proof fn lemma_pair(a: Index<T>, b: Index<T>, pair: crate::delegate_untyped_index::Index)
        ensures
            a@ == b@ <==> a == b,
            Index::<T>::from_pair(pair)@ == pair,
            Index::<T>::from_pair(a@) == a,
    {
    }
}

impl<T> Clone for Index<T> {
    fn clone(&self) -> (r: Index<T>)
        ensures
            r == *self,
    {
        Index::new(self.index, self.generation)
    }
}

impl<T> Copy for Index<T> {

}

impl<T> PartialEq for Index<T> {
    fn eq(&self, other: &Self) -> (r: bool) {
        self.as_untyped() == other.as_untyped()
    }
}

impl<T> PartialEqSpecImpl for Index<T> {
    open spec fn obeys_eq_spec() -> bool {
        true
    }

    open spec fn eq_spec(&self, other: &Self) -> bool {
        self@ == other@
    }
}

impl<T> Eq for Index<T> {

}

impl<T> PartialOrd for Index<T> {
    fn partial_cmp(&self, other: &Self) -> (r: Option<Ordering>) {
        if self.index < other.index {
            Some(Ordering::Less)
        } else if self.index > other.index {
            Some(Ordering::Greater)
        } else if self.generation < other.generation {
            Some(Ordering::Less)
        } else if self.generation > other.generation {
            Some(Ordering::Greater)
        } else {
            Some(Ordering::Equal)
        }
    }
}

impl<T> PartialOrdSpecImpl for Index<T> {
    open spec fn obeys_partial_cmp_spec() -> bool {
        true
    }

    open spec fn partial_cmp_spec(&self, other: &Self) -> Option<Ordering> {
        Some(pair_order(self@, other@))
    }
}

} // verus!

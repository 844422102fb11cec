//! Slot positions of a chosen width.
use vstd::prelude::*;

verus! {

/// An integer type that can stand for a slot position. A narrow type
/// makes for small handles and bounds the number of slots by its greatest
/// value: a position beyond it is refused, never truncated.
pub trait ArenaIndex: Sized {
    /// The slot offset that the position stands for.
    spec fn offset(&self) -> nat;

    /// The greatest slot offset that the type holds.
    spec fn greatest() -> nat;

    /// The position as a slot offset, unless the machine's offsets are
    /// too narrow for it.
    fn to_idx(&self) -> (r: Option<usize>)
        ensures
            match r {
                Some(n) => n == self.offset(),
                None => self.offset() > usize::MAX,
            },
    ;

    /// The position for the slot offset `n`, unless the type is too
    /// narrow for it.
    fn from_idx(n: usize) -> (r: Option<Self>)
        ensures
            match r {
                Some(p) => p.offset() == n && n <= Self::greatest(),
                None => n > Self::greatest(),
            },
    ;
}

/// `<usize as num_traits::ToPrimitive>::to_usize`: the number itself,
/// always.
#[verifier::external_body]
fn usize_to_usize(n: &usize) -> (r: Option<usize>)
    ensures
        r == Some(*n),
{
    num_traits::ToPrimitive::to_usize(n)
}

/// `<usize as num_traits::FromPrimitive>::from_usize`: the number itself,
/// always.
#[verifier::external_body]
fn usize_from_usize(n: usize) -> (r: Option<usize>)
    ensures
        r == Some(n),
{
    <usize as num_traits::FromPrimitive>::from_usize(n)
}

/// `<u32 as num_traits::ToPrimitive>::to_usize`: the number as a `usize`
/// where it is at most `usize::MAX`, and `None` where it is not.
#[verifier::external_body]
fn u32_to_usize(n: &u32) -> (r: Option<usize>)
    ensures
        match r {
            Some(m) => m == *n,
            None => *n > usize::MAX,
        },
{
    num_traits::ToPrimitive::to_usize(n)
}

/// `<u32 as num_traits::FromPrimitive>::from_usize`: the number as a
/// `u32` where it is at most `u32::MAX`, and `None` where it is not.
#[verifier::external_body]
fn u32_from_usize(n: usize) -> (r: Option<u32>)
    ensures
        match r {
            Some(m) => m == n,
            None => n > u32::MAX,
        },
{
    <u32 as num_traits::FromPrimitive>::from_usize(n)
}

impl ArenaIndex for usize {
    open spec fn offset(&self) -> nat {
        *self as nat
    }

    open spec fn greatest() -> nat {
        usize::MAX as nat
    }

    fn to_idx(&self) -> (r: Option<usize>) {
        usize_to_usize(self)
    }

    fn from_idx(n: usize) -> (r: Option<Self>) {
        usize_from_usize(n)
    }
}

impl ArenaIndex for u32 {
    open spec fn offset(&self) -> nat {
        *self as nat
    }

    open spec fn greatest() -> nat {
        u32::MAX as nat
    }

    fn to_idx(&self) -> (r: Option<usize>) {
        u32_to_usize(self)
    }

    fn from_idx(n: usize) -> (r: Option<Self>) {
        u32_from_usize(n)
    }
}

} // verus!

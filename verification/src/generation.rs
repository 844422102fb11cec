//! Generation counters.
use vstd::prelude::*;

verus! {

/// A type whose values can stamp the slots of an arena: it has a first
/// generation, and every generation but the last has a next one.
pub trait GenerationalIndex: Eq + Sized {
    /// The first generation.
    spec fn first() -> Self;

    /// There is a generation after this one.
    spec fn has_next(&self) -> bool;

    /// The generation after this one.
    spec fn next(&self) -> Self;

    /// The first generation.
    fn first_generation() -> (g: Self)
        ensures
            g == Self::first(),
    ;

    /// Advances to the next generation. A numeric generation must not be
    /// the greatest value of its type.
    fn increment_generation(&mut self)
        requires
            old(self).has_next(),
        ensures
            *final(self) == old(self).next(),
    ;
}

/// The generation that is always the same: an arena stamped with it tells
/// no occupant of a slot from the one before.
#[derive(Debug, Copy, Clone, PartialEq, Eq, Structural)]
pub struct IgnoreGeneration;

impl GenerationalIndex for IgnoreGeneration {
    open spec fn first() -> Self {
        IgnoreGeneration
    }

    open spec fn has_next(&self) -> bool {
        true
    }

    open spec fn next(&self) -> Self {
        IgnoreGeneration
    }

    fn first_generation() -> (g: Self) {
        IgnoreGeneration
    }

    fn increment_generation(&mut self) {
    }
}

/// `<u64 as num_traits::FromPrimitive>::from_u8`: the number `n` as a
/// `u64`. The conversion widens, so it never fails.
#[verifier::external_body]
fn u64_from_u8(n: u8) -> (r: Option<u64>)
    ensures
        r == Some(n as u64),
{
    <u64 as num_traits::FromPrimitive>::from_u8(n)
}

/// `<u32 as num_traits::FromPrimitive>::from_u8`: the number `n` as a
/// `u32`. The conversion widens, so it never fails.
#[verifier::external_body]
fn u32_from_u8(n: u8) -> (r: Option<u32>)
    ensures
        r == Some(n as u32),
{
    <u32 as num_traits::FromPrimitive>::from_u8(n)
}

impl GenerationalIndex for u64 {
    open spec fn first() -> Self {
        0
    }

    open spec fn has_next(&self) -> bool {
        *self < u64::MAX
    }

    open spec fn next(&self) -> Self {
        (*self + 1) as u64
    }

    fn first_generation() -> (g: Self) {
        0
    }

    fn increment_generation(&mut self) {
        *self = *self + u64_from_u8(1).unwrap();
    }
}

impl GenerationalIndex for u32 {
    open spec fn first() -> Self {
        0
    }

    open spec fn has_next(&self) -> bool {
        *self < u32::MAX
    }

    open spec fn next(&self) -> Self {
        (*self + 1) as u32
    }

    fn first_generation() -> (g: Self) {
        0
    }

    fn increment_generation(&mut self) {
        *self = *self + u32_from_u8(1).unwrap();
    }
}

} // verus!

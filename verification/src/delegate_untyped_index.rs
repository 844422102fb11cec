//! The plain pair behind a handle.
use vstd::prelude::*;

verus! {

/// A slot position together with the generation stamped into the slot.
///
/// This is what a handle is once the element type is forgotten. Handles are
/// compared, ordered and hashed as this pair, position first.
#[derive(Clone, Copy, Debug, PartialEq, Eq, PartialOrd, Ord, Hash, Structural)]
pub struct Index {
    pub index: usize,
    pub generation: u64,
}

} // verus!

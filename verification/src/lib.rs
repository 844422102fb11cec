//! A generational arena: a growable store of values that are named by
//! lightweight handles and may be deleted in any order.
//!
//! A handle is a pair of a slot position and the generation that was stamped
//! into the slot when the value went in. Removing a value advances the
//! arena's generation, and so does clearing or draining an arena that holds
//! one, so a handle kept beyond the removal never resolves to whatever
//! reuses the slot afterwards.
//!
//! Every operation carries a contract over [`ArenaView`], the mathematical
//! model of an arena: its slots, its free list from the head on, and its
//! generation counter.
pub mod arena;
pub mod delegate_untyped_index;
pub mod generation;
pub mod index;
pub mod iter;
pub mod laws;
pub mod position;
pub mod slots;
pub mod view;

pub use arena::Arena;
pub use generation::GenerationalIndex;
pub use generation::IgnoreGeneration;
pub use index::Index;
pub use iter::Drain;
pub use iter::IntoIter;
pub use iter::Iter;
pub use iter::IterMut;
pub use position::ArenaIndex;
pub use view::ArenaView;
pub use view::Occupant;

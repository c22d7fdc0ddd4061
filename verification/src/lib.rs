//! A thread-safe allocator of unique integer ids, backed by a 64-ary radix
//! tree of occupancy bitmaps.
//!
//! Ids are handed out lowest-free-first from the range `[0, 2^64)`.  Memory is
//! proportional to the number of tree nodes actually touched by live ids, so
//! sparse id sets (id 5 next to id 5,000,000) stay cheap.  The tree itself
//! ([`IdaNode`]) is verified; [`Ida`] wraps one tree behind a verified lock
//! whose invariant is the tree's well-formedness, so that every public call
//! runs as one critical section on a well-formed tree.

mod node;
mod sync;

pub use node::IdaNode;
pub use sync::Ida;

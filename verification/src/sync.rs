//! The shared allocator: one radix tree behind a verified spin-acquired
//! lock whose invariant is the tree's well-formedness at the allocator's
//! full depth.
//!
//! Every public call acquires the lock, runs the verified tree operation to
//! completion inside the critical section, and releases the lock.  Mutations
//! hold the lock exclusively, queries share it with other queries only, so
//! concurrent calls behave as if fully serialized; what each one returns is
//! pinned down by the contracts on [`IdaNode`], applied to the tree state
//! the call found under the lock.  No sequential `ensures` can name that
//! hidden shared state, so the methods here carry none: the verified
//! behaviour lives on [`IdaNode`], and the lock invariant carries `wf` from
//! call to call, machine-checked at every acquire and release.

use crate::node::{IdaNode, IDA_MAX_LEVELS};
use vstd::prelude::*;
use vstd::rwlock::{RwLock, RwLockPredicate};

verus! {

/// The lock invariant: between calls the tree is well-formed at the
/// allocator's full depth, so every operation may assume it and must
/// re-establish it.
pub struct IdaInv;

impl RwLockPredicate<IdaNode> for IdaInv {
    open spec fn inv(self, n: IdaNode) -> bool {
        n.wf((IDA_MAX_LEVELS - 1) as nat)
    }
}

/// A thread-safe id allocator over the id space `[0, 2^64)`.
pub struct Ida {
    root: RwLock<IdaNode, IdaInv>,
}

impl Ida {
    /// Creates an allocator with no allocated ids.
    pub fn new() -> Self {
        let node = IdaNode::new();
        proof {
            assert(node.wf((IDA_MAX_LEVELS - 1) as nat));
        }
        Ida { root: RwLock::new(node, Ghost(IdaInv)) }
    }

    /// Allocates the lowest free id, or returns `None` once all of
    /// `[0, 2^64)` is in use.  See `IdaNode::allocate` for the verified
    /// single-call behaviour.
    pub fn allocate(&self) -> Option<u64> {
        let (mut node, handle) = self.root.acquire_write();
        let r = node.allocate(IDA_MAX_LEVELS - 1);
        handle.release_write(node);
        r
    }

    /// Releases an id.  Freeing an id that is not allocated, including one
    /// whose subtree was never created, is a no-op.  See `IdaNode::free`.
    pub fn free(&self, id: u64) {
        let (mut node, handle) = self.root.acquire_write();
        node.free(id, IDA_MAX_LEVELS - 1);
        handle.release_write(node);
    }

    /// Reports whether `id` is currently allocated.  See
    /// `IdaNode::is_allocated`.
    pub fn is_allocated(&self, id: u64) -> bool {
        let handle = self.root.acquire_read();
        let r = handle.borrow().is_allocated(id, IDA_MAX_LEVELS - 1);
        handle.release_read();
        r
    }

    /// An unstable diagnostic rendering of the allocator's internal state,
    /// for debugging only: it carries no format guarantee and must not be
    /// parsed by callers.
    pub fn debug_dump(&self) -> String {
        let handle = self.root.acquire_read();
        let out = handle.borrow().debug_dump();
        handle.release_read();
        out
    }
}

impl Default for Ida {
    fn default() -> Self {
        Ida::new()
    }
}

} // verus!

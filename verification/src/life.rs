//! Per-resource lifetime marker.
//!
//! Every resource carries a [`LifeGuard`]: the number of external references
//! still held on it, and the index of the last hardware submission that
//! touches it. A resource may be reclaimed only once its reference count is
//! zero and the submission named by `last_use` has completed.

use vstd::prelude::*;

verus! {

/// Lifetime marker of one resource: outstanding external references and the
/// last submission index that references the resource.
pub struct LifeGuard {
    /// External references still held by the caller. Zero means the caller
    /// has dropped the resource; it then lives only as long as in-flight
    /// submissions need it.
    pub ref_count: u64,
    /// Index of the last hardware submission that references this resource.
    /// Non-decreasing over the resource's lifetime.
    pub last_use: u64,
}

impl LifeGuard {
    /// A fresh resource: one external reference, never used by any submission.
    pub fn new() -> (g: LifeGuard)
        ensures
            g.ref_count == 1,
            g.last_use == 0,
    {
        LifeGuard { ref_count: 1, last_use: 0 }
    }

    /// Records that the submission with index `index` references this
    /// resource, and reports whether the resource still had outstanding
    /// external references before the call (repeat-use detection within one
    /// submission relies on this answer).
    ///
    /// `last_use` is monotonically non-decreasing: submission indices are
    /// handed out in increasing order, so the new mark never moves backwards.
    pub fn use_at(&mut self, index: u64) -> (had_refs: bool)
        requires
            old(self).last_use <= index,
        ensures
            final(self).last_use == index,
            final(self).last_use >= old(self).last_use,
            final(self).ref_count == old(self).ref_count,
            had_refs == (old(self).ref_count > 0),
    {
        self.last_use = index;
        self.ref_count > 0
    }
}

} // verus!

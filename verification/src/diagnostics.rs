//! Read-only observability state for an external diagnostics collaborator.
//! The core only counts; it never formats or displays.

use vstd::prelude::*;

verus! {

/// Running count of host update frames, wrapping on overflow.
pub struct UpdateTimeDiagnosticsState {
    pub update_count: u64,
}

impl UpdateTimeDiagnosticsState {
    /// Starts at zero.
    pub fn new() -> (r: UpdateTimeDiagnosticsState)
        ensures
            r.update_count == 0,
    {
        UpdateTimeDiagnosticsState { update_count: 0 }
    }

    /// Records one update frame; the count wraps around on overflow.
    pub fn record_update(&mut self)
        ensures
            old(self).update_count < u64::MAX ==> final(self).update_count == old(
                self,
            ).update_count + 1,
            old(self).update_count == u64::MAX ==> final(self).update_count == 0,
    {
        if self.update_count < u64::MAX {
            self.update_count = self.update_count + 1;
        } else {
            self.update_count = 0;
        }
    }
}

} // verus!

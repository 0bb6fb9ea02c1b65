//! The clock abstraction: a single operation returning "now" as a comparable
//! instant, swappable for deterministic testing. Production implementations
//! read a system monotonic clock outside this library; the mock here is a
//! manually advanced counter.

use std::sync::Arc;
use vstd::prelude::*;
use vstd::rwlock::{RwLock, RwLockPredicate};

use crate::seqx::sat_add;
use crate::sharing::arc_clone;

verus! {

/// Supplies a monotonically non-decreasing notion of "now" for expiry
/// decisions.
pub trait TimeSource {
    /// The current instant, in the clock's units.
    fn now(&self) -> u64;
}

/// Lock predicate for a plain instant: any value is valid.
pub struct InstantInv {}

impl RwLockPredicate<u64> for InstantInv {
    open spec fn inv(self, v: u64) -> bool {
        true
    }
}

/// A manually advanced clock for deterministic testing. Cloned handles share
/// one instant.
pub struct MockTimeSource {
    instant: Arc<RwLock<u64, InstantInv>>,
}

impl MockTimeSource {
    pub fn new(start: u64) -> MockTimeSource {
        MockTimeSource { instant: Arc::new(RwLock::new(start, Ghost(InstantInv {}))) }
    }

    /// Sets the clock to an instant. Callers keep it non-decreasing.
    pub fn set(&self, instant: u64) {
        let (_, handle) = self.instant.acquire_write();
        handle.release_write(instant);
    }

    /// Moves the clock forward, saturating at the largest instant.
    pub fn advance(&self, delta: u64) {
        let (t, handle) = self.instant.acquire_write();
        handle.release_write(sat_add(t, delta));
    }
}

impl TimeSource for MockTimeSource {
    fn now(&self) -> u64 {
        let handle = self.instant.acquire_read();
        let t = *handle.borrow();
        handle.release_read();
        t
    }
}

impl Clone for MockTimeSource {
    /// A cloned handle reads and advances the very same instant.
    fn clone(&self) -> (r: Self)
        ensures
            r == *self,
    {
        MockTimeSource { instant: arc_clone(&self.instant) }
    }
}

} // verus!

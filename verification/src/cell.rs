//! The shared current-date cell: a single slot holding the latest known
//! calendar value, written only by the synchronization loop and read
//! concurrently by the interface and the trigger scan. A reader/writer lock
//! allows concurrent reads with exclusive writes, so a read always yields a
//! whole value some writer stored — never a torn one — and every value the
//! cell ever holds satisfies the parser's date bounds.

use vstd::prelude::*;
use vstd::rwlock::RwLock;
use crate::date::{Date, date_wf};

verus! {

/// The invariant every value stored in the cell satisfies.
pub open spec fn cell_pred() -> spec_fn(Date) -> bool {
    |v: Date| date_wf(v)
}

/// A concurrently readable slot of the latest known calendar value.
pub struct DateCell {
    lock: RwLock<Date, spec_fn(Date) -> bool>,
}

impl DateCell {
    /// The cell's well-formedness: its lock admits exactly the dates within
    /// the parser's bounds.
    pub closed spec fn wf(&self) -> bool {
        self.lock.pred() == cell_pred()
    }

    /// A fresh cell holding an initial date; at startup this is the loaded
    /// date or the "not yet synced" sentinel.
    pub fn new(initial: Date) -> (c: DateCell)
        requires
            date_wf(initial),
        ensures
            c.wf(),
    {
        DateCell { lock: RwLock::new(initial, Ghost(cell_pred())) }
    }

    /// Reads the latest known date under the shared mode of the lock. The
    /// value returned is one some single write stored whole, and it lies
    /// within the parser's bounds.
    pub fn read(&self) -> (d: Date)
        requires
            self.wf(),
        ensures
            date_wf(d),
    {
        let handle = self.lock.acquire_read();
        let d = *handle.borrow();
        handle.release_read();
        d
    }

    /// Overwrites the cell under the exclusive mode of the lock. Stale or
    /// older values are overwritten unconditionally: the simulated clock may
    /// move backward, so no ordering is enforced between successive writes.
    pub fn write(&self, d: Date)
        requires
            self.wf(),
            date_wf(d),
    {
        let (_prev, handle) = self.lock.acquire_write();
        handle.release_write(d);
    }
}

} // verus!

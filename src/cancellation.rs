//! Advisory cancellation of a search, polled between sibling evaluations.

use vstd::prelude::*;
use std::sync::atomic::{AtomicBool, Ordering};

verus! {

/// Tells a running search to stop and return the best result found so far.
pub trait CancellationToken {
    /// The token never asks to stop.
    spec fn never_cancels(&self) -> bool;

    /// The token asks to stop at every poll, from before the search starts.
    spec fn always_cancels(&self) -> bool;

    fn is_cancellation_requested(&self) -> (r: bool)
        ensures
            self.never_cancels() ==> !r,
            self.always_cancels() ==> r,
    ;
}

/// A token that never asks to stop.
pub struct NeverCancelToken;

impl CancellationToken for NeverCancelToken {
    open spec fn never_cancels(&self) -> bool {
        true
    }

    open spec fn always_cancels(&self) -> bool {
        false
    }

    fn is_cancellation_requested(&self) -> (r: bool) {
        false
    }
}

/// A token that asks to stop from the start, for callers whose time is up
/// before the search begins.
pub struct CancelledToken;

impl CancellationToken for CancelledToken {
    open spec fn never_cancels(&self) -> bool {
        false
    }

    open spec fn always_cancels(&self) -> bool {
        true
    }

    fn is_cancellation_requested(&self) -> (r: bool) {
        true
    }
}

/// A token that another thread can trip. Its answers depend on that thread,
/// so nothing is stated of them.
pub struct AtomicCancellationToken {
    cancelled: AtomicBool,
}

impl AtomicCancellationToken {
    pub fn new() -> Self {
        AtomicCancellationToken { cancelled: AtomicBool::new(false) }
    }

    pub fn cancel(&self) {
        self.cancelled.store(true, Ordering::SeqCst);
    }
}

impl CancellationToken for AtomicCancellationToken {
    open spec fn never_cancels(&self) -> bool {
        false
    }

    open spec fn always_cancels(&self) -> bool {
        false
    }

    fn is_cancellation_requested(&self) -> (r: bool) {
        self.cancelled.load(Ordering::SeqCst)
    }
}

} // verus!

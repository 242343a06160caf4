use std::sync::atomic::{AtomicUsize, Ordering};
use vstd::prelude::*;

verus! {

/// A single slot that one thread writes and others read: only the latest
/// value is kept. The value is shared between threads, so no contract here
/// states what a read returns.
#[derive(Debug)]
pub struct AtomicCounter {
    value: AtomicUsize,
}

impl AtomicCounter {
    pub fn new() -> AtomicCounter {
        AtomicCounter { value: AtomicUsize::new(0) }
    }

    /// The latest value written, or 0 if none was.
    pub fn get(&self) -> usize {
        self.value.load(Ordering::SeqCst)
    }

    pub fn set(&self, new_value: usize) {
        self.value.store(new_value, Ordering::SeqCst);
    }
}

/// What the thread that shows progress does after reading the slot.
#[derive(Debug, Clone, Copy, PartialEq, Eq, Structural)]
pub struct PollDecision {
    /// The value differs from the one shown: show it.
    pub redraw: bool,
    /// The scan is over: wait for the worker and stop polling.
    pub complete: bool,
}

/// Decides what to do with the value `observed`, `last_shown` being the
/// value on screen.
pub fn poll_progress(last_shown: usize, observed: usize) -> (r: PollDecision)
    ensures
        r.redraw == (observed != last_shown),
        r.complete == (observed >= 100),
{
    PollDecision { redraw: observed != last_shown, complete: observed >= 100 }
}

} // verus!

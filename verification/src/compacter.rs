//! Compacting the log at regular intervals.
//!
//! The worker that compacts a database in the background sleeps, looks at
//! its cancel signal and compacts, again and again. What it does after each
//! sleep is decided here; sleeping, locking the database and replacing the
//! log file are left to the caller.

use core::sync::atomic::AtomicBool;
use core::sync::atomic::Ordering;
use std::sync::Arc;
use vstd::prelude::*;

verus! {

/// A signal that tells the background compactor to stop. Its clones share
/// one flag.
#[derive(Default, Clone)]
pub struct CancelSig(Arc<AtomicBool>);

impl CancelSig {
    /// Raises the signal.
    pub fn cancel(&self) {
        self.0.store(true, Ordering::Relaxed);
    }

    /// Whether the signal was raised, as far as this thread has seen.
    pub fn is_canceled(&self) -> bool {
        self.0.load(Ordering::Relaxed)
    }
}

/// What the background compactor does when it wakes up.
#[derive(Debug, Copy, Clone, PartialEq, Eq, Structural)]
pub enum Step {
    /// Compact the log, then sleep again.
    Compact,
    /// Stop, and report the number of compactions that took place.
    Stop(usize),
}

/// The background compactor between two sleeps: it counts the compactions
/// that took place.
#[derive(Debug, Copy, Clone)]
pub struct BackgroundCompacter {
    count: usize,
}

impl View for BackgroundCompacter {
    type V = nat;

    closed spec fn view(&self) -> nat {
        self.count as nat
    }
}

impl BackgroundCompacter {
    /// A compactor that has not compacted yet.
    pub fn begin_compacter() -> (compacter: Self)
        ensures
            compacter@ == 0,
    {
        BackgroundCompacter { count: 0 }
    }

    /// What to do after a sleep: stop with the count where the signal was
    /// raised, compact otherwise.
    pub fn wake(&self, canceled: bool) -> (step: Step)
        ensures
            step == if canceled {
                Step::Stop(self@ as usize)
            } else {
                Step::Compact
            },
    {
        if canceled {
            Step::Stop(self.count)
        } else {
            Step::Compact
        }
    }

    /// Counts one compaction that took place. The count stops at the
    /// largest number that it can hold.
    pub fn compacted(&mut self)
        ensures
            final(self)@ == if old(self)@ < usize::MAX {
                old(self)@ + 1
            } else {
                old(self)@
            },
    {
        if self.count < usize::MAX {
            self.count += 1;
        }
    }
}

} // verus!

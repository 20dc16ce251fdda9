//! The two signals that workers share: the flag that says a solution was
//! found, and the counter of workers that are busy.
//!
//! Other threads change both at any time, so nothing is stated of what a
//! read returns.

use std::sync::atomic::AtomicBool;
use std::sync::atomic::AtomicUsize;
use std::sync::atomic::Ordering;
use vstd::prelude::*;

verus! {

/// Whether the flag is set, as far as this thread can see.
pub fn is_set(flag: &AtomicBool) -> bool {
    flag.load(Ordering::Acquire)
}

/// Sets the flag.
pub fn set(flag: &AtomicBool) {
    flag.store(true, Ordering::Release)
}

/// The number that the counter holds, as far as this thread can see.
pub fn count(counter: &AtomicUsize) -> usize {
    counter.load(Ordering::Acquire)
}

} // verus!

//! Polling of the interrupt flag.
//!
//! The flag itself is owned by the embedding program, which typically sets
//! it from a signal handler; the solver and generator only ever poll it
//! between search steps.

use vstd::prelude::*;

verus! {

/// Returns whether the interrupt flag has been raised.
///
/// The flag is written asynchronously, so nothing is promised of the value.
pub fn occured(flag: &core::sync::atomic::AtomicBool) -> bool {
    flag.load(core::sync::atomic::Ordering::Relaxed)
}

} // verus!

//! Cancellation checks.

use std::sync::atomic::{AtomicBool, Ordering};
use vstd::prelude::*;

verus! {

/// Whether a stop was asked for: the flag as another thread last set it, which nothing here
/// can foresee; without a flag, never.
pub fn is_cancelled(cancel: Option<&AtomicBool>) -> (r: bool)
    ensures
        cancel is None ==> !r,
{
    match cancel {
        Some(c) => c.load(Ordering::Relaxed),
        None => false,
    }
}

} // verus!

//! What threads share: the cancellation flag that a caller may raise from
//! another thread, and the counter of the numbers done.

use vstd::prelude::*;
use std::sync::atomic::AtomicBool;
use std::sync::atomic::AtomicU64;
use std::sync::atomic::Ordering;

verus! {

/// Reads the flag. Another thread may change it at any time, so nothing is
/// known of what comes back.
pub fn is_cancelled(cancel: &AtomicBool) -> bool {
    cancel.load(Ordering::Relaxed)
}

/// Adds `n` to a counter that other threads add to as well, and hands back
/// the count with `n` added. Nothing is known of what the others have added.
pub fn add_done(counter: &AtomicU64, n: u64) -> u64 {
    count_with(counter.fetch_add(n, Ordering::Relaxed), n)
}

/// The count that a counter shows once `n` is added to the count `before`:
/// their sum, from 0 again where the counter runs over.
pub fn count_with(before: u64, n: u64) -> (r: u64)
    ensures
        r == if before + n > u64::MAX {
            before + n - 0x1_0000_0000_0000_0000
        } else {
            before + n
        },
{
    before.wrapping_add(n)
}

} // verus!

//! The heartbeat probe's bookkeeping: a task that wants to wake at a
//! planned time records how late it woke, and keeps the worst.
use vstd::prelude::*;

verus! {

/// The worst wake-up delay so far, after one more wake-up came `delay`
/// nanoseconds past its planned time.
pub fn note_delay(worst: u128, delay: u128) -> (r: u128)
    ensures
        r == if delay > worst {
            delay
        } else {
            worst
        },
{
    if delay > worst {
        delay
    } else {
        worst
    }
}

} // verus!

//! Cooperative cancellation: a flag that the caller owns and a search reads
//! now and then.

use vstd::prelude::*;
use std::sync::atomic::AtomicBool;
use std::sync::atomic::Ordering;

verus! {

/// Reads the cancellation flag. What it holds is the caller's business, so
/// nothing is promised of the answer.
pub fn cancel_requested(flag: &AtomicBool) -> bool {
    flag.load(Ordering::Relaxed)
}

/// Whether a depth-first search that has visited `counter` nodes is due to
/// look at the flag: at every 4096th node.
pub fn node_poll_due(counter: u64) -> (r: bool)
    ensures
        r == (counter % 4096 == 0),
{
    assert(counter & 0xFFF == counter % 4096) by (bit_vector);
    counter & 0xFFF == 0
}

/// Whether an enumeration that has reached subset number `mask` is due to
/// look at the flag: at every 65536th subset, the first included.
pub fn mask_poll_due(mask: u64) -> (r: bool)
    ensures
        r == (mask % 65536 == 0),
{
    assert(mask & 0xFFFF == mask % 65536) by (bit_vector);
    mask & 0xFFFF == 0
}

} // verus!

//! Counting the positions that have a property.
use vstd::prelude::*;

verus! {

/// How many of the positions `0, 1, ..., k - 1` satisfy `p`.
pub open spec fn count_positions(k: int, p: spec_fn(int) -> bool) -> nat
    decreases k,
{
    if k <= 0 {
        0
    } else {
        count_positions(k - 1, p) + if p(k - 1) {
            1nat
        } else {
            0nat
        }
    }
}

} // verus!

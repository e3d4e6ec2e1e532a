//! The dialog that shows the statistics of the games played.
use vstd::prelude::*;

verus! {

/// The statistics dialog; it holds no state of its own.
pub struct StatisticsDialog {}

} // verus!

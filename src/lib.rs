//! A gap-filling operator for time-series aggregates: every bucket of a
//! bounded time range appears once for every series seen in the input.
use vstd::prelude::*;

pub mod bucket;
pub mod stream;
pub mod plan;
pub mod laws;

verus! {

} // verus!

//! Fixed-rate amortizing loan schedules: the monthly annuity payment, the
//! total paid over the term, and a month-by-month split of each payment into
//! principal and interest.
//!
//! All arithmetic is exact integer arithmetic: money is carried in cents and
//! periodic rates in parts per billion, so every quantity in a schedule is
//! pinned down by the contracts rather than subject to rounding drift.

use vstd::prelude::*;

pub mod fixed;
pub mod schedule;

verus! {

} // verus!

//! A small time-tracking library: durations in minutes, calendar dates,
//! tags extracted from note text, log entries with a canonical line
//! encoding, and a report engine that filters, sorts, groups and totals
//! a sequence of entries.

pub mod clock;
pub mod dates;
pub mod duration;
pub mod entry;
pub mod reports;
pub mod tag;
pub mod text;

use vstd::prelude::*;

verus! {

} // verus!

//! The one place where the outside world's clock enters: today's date,
//! for the default upper bound of a report's range.

use vstd::prelude::*;

use chrono::Datelike;

use crate::dates::Date;

verus! {

/// Relies on chrono's `Utc::now` and the `Datelike` accessors: `year`
/// is the calendar year, `month` ranges from 1 to 12 and `day` from 1
/// to 31, as chrono documents. The result depends on the clock, so
/// nothing more is promised of it.
#[verifier::external_body]
fn now_ymd() -> (r: (i64, u64, u64))
    ensures
        1 <= r.1 <= 12,
        1 <= r.2 <= 31,
{
    let now = chrono::Utc::now();
    (now.year() as i64, now.month() as u64, now.day() as u64)
}

/// Today's date in UTC, when it falls in the supported year span.
pub fn today() -> (r: Option<Date>)
    ensures
        r matches Some(d) ==> d.wf(),
{
    let (y, m, d) = now_ymd();
    if y < 1 || y > 9999 {
        return None;
    }
    Date::from_ymd(y as u64, m, d)
}

} // verus!

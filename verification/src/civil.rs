//! Civil (calendar) time in UTC, as plain field values, and its
//! conversion to milliseconds since the Unix epoch.

use vstd::prelude::*;

verus! {

/// A moment of civil time in UTC, held as plain calendar fields.
///
/// The millisecond count of such a value is obtained through
/// [`civil_time_millis`], and the mathematical meaning of that count is
/// fixed by [`civil_millis`]: the proleptic Gregorian calendar with no
/// timezone offset and no leap seconds.
#[derive(Clone, Copy, Debug, PartialEq, Eq, Structural)]
pub struct CivilTime {
    /// Calendar year, `1970 ..= 9999`.
    pub year: u16,
    /// Calendar month, `1 ..= 12`.
    pub month: u8,
    /// Day of month, `1 ..= days_in_month(year, month)`.
    pub day: u8,
    /// Hour of day, `0 ..= 23`.
    pub hour: u8,
    /// Minute, `0 ..= 59`.
    pub minute: u8,
    /// Second, `0 ..= 59`.
    pub second: u8,
    /// Millisecond, `0 ..= 999`.
    pub milli: u16,
}

/// A Gregorian leap year.
pub open spec fn is_leap_year(y: int) -> bool {
    y % 4 == 0 && (y % 100 != 0 || y % 400 == 0)
}

/// Number of days in the given calendar year.
pub open spec fn days_in_year(y: int) -> int {
    if is_leap_year(y) {
        366
    } else {
        365
    }
}

/// Number of days in the given calendar month.
pub open spec fn days_in_month(y: int, m: int) -> int {
    if m == 2 {
        if is_leap_year(y) {
            29
        } else {
            28
        }
    } else if m == 4 || m == 6 || m == 9 || m == 11 {
        30
    } else {
        31
    }
}

/// Days from 1970-01-01 to the first day of year `y`.
pub open spec fn days_before_year(y: int) -> int
    decreases y,
{
    if y <= 1970 {
        0
    } else {
        days_before_year(y - 1) + days_in_year(y - 1)
    }
}

/// Days from the first day of year `y` to the first day of month `m` of
/// that year.
pub open spec fn days_before_month(y: int, m: int) -> int
    decreases m,
{
    if m <= 1 {
        0
    } else {
        days_before_month(y, m - 1) + days_in_month(y, m - 1)
    }
}

/// Days from 1970-01-01 to the given calendar date.
pub open spec fn civil_days(y: int, m: int, d: int) -> int {
    days_before_year(y) + days_before_month(y, m) + (d - 1)
}

/// Milliseconds from 1970-01-01T00:00:00.000Z to the given civil time.
pub open spec fn civil_millis(t: CivilTime) -> int {
    civil_days(t.year as int, t.month as int, t.day as int) * 86400000
        + (t.hour as int) * 3600000 + (t.minute as int) * 60000 + (t.second as int) * 1000
        + (t.milli as int)
}

impl CivilTime {
    /// The fields form a valid calendar moment within the supported range.
    pub open spec fn wf(&self) -> bool {
        &&& 1970 <= self.year <= 9999
        &&& 1 <= self.month <= 12
        &&& 1 <= self.day <= days_in_month(self.year as int, self.month as int)
        &&& self.hour <= 23
        &&& self.minute <= 59
        &&& self.second <= 59
        &&& self.milli <= 999
    }

    /// Construct a civil time, validating every calendar field; invalid
    /// calendar values (a February 30, a 25th hour) yield `None`.
    pub fn new(year: u16, month: u8, day: u8, hour: u8, minute: u8, second: u8, milli: u16) -> (r:
        Option<CivilTime>)
        ensures
            ({
                let t = (CivilTime { year, month, day, hour, minute, second, milli });
                if t.wf() {
                    r == Some(t)
                } else {
                    r == None::<CivilTime>
                }
            }),
    {
        let t = CivilTime { year, month, day, hour, minute, second, milli };
        if 1970 <= year && year <= 9999 && 1 <= month && month <= 12 && 1 <= day && day
            <= days_in_month_of(year, month) && hour <= 23 && minute <= 59 && second <= 59 && milli
            <= 999 {
            Some(t)
        } else {
            None
        }
    }
}

/// Whether `y` is a Gregorian leap year.
pub fn is_leap_year_of(y: u16) -> (r: bool)
    ensures
        r == is_leap_year(y as int),
{
    y % 4 == 0 && (y % 100 != 0 || y % 400 == 0)
}

/// The number of days in month `m` of year `y`.
pub fn days_in_month_of(y: u16, m: u8) -> (r: u8)
    ensures
        r as int == days_in_month(y as int, m as int),
{
    if m == 2 {
        if is_leap_year_of(y) {
            29
        } else {
            28
        }
    } else if m == 4 || m == 6 || m == 9 || m == 11 {
        30
    } else {
        31
    }
}

/// Milliseconds since the Unix epoch of a civil time, computed by the
/// calendar library.
///
/// Relies on chrono's `NaiveDate::from_ymd_opt`, `NaiveDate::and_hms_milli_opt`
/// and `DateTime::<Utc>::timestamp_millis`: together they give the number of
/// non-leap milliseconds since 1970-01-01T00:00:00Z of a proleptic-Gregorian
/// calendar moment in UTC, which is what `civil_millis` states; every `wf`
/// field combination is in range for all three.
#[verifier::external_body]
pub(crate) fn civil_time_millis(t: &CivilTime) -> (r: u64)
    requires
        t.wf(),
    ensures
        r as int == civil_millis(*t),
{
    let date = chrono::NaiveDate::from_ymd_opt(t.year as i32, t.month as u32, t.day as u32)
        .unwrap();
    let moment = date.and_hms_milli_opt(
        t.hour as u32,
        t.minute as u32,
        t.second as u32,
        t.milli as u32,
    ).unwrap();
    moment.and_utc().timestamp_millis() as u64
}

/// `days_before_month` is nonnegative.
pub proof fn lemma_days_before_month_nonneg(y: int, m: int)
    ensures
        0 <= days_before_month(y, m),
    decreases m,
{
    if m > 1 {
        lemma_days_before_month_nonneg(y, m - 1);
    }
}

/// `days_before_month` is monotone in the month.
pub proof fn lemma_days_before_month_mono(y: int, a: int, b: int)
    requires
        a <= b,
    ensures
        days_before_month(y, a) <= days_before_month(y, b),
    decreases b - a,
{
    if a < b {
        lemma_days_before_month_mono(y, a, b - 1);
    }
}

/// `days_before_year` is nonnegative.
pub proof fn lemma_days_before_year_nonneg(y: int)
    ensures
        0 <= days_before_year(y),
    decreases y,
{
    if y > 1970 {
        lemma_days_before_year_nonneg(y - 1);
    }
}

/// The millisecond count of a well-formed civil time is nonnegative: it
/// always has the unsigned value that [`civil_time_millis`] hands back.
pub proof fn lemma_civil_millis_nonneg(t: CivilTime)
    requires
        t.wf(),
    ensures
        0 <= civil_millis(t),
{
    lemma_days_before_year_nonneg(t.year as int);
    lemma_days_before_month_nonneg(t.year as int, t.month as int);
}

} // verus!

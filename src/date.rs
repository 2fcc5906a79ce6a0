use chrono::Datelike;
use vstd::prelude::*;

verus! {

/// Whether `year` is a leap year of the Gregorian calendar.
pub open spec fn is_leap_year(year: int) -> bool {
    (year % 4 == 0 && year % 100 != 0) || year % 400 == 0
}

/// The number of days of `month` (1 to 12) in `year`.
pub open spec fn month_length(year: int, month: int) -> int {
    if month == 2 {
        if is_leap_year(year) { 29 } else { 28 }
    } else if month == 4 || month == 6 || month == 9 || month == 11 {
        30
    } else {
        31
    }
}

/// A calendar day, as year, month (1 to 12) and day of the month.
#[derive(Clone, Copy, Debug, PartialEq, Eq, Structural)]
pub struct CardDate {
    pub year: i32,
    pub month: u32,
    pub day: u32,
}

impl CardDate {
    /// The fields name a day that the calendar has.
    pub open spec fn wf(self) -> bool {
        &&& 1 <= self.month <= 12
        &&& 1 <= self.day <= month_length(self.year as int, self.month as int)
    }

    /// The date with these fields, when the calendar has such a day.
    pub fn from_ymd(year: i32, month: u32, day: u32) -> (r: Option<CardDate>)
        ensures
            r matches Some(d) <==> (CardDate { year, month, day }).wf(),
            r matches Some(d) ==> d == (CardDate { year, month, day }),
    {
        if month < 1 || month > 12 || day < 1 {
            return None;
        }
        let leap = (year % 4 == 0 && year % 100 != 0) || year % 400 == 0;
        let length: u32 = if month == 2 {
            if leap { 29 } else { 28 }
        } else if month == 4 || month == 6 || month == 9 || month == 11 {
            30
        } else {
            31
        };
        if day > length {
            None
        } else {
            Some(CardDate { year, month, day })
        }
    }
}

/// Relies on chrono's `Utc::now().date_naive()`, read through `Datelike`: the
/// current day in UTC, which as a `NaiveDate` is a day that the calendar has.
#[verifier::external_body]
pub(crate) fn today() -> (r: CardDate)
    ensures
        r.wf(),
{
    let d = chrono::Utc::now().date_naive();
    CardDate { year: d.year(), month: d.month(), day: d.day() }
}

} // verus!

//! A minute-granular calendar instant and the calendar arithmetic the
//! recurrence engine needs: month lengths, leap years, weekdays, and the
//! successor of a date.

use vstd::prelude::*;

verus! {

/// Gregorian leap year.
pub open spec fn is_leap_year(y: int) -> bool {
    y % 4 == 0 && (y % 100 != 0 || y % 400 == 0)
}

/// Days in month `m` of year `y` (1 = January); 0 outside 1..=12.
pub open spec fn days_in_month(y: int, m: int) -> int {
    if m == 2 {
        if is_leap_year(y) {
            29
        } else {
            28
        }
    } else if m == 4 || m == 6 || m == 9 || m == 11 {
        30
    } else if 1 <= m <= 12 {
        31
    } else {
        0
    }
}

/// The month's offset in the day-of-week formula below.
pub open spec fn month_code(m: int) -> int {
    if m == 1 {
        0
    } else if m == 2 {
        3
    } else if m == 3 {
        2
    } else if m == 4 {
        5
    } else if m == 5 {
        0
    } else if m == 6 {
        3
    } else if m == 7 {
        5
    } else if m == 8 {
        1
    } else if m == 9 {
        4
    } else if m == 10 {
        6
    } else if m == 11 {
        2
    } else {
        4
    }
}

/// Day of week of a calendar date, 0 = Monday through 6 = Sunday, by the
/// classic congruence over the year with January and February counted as
/// months of the preceding year.
pub open spec fn weekday_of(y: int, m: int, d: int) -> int {
    let yy = if m < 3 {
        y - 1
    } else {
        y
    };
    (yy + yy / 4 - yy / 100 + yy / 400 + month_code(m) + d + 6) % 7
}

/// A representable calendar date: the year fits the instant type.
pub open spec fn valid_date(y: int, m: int, d: int) -> bool {
    1 <= y <= 0xFFFF && 1 <= m <= 12 && 1 <= d <= days_in_month(y, m)
}

/// Strict calendar order of two dates.
pub open spec fn date_lt(y1: int, m1: int, d1: int, y2: int, m2: int, d2: int) -> bool {
    y1 < y2 || (y1 == y2 && (m1 < m2 || (m1 == m2 && d1 < d2)))
}

/// A calendar instant at minute granularity.
#[derive(Debug, Clone, Copy, PartialEq, Eq, Structural)]
pub struct DateTime {
    pub year: u16,
    pub month: u8,
    pub day: u8,
    pub hour: u8,
    pub minute: u8,
}

impl DateTime {
    /// A well-formed instant: a real calendar date and a real time of day.
    pub open spec fn wf(self) -> bool {
        valid_date(self.year as int, self.month as int, self.day as int) && self.hour <= 23
            && self.minute <= 59
    }

    /// The instant's day of week, 0 = Monday through 6 = Sunday.
    pub open spec fn spec_weekday(self) -> int {
        weekday_of(self.year as int, self.month as int, self.day as int)
    }

    /// Strict order of instants: by date, then hour, then minute.
    pub open spec fn spec_lt(self, other: DateTime) -> bool {
        date_lt(
            self.year as int,
            self.month as int,
            self.day as int,
            other.year as int,
            other.month as int,
            other.day as int,
        ) || (self.year == other.year && self.month == other.month && self.day == other.day && (
        self.hour < other.hour || (self.hour == other.hour && self.minute < other.minute)))
    }

    /// Builds an instant, accepting exactly the well-formed ones.
    pub fn new(year: u16, month: u8, day: u8, hour: u8, minute: u8) -> (r: Option<DateTime>)
        ensures
            ({
                let t = DateTime { year, month, day, hour, minute };
                if t.wf() {
                    r == Some(t)
                } else {
                    r == None::<DateTime>
                }
            }),
    {
        let t = DateTime { year, month, day, hour, minute };
        if year >= 1 && month >= 1 && month <= 12 && day >= 1 && day <= days_in_month_of(
            year,
            month,
        ) && hour <= 23 && minute <= 59 {
            Some(t)
        } else {
            None
        }
    }

    /// The instant's day of week, 0 = Monday through 6 = Sunday.
    pub fn weekday(&self) -> (r: u8)
        requires
            self.wf(),
        ensures
            r as int == self.spec_weekday(),
            r < 7,
    {
        let y: u32 = self.year as u32;
        let yy: u32 = if self.month < 3 {
            y - 1
        } else {
            y
        };
        let code: u32 = match self.month {
            1 => 0,
            2 => 3,
            3 => 2,
            4 => 5,
            5 => 0,
            6 => 3,
            7 => 5,
            8 => 1,
            9 => 4,
            10 => 6,
            11 => 2,
            _ => 4,
        };
        let t: u32 = yy + yy / 4 + yy / 400 + code + (self.day as u32) + 6 - yy / 100;
        (t % 7) as u8
    }

    /// Whether this instant is strictly earlier than `other`.
    pub fn before(&self, other: &DateTime) -> (r: bool)
        ensures
            r == self.spec_lt(*other),
    {
        if self.year != other.year {
            self.year < other.year
        } else if self.month != other.month {
            self.month < other.month
        } else if self.day != other.day {
            self.day < other.day
        } else if self.hour != other.hour {
            self.hour < other.hour
        } else {
            self.minute < other.minute
        }
    }
}

/// Days in the given month, 0 outside 1..=12.
pub fn days_in_month_of(year: u16, month: u8) -> (r: u8)
    ensures
        r as int == days_in_month(year as int, month as int),
{
    if month == 2 {
        let leap = (year % 4 == 0) && (year % 100 != 0 || year % 400 == 0);
        if leap {
            29
        } else {
            28
        }
    } else if month == 4 || month == 6 || month == 9 || month == 11 {
        30
    } else if 1 <= month && month <= 12 {
        31
    } else {
        0
    }
}

/// The day after the given date, or `None` past the last representable date.
/// The result is the immediate successor: no valid date lies between.
pub fn next_date(year: u16, month: u8, day: u8) -> (r: Option<(u16, u8, u8)>)
    requires
        valid_date(year as int, month as int, day as int),
    ensures
        match r {
            Some(n) => {
                &&& valid_date(n.0 as int, n.1 as int, n.2 as int)
                &&& date_lt(
                    year as int,
                    month as int,
                    day as int,
                    n.0 as int,
                    n.1 as int,
                    n.2 as int,
                )
                &&& forall|ey: int, em: int, ed: int|
                    valid_date(ey, em, ed) && date_lt(
                        year as int,
                        month as int,
                        day as int,
                        ey,
                        em,
                        ed,
                    ) ==> !date_lt(ey, em, ed, n.0 as int, n.1 as int, n.2 as int)
            },
            None => year == 0xFFFF && month == 12 && day == 31 && forall|ey: int, em: int, ed: int|
                valid_date(ey, em, ed) ==> !date_lt(year as int, month as int, day as int, ey, em, ed),
        },
{
    let dim = days_in_month_of(year, month);
    if day < dim {
        Some((year, month, day + 1))
    } else if month < 12 {
        Some((year, month + 1, 1))
    } else if year < 0xFFFF {
        Some((year + 1, 1, 1))
    } else {
        None
    }
}

} // verus!

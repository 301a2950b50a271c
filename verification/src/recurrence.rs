//! A compiled cron rule: five normalized value sets, one per field, with the
//! two queries the scheduler needs — does an instant match, and what is the
//! next matching instant strictly after a reference.

use vstd::prelude::*;
use vstd::string::StringSliceAdditionalSpecFns;
use crate::{CronError, all_within, strictly_increasing};
use crate::date_time::{DateTime, date_lt, next_date, valid_date, weekday_of};
use crate::date_time_field_parser::{
    DateTimeFieldParser, spec_parse_field, lemma_parse_field_normalized,
};

verus! {

/// The smallest member of a sorted period set at or after a reference value,
/// or the set's first member with an overflow mark when none is.
pub struct NextPeriod {
    pub period: u8,
    pub overflow: u8,
}

impl NextPeriod {
    /// Searches a sorted, non-empty period set for the smallest member at or
    /// after `after`; when every member is below `after`, wraps to the first
    /// member and reports the overflow as a carry of one.
    pub fn new(after: &u8, possibilities: &Vec<u8>) -> (r: NextPeriod)
        requires
            possibilities@.len() > 0,
            strictly_increasing(possibilities@),
        ensures
            r.overflow == 0 || r.overflow == 1,
            r.overflow == 0 ==> possibilities@.contains(r.period) && r.period >= *after
                && forall|i: int| 0 <= i < possibilities@.len() && #[trigger] possibilities@[i]
                    >= *after ==> r.period <= possibilities@[i],
            r.overflow == 1 ==> r.period == possibilities@[0] && forall|i: int|
                0 <= i < possibilities@.len() ==> #[trigger] possibilities@[i] < *after,
    {
        let n = possibilities.len();
        let mut i: usize = 0;
        while i < n
            invariant
                i <= n == possibilities@.len(),
                strictly_increasing(possibilities@),
                forall|j: int| 0 <= j < i ==> #[trigger] possibilities@[j] < *after,
            decreases n - i,
        {
            let period = possibilities[i];
            if period >= *after {
                proof {
                    assert forall|k: int| 0 <= k < possibilities@.len()
                        && #[trigger] possibilities@[k] >= *after implies period
                        <= possibilities@[k] by {
                        if k < i {
                        } else if k > i as int {
                            assert(possibilities@[i as int] < possibilities@[k]);
                        }
                    }
                }
                return NextPeriod { period, overflow: 0 };
            }
            i += 1;
        }
        NextPeriod { period: possibilities[0], overflow: 1 }
    }
}

/// A compiled recurrence rule: the matching minutes, hours, days of month,
/// months, and days of week (0 = Monday through 6 = Sunday).
pub struct Recurrence {
    minutes: Vec<u8>,
    hours: Vec<u8>,
    days_of_month: Vec<u8>,
    months: Vec<u8>,
    days_of_week: Vec<u8>,
}

/// What building a recurrence from five field strings yields: each field
/// parsed against its own domain, in field order, the first failing field's
/// error failing the whole rule.
pub open spec fn spec_recurrence(
    f0: Seq<u8>,
    f1: Seq<u8>,
    f2: Seq<u8>,
    f3: Seq<u8>,
    f4: Seq<u8>,
) -> Result<(Seq<u8>, Seq<u8>, Seq<u8>, Seq<u8>, Seq<u8>), CronError> {
    match spec_parse_field(0, 59, false, f0) {
        Err(e) => Err(e),
        Ok(minutes) => match spec_parse_field(0, 23, false, f1) {
            Err(e) => Err(e),
            Ok(hours) => match spec_parse_field(1, 31, false, f2) {
                Err(e) => Err(e),
                Ok(days_of_month) => match spec_parse_field(1, 12, false, f3) {
                    Err(e) => Err(e),
                    Ok(months) => match spec_parse_field(0, 6, true, f4) {
                        Err(e) => Err(e),
                        Ok(days_of_week) => Ok(
                            (minutes, hours, days_of_month, months, days_of_week),
                        ),
                    },
                },
            },
        },
    }
}

impl Recurrence {
    /// The rule's matching minutes, ascending.
    pub closed spec fn spec_minutes(self) -> Seq<u8> {
        self.minutes@
    }

    /// The rule's matching hours, ascending.
    pub closed spec fn spec_hours(self) -> Seq<u8> {
        self.hours@
    }

    /// The rule's matching days of month, ascending.
    pub closed spec fn spec_days_of_month(self) -> Seq<u8> {
        self.days_of_month@
    }

    /// The rule's matching months, ascending.
    pub closed spec fn spec_months(self) -> Seq<u8> {
        self.months@
    }

    /// The rule's matching days of week, ascending, 0 = Monday.
    pub closed spec fn spec_days_of_week(self) -> Seq<u8> {
        self.days_of_week@
    }

    /// Each value set is non-empty, strictly ascending, and within its
    /// field's domain.
    pub open spec fn wf(self) -> bool {
        &&& self.spec_minutes().len() > 0 && strictly_increasing(self.spec_minutes())
            && all_within(self.spec_minutes(), 0, 59)
        &&& self.spec_hours().len() > 0 && strictly_increasing(self.spec_hours()) && all_within(
            self.spec_hours(),
            0,
            23,
        )
        &&& self.spec_days_of_month().len() > 0 && strictly_increasing(self.spec_days_of_month())
            && all_within(self.spec_days_of_month(), 1, 31)
        &&& self.spec_months().len() > 0 && strictly_increasing(self.spec_months()) && all_within(
            self.spec_months(),
            1,
            12,
        )
        &&& self.spec_days_of_week().len() > 0 && strictly_increasing(self.spec_days_of_week())
            && all_within(self.spec_days_of_week(), 0, 6)
    }

    /// Whether the rule's date fields accept a calendar date: day of month,
    /// month, and day of week all members of their sets.
    pub open spec fn spec_date_matches(self, year: u16, month: u8, day: u8) -> bool {
        &&& self.spec_days_of_month().contains(day)
        &&& self.spec_months().contains(month)
        &&& self.spec_days_of_week().contains(
            weekday_of(year as int, month as int, day as int) as u8,
        )
    }

    /// Whether the rule accepts an instant: all five fields are members of
    /// their sets (conjunctive; no special case relaxes day of month against
    /// day of week).
    pub open spec fn spec_matches(self, t: DateTime) -> bool {
        &&& self.spec_minutes().contains(t.minute)
        &&& self.spec_hours().contains(t.hour)
        &&& self.spec_date_matches(t.year, t.month, t.day)
    }

    /// Compiles five field strings — minute, hour, day of month, month, day
    /// of week — into a rule, each against its own domain. The first failing
    /// field fails the whole rule.
    pub fn new(fields: &[&str]) -> (r: Result<Recurrence, CronError>)
        requires
            fields@.len() == 5,
        ensures
            match r {
                Ok(rec) => rec.wf() && spec_recurrence(
                    fields@[0].spec_bytes(),
                    fields@[1].spec_bytes(),
                    fields@[2].spec_bytes(),
                    fields@[3].spec_bytes(),
                    fields@[4].spec_bytes(),
                ) == Ok::<_, CronError>(
                    (
                        rec.spec_minutes(),
                        rec.spec_hours(),
                        rec.spec_days_of_month(),
                        rec.spec_months(),
                        rec.spec_days_of_week(),
                    ),
                ),
                Err(e) => spec_recurrence(
                    fields@[0].spec_bytes(),
                    fields@[1].spec_bytes(),
                    fields@[2].spec_bytes(),
                    fields@[3].spec_bytes(),
                    fields@[4].spec_bytes(),
                ) == Err::<(Seq<u8>, Seq<u8>, Seq<u8>, Seq<u8>, Seq<u8>), CronError>(e),
            },
    {
        let minutes_parser = DateTimeFieldParser::new(0, 59);
        let hours_parser = DateTimeFieldParser::new(0, 23);
        let days_of_month_parser = DateTimeFieldParser::new(1, 31);
        let months_parser = DateTimeFieldParser::new(1, 12);
        let days_of_week_parser = DateTimeFieldParser::new_with_wrap_around(0, 6);
        let minutes = match minutes_parser.parse_field(fields[0]) {
            Ok(v) => v,
            Err(e) => {
                return Err(e);
            },
        };
        let hours = match hours_parser.parse_field(fields[1]) {
            Ok(v) => v,
            Err(e) => {
                return Err(e);
            },
        };
        let days_of_month = match days_of_month_parser.parse_field(fields[2]) {
            Ok(v) => v,
            Err(e) => {
                return Err(e);
            },
        };
        let months = match months_parser.parse_field(fields[3]) {
            Ok(v) => v,
            Err(e) => {
                return Err(e);
            },
        };
        let days_of_week = match days_of_week_parser.parse_field(fields[4]) {
            Ok(v) => v,
            Err(e) => {
                return Err(e);
            },
        };
        proof {
            lemma_parse_field_normalized(0, 59, false, fields@[0].spec_bytes());
            lemma_parse_field_normalized(0, 23, false, fields@[1].spec_bytes());
            lemma_parse_field_normalized(1, 31, false, fields@[2].spec_bytes());
            lemma_parse_field_normalized(1, 12, false, fields@[3].spec_bytes());
            lemma_parse_field_normalized(0, 6, true, fields@[4].spec_bytes());
        }
        Ok(Recurrence { minutes, hours, days_of_month, months, days_of_week })
    }

    /// The rule's matching minutes, ascending.
    pub fn minutes(&self) -> (r: &Vec<u8>)
        ensures
            r@ == self.spec_minutes(),
    {
        &self.minutes
    }

    /// The rule's matching hours, ascending.
    pub fn hours(&self) -> (r: &Vec<u8>)
        ensures
            r@ == self.spec_hours(),
    {
        &self.hours
    }

    /// The rule's matching days of month, ascending.
    pub fn days_of_month(&self) -> (r: &Vec<u8>)
        ensures
            r@ == self.spec_days_of_month(),
    {
        &self.days_of_month
    }

    /// The rule's matching months, ascending.
    pub fn months(&self) -> (r: &Vec<u8>)
        ensures
            r@ == self.spec_months(),
    {
        &self.months
    }

    /// The rule's matching days of week, ascending, 0 = Monday.
    pub fn days_of_week(&self) -> (r: &Vec<u8>)
        ensures
            r@ == self.spec_days_of_week(),
    {
        &self.days_of_week
    }

    /// Whether the rule accepts the instant: its minute, hour, day of month,
    /// month, and day of week are each members of the corresponding set.
    pub fn matches(&self, instant: DateTime) -> (r: bool)
        requires
            instant.wf(),
        ensures
            r == self.spec_matches(instant),
    {
        vec_contains(&self.minutes, instant.minute) && vec_contains(&self.hours, instant.hour)
            && self.date_matches(instant.year, instant.month, instant.day)
    }

    /// Whether the rule's date fields accept the calendar date.
    fn date_matches(&self, year: u16, month: u8, day: u8) -> (r: bool)
        requires
            valid_date(year as int, month as int, day as int),
        ensures
            r == self.spec_date_matches(year, month, day),
    {
        let probe = DateTime { year, month, day, hour: 0, minute: 0 };
        let wd = probe.weekday();
        vec_contains(&self.days_of_month, day) && vec_contains(&self.months, month)
            && vec_contains(&self.days_of_week, wd)
    }
}

/// Membership scan over a value set.
fn vec_contains(v: &Vec<u8>, x: u8) -> (r: bool)
    ensures
        r == v@.contains(x),
{
    let n = v.len();
    let mut i: usize = 0;
    while i < n
        invariant
            i <= n == v@.len(),
            forall|j: int| 0 <= j < i ==> v@[j] != x,
        decreases n - i,
    {
        if v[i] == x {
            return true;
        }
        i += 1;
    }
    false
}


impl Recurrence {
    /// The earliest instant strictly after `after` that the rule accepts, at
    /// minute granularity, or `None` when no representable instant does.
    ///
    /// The search never steps minute by minute: it first looks for a matching
    /// time of day on `after`'s own date, and otherwise walks forward one day
    /// at a time, taking the earliest matching time of day on the first date
    /// whose day-of-month, month and day-of-week fields all match. The
    /// contract makes the result exactly what a minute-by-minute scan would
    /// find: nothing strictly between `after` and the result matches.
    #[verifier::loop_isolation(false)]
    pub fn next_match(&self, after: DateTime) -> (r: Option<DateTime>)
        requires
            self.wf(),
            after.wf(),
        ensures
            match r {
                Some(t) => t.wf() && self.spec_matches(t) && after.spec_lt(t) && forall|
                    u: DateTime,
                |
                    u.wf() && after.spec_lt(u) && u.spec_lt(t) ==> !self.spec_matches(u),
                None => forall|u: DateTime|
                    u.wf() && after.spec_lt(u) ==> !self.spec_matches(u),
            },
    {
        if self.date_matches(after.year, after.month, after.day) {
            if vec_contains(&self.hours, after.hour) {
                let nm = NextPeriod::new(&(after.minute + 1), &self.minutes);
                if nm.overflow == 0 {
                    let t = DateTime {
                        year: after.year,
                        month: after.month,
                        day: after.day,
                        hour: after.hour,
                        minute: nm.period,
                    };
                    proof {
                        let ms = self.spec_minutes();
                        let widx = choose|i: int| 0 <= i < ms.len() && ms[i] == nm.period;
                        assert(nm.period <= 59);
                        assert forall|u: DateTime|
                            u.wf() && after.spec_lt(u) && u.spec_lt(t)
                                implies !self.spec_matches(u) by {
                            if self.spec_matches(u) {
                                assert(u.year == after.year && u.month == after.month
                                    && u.day == after.day);
                                assert(u.hour == after.hour);
                                assert(after.minute < u.minute < nm.period);
                                let k = choose|k: int| 0 <= k < ms.len() && ms[k] == u.minute;
                                assert(ms[k] >= after.minute + 1);
                                assert(nm.period <= ms[k]);
                            }
                        }
                    }
                    return Some(t);
                }
                proof {
                    assert(forall|i: int|
                        0 <= i < self.spec_minutes().len()
                            ==> #[trigger] self.spec_minutes()[i] <= after.minute);
                }
            }
            let nh = NextPeriod::new(&(after.hour + 1), &self.hours);
            if nh.overflow == 0 {
                let m0 = self.minutes[0];
                let t = DateTime {
                    year: after.year,
                    month: after.month,
                    day: after.day,
                    hour: nh.period,
                    minute: m0,
                };
                proof {
                    let ms = self.spec_minutes();
                    let hs = self.spec_hours();
                    assert(ms[0] == m0 && ms.contains(m0));
                    let hidx = choose|i: int| 0 <= i < hs.len() && hs[i] == nh.period;
                    assert(nh.period <= 23 && m0 <= 59);
                    assert forall|u: DateTime|
                        u.wf() && after.spec_lt(u) && u.spec_lt(t)
                            implies !self.spec_matches(u) by {
                        if self.spec_matches(u) {
                            assert(u.year == after.year && u.month == after.month
                                && u.day == after.day);
                            let k = choose|k: int| 0 <= k < hs.len() && hs[k] == u.hour;
                            if u.hour == after.hour {
                                assert(ms.contains(u.minute));
                                let km = choose|j: int| 0 <= j < ms.len() && ms[j] == u.minute;
                                assert(u.minute > after.minute);
                            } else {
                                assert(after.hour < u.hour);
                                if u.hour < nh.period {
                                    assert(hs[k] >= after.hour + 1);
                                    assert(nh.period <= hs[k]);
                                } else {
                                    assert(u.hour == nh.period);
                                    assert(u.minute < m0);
                                    let km = choose|j: int| 0 <= j < ms.len() && ms[j]
                                        == u.minute;
                                    if km > 0 {
                                        assert(ms[0] < ms[km]);
                                    }
                                }
                            }
                        }
                    }
                }
                return Some(t);
            }
            proof {
                assert(forall|i: int|
                    0 <= i < self.spec_hours().len() ==> #[trigger] self.spec_hours()[i]
                        <= after.hour);
            }
        }
        // Nothing later on `after`'s own date fits; walk forward one day at a
        // time, probing each date at the rule's earliest time of day.
        let first_hour = self.hours[0];
        let first_minute = self.minutes[0];
        proof {
            assert(self.spec_hours()[0] == first_hour && self.spec_hours().contains(first_hour));
            assert(self.spec_minutes()[0] == first_minute && self.spec_minutes().contains(
                first_minute,
            ));
            assert forall|u: DateTime|
                u.wf() && after.spec_lt(u) && u.year == after.year && u.month == after.month
                    && u.day == after.day implies !self.spec_matches(u) by {
                if self.spec_matches(u) {
                    assert(self.spec_date_matches(after.year, after.month, after.day));
                    assert(u.hour > after.hour || (u.hour == after.hour && u.minute
                        > after.minute));
                    if u.hour == after.hour {
                        assert(self.spec_hours().contains(after.hour));
                        let km = choose|j: int|
                            0 <= j < self.spec_minutes().len() && self.spec_minutes()[j]
                                == u.minute;
                        assert(self.spec_minutes()[km] <= after.minute);
                    } else {
                        let k = choose|j: int|
                            0 <= j < self.spec_hours().len() && self.spec_hours()[j] == u.hour;
                        assert(self.spec_hours()[k] <= after.hour);
                    }
                }
            }
        }
        let mut y = after.year;
        let mut m = after.month;
        let mut d = after.day;
        loop
            invariant
                valid_date(y as int, m as int, d as int),
                !date_lt(
                    y as int,
                    m as int,
                    d as int,
                    after.year as int,
                    after.month as int,
                    after.day as int,
                ),
                forall|u: DateTime|
                    u.wf() && after.spec_lt(u) && !date_lt(
                        y as int,
                        m as int,
                        d as int,
                        u.year as int,
                        u.month as int,
                        u.day as int,
                    ) ==> !self.spec_matches(u),
            decreases (0xFFFF - y) * 400 + (12 - m) * 32 + (31 - d),
        {
            match next_date(y, m, d) {
                None => {
                    return None;
                },
                Some(nd) => {
                    let (y2, m2, d2) = nd;
                    if self.date_matches(y2, m2, d2) {
                        let t = DateTime {
                            year: y2,
                            month: m2,
                            day: d2,
                            hour: first_hour,
                            minute: first_minute,
                        };
                        proof {
                            assert(first_hour <= 23 && first_minute <= 59);
                            assert(t.wf());
                            assert(after.spec_lt(t));
                            assert forall|u: DateTime|
                                u.wf() && after.spec_lt(u) && u.spec_lt(t)
                                    implies !self.spec_matches(u) by {
                                if self.spec_matches(u) {
                                    if date_lt(
                                        u.year as int,
                                        u.month as int,
                                        u.day as int,
                                        y2 as int,
                                        m2 as int,
                                        d2 as int,
                                    ) {
                                        assert(!date_lt(
                                            y as int,
                                            m as int,
                                            d as int,
                                            u.year as int,
                                            u.month as int,
                                            u.day as int,
                                        ));
                                    } else {
                                        assert(u.year == y2 && u.month == m2 && u.day == d2);
                                        let hs = self.spec_hours();
                                        let ms = self.spec_minutes();
                                        if u.hour == first_hour {
                                            assert(u.minute < first_minute);
                                            let km = choose|j: int|
                                                0 <= j < ms.len() && ms[j] == u.minute;
                                            if km > 0 {
                                                assert(ms[0] < ms[km]);
                                            }
                                        } else {
                                            assert(u.hour < first_hour);
                                            let k = choose|j: int|
                                                0 <= j < hs.len() && hs[j] == u.hour;
                                            if k > 0 {
                                                assert(hs[0] < hs[k]);
                                            }
                                        }
                                    }
                                }
                            }
                        }
                        return Some(t);
                    }
                    proof {
                        assert forall|u: DateTime|
                            u.wf() && after.spec_lt(u) && !date_lt(
                                y2 as int,
                                m2 as int,
                                d2 as int,
                                u.year as int,
                                u.month as int,
                                u.day as int,
                            ) implies !self.spec_matches(u) by {
                            if date_lt(
                                y as int,
                                m as int,
                                d as int,
                                u.year as int,
                                u.month as int,
                                u.day as int,
                            ) {
                                assert(u.year == y2 && u.month == m2 && u.day == d2);
                                assert(!self.spec_date_matches(y2, m2, d2));
                            }
                        }
                    }
                    y = y2;
                    m = m2;
                    d = d2;
                },
            }
        }
    }
}


impl Recurrence {
    /// `t` is the next match of this rule strictly after `after`: a
    /// well-formed matching instant with nothing matching in between. This is
    /// exactly what a minute-by-minute scan from `after` would return.
    pub open spec fn is_next_match(self, after: DateTime, t: DateTime) -> bool {
        &&& t.wf()
        &&& self.spec_matches(t)
        &&& after.spec_lt(t)
        &&& forall|u: DateTime| u.wf() && after.spec_lt(u) && u.spec_lt(t) ==> !self.spec_matches(u)
    }
}

/// A rule has at most one next match after a given instant: any two
/// procedures that return a matching instant with nothing matching in
/// between — a brute-force minute scan and the day-jumping search alike —
/// agree on every rule and reference instant.
pub proof fn lemma_next_match_unique(rec: Recurrence, after: DateTime, t1: DateTime, t2: DateTime)
    requires
        rec.is_next_match(after, t1),
        rec.is_next_match(after, t2),
    ensures
        t1 == t2,
{
    if t1.spec_lt(t2) {
        assert(!rec.spec_matches(t1));
    } else if t2.spec_lt(t1) {
        assert(!rec.spec_matches(t2));
    } else {
        assert(t1.year == t2.year && t1.month == t2.month && t1.day == t2.day && t1.hour
            == t2.hour && t1.minute == t2.minute);
    }
}

} // verus!

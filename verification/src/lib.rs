//! A cron scheduling kernel: parses cron-style time fields into normalized
//! value sets and computes the next instant at which a rule fires.

use vstd::prelude::*;

pub mod crontab;
pub mod date_time;
pub mod date_time_field_parser;
pub mod recurrence;
pub mod stepped_range;

verus! {

/// The ways a schedule can fail to be built or queried.
#[derive(Debug, Clone, Copy, PartialEq, Eq, Structural)]
pub enum CronError {
    /// Unparsable number, empty range, or unknown symbolic name in a field.
    MalformedField,
    /// A parsed value lies outside the field's declared domain.
    OutOfDomain,
    /// A stepped range was given a step of zero.
    InvalidStep,
    /// No entry yields an upcoming run.
    EmptyScheduleSet,
}

/// A sequence of bytes in strictly ascending order (hence duplicate-free).
pub open spec fn strictly_increasing(s: Seq<u8>) -> bool {
    forall|i: int, j: int| 0 <= i < j < s.len() ==> s[i] < s[j]
}

/// Every element of `s` lies within `[lo, hi]`.
pub open spec fn all_within(s: Seq<u8>, lo: u8, hi: u8) -> bool {
    forall|i: int| 0 <= i < s.len() ==> lo <= #[trigger] s[i] <= hi
}

} // verus!

//! Parses one cron field string into a sorted, deduplicated set of values
//! within a declared `[min, max]` domain, optionally treating the value one
//! past `max` as folding back to `min` (wraparound, used for days of week).
//!
//! The grammar per field is a comma-separated list of list-entries; each
//! list-entry is `<base>[/<step>]` where the base is `*`, a single number, a
//! range `A-B`, or a case-insensitive symbolic month or weekday name.

use vstd::prelude::*;
use vstd::pervasive::VecAdditionalExecFns;
use vstd::string::StringSliceAdditionalSpecFns;
use crate::{CronError, all_within};
use crate::stepped_range::{stepped_seq, lemma_stepped_seq_bounds, SteppedRange};

verus! {

// ---------------------------------------------------------------------------
// Byte-level building blocks of the grammar.
// ---------------------------------------------------------------------------

/// ASCII decimal digit.
pub open spec fn is_digit(b: u8) -> bool {
    ('0' as u8) <= b <= ('9' as u8)
}

/// ASCII lower-casing of one byte; bytes outside `A..=Z` are unchanged.
pub open spec fn fold_byte(b: u8) -> u8 {
    if ('A' as u8) <= b <= ('Z' as u8) {
        (b + 32) as u8
    } else {
        b
    }
}

/// ASCII lower-casing of a whole byte sequence.
pub open spec fn fold_bytes(s: Seq<u8>) -> Seq<u8> {
    s.map_values(|b: u8| fold_byte(b))
}

/// The numeric value of a digit sequence read left to right.
pub open spec fn digits_val(s: Seq<u8>) -> int
    decreases s.len(),
{
    if s.len() == 0 {
        0
    } else {
        digits_val(s.drop_last()) * 10 + (s.last() - ('0' as u8))
    }
}

/// What `A` means as a number: all bytes are digits, and the value fits in a
/// byte. Leading zeros are accepted, a sign or anything else is not.
pub open spec fn spec_parse_u8(s: Seq<u8>) -> Option<u8> {
    if s.len() > 0 && (forall|i: int| 0 <= i < s.len() ==> is_digit(#[trigger] s[i]))
        && digits_val(s) <= 255 {
        Some(digits_val(s) as u8)
    } else {
        None
    }
}

/// Index of the first occurrence of `b` in `s`, or `s.len()` if there is none.
pub open spec fn find_byte(s: Seq<u8>, b: u8) -> int
    decreases s.len(),
{
    if s.len() == 0 {
        0
    } else if s[0] == b {
        0
    } else {
        1 + find_byte(s.drop_first(), b)
    }
}

/// `find_byte` is the unique index with nothing equal to `b` before it and
/// `b` (or the end of the sequence) at it.
pub proof fn lemma_find_byte(s: Seq<u8>, b: u8)
    ensures
        0 <= find_byte(s, b) <= s.len(),
        forall|i: int| 0 <= i < find_byte(s, b) ==> s[i] != b,
        find_byte(s, b) < s.len() ==> s[find_byte(s, b)] == b,
    decreases s.len(),
{
    if s.len() > 0 && s[0] != b {
        lemma_find_byte(s.drop_first(), b);
        assert forall|i: int| 0 <= i < find_byte(s, b) implies s[i] != b by {
            if i > 0 {
                assert(s.drop_first()[i - 1] != b);
            }
        }
    }
}

/// A scan that stops at the first `b` has found `find_byte`.
pub proof fn lemma_find_byte_is(s: Seq<u8>, b: u8, k: int)
    requires
        0 <= k <= s.len(),
        forall|i: int| 0 <= i < k ==> s[i] != b,
        k < s.len() ==> s[k] == b,
    ensures
        find_byte(s, b) == k,
    decreases s.len(),
{
    if s.len() > 0 && s[0] != b {
        lemma_find_byte_is(s.drop_first(), b, k - 1);
    }
}

/// The symbolic names: `sun..sat` give the weekdays 0 to 6 (Sunday first),
/// `jan..dec` give the months 1 to 12. The two tables overlap, as in classic
/// cron fields, so `mon` is 1 both as Monday and via January's neighbour slot.
pub open spec fn is3(s: Seq<u8>, a: u8, b: u8, c: u8) -> bool {
    s.len() == 3 && s[0] == a && s[1] == b && s[2] == c
}

/// Looks a (lower-cased) base up in the symbolic-name table.
pub open spec fn name_value(s: Seq<u8>) -> Option<u8> {
    if is3(s, ('s' as u8), ('u' as u8), ('n' as u8)) {
        Some(0u8)
    } else if is3(s, ('j' as u8), ('a' as u8), ('n' as u8)) || is3(s, ('m' as u8), ('o' as u8), ('n' as u8)) {
        Some(1u8)
    } else if is3(s, ('f' as u8), ('e' as u8), ('b' as u8)) || is3(s, ('t' as u8), ('u' as u8), ('e' as u8)) {
        Some(2u8)
    } else if is3(s, ('m' as u8), ('a' as u8), ('r' as u8)) || is3(s, ('w' as u8), ('e' as u8), ('d' as u8)) {
        Some(3u8)
    } else if is3(s, ('a' as u8), ('p' as u8), ('r' as u8)) || is3(s, ('t' as u8), ('h' as u8), ('u' as u8)) {
        Some(4u8)
    } else if is3(s, ('m' as u8), ('a' as u8), ('y' as u8)) || is3(s, ('f' as u8), ('r' as u8), ('i' as u8)) {
        Some(5u8)
    } else if is3(s, ('j' as u8), ('u' as u8), ('n' as u8)) || is3(s, ('s' as u8), ('a' as u8), ('t' as u8)) {
        Some(6u8)
    } else if is3(s, ('j' as u8), ('u' as u8), ('l' as u8)) {
        Some(7u8)
    } else if is3(s, ('a' as u8), ('u' as u8), ('g' as u8)) {
        Some(8u8)
    } else if is3(s, ('s' as u8), ('e' as u8), ('p' as u8)) {
        Some(9u8)
    } else if is3(s, ('o' as u8), ('c' as u8), ('t' as u8)) {
        Some(10u8)
    } else if is3(s, ('n' as u8), ('o' as u8), ('v' as u8)) {
        Some(11u8)
    } else if is3(s, ('d' as u8), ('e' as u8), ('c' as u8)) {
        Some(12u8)
    } else {
        None
    }
}

// ---------------------------------------------------------------------------
// The grammar of one list-entry.
// ---------------------------------------------------------------------------

/// The base `*` alone.
pub open spec fn is_star(s: Seq<u8>) -> bool {
    s.len() == 1 && s[0] == ('*' as u8)
}

/// What a base without `*` or a symbolic name means: `A-B` (split at the
/// first dash) or a bare `A` standing for `A-A`, inclusive both ends.
pub open spec fn spec_parse_range(s: Seq<u8>) -> Result<(u8, u8), CronError> {
    let dash = find_byte(s, ('-' as u8));
    if dash == s.len() {
        match spec_parse_u8(s) {
            Some(a) => Ok((a, a)),
            None => Err(CronError::MalformedField),
        }
    } else {
        match (spec_parse_u8(s.take(dash)), spec_parse_u8(s.skip(dash + 1))) {
            (Some(a), Some(b)) => Ok((a, b)),
            _ => Err(CronError::MalformedField),
        }
    }
}

/// The inclusive numeric range a base stands for: `*` is the whole domain,
/// then the symbolic-name table is consulted on the lower-cased base, and
/// anything else is read as `A-B` or a bare number.
pub open spec fn spec_base_range(min: u8, max: u8, base: Seq<u8>) -> Result<(u8, u8), CronError> {
    if is_star(base) {
        Ok((min, max))
    } else {
        match name_value(fold_bytes(base)) {
            Some(n) => Ok((n, n)),
            None => spec_parse_range(base),
        }
    }
}

/// Whether every value of a generated sequence lies within `[min, max]`.
pub open spec fn in_domain(min: u8, max: u8, vs: Seq<int>) -> bool {
    forall|i: int| 0 <= i < vs.len() ==> min as int <= #[trigger] vs[i] <= max as int
}

/// A generated sequence of small integers, as bytes.
pub open spec fn to_u8s(vs: Seq<int>) -> Seq<u8> {
    vs.map_values(|v: int| v as u8)
}

/// What one list-entry `<base>[/<step>]` contributes, in order of generation:
/// the stepped values of the base's range, with a last value equal to
/// `max + 1` folded back to `min` on a wrapping domain, every value then
/// required to lie within the domain.
pub open spec fn spec_parse_entry(min: u8, max: u8, wraps: bool, part: Seq<u8>) -> Result<
    Seq<u8>,
    CronError,
> {
    let slash = find_byte(part, ('/' as u8));
    let base = part.take(slash);
    match spec_base_range(min, max, base) {
        Err(e) => Err(e),
        Ok((a, b)) => {
            let step_r: Result<u8, CronError> = if slash == part.len() {
                Ok(1u8)
            } else {
                match spec_parse_u8(part.skip(slash + 1)) {
                    None => Err(CronError::MalformedField),
                    Some(k) => if k == 0 {
                        Err(CronError::InvalidStep)
                    } else {
                        Ok(k)
                    },
                }
            };
            match step_r {
                Err(e) => Err(e),
                Ok(step) => {
                    if a > b {
                        Err(CronError::MalformedField)
                    } else {
                        let raw = stepped_seq(a as int, b as int + 1, step as int);
                        let folded = if wraps && raw.last() == max as int + 1 {
                            raw.update(raw.len() - 1, min as int)
                        } else {
                            raw
                        };
                        if in_domain(min, max, folded) {
                            Ok(to_u8s(folded))
                        } else {
                            Err(CronError::OutOfDomain)
                        }
                    }
                },
            }
        },
    }
}

// ---------------------------------------------------------------------------
// The whole field: comma-separated list-entries, then normalization.
// ---------------------------------------------------------------------------

/// The set of values contributed by the list-entries of `s`, or the error of
/// the leftmost failing list-entry.
pub open spec fn spec_parse_parts(min: u8, max: u8, wraps: bool, s: Seq<u8>) -> Result<
    Set<u8>,
    CronError,
>
    decreases s.len(),
{
    let comma = find_byte(s, (',' as u8));
    if !(0 <= comma < s.len()) {
        match spec_parse_entry(min, max, wraps, s) {
            Err(e) => Err(e),
            Ok(vs) => Ok(vs.to_set()),
        }
    } else {
        match spec_parse_entry(min, max, wraps, s.take(comma)) {
            Err(e) => Err(e),
            Ok(vs) => match spec_parse_parts(min, max, wraps, s.skip(comma + 1)) {
                Err(e) => Err(e),
                Ok(rest) => Ok(vs.to_set() + rest),
            },
        }
    }
}

/// The members of `s` below `n`, listed in ascending order.
pub open spec fn ascending_below(s: Set<u8>, n: int) -> Seq<u8>
    decreases n,
{
    if n <= 0 {
        Seq::empty()
    } else {
        ascending_below(s, n - 1) + (if s.contains((n - 1) as u8) {
            seq![(n - 1) as u8]
        } else {
            Seq::<u8>::empty()
        })
    }
}

/// The normalized value set of `s`: all members, ascending.
pub open spec fn ascending_of(s: Set<u8>) -> Seq<u8> {
    ascending_below(s, 256)
}

/// What `parse_field` returns: the normalized (sorted, deduplicated) set of
/// values contributed by the field's list-entries, or the error of the
/// leftmost failing list-entry.
pub open spec fn spec_parse_field(min: u8, max: u8, wraps: bool, s: Seq<u8>) -> Result<
    Seq<u8>,
    CronError,
> {
    match spec_parse_parts(min, max, wraps, s) {
        Err(e) => Err(e),
        Ok(set) => Ok(ascending_of(set)),
    }
}


// ---------------------------------------------------------------------------
// Facts about digit sequences.
// ---------------------------------------------------------------------------

/// A digit sequence never reads as a negative number.
proof fn lemma_digits_val_nonneg(s: Seq<u8>)
    requires
        forall|i: int| 0 <= i < s.len() ==> is_digit(#[trigger] s[i]),
    ensures
        digits_val(s) >= 0,
    decreases s.len(),
{
    if s.len() > 0 {
        lemma_digits_val_nonneg(s.drop_last());
    }
}

/// Reading more digits can only grow the value.
proof fn lemma_digits_val_mono(s: Seq<u8>, k: int)
    requires
        forall|i: int| 0 <= i < s.len() ==> is_digit(#[trigger] s[i]),
        0 <= k <= s.len(),
    ensures
        digits_val(s.take(k)) <= digits_val(s),
    decreases s.len() - k,
{
    if k == s.len() {
        assert(s.take(k) =~= s);
    } else {
        lemma_digits_val_mono(s, k + 1);
        assert(s.take(k + 1).drop_last() =~= s.take(k));
        lemma_digits_val_nonneg(s.take(k + 1).drop_last());
    }
}

// ---------------------------------------------------------------------------
// Executable byte-level helpers.
// ---------------------------------------------------------------------------

/// First index of `b` within `bytes[lo..hi]`, or `hi` if it does not occur.
fn find_byte_in(bytes: &[u8], lo: usize, hi: usize, b: u8) -> (r: usize)
    requires
        lo <= hi <= bytes@.len(),
    ensures
        lo <= r <= hi,
        r - lo == find_byte(bytes@.subrange(lo as int, hi as int), b),
        r < hi ==> bytes@[r as int] == b,
        forall|j: int| lo <= j < r ==> bytes@[j] != b,
{
    let ghost sub = bytes@.subrange(lo as int, hi as int);
    let mut i: usize = lo;
    while i < hi
        invariant
            lo <= i <= hi <= bytes@.len(),
            sub == bytes@.subrange(lo as int, hi as int),
            forall|j: int| lo <= j < i ==> bytes@[j] != b,
        decreases hi - i,
    {
        if bytes[i] == b {
            proof {
                assert(forall|j: int| 0 <= j < i - lo ==> sub[j] == bytes@[lo + j] && sub[j] != b);
                assert(sub[i - lo] == b);
                lemma_find_byte_is(sub, b, i - lo);
            }
            return i;
        }
        i += 1;
    }
    proof {
        assert(forall|j: int| 0 <= j < hi - lo ==> sub[j] == bytes@[lo + j] && sub[j] != b);
        lemma_find_byte_is(sub, b, (hi - lo) as int);
    }
    hi
}

/// Reads `bytes[lo..hi]` as a decimal number fitting in a byte.
fn parse_u8_range(bytes: &[u8], lo: usize, hi: usize) -> (r: Option<u8>)
    requires
        lo <= hi <= bytes@.len(),
    ensures
        r == spec_parse_u8(bytes@.subrange(lo as int, hi as int)),
{
    let ghost sub = bytes@.subrange(lo as int, hi as int);
    if lo == hi {
        return None;
    }
    let mut acc: u32 = 0;
    let mut i: usize = lo;
    while i < hi
        invariant
            lo <= i <= hi <= bytes@.len(),
            sub == bytes@.subrange(lo as int, hi as int),
            forall|j: int| 0 <= j < i - lo ==> is_digit(#[trigger] sub[j]),
            acc <= 255,
            acc as int == digits_val(sub.take(i - lo)),
        decreases hi - i,
    {
        let c = bytes[i];
        proof {
            assert(sub[i - lo] == bytes@[i as int]);
        }
        if c < 48 || c > 57 {
            return None;
        }
        acc = acc * 10 + (c - 48) as u32;
        proof {
            assert(sub.take(i - lo + 1).drop_last() =~= sub.take(i - lo));
            assert(sub.take(i - lo + 1).last() == sub[i - lo]);
        }
        if acc > 255 {
            proof {
                if forall|j: int| 0 <= j < sub.len() ==> is_digit(#[trigger] sub[j]) {
                    lemma_digits_val_mono(sub, i - lo + 1);
                }
            }
            return None;
        }
        i += 1;
    }
    proof {
        assert(sub.take(hi - lo) =~= sub);
    }
    Some(acc as u8)
}

/// Lower-cases one ASCII byte.
fn fold_byte_ex(b: u8) -> (r: u8)
    ensures
        r == fold_byte(b),
{
    if b >= 65 && b <= 90 {
        b + 32
    } else {
        b
    }
}

/// Looks `bytes[lo..hi]` up in the symbolic-name table, case-insensitively.
fn lookup_name(bytes: &[u8], lo: usize, hi: usize) -> (r: Option<u8>)
    requires
        lo <= hi <= bytes@.len(),
    ensures
        r == name_value(fold_bytes(bytes@.subrange(lo as int, hi as int))),
{
    let ghost sub = bytes@.subrange(lo as int, hi as int);
    let ghost f = fold_bytes(sub);
    proof {
        assert(f.len() == sub.len());
    }
    if hi - lo != 3 {
        return None;
    }
    let c0 = fold_byte_ex(bytes[lo]);
    let c1 = fold_byte_ex(bytes[lo + 1]);
    let c2 = fold_byte_ex(bytes[lo + 2]);
    proof {
        assert(sub[0] == bytes@[lo as int]);
        assert(sub[1] == bytes@[lo as int + 1]);
        assert(sub[2] == bytes@[lo as int + 2]);
        assert(f[0] == fold_byte(sub[0]));
        assert(f[1] == fold_byte(sub[1]));
        assert(f[2] == fold_byte(sub[2]));
    }
    if c0 == ('s' as u8) && c1 == ('u' as u8) && c2 == ('n' as u8) {
        Some(0)
    } else if c0 == ('j' as u8) && c1 == ('a' as u8) && c2 == ('n' as u8) {
        Some(1)
    } else if c0 == ('m' as u8) && c1 == ('o' as u8) && c2 == ('n' as u8) {
        Some(1)
    } else if c0 == ('f' as u8) && c1 == ('e' as u8) && c2 == ('b' as u8) {
        Some(2)
    } else if c0 == ('t' as u8) && c1 == ('u' as u8) && c2 == ('e' as u8) {
        Some(2)
    } else if c0 == ('m' as u8) && c1 == ('a' as u8) && c2 == ('r' as u8) {
        Some(3)
    } else if c0 == ('w' as u8) && c1 == ('e' as u8) && c2 == ('d' as u8) {
        Some(3)
    } else if c0 == ('a' as u8) && c1 == ('p' as u8) && c2 == ('r' as u8) {
        Some(4)
    } else if c0 == ('t' as u8) && c1 == ('h' as u8) && c2 == ('u' as u8) {
        Some(4)
    } else if c0 == ('m' as u8) && c1 == ('a' as u8) && c2 == ('y' as u8) {
        Some(5)
    } else if c0 == ('f' as u8) && c1 == ('r' as u8) && c2 == ('i' as u8) {
        Some(5)
    } else if c0 == ('j' as u8) && c1 == ('u' as u8) && c2 == ('n' as u8) {
        Some(6)
    } else if c0 == ('s' as u8) && c1 == ('a' as u8) && c2 == ('t' as u8) {
        Some(6)
    } else if c0 == ('j' as u8) && c1 == ('u' as u8) && c2 == ('l' as u8) {
        Some(7)
    } else if c0 == ('a' as u8) && c1 == ('u' as u8) && c2 == ('g' as u8) {
        Some(8)
    } else if c0 == ('s' as u8) && c1 == ('e' as u8) && c2 == ('p' as u8) {
        Some(9)
    } else if c0 == ('o' as u8) && c1 == ('c' as u8) && c2 == ('t' as u8) {
        Some(10)
    } else if c0 == ('n' as u8) && c1 == ('o' as u8) && c2 == ('v' as u8) {
        Some(11)
    } else if c0 == ('d' as u8) && c1 == ('e' as u8) && c2 == ('c' as u8) {
        Some(12)
    } else {
        None
    }
}


/// Parses one cron field against a `[min, max]` domain; on a wrapping domain
/// the value `max + 1` folds back to `min` (day of week, where 7 means 0).
pub struct DateTimeFieldParser {
    pub min: u8,
    pub max: u8,
    pub wrap_around_at_end: bool,
}

impl DateTimeFieldParser {
    /// A parser over the non-wrapping domain `[min, max]`.
    pub fn new(min: u8, max: u8) -> (r: DateTimeFieldParser)
        ensures
            r.min == min,
            r.max == max,
            !r.wrap_around_at_end,
    {
        DateTimeFieldParser { min, max, wrap_around_at_end: false }
    }

    /// A parser over `[min, max]` where `max + 1` folds back to `min`.
    pub fn new_with_wrap_around(min: u8, max: u8) -> (r: DateTimeFieldParser)
        ensures
            r.min == min,
            r.max == max,
            r.wrap_around_at_end,
    {
        DateTimeFieldParser { min, max, wrap_around_at_end: true }
    }

    /// Whether a value lies within the parser's domain.
    pub fn verify_range(&self, value: u8) -> (r: bool)
        ensures
            r == (self.min <= value <= self.max),
    {
        self.min <= value && value <= self.max
    }

    /// Reads a base as the inclusive pair `(A, B)`: either `A-B`, split at the
    /// first dash, or a bare `A` standing for `A-A`.
    pub fn parse_range(&self, string_value: &str) -> (r: Result<(u8, u8), CronError>)
        ensures
            r == spec_parse_range(string_value.spec_bytes()),
    {
        let bytes: &[u8] = string_value.as_bytes();
        proof {
            assert(bytes@.subrange(0, bytes@.len() as int) =~= bytes@);
        }
        self.parse_range_at(bytes, 0, bytes.len())
    }

    /// `parse_range` on the slice `bytes[lo..hi]`.
    fn parse_range_at(&self, bytes: &[u8], lo: usize, hi: usize) -> (r: Result<
        (u8, u8),
        CronError,
    >)
        requires
            lo <= hi <= bytes@.len(),
        ensures
            r == spec_parse_range(bytes@.subrange(lo as int, hi as int)),
    {
        let ghost sub = bytes@.subrange(lo as int, hi as int);
        let dash = find_byte_in(bytes, lo, hi, ('-' as u8));
        if dash == hi {
            match parse_u8_range(bytes, lo, hi) {
                Some(a) => Ok((a, a)),
                None => Err(CronError::MalformedField),
            }
        } else {
            proof {
                assert(sub.take(dash - lo) =~= bytes@.subrange(lo as int, dash as int));
                assert(sub.skip(dash - lo + 1) =~= bytes@.subrange(dash as int + 1, hi as int));
            }
            let a = match parse_u8_range(bytes, lo, dash) {
                Some(a) => a,
                None => {
                    return Err(CronError::MalformedField);
                },
            };
            match parse_u8_range(bytes, dash + 1, hi) {
                Some(b) => Ok((a, b)),
                None => Err(CronError::MalformedField),
            }
        }
    }

    /// The inclusive range a base stands for: the whole domain for `*`, the
    /// symbolic-name table on the lower-cased base, else `A-B` or a bare `A`.
    fn base_range_at(&self, bytes: &[u8], lo: usize, hi: usize) -> (r: Result<
        (u8, u8),
        CronError,
    >)
        requires
            lo <= hi <= bytes@.len(),
        ensures
            r == spec_base_range(self.min, self.max, bytes@.subrange(lo as int, hi as int)),
    {
        let ghost sub = bytes@.subrange(lo as int, hi as int);
        if hi - lo == 1 && bytes[lo] == ('*' as u8) {
            proof {
                assert(sub[0] == bytes@[lo as int]);
            }
            return Ok((self.min, self.max));
        }
        match lookup_name(bytes, lo, hi) {
            Some(n) => Ok((n, n)),
            None => self.parse_range_at(bytes, lo, hi),
        }
    }
}


impl DateTimeFieldParser {
    /// Parses one list-entry `<base>[/<step>]` into the values it contributes,
    /// in generation order: the stepped values of the base's range, a trailing
    /// `max + 1` folded to `min` on a wrapping domain, all checked against the
    /// domain.
    pub fn parse_list_entry(&self, string_value: &str) -> (r: Result<Vec<u8>, CronError>)
        ensures
            match r {
                Ok(v) => spec_parse_entry(
                    self.min,
                    self.max,
                    self.wrap_around_at_end,
                    string_value.spec_bytes(),
                ) == Ok::<Seq<u8>, CronError>(v@),
                Err(e) => spec_parse_entry(
                    self.min,
                    self.max,
                    self.wrap_around_at_end,
                    string_value.spec_bytes(),
                ) == Err::<Seq<u8>, CronError>(e),
            },
    {
        let bytes: &[u8] = string_value.as_bytes();
        proof {
            assert(bytes@.subrange(0, bytes@.len() as int) =~= bytes@);
        }
        self.parse_entry_at(bytes, 0, bytes.len())
    }

    /// `parse_list_entry` on the slice `bytes[lo..hi]`.
    #[verifier::loop_isolation(false)]
    fn parse_entry_at(&self, bytes: &[u8], lo: usize, hi: usize) -> (r: Result<Vec<u8>, CronError>)
        requires
            lo <= hi <= bytes@.len(),
        ensures
            match r {
                Ok(v) => spec_parse_entry(
                    self.min,
                    self.max,
                    self.wrap_around_at_end,
                    bytes@.subrange(lo as int, hi as int),
                ) == Ok::<Seq<u8>, CronError>(v@),
                Err(e) => spec_parse_entry(
                    self.min,
                    self.max,
                    self.wrap_around_at_end,
                    bytes@.subrange(lo as int, hi as int),
                ) == Err::<Seq<u8>, CronError>(e),
            },
    {
        let ghost sub = bytes@.subrange(lo as int, hi as int);
        let slash = find_byte_in(bytes, lo, hi, ('/' as u8));
        proof {
            assert(sub.take(slash - lo) =~= bytes@.subrange(lo as int, slash as int));
        }
        let (a, b) = match self.base_range_at(bytes, lo, slash) {
            Ok(p) => p,
            Err(e) => {
                return Err(e);
            },
        };
        let step: u8 = if slash == hi {
            1
        } else {
            proof {
                assert(sub.skip(slash - lo + 1) =~= bytes@.subrange(slash as int + 1, hi as int));
            }
            match parse_u8_range(bytes, slash + 1, hi) {
                Some(k) => k,
                None => {
                    return Err(CronError::MalformedField);
                },
            }
        };
        let mut sr = match SteppedRange::new(a as u16, (b as u16) + 1, step as u16) {
            Ok(sr) => sr,
            Err(e) => {
                return Err(e);
            },
        };
        if a > b {
            return Err(CronError::MalformedField);
        }
        let ghost raw = stepped_seq(a as int, b as int + 1, step as int);
        proof {
            lemma_stepped_seq_bounds(a as int, b as int + 1, step as int);
        }
        let mut vals: Vec<u8> = Vec::new();
        while sr.start < sr.end
            invariant
                sr.step == step as u16,
                sr.end == (b as u16) + 1,
                vals@.len() <= raw.len(),
                forall|j: int| 0 <= j < vals@.len() ==> #[trigger] vals@[j] as int == raw[j],
                sr.remaining() == raw.skip(vals@.len() as int),
            decreases sr.remaining().len(),
        {
            let ghost k = vals@.len() as int;
            match sr.next() {
                Some(v) => {
                    proof {
                        lemma_stepped_seq_bounds(a as int, b as int + 1, step as int);
                        assert(raw.skip(k).len() > 0);
                        assert(raw.skip(k)[0] == raw[k]);
                        assert(v as int == raw[k]);
                        assert(a as int <= raw[k] < b as int + 1);
                        assert(raw.skip(k).drop_first() =~= raw.skip(k + 1));
                    }
                    vals.push(v as u8);
                },
                None => {
                    proof {
                        assert(false);
                    }
                },
            }
        }
        proof {
            assert(raw.skip(vals@.len() as int).len() == raw.len() - vals@.len());
            assert(vals@.len() == raw.len());
        }
        let ghost folded = if self.wrap_around_at_end && raw.last() == self.max as int + 1 {
            raw.update(raw.len() - 1, self.min as int)
        } else {
            raw
        };
        if self.wrap_around_at_end {
            let last = match vals.pop() {
                Some(l) => l,
                None => {
                    proof {
                        assert(false);
                    }
                    0u8
                },
            };
            proof {
                assert(last as int == raw[raw.len() - 1]);
            }
            if (last as u16) == (self.max as u16) + 1 {
                vals.push(self.min);
            } else {
                vals.push(last);
            }
        }
        proof {
            assert(vals@.len() == folded.len());
            assert(forall|j: int| 0 <= j < vals@.len() ==> #[trigger] vals@[j] as int == folded[j]);
            assert(forall|j: int| 0 <= j < folded.len() ==> 0 <= #[trigger] folded[j] <= 255);
        }
        proof {
            assert(spec_parse_entry(self.min, self.max, self.wrap_around_at_end, sub) == (
                if in_domain(self.min, self.max, folded) {
                    Ok::<Seq<u8>, CronError>(to_u8s(folded))
                } else {
                    Err::<Seq<u8>, CronError>(CronError::OutOfDomain)
                }));
        }
        let n_vals = vals.len();
        let mut i: usize = 0;
        while i < n_vals
            invariant
                i <= n_vals == vals@.len(),
                vals@.len() == folded.len(),
                forall|j: int| 0 <= j < vals@.len() ==> #[trigger] vals@[j] as int == folded[j],
                forall|j: int| 0 <= j < i ==> self.min as int <= #[trigger] folded[j] <= self.max as int,
            decreases n_vals - i,
        {
            let v = vals[i];
            if v < self.min || v > self.max {
                proof {
                    assert(!(self.min as int <= folded[i as int] <= self.max as int));
                    assert(!in_domain(self.min, self.max, folded));
                }
                return Err(CronError::OutOfDomain);
            }
            i += 1;
        }
        proof {
            assert(in_domain(self.min, self.max, folded));
            assert(vals@ =~= to_u8s(folded));
        }
        Ok(vals)
    }
}


impl DateTimeFieldParser {
    /// Parses a whole field: every comma-separated list-entry contributes its
    /// values, and the result is their union, sorted ascending with
    /// duplicates removed. A failing list-entry (leftmost first) fails the
    /// whole field with its error. The result is a function of the domain and
    /// the text alone, so parsing the same field twice yields identical value
    /// sets.
    pub fn parse_field(&self, string_value: &str) -> (r: Result<Vec<u8>, CronError>)
        ensures
            match r {
                Ok(v) => spec_parse_field(
                    self.min,
                    self.max,
                    self.wrap_around_at_end,
                    string_value.spec_bytes(),
                ) == Ok::<Seq<u8>, CronError>(v@),
                Err(e) => spec_parse_field(
                    self.min,
                    self.max,
                    self.wrap_around_at_end,
                    string_value.spec_bytes(),
                ) == Err::<Seq<u8>, CronError>(e),
            },
    {
        let bytes: &[u8] = string_value.as_bytes();
        let ghost full = bytes@;
        let n = bytes.len();
        let mut present: Vec<bool> = Vec::new();
        while present.len() < 256
            invariant
                present@.len() <= 256,
                forall|j: int| 0 <= j < present@.len() ==> !(#[trigger] present@[j]),
            decreases 256 - present@.len(),
        {
            present.push(false);
        }
        let ghost mut seen: Set<u8> = Set::empty();
        let mut pos: usize = 0;
        proof {
            assert(full.skip(0) =~= full);
            if let Ok(s2) = spec_parse_parts(self.min, self.max, self.wrap_around_at_end, full) {
                assert(seen + s2 =~= s2);
            }
        }
        loop
            invariant_except_break
                spec_parse_parts(self.min, self.max, self.wrap_around_at_end, full) == (
                match spec_parse_parts(
                    self.min,
                    self.max,
                    self.wrap_around_at_end,
                    full.skip(pos as int),
                ) {
                    Err(e) => Err::<Set<u8>, CronError>(e),
                    Ok(s2) => Ok::<Set<u8>, CronError>(seen + s2),
                }),
            invariant
                pos <= n,
                n == full.len(),
                bytes@ == full,
                full == string_value.spec_bytes(),
                present@.len() == 256,
                forall|v: u8| #[trigger] present@[v as int] == seen.contains(v),
            ensures
                present@.len() == 256,
                forall|v: u8| #[trigger] present@[v as int] == seen.contains(v),
                spec_parse_parts(self.min, self.max, self.wrap_around_at_end, full)
                    == Ok::<Set<u8>, CronError>(seen),
            decreases n - pos,
        {
            let ghost suf = full.skip(pos as int);
            let comma = find_byte_in(bytes, pos, n, (',' as u8));
            proof {
                assert forall|j: int| 0 <= j < comma - pos implies suf[j] != (',' as u8) by {
                    assert(suf[j] == full[pos + j]);
                }
                if comma < n {
                    assert(suf[comma - pos] == full[comma as int]);
                }
                lemma_find_byte_is(suf, (',' as u8), comma - pos);
                assert(suf.take(comma - pos) =~= full.subrange(pos as int, comma as int));
                if comma == n {
                    assert(suf =~= full.subrange(pos as int, n as int));
                }
            }
            let vals = match self.parse_entry_at(bytes, pos, comma) {
                Ok(v) => v,
                Err(e) => {
                    return Err(e);
                },
            };
            // Mark the contributed values.
            let ghost seen0 = seen;
            let mut k: usize = 0;
            while k < vals.len()
                invariant
                    k <= vals@.len(),
                    present@.len() == 256,
                    forall|v: u8| #[trigger] present@[v as int] == (seen.contains(v) || exists|j: int|
                        0 <= j < k && vals@[j] == v),
                decreases vals@.len() - k,
            {
                let v = vals[k];
                present.set(v as usize, true);
                proof {
                    assert forall|w: u8| #[trigger] present@[w as int] == (seen.contains(w)
                        || exists|j: int| 0 <= j < k + 1 && vals@[j] == w) by {
                        if w == v {
                            assert(vals@[k as int] == w);
                        }
                    }
                }
                k += 1;
            }
            proof {
                seen = seen0 + vals@.to_set();
                assert forall|v: u8| #[trigger] present@[v as int] == seen.contains(v) by {
                    assert(vals@.to_set().contains(v) == vals@.contains(v));
                }
            }
            if comma < n {
                proof {
                    assert(suf.skip(comma - pos + 1) =~= full.skip(comma as int + 1));
                    if let Ok(rest) = spec_parse_parts(
                        self.min,
                        self.max,
                        self.wrap_around_at_end,
                        full.skip(comma as int + 1),
                    ) {
                        assert((seen0 + vals@.to_set()) + rest
                            =~= seen0 + (vals@.to_set() + rest));
                    }
                }
                pos = comma + 1;
            } else {
                break;
            }
        }
        // List the marked values in ascending order.
        let mut out: Vec<u8> = Vec::new();
        let mut i: usize = 0;
        while i < 256
            invariant
                i <= 256,
                present@.len() == 256,
                forall|v: u8| #[trigger] present@[v as int] == seen.contains(v),
                out@ == ascending_below(seen, i as int),
            decreases 256 - i,
        {
            if present[i] {
                proof {
                    assert(present@[(i as u8) as int] == seen.contains(i as u8));
                    assert(out@.push(i as u8) =~= ascending_below(seen, i as int)
                        + seq![i as u8]);
                }
                out.push(i as u8);
            }
            i += 1;
        }
        Ok(out)
    }
}


/// `ascending_below(s, n)` lists exactly the members of `s` below `n`, in
/// strictly ascending order.
pub proof fn lemma_ascending_below_props(st: Set<u8>, n: int)
    requires
        0 <= n <= 256,
    ensures
        crate::strictly_increasing(ascending_below(st, n)),
        forall|i: int| 0 <= i < ascending_below(st, n).len()
            ==> (#[trigger] ascending_below(st, n)[i] as int) < n
                && st.contains(ascending_below(st, n)[i]),
        forall|v: u8| (v as int) < n && st.contains(v) ==> ascending_below(st, n).contains(v),
    decreases n,
{
    if n > 0 {
        lemma_ascending_below_props(st, n - 1);
        let prev = ascending_below(st, n - 1);
        let cur = ascending_below(st, n);
        assert forall|i: int| 0 <= i < cur.len() implies (#[trigger] cur[i] as int) < n
            && st.contains(cur[i]) by {
            if i < prev.len() {
                assert(cur[i] == prev[i]);
            }
        }
        assert forall|i: int, j: int| 0 <= i < j < cur.len() implies cur[i] < cur[j] by {
            if j < prev.len() {
                assert(prev[i] < prev[j]);
            } else {
                assert((cur[i] as int) < n - 1 || i >= prev.len());
            }
        }
        assert forall|v: u8| (v as int) < n && st.contains(v) implies cur.contains(v) by {
            if (v as int) < n - 1 {
                let k = choose|k: int| 0 <= k < prev.len() && prev[k] == v;
                assert(cur[k] == v);
            } else {
                assert(cur[cur.len() - 1] == v);
            }
        }
    }
}

/// A list-entry that parses contributes at least one value, all within the
/// domain.
pub proof fn lemma_parse_entry_ok(min: u8, max: u8, wraps: bool, part: Seq<u8>)
    requires
        spec_parse_entry(min, max, wraps, part) is Ok,
    ensures
        spec_parse_entry(min, max, wraps, part)->Ok_0.len() > 0,
        all_within(spec_parse_entry(min, max, wraps, part)->Ok_0, min, max),
{
    let slash = find_byte(part, ('/' as u8));
    let base = part.take(slash);
    let r = spec_base_range(min, max, base);
    let (a, b) = r->Ok_0;
    let step = if slash == part.len() {
        1u8
    } else {
        spec_parse_u8(part.skip(slash + 1))->Some_0
    };
    let raw = stepped_seq(a as int, b as int + 1, step as int);
    lemma_stepped_seq_bounds(a as int, b as int + 1, step as int);
    let folded = if wraps && raw.last() == max as int + 1 {
        raw.update(raw.len() - 1, min as int)
    } else {
        raw
    };
    let v = spec_parse_entry(min, max, wraps, part)->Ok_0;
    assert(v == to_u8s(folded));
    assert(in_domain(min, max, folded));
    assert forall|i: int| 0 <= i < v.len() implies min <= #[trigger] v[i] <= max by {
        assert(v[i] == folded[i] as u8);
        assert(min as int <= folded[i] <= max as int);
    }
}

/// A field that parses yields at least one value, all within the domain.
pub proof fn lemma_parse_parts_ok(min: u8, max: u8, wraps: bool, s: Seq<u8>)
    requires
        spec_parse_parts(min, max, wraps, s) is Ok,
    ensures
        exists|v: u8| spec_parse_parts(min, max, wraps, s)->Ok_0.contains(v),
        forall|v: u8| spec_parse_parts(min, max, wraps, s)->Ok_0.contains(v) ==> min <= v <= max,
    decreases s.len(),
{
    let comma = find_byte(s, (',' as u8));
    let st = spec_parse_parts(min, max, wraps, s)->Ok_0;
    if !(0 <= comma < s.len()) {
        let vs = spec_parse_entry(min, max, wraps, s)->Ok_0;
        lemma_parse_entry_ok(min, max, wraps, s);
        assert(st.contains(vs[0]));
    } else {
        let vs = spec_parse_entry(min, max, wraps, s.take(comma))->Ok_0;
        lemma_parse_entry_ok(min, max, wraps, s.take(comma));
        lemma_parse_parts_ok(min, max, wraps, s.skip(comma + 1));
        assert(st.contains(vs[0]));
        assert forall|v: u8| st.contains(v) implies min <= v <= max by {
            let rest = spec_parse_parts(min, max, wraps, s.skip(comma + 1))->Ok_0;
            if vs.to_set().contains(v) {
                let k = choose|k: int| 0 <= k < vs.len() && vs[k] == v;
                assert(min <= vs[k] <= max);
            } else {
                assert(rest.contains(v));
            }
        }
    }
}

/// A field that parses yields a non-empty, strictly ascending sequence of
/// values within the domain.
pub proof fn lemma_parse_field_normalized(min: u8, max: u8, wraps: bool, s: Seq<u8>)
    requires
        spec_parse_field(min, max, wraps, s) is Ok,
    ensures
        spec_parse_field(min, max, wraps, s)->Ok_0.len() > 0,
        crate::strictly_increasing(spec_parse_field(min, max, wraps, s)->Ok_0),
        all_within(spec_parse_field(min, max, wraps, s)->Ok_0, min, max),
{
    let st = spec_parse_parts(min, max, wraps, s)->Ok_0;
    let v = spec_parse_field(min, max, wraps, s)->Ok_0;
    lemma_parse_parts_ok(min, max, wraps, s);
    lemma_ascending_below_props(st, 256);
    assert(v == ascending_below(st, 256));
    let w = choose|w: u8| st.contains(w);
    assert(v.contains(w));
    assert forall|i: int| 0 <= i < v.len() implies min <= #[trigger] v[i] <= max by {
        assert(st.contains(v[i]));
    }
}


// ---------------------------------------------------------------------------
// Laws of the field grammar.
// ---------------------------------------------------------------------------

/// The canonical decimal text of a small number, digits only.
pub open spec fn dec_bytes(n: int) -> Seq<u8>
    decreases n,
{
    if n < 0 {
        Seq::empty()
    } else if n < 10 {
        seq![(48 + n) as u8]
    } else {
        dec_bytes(n / 10) + seq![(48 + n % 10) as u8]
    }
}

/// Decimal text reads back as the number it was written from.
pub proof fn lemma_dec_bytes(n: int)
    requires
        0 <= n <= 255,
    ensures
        dec_bytes(n).len() > 0,
        forall|i: int| 0 <= i < dec_bytes(n).len() ==> is_digit(#[trigger] dec_bytes(n)[i]),
        digits_val(dec_bytes(n)) == n,
        spec_parse_u8(dec_bytes(n)) == Some(n as u8),
    decreases n,
{
    if n < 10 {
        assert(dec_bytes(n) =~= seq![(48 + n) as u8]);
        assert(dec_bytes(n).drop_last() =~= Seq::<u8>::empty());
        assert(dec_bytes(n).last() == (48 + n) as u8);
        assert(digits_val(Seq::<u8>::empty()) == 0);
        assert(digits_val(dec_bytes(n)) == digits_val(dec_bytes(n).drop_last()) * 10 + (
        dec_bytes(n).last() - ('0' as u8)));
        assert(digits_val(dec_bytes(n)) == n);
    } else {
        lemma_dec_bytes(n / 10);
        let s = dec_bytes(n);
        let p = dec_bytes(n / 10);
        assert(s.drop_last() =~= p);
        assert(s.last() == (48 + n % 10) as u8);
        assert(digits_val(s) == digits_val(p) * 10 + (n % 10));
        assert forall|i: int| 0 <= i < s.len() implies is_digit(#[trigger] s[i]) by {
            if i < p.len() {
                assert(s[i] == p[i]);
            }
        }
    }
}

/// The members of a singleton set, ascending, are that one value alone.
pub proof fn lemma_ascending_of_singleton(v: u8)
    ensures
        ascending_of(Set::empty().insert(v)) =~= seq![v],
{
    let st = Set::empty().insert(v);
    lemma_ascending_below_props(st, 256);
    let asc = ascending_of(st);
    assert(st.contains(v));
    assert(asc.contains(v));
    if asc.len() >= 2 {
        assert(asc[0] == v && asc[1] == v);
        assert(asc[0] < asc[1]);
    }
    let k = choose|k: int| 0 <= k < asc.len() && asc[k] == v;
    assert(asc =~= seq![v]);
}

/// What a field consisting of one bare number parses to: the number itself
/// when it lies within the domain (on a wrapping domain, `max + 1` folds to
/// `min`), and an out-of-domain error otherwise.
pub proof fn lemma_single_number_field(min: u8, max: u8, wraps: bool, n: int)
    requires
        0 <= n <= 255,
    ensures
        min <= n <= max ==> spec_parse_field(min, max, wraps, dec_bytes(n))
            == Ok::<Seq<u8>, CronError>(seq![n as u8]),
        wraps && n == max as int + 1 && min <= max ==> spec_parse_field(min, max, wraps, dec_bytes(n))
            == Ok::<Seq<u8>, CronError>(seq![min]),
        !(min <= n <= max) && !(wraps && n == max as int + 1) ==> spec_parse_field(
            min,
            max,
            wraps,
            dec_bytes(n),
        ) == Err::<Seq<u8>, CronError>(CronError::OutOfDomain),
{
    lemma_dec_bytes(n);
    let s = dec_bytes(n);
    // The text holds digits only, so it has no separators and is no name.
    lemma_find_byte_is(s, (',' as u8), s.len() as int);
    lemma_find_byte_is(s, ('/' as u8), s.len() as int);
    lemma_find_byte_is(s, ('-' as u8), s.len() as int);
    assert(s.take(s.len() as int) =~= s);
    assert(!is_star(s));
    assert(fold_bytes(s) =~= s);
    assert(name_value(s) is None);
    // One part, base `n-n`, step 1.
    assert(spec_base_range(min, max, s) == Ok::<(u8, u8), CronError>((n as u8, n as u8)));
    let raw = stepped_seq(n, n + 1, 1);
    assert(raw =~= seq![n]);
    if wraps && n == max as int + 1 {
        let folded = raw.update(0, min as int);
        assert(folded =~= seq![min as int]);
        if min <= max {
            assert(in_domain(min, max, folded));
            assert(to_u8s(folded) =~= seq![min]);
            assert(spec_parse_entry(min, max, wraps, s) == Ok::<Seq<u8>, CronError>(seq![min]));
            assert(seq![min].to_set() =~= Set::empty().insert(min)) by {
                assert(seq![min][0] == min);
                assert(seq![min].contains(min));
            }
            lemma_ascending_of_singleton(min);
        }
    } else {
        assert(spec_parse_entry(min, max, wraps, s) == (if in_domain(min, max, raw) {
            Ok::<Seq<u8>, CronError>(to_u8s(raw))
        } else {
            Err::<Seq<u8>, CronError>(CronError::OutOfDomain)
        }));
        if min <= n <= max {
            assert(in_domain(min, max, raw));
            assert(to_u8s(raw) =~= seq![n as u8]);
            assert(seq![n as u8].to_set() =~= Set::empty().insert(n as u8)) by {
                assert(seq![n as u8][0] == n as u8);
                assert(seq![n as u8].contains(n as u8));
            }
            lemma_ascending_of_singleton(n as u8);
        } else {
            assert(!(min as int <= raw[0] <= max as int));
            assert(!in_domain(min, max, raw));
        }
    }
}

/// Boundary law: over any domain, the domain's own bounds are accepted as
/// bare numbers, the value below the minimum is rejected, and on a
/// non-wrapping domain the value above the maximum is rejected.
pub proof fn lemma_boundary(min: u8, max: u8, wraps: bool)
    requires
        min <= max,
    ensures
        spec_parse_field(min, max, wraps, dec_bytes(min as int)) == Ok::<Seq<u8>, CronError>(
            seq![min],
        ),
        spec_parse_field(min, max, wraps, dec_bytes(max as int)) == Ok::<Seq<u8>, CronError>(
            seq![max],
        ),
        min >= 1 ==> spec_parse_field(min, max, wraps, dec_bytes(min as int - 1))
            == Err::<Seq<u8>, CronError>(CronError::OutOfDomain),
        !wraps && max <= 254 ==> spec_parse_field(min, max, wraps, dec_bytes(max as int + 1))
            == Err::<Seq<u8>, CronError>(CronError::OutOfDomain),
{
    lemma_single_number_field(min, max, wraps, min as int);
    lemma_single_number_field(min, max, wraps, max as int);
    if min >= 1 {
        lemma_single_number_field(min, max, wraps, min as int - 1);
    }
    if !wraps && max <= 254 {
        lemma_single_number_field(min, max, wraps, max as int + 1);
    }
}


/// The text `A-B` for two numbers, as the wildcard substitutes it.
pub open spec fn range_text(a: u8, b: u8) -> Seq<u8> {
    dec_bytes(a as int) + seq![('-' as u8)] + dec_bytes(b as int)
}

/// A field holding one list-entry parses as that list-entry alone.
proof fn lemma_single_part_field(min: u8, max: u8, wraps: bool, s: Seq<u8>)
    requires
        find_byte(s, (',' as u8)) == s.len(),
    ensures
        spec_parse_field(min, max, wraps, s) == (match spec_parse_entry(min, max, wraps, s) {
            Err(e) => Err::<Seq<u8>, CronError>(e),
            Ok(vs) => Ok::<Seq<u8>, CronError>(ascending_of(vs.to_set())),
        }),
{
}

/// Two list-entries without a step whose bases stand for the same range parse
/// to the same values.
proof fn lemma_entry_same_base(min: u8, max: u8, wraps: bool, s1: Seq<u8>, s2: Seq<u8>)
    requires
        find_byte(s1, ('/' as u8)) == s1.len(),
        find_byte(s2, ('/' as u8)) == s2.len(),
        spec_base_range(min, max, s1) == spec_base_range(min, max, s2),
    ensures
        spec_parse_entry(min, max, wraps, s1) == spec_parse_entry(min, max, wraps, s2),
{
    assert(s1.take(s1.len() as int) =~= s1);
    assert(s2.take(s2.len() as int) =~= s2);
}

/// Wildcard law: `*` parses exactly as the explicit range `min-max` written
/// out, over any domain.
pub proof fn lemma_wildcard_equiv(min: u8, max: u8, wraps: bool)
    ensures
        spec_parse_field(min, max, wraps, seq![('*' as u8)]) == spec_parse_field(
            min,
            max,
            wraps,
            range_text(min, max),
        ),
{
    let star = seq![('*' as u8)];
    let r = range_text(min, max);
    lemma_dec_bytes(min as int);
    lemma_dec_bytes(max as int);
    let dl = dec_bytes(min as int).len() as int;
    // The star text is one separator-free part whose base is the whole domain.
    lemma_find_byte_is(star, (',' as u8), 1);
    lemma_find_byte_is(star, ('/' as u8), 1);
    assert(star.take(1) =~= star);
    assert(is_star(star));
    // The range text is one separator-free part `min-max`.
    assert forall|j: int| 0 <= j < r.len() implies r[j] != (',' as u8) && r[j] != ('/' as u8)
        && r[j] != ('*' as u8) by {
        if j < dl {
            assert(r[j] == dec_bytes(min as int)[j]);
            assert(is_digit(r[j]));
        } else if j == dl {
            assert(r[j] == ('-' as u8));
        } else {
            assert(r[j] == dec_bytes(max as int)[j - dl - 1]);
            assert(is_digit(r[j]));
        }
    }
    lemma_find_byte_is(r, (',' as u8), r.len() as int);
    lemma_find_byte_is(r, ('/' as u8), r.len() as int);
    assert(r.take(r.len() as int) =~= r);
    assert(!is_star(r));
    // Its lower-cased base is no symbolic name: it starts with a digit.
    assert(fold_bytes(r) =~= r) by {
        assert forall|j: int| 0 <= j < r.len() implies fold_bytes(r)[j] == r[j] by {
            if j < dl {
                assert(is_digit(r[j]));
            } else if j > dl {
                assert(r[j] == dec_bytes(max as int)[j - dl - 1]);
                assert(is_digit(r[j]));
            }
        }
    }
    assert(r[0] == dec_bytes(min as int)[0]);
    assert(is_digit(r[0]));
    assert(name_value(fold_bytes(r)) is None);
    // It reads as the range `min-max`.
    assert forall|j: int| 0 <= j < dl implies r[j] != ('-' as u8) by {
        assert(r[j] == dec_bytes(min as int)[j]);
        assert(is_digit(r[j]));
    }
    assert(r[dl] == ('-' as u8));
    lemma_find_byte_is(r, ('-' as u8), dl);
    assert(r.take(dl) =~= dec_bytes(min as int));
    assert(r.skip(dl + 1) =~= dec_bytes(max as int));
    assert(spec_base_range(min, max, r) == Ok::<(u8, u8), CronError>((min, max)));
    assert(spec_base_range(min, max, star) == Ok::<(u8, u8), CronError>((min, max)));
    lemma_entry_same_base(min, max, wraps, star, r);
    lemma_single_part_field(min, max, wraps, star);
    lemma_single_part_field(min, max, wraps, r);
}

/// Symbolic-name law: a base that resolves in the name table parses exactly
/// as that name's number written out, over any domain.
pub proof fn lemma_symbolic_equiv(min: u8, max: u8, wraps: bool, base: Seq<u8>, n: u8)
    requires
        name_value(fold_bytes(base)) == Some(n),
    ensures
        spec_parse_field(min, max, wraps, base) == spec_parse_field(
            min,
            max,
            wraps,
            dec_bytes(n as int),
        ),
{
    let f = fold_bytes(base);
    assert(f.len() == 3);
    assert(base.len() == 3);
    // Every byte of a recognized name is a letter, so the base holds no
    // separator, no star, and no digit.
    assert forall|j: int| 0 <= j < 3 implies 97 <= #[trigger] f[j] <= 122 by {
        assert(f[0] == fold_bytes(base)[0] && f[1] == fold_bytes(base)[1] && f[2] == fold_bytes(
            base,
        )[2]);
    }
    assert forall|j: int| 0 <= j < base.len() implies 65 <= #[trigger] base[j] by {
        assert(f[j] == fold_byte(base[j]));
    }
    lemma_find_byte_is(base, (',' as u8), 3);
    lemma_find_byte_is(base, ('/' as u8), 3);
    assert(base.take(3) =~= base);
    assert(!is_star(base));
    assert(spec_base_range(min, max, base) == Ok::<(u8, u8), CronError>((n, n)));
    // The number text is one separator-free part reading as `n-n`.
    let d = dec_bytes(n as int);
    lemma_dec_bytes(n as int);
    lemma_find_byte_is(d, (',' as u8), d.len() as int);
    lemma_find_byte_is(d, ('/' as u8), d.len() as int);
    lemma_find_byte_is(d, ('-' as u8), d.len() as int);
    assert(d.take(d.len() as int) =~= d);
    assert(!is_star(d));
    assert(fold_bytes(d) =~= d);
    assert(name_value(d) is None);
    assert(spec_base_range(min, max, d) == Ok::<(u8, u8), CronError>((n, n)));
    lemma_entry_same_base(min, max, wraps, base, d);
    lemma_single_part_field(min, max, wraps, base);
    lemma_single_part_field(min, max, wraps, d);
}


/// Lower-casing never introduces or removes a byte below `A`, so separators
/// sit at the same places.
proof fn lemma_fold_find(s: Seq<u8>, c: u8)
    requires
        c < 65,
    ensures
        find_byte(fold_bytes(s), c) == find_byte(s, c),
{
    let k = find_byte(s, c);
    lemma_find_byte(s, c);
    assert forall|j: int| 0 <= j < k implies fold_bytes(s)[j] != c by {
        assert(fold_bytes(s)[j] == fold_byte(s[j]));
    }
    if k < s.len() {
        assert(fold_bytes(s)[k] == fold_byte(s[k]));
    }
    lemma_find_byte_is(fold_bytes(s), c, k);
}

/// Lower-casing does not change what a number reads as: digits are fixed
/// points and non-digits stay non-digits.
proof fn lemma_fold_parse_u8(s: Seq<u8>)
    ensures
        spec_parse_u8(fold_bytes(s)) == spec_parse_u8(s),
{
    let f = fold_bytes(s);
    if forall|i: int| 0 <= i < s.len() ==> is_digit(#[trigger] s[i]) {
        assert(f =~= s);
    } else {
        let i = choose|i: int| 0 <= i < s.len() && !is_digit(s[i]);
        assert(f[i] == fold_byte(s[i]));
        assert(!is_digit(f[i]));
    }
}

/// Lower-casing a list-entry does not change what it parses to.
proof fn lemma_entry_fold(min: u8, max: u8, wraps: bool, part: Seq<u8>)
    ensures
        spec_parse_entry(min, max, wraps, fold_bytes(part)) == spec_parse_entry(
            min,
            max,
            wraps,
            part,
        ),
{
    let f = fold_bytes(part);
    let slash = find_byte(part, ('/' as u8));
    lemma_fold_find(part, ('/' as u8));
    lemma_find_byte(part, ('/' as u8));
    let base = part.take(slash);
    assert(f.take(slash) =~= fold_bytes(base));
    // The base resolves the same way lower-cased.
    assert(is_star(fold_bytes(base)) == is_star(base)) by {
        if base.len() == 1 {
            assert(fold_bytes(base)[0] == fold_byte(base[0]));
        }
    }
    assert(fold_bytes(fold_bytes(base)) =~= fold_bytes(base));
    let dash = find_byte(base, ('-' as u8));
    lemma_fold_find(base, ('-' as u8));
    lemma_find_byte(base, ('-' as u8));
    lemma_fold_parse_u8(base);
    if dash < base.len() {
        assert(fold_bytes(base).take(dash) =~= fold_bytes(base.take(dash)));
        assert(fold_bytes(base).skip(dash + 1) =~= fold_bytes(base.skip(dash + 1)));
        lemma_fold_parse_u8(base.take(dash));
        lemma_fold_parse_u8(base.skip(dash + 1));
    }
    assert(spec_parse_range(fold_bytes(base)) == spec_parse_range(base));
    assert(spec_base_range(min, max, fold_bytes(base)) == spec_base_range(min, max, base));
    // The step reads the same way lower-cased.
    if slash < part.len() {
        assert(f.skip(slash + 1) =~= fold_bytes(part.skip(slash + 1)));
        lemma_fold_parse_u8(part.skip(slash + 1));
    }
}

/// Lower-casing a field does not change what any of its list-entries parse
/// to.
proof fn lemma_parts_fold(min: u8, max: u8, wraps: bool, s: Seq<u8>)
    ensures
        spec_parse_parts(min, max, wraps, fold_bytes(s)) == spec_parse_parts(min, max, wraps, s),
    decreases s.len(),
{
    let f = fold_bytes(s);
    let comma = find_byte(s, (',' as u8));
    lemma_fold_find(s, (',' as u8));
    lemma_find_byte(s, (',' as u8));
    if 0 <= comma < s.len() {
        assert(f.take(comma) =~= fold_bytes(s.take(comma)));
        assert(f.skip(comma + 1) =~= fold_bytes(s.skip(comma + 1)));
        lemma_entry_fold(min, max, wraps, s.take(comma));
        lemma_parts_fold(min, max, wraps, s.skip(comma + 1));
    } else {
        lemma_entry_fold(min, max, wraps, s);
    }
}

/// Case-insensitivity law: a field parses exactly as its lower-cased form,
/// over any domain.
pub proof fn lemma_case_insensitive(min: u8, max: u8, wraps: bool, s: Seq<u8>)
    ensures
        spec_parse_field(min, max, wraps, fold_bytes(s)) == spec_parse_field(min, max, wraps, s),
{
    lemma_parts_fold(min, max, wraps, s);
}

} // verus!

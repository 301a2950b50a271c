//! A lazy arithmetic progression over a bounded integer domain: the values
//! `start, start + step, start + 2 * step, ...` while the value is below `end`.

use vstd::prelude::*;
use crate::CronError;

verus! {

/// The mathematical sequence a `SteppedRange` walks through: every
/// `start + k * step` that is below `end`, in increasing order.
pub open spec fn stepped_seq(start: int, end: int, step: int) -> Seq<int>
    decreases end - start when step > 0
{
    if step <= 0 || start >= end {
        Seq::empty()
    } else if start + step >= end {
        seq![start]
    } else {
        seq![start] + stepped_seq(start + step, end, step)
    }
}

/// Every element of `stepped_seq(start, end, step)` lies in `[start, end)`,
/// and the first element is `start`.
pub proof fn lemma_stepped_seq_bounds(start: int, end: int, step: int)
    requires
        step > 0,
    ensures
        forall|i: int| 0 <= i < stepped_seq(start, end, step).len()
            ==> start <= #[trigger] stepped_seq(start, end, step)[i] < end,
        start < end ==> stepped_seq(start, end, step).len() > 0
            && stepped_seq(start, end, step)[0] == start,
    decreases end - start,
{
    if start < end {
        if start + step < end {
            lemma_stepped_seq_bounds(start + step, end, step);
        }
        assert forall|i: int| 0 <= i < stepped_seq(start, end, step).len()
            implies start <= #[trigger] stepped_seq(start, end, step)[i] < end by {
            if i > 0 {
                assert(stepped_seq(start, end, step)[i]
                    == stepped_seq(start + step, end, step)[i - 1]);
            }
        }
    }
}

/// A restartable generator of the stepped sequence. `next` hands the values
/// out in order; the remaining values are `stepped_seq` over the current state.
pub struct SteppedRange {
    pub start: u16,
    pub end: u16,
    pub step: u16,
}

impl SteppedRange {
    /// The values this generator has yet to produce.
    pub open spec fn remaining(&self) -> Seq<int> {
        stepped_seq(self.start as int, self.end as int, self.step as int)
    }

    /// Builds a generator over `[start, end)` with the given step.
    /// A step of zero is refused eagerly.
    pub fn new(start: u16, end: u16, step: u16) -> (r: Result<SteppedRange, CronError>)
        ensures
            step == 0 ==> r == Result::<SteppedRange, CronError>::Err(CronError::InvalidStep),
            step > 0 ==> (r matches Ok(sr)
                && sr.start == start && sr.end == end && sr.step == step
                && sr.remaining() == stepped_seq(start as int, end as int, step as int)),
    {
        if step == 0 {
            Err(CronError::InvalidStep)
        } else {
            Ok(SteppedRange { start, end, step })
        }
    }

    /// Hands out the next value of the progression, or `None` once the
    /// progression has passed `end`.
    pub fn next(&mut self) -> (r: Option<u16>)
        requires
            old(self).step > 0,
        ensures
            final(self).step == old(self).step,
            final(self).end == old(self).end,
            old(self).remaining().len() > 0 ==> (r == Some(old(self).start)
                && old(self).start as int == old(self).remaining()[0]
                && final(self).remaining() == old(self).remaining().drop_first()),
            old(self).remaining().len() == 0 ==> (r == None::<u16>
                && final(self).remaining().len() == 0),
    {
        if self.start < self.end {
            let current = self.start;
            // Saturate at `end` so the advance cannot overflow; everything at
            // or past `end` leaves the remaining sequence empty either way.
            if self.end - self.start <= self.step {
                self.start = self.end;
                proof {
                    assert(stepped_seq(current as int + self.step as int,
                            self.end as int, self.step as int)
                        == stepped_seq(self.end as int, self.end as int, self.step as int));
                }
            } else {
                self.start = self.start + self.step;
            }
            Some(current)
        } else {
            None
        }
    }
}

} // verus!

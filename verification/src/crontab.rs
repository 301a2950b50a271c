//! An ordered collection of schedule entries and the query for the globally
//! earliest upcoming run.

use vstd::prelude::*;
use crate::CronError;
use crate::date_time::DateTime;
use crate::recurrence::{Recurrence, lemma_next_match_unique};

verus! {

/// One schedule entry: a compiled recurrence rule and the command text it
/// runs, held opaque.
pub struct Entry {
    pub recurrence: Recurrence,
    pub command: String,
}

impl Entry {
    /// Pairs a compiled rule with its command text.
    pub fn new(recurrence: Recurrence, command: String) -> (r: Entry)
        ensures
            r.recurrence == recurrence,
            r.command == command,
    {
        Entry { recurrence, command }
    }
}

/// One computed run: the instant and the index of the entry that fires.
#[derive(Debug, Clone, Copy)]
pub struct Run {
    pub datetime: DateTime,
    pub index: usize,
}

/// A read-only, ordered sequence of schedule entries.
pub struct Crontab {
    entries: Vec<Entry>,
}

impl Crontab {
    /// The entries, in order.
    pub closed spec fn spec_entries(self) -> Seq<Entry> {
        self.entries@
    }

    /// Every entry's rule is well formed.
    pub open spec fn wf(self) -> bool {
        forall|i: int| 0 <= i < self.spec_entries().len()
            ==> (#[trigger] self.spec_entries()[i]).recurrence.wf()
    }

    /// Builds a schedule from entries, kept in the given order.
    pub fn new(entries: Vec<Entry>) -> (r: Crontab)
        ensures
            r.spec_entries() == entries@,
    {
        Crontab { entries }
    }

    /// The entries, in order.
    pub fn entries(&self) -> (r: &Vec<Entry>)
        ensures
            r@ == self.spec_entries(),
    {
        &self.entries
    }

    /// The earliest upcoming run strictly after `from` over all entries; on a
    /// tie the entry that comes first in the schedule wins. Fails with
    /// `EmptyScheduleSet` exactly when no entry has an upcoming run — in
    /// particular on an empty schedule.
    #[verifier::loop_isolation(false)]
    pub fn next_run(&self, from: DateTime) -> (r: Result<Run, CronError>)
        requires
            self.wf(),
            from.wf(),
        ensures
            match r {
                Ok(run) => {
                    &&& run.index < self.spec_entries().len()
                    &&& self.spec_entries()[run.index as int].recurrence.is_next_match(
                        from,
                        run.datetime,
                    )
                    &&& forall|i: int, t: DateTime|
                        0 <= i < self.spec_entries().len() && #[trigger] self.spec_entries()[
                            i].recurrence.is_next_match(from, t) ==> !t.spec_lt(run.datetime)
                    &&& forall|i: int|
                        0 <= i < run.index ==> !(#[trigger] self.spec_entries()[i]).recurrence
                            .is_next_match(from, run.datetime)
                },
                Err(e) => e == CronError::EmptyScheduleSet && forall|i: int, t: DateTime|
                    0 <= i < self.spec_entries().len() ==> !(#[trigger] self.spec_entries()[
                        i].recurrence.is_next_match(from, t)),
            },
    {
        let n = self.entries.len();
        let mut best: Option<Run> = None;
        let mut i: usize = 0;
        while i < n
            invariant
                i <= n,
                match best {
                    None => forall|j: int, t: DateTime|
                        0 <= j < i ==> !(#[trigger] self.spec_entries()[j].recurrence
                            .is_next_match(from, t)),
                    Some(run) => {
                        &&& run.index < i
                        &&& self.spec_entries()[run.index as int].recurrence.is_next_match(
                            from,
                            run.datetime,
                        )
                        &&& forall|j: int, t: DateTime|
                            0 <= j < i && #[trigger] self.spec_entries()[j].recurrence
                                .is_next_match(from, t) ==> !t.spec_lt(run.datetime)
                        &&& forall|j: int|
                            0 <= j < run.index ==> !(#[trigger] self.spec_entries()[j]).recurrence
                                .is_next_match(from, run.datetime)
                    },
                },
            decreases n - i,
        {
            proof {
                assert(self.spec_entries()[i as int].recurrence.wf());
            }
            match self.entries[i].recurrence.next_match(from) {
                None => {
                    proof {
                        assert forall|t: DateTime|
                            !(self.spec_entries()[i as int]).recurrence.is_next_match(
                                from,
                                t,
                            ) by {
                            if self.spec_entries()[i as int].recurrence.is_next_match(from, t) {
                                assert(!self.spec_entries()[i as int].recurrence.spec_matches(t));
                            }
                        }
                    }
                },
                Some(t) => {
                    let replace = match &best {
                        None => true,
                        Some(b) => t.before(&b.datetime),
                    };
                    proof {
                        if let Some(b) = best {
                            if t.spec_lt(b.datetime) {
                                assert forall|j: int, u: DateTime|
                                    0 <= j < i + 1 && #[trigger] self.spec_entries()[j].recurrence
                                        .is_next_match(from, u) implies !u.spec_lt(t) by {
                                    if j < i as int && u.spec_lt(t) {
                                        assert(u.spec_lt(b.datetime));
                                    }
                                    if j == i as int {
                                        lemma_next_match_unique(
                                            self.spec_entries()[j].recurrence,
                                            from,
                                            u,
                                            t,
                                        );
                                    }
                                }
                                assert forall|j: int|
                                    0 <= j < i implies !(#[trigger] self.spec_entries()[
                                    j]).recurrence.is_next_match(from, t) by {
                                    if self.spec_entries()[j].recurrence.is_next_match(from, t) {
                                        assert(!t.spec_lt(b.datetime));
                                    }
                                }
                            } else {
                                assert forall|j: int, u: DateTime|
                                    0 <= j < i + 1 && #[trigger] self.spec_entries()[j].recurrence
                                        .is_next_match(from, u) implies !u.spec_lt(b.datetime) by {
                                    if j == i as int {
                                        lemma_next_match_unique(
                                            self.spec_entries()[j].recurrence,
                                            from,
                                            u,
                                            t,
                                        );
                                    }
                                }
                            }
                        }
                    }
                    if replace {
                        best = Some(Run { datetime: t, index: i });
                    }
                },
            }
            i += 1;
        }
        match best {
            None => Err(CronError::EmptyScheduleSet),
            Some(run) => Ok(run),
        }
    }
}

} // verus!

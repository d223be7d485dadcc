//! The times at which the cores of a system become available.

use crate::necessary::load::larger;
use crate::problem::Time;
use crate::sort::{
    ascending, in_ascending_order, lemma_ascending_unique, lemma_in_ascending_order, sort_times,
};
use vstd::prelude::*;

verus! {

/// The times at which the cores finish the jobs that were scheduled on them, and the time at
/// which the last job was started. Jobs are started in the order in which they are
/// scheduled, so no job starts before the job that was scheduled before it.
#[derive(Clone)]
pub struct CoreAvailability {
    finish_times: Vec<Time>,
    last_start_time: Time,
}

impl CoreAvailability {
    /// The time at which each core is available, in ascending order
    pub closed spec fn finish_times(&self) -> Seq<Time> {
        self.finish_times@
    }

    /// The time at which the last job was started
    pub closed spec fn last_start(&self) -> Time {
        self.last_start_time
    }

    /// The times at which the cores are available are in ascending order.
    pub open spec fn wf(&self) -> bool {
        ascending(self.finish_times())
    }

    /// The earliest time at which the next job can start
    pub open spec fn next_start(&self) -> int {
        larger(self.finish_times()[0] as int, self.last_start() as int)
    }

    /// The earliest time at which the job after the next job can start, if the next job
    /// starts as early as it can and takes a long time
    pub open spec fn second_start(&self) -> int {
        larger(self.finish_times()[1] as int, self.last_start() as int)
    }

    /// Creates the availability of `num_cores` cores that are available from time 0 on.
    pub fn new(num_cores: usize) -> (availability: Self)
        ensures
            availability.wf(),
            availability.finish_times() == Seq::new(num_cores as nat, |i: int| 0i64),
            availability.last_start() == 0,
    {
        let mut finish_times: Vec<Time> = Vec::new();
        let mut index: usize = 0;
        while index < num_cores
            invariant
                index <= num_cores,
                finish_times@ == Seq::new(index as nat, |i: int| 0i64),
            decreases num_cores - index,
        {
            finish_times.push(0);
            assert(finish_times@ == Seq::new((index + 1) as nat, |i: int| 0i64));
            index += 1;
        }
        Self { finish_times, last_start_time: 0 }
    }

    /// The earliest time at which the next job can start: when a core is free, and not before
    /// the start of the job before it
    pub fn next_start_time(&self) -> (time: Time)
        requires
            self.finish_times().len() >= 1,
        ensures
            time == self.next_start(),
    {
        if self.finish_times[0] >= self.last_start_time {
            self.finish_times[0]
        } else {
            self.last_start_time
        }
    }

    /// The earliest time at which the job after the next one can start, if the next job were
    /// to run for ever
    pub fn second_start_time(&self) -> (time: Time)
        requires
            self.finish_times().len() >= 2,
        ensures
            time == self.second_start(),
    {
        if self.finish_times[1] >= self.last_start_time {
            self.finish_times[1]
        } else {
            self.last_start_time
        }
    }

    /// Starts a job that takes `duration` at time `start` on the core that is available
    /// first.
    pub fn schedule(&mut self, start: Time, duration: Time)
        requires
            old(self).finish_times().len() >= 1,
            start >= old(self).next_start(),
            Time::MIN <= start + duration <= Time::MAX,
        ensures
            final(self).wf(),
            final(self).finish_times() == in_ascending_order(
                old(self).finish_times().update(0, (start + duration) as Time),
            ),
            final(self).finish_times().len() == old(self).finish_times().len(),
            final(self).last_start() == start,
    {
        self.finish_times.set(0, start + duration);
        let ghost unsorted = self.finish_times@;
        sort_times(&mut self.finish_times);
        proof {
            lemma_ascending_unique(self.finish_times@, unsorted);
            lemma_in_ascending_order(unsorted);
        }
        self.last_start_time = start;
    }

    /// Makes each core available no earlier than the core of `other` at the same position,
    /// and lets the last job start no earlier than the last job of `other`.
    pub fn merge(&mut self, other: &Self)
        requires
            old(self).finish_times().len() == other.finish_times().len(),
        ensures
            final(self).finish_times().len() == old(self).finish_times().len(),
            forall|i: int|
                0 <= i < final(self).finish_times().len() ==> final(self).finish_times()[i]
                    == larger(old(self).finish_times()[i] as int, other.finish_times()[i] as int),
            final(self).last_start() == larger(
                old(self).last_start() as int,
                other.last_start() as int,
            ),
            old(self).wf() && other.wf() ==> final(self).wf(),
    {
        let count = self.finish_times.len();
        let mut index: usize = 0;
        while index < count
            invariant
                index <= count,
                count == self.finish_times@.len(),
                count == other.finish_times@.len(),
                self.last_start_time == old(self).last_start_time,
                forall|i: int|
                    0 <= i < index ==> self.finish_times@[i] == larger(
                        old(self).finish_times@[i] as int,
                        other.finish_times@[i] as int,
                    ),
                forall|i: int|
                    index <= i < count ==> self.finish_times@[i] == old(self).finish_times@[i],
            decreases count - index,
        {
            if other.finish_times[index] > self.finish_times[index] {
                self.finish_times.set(index, other.finish_times[index]);
            }
            index += 1;
        }
        if other.last_start_time > self.last_start_time {
            self.last_start_time = other.last_start_time;
        }
    }

    /// The number of cores
    pub fn get_num_cores(&self) -> (num_cores: usize)
        ensures
            num_cores == self.finish_times().len(),
    {
        self.finish_times.len()
    }
}

} // verus!

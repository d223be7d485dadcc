//! Jobs in ascending order of a value, handed out one by one.

use crate::problem::{Job, Time};
use crate::sort::{
    ascending_timed, in_timed_order, lemma_in_timed_order, lemma_timed_order_unique,
    sort_timed_jobs, TimedJob,
};
use vstd::prelude::*;

verus! {

/// An iterator of jobs sorted by a given function. This struct has a `next()` method that can be
/// used to get the next job (in order) if and only if it satisfies a given condition.
///
/// This struct is important for the feasibility load test.
#[derive(Debug)]
pub struct SortedJobIterator {
    jobs: Vec<TimedJob>,
    index: usize,
}

/// Each of `jobs` as its value from `values` and its index
pub open spec fn valued_jobs(jobs: Seq<Job>, values: Seq<Time>) -> Seq<TimedJob> {
    Seq::new(jobs.len(), |i: int| (values[i], jobs[i].index))
}

impl SortedJobIterator {
    /// The value and the index of every job, in ascending order of the values, and of the
    /// indices where the values are equal
    pub closed spec fn items(&self) -> Seq<TimedJob> {
        self.jobs@
    }

    /// The number of jobs that were handed out
    pub closed spec fn position(&self) -> int {
        self.index as int
    }

    /// The position is one of an item, or behind the last item.
    pub open spec fn wf(&self) -> bool {
        0 <= self.position() <= self.items().len()
    }

    /// Creates a new `SortedJobIterator`, where all jobs are sorted by their result of the
    /// `compute_value` function, which is called once for each job.
    pub fn new<T: Fn(&Job) -> Time>(jobs: &Vec<Job>, compute_value: T) -> (iterator:
        SortedJobIterator)
        requires
            forall|i: int| 0 <= i < jobs@.len() ==> call_requires(compute_value, (&jobs@[i],)),
        ensures
            iterator.wf(),
            iterator.position() == 0,
            ascending_timed(iterator.items()),
            exists|values: Seq<Time>|
                {
                    &&& values.len() == jobs@.len()
                    &&& forall|i: int|
                        0 <= i < jobs@.len() ==> call_ensures(
                            compute_value,
                            (&jobs@[i],),
                            #[trigger] values[i],
                        )
                    &&& iterator.items() == in_timed_order(valued_jobs(jobs@, values))
                },
    {
        let mut fat_jobs: Vec<TimedJob> = Vec::new();
        let ghost mut values: Seq<Time> = Seq::empty();
        let mut index: usize = 0;
        while index < jobs.len()
            invariant
                index <= jobs@.len(),
                forall|i: int| 0 <= i < jobs@.len() ==> call_requires(compute_value, (&jobs@[i],)),
                values.len() == index,
                fat_jobs@.len() == index,
                forall|i: int|
                    0 <= i < index ==> call_ensures(
                        compute_value,
                        (&jobs@[i],),
                        #[trigger] values[i],
                    ),
                forall|i: int|
                    0 <= i < index ==> (#[trigger] fat_jobs@[i]) == (values[i], jobs@[i].index),
            decreases jobs@.len() - index,
        {
            let value = compute_value(&jobs[index]);
            fat_jobs.push((value, jobs[index].index));
            proof {
                values = values.push(value);
            }
            index += 1;
        }
        let ghost unsorted = fat_jobs@;
        assert(unsorted == valued_jobs(jobs@, values));
        sort_timed_jobs(&mut fat_jobs);
        proof {
            lemma_timed_order_unique(fat_jobs@, unsorted);
            lemma_in_timed_order(unsorted);
        }
        SortedJobIterator { jobs: fat_jobs, index: 0 }
    }

    /// Gets the next job (in order) if it satisfies `condition`. When the next job does *not*
    /// satisfy `condition`, or when no job is left, this method returns `None`.
    pub fn next<T: Fn(Time) -> bool>(&mut self, condition: T) -> (job: Option<usize>)
        requires
            old(self).wf(),
            old(self).position() < old(self).items().len() ==> call_requires(
                condition,
                (old(self).items()[old(self).position()].0,),
            ),
        ensures
            final(self).wf(),
            final(self).items() == old(self).items(),
            match job {
                Some(job) => {
                    &&& old(self).position() < old(self).items().len()
                    &&& call_ensures(
                        condition,
                        (old(self).items()[old(self).position()].0,),
                        true,
                    )
                    &&& job == old(self).items()[old(self).position()].1
                    &&& final(self).position() == old(self).position() + 1
                },
                None => {
                    &&& final(self).position() == old(self).position()
                    &&& old(self).position() < old(self).items().len() ==> call_ensures(
                        condition,
                        (old(self).items()[old(self).position()].0,),
                        false,
                    )
                },
            },
    {
        let index = self.index;
        if index < self.jobs.len() && condition(self.jobs[index].0) {
            self.index += 1;
            Some(self.jobs[index].1)
        } else {
            None
        }
    }
}

} // verus!

use vstd::prelude::*;

verus! {

/// An instant or a duration. All times of a problem use the same unit.
pub type Time = i64;

/// The longest execution time and the longest delay that the analyses accept
pub const MAX_DURATION: Time = 0x80_0000_0000;

/// The latest time that the analyses accept as a bound on the start of a job
pub const MAX_TIME: Time = 0x2000_0000_0000_0000;

/// The largest number of jobs, and of constraints, that the analyses accept
pub const MAX_COUNT: usize = 0x10_0000;

/// A unit of work that runs without interruption on one core.
#[derive(Debug, Copy, Clone, Eq, PartialEq, Structural)]
pub struct Job {
    /// The position of this job in the job list of its problem
    pub index: usize,
    /// How long the job occupies a core, always positive
    pub execution_time: Time,
    /// The job cannot start before this time
    pub earliest_start: Time,
    /// The job misses its deadline when it starts after this time
    pub latest_start: Time,
}

impl Job {
    /// The execution time is positive, and both finish times are representable.
    pub open spec fn wf(&self) -> bool {
        &&& self.execution_time > 0
        &&& Time::MIN <= self.earliest_start + self.execution_time <= Time::MAX
        &&& Time::MIN <= self.latest_start + self.execution_time <= Time::MAX
    }

    /// The execution time is positive and at most `MAX_DURATION`, and neither bound lies
    /// further than `MAX_TIME` from time 0. Sums of a few such times are representable.
    pub open spec fn within_limits(&self) -> bool {
        &&& 0 < self.execution_time <= MAX_DURATION
        &&& -MAX_TIME <= self.earliest_start <= MAX_TIME
        &&& -MAX_TIME <= self.latest_start <= MAX_TIME
    }

    /// The time at which the job finishes when it starts as early as possible
    pub open spec fn earliest_finish(&self) -> int {
        self.earliest_start + self.execution_time
    }

    /// The time at which the job finishes when it starts as late as possible,
    /// which is its deadline
    pub open spec fn latest_finish(&self) -> int {
        self.latest_start + self.execution_time
    }

    /// Whether no start time can satisfy both bounds of the job
    pub open spec fn infeasible(&self) -> bool {
        self.earliest_start > self.latest_start
    }

    /// Whether the job executes at time `t` in every schedule that respects its bounds
    pub open spec fn certainly_runs_at(&self, t: int) -> bool {
        self.latest_start <= t < self.earliest_finish()
    }

    /// Whether `other` is the same job with bounds that are at least as tight
    pub open spec fn tightens(&self, other: Job) -> bool {
        &&& self.index == other.index
        &&& self.execution_time == other.execution_time
        &&& self.earliest_start >= other.earliest_start
        &&& self.latest_start <= other.latest_start
    }

    /// Creates the job at position `index` that is released at `release_time`, runs for
    /// `execution_time`, and must be finished at `deadline`.
    pub fn release_to_deadline(
        index: usize,
        release_time: Time,
        execution_time: Time,
        deadline: Time,
    ) -> (job: Job)
        requires
            execution_time > 0,
            Time::MIN <= deadline - execution_time,
        ensures
            job.index == index,
            job.execution_time == execution_time,
            job.earliest_start == release_time,
            job.latest_start == deadline - execution_time,
    {
        Job {
            index,
            execution_time,
            earliest_start: release_time,
            latest_start: deadline - execution_time,
        }
    }

    /// A placeholder job
    pub fn dummy() -> (job: Job)
        ensures
            job == (Job { index: 0, execution_time: 1, earliest_start: 0, latest_start: 0 }),
    {
        Job { index: 0, execution_time: 1, earliest_start: 0, latest_start: 0 }
    }

    /// The position of the job in the job list of its problem
    pub fn get_index(&self) -> (index: usize)
        ensures
            index == self.index,
    {
        self.index
    }

    /// How long the job occupies a core
    pub fn get_execution_time(&self) -> (execution_time: Time)
        ensures
            execution_time == self.execution_time,
    {
        self.execution_time
    }

    /// The time at which the job finishes when it starts as early as possible
    pub fn get_earliest_finish(&self) -> (finish: Time)
        requires
            Time::MIN <= self.earliest_finish() <= Time::MAX,
        ensures
            finish == self.earliest_finish(),
    {
        self.earliest_start + self.execution_time
    }

    /// The time at which the job finishes when it starts as late as possible
    pub fn get_latest_finish(&self) -> (finish: Time)
        requires
            Time::MIN <= self.latest_finish() <= Time::MAX,
        ensures
            finish == self.latest_finish(),
    {
        self.latest_start + self.execution_time
    }

    /// Moves the earliest start such that the earliest finish becomes `earliest_finish`.
    pub fn set_earliest_finish(&mut self, earliest_finish: Time)
        requires
            Time::MIN <= earliest_finish - old(self).execution_time <= Time::MAX,
        ensures
            *final(self) == (Job {
                earliest_start: (earliest_finish - old(self).execution_time) as Time,
                ..*old(self)
            }),
    {
        self.earliest_start = earliest_finish - self.execution_time;
    }

    /// Moves the latest start such that the latest finish becomes `latest_finish`.
    pub fn set_latest_finish(&mut self, latest_finish: Time)
        requires
            Time::MIN <= latest_finish - old(self).execution_time <= Time::MAX,
        ensures
            *final(self) == (Job {
                latest_start: (latest_finish - old(self).execution_time) as Time,
                ..*old(self)
            }),
    {
        self.latest_start = latest_finish - self.execution_time;
    }

    /// A job whose earliest start lies after its latest start can never meet its deadline.
    pub fn is_certainly_infeasible(&self) -> (infeasible: bool)
        ensures
            infeasible == self.infeasible(),
    {
        self.earliest_start > self.latest_start
    }
}

/// What a precedence constraint measures its delay from
#[derive(Debug, Copy, Clone, Eq, PartialEq, Structural)]
pub enum ConstraintType {
    /// The successor starts at least `delay` after the predecessor has started.
    StartToStart,
    /// The successor starts at least `delay` after the predecessor has finished.
    FinishToStart,
}

/// A precedence constraint between two jobs of a problem
#[derive(Debug, Copy, Clone, Eq, PartialEq, Structural)]
pub struct Constraint {
    /// The index of the predecessor
    pub before: usize,
    /// The index of the successor
    pub after: usize,
    pub constraint_type: ConstraintType,
    /// The minimum time between the predecessor and the successor, never negative
    pub delay: Time,
}

impl Constraint {
    /// The least difference between the start of the successor and the start of the
    /// predecessor, given the jobs that the constraint speaks of
    pub open spec fn gap(&self, jobs: Seq<Job>) -> int {
        if self.constraint_type == ConstraintType::FinishToStart {
            self.delay + jobs[self.before as int].execution_time
        } else {
            self.delay as int
        }
    }

    /// Whether the bounds of the two jobs already respect this constraint
    pub open spec fn respected_by(&self, jobs: Seq<Job>) -> bool {
        &&& jobs[self.after as int].earliest_start >= jobs[self.before as int].earliest_start
            + self.gap(jobs)
        &&& jobs[self.before as int].latest_start <= jobs[self.after as int].latest_start
            - self.gap(jobs)
    }

    /// Creates the constraint that the job at `after` starts no earlier than `delay` after the
    /// start or the finish of the job at `before`, as `constraint_type` says.
    pub fn new(before: usize, after: usize, delay: Time, constraint_type: ConstraintType) -> (c:
        Constraint)
        ensures
            c == (Constraint { before, after, constraint_type, delay }),
    {
        Constraint { before, after, constraint_type, delay }
    }

    /// A placeholder constraint
    pub fn dummy() -> (c: Constraint)
        ensures
            c == (Constraint {
                before: 0,
                after: 0,
                constraint_type: ConstraintType::StartToStart,
                delay: 0,
            }),
    {
        Constraint { before: 0, after: 0, constraint_type: ConstraintType::StartToStart, delay: 0 }
    }

    /// The position of the predecessor
    pub fn get_before(&self) -> (before: usize)
        ensures
            before == self.before,
    {
        self.before
    }

    /// The position of the successor
    pub fn get_after(&self) -> (after: usize)
        ensures
            after == self.after,
    {
        self.after
    }

    /// Whether the delay counts from the start or from the finish of the predecessor
    pub fn get_type(&self) -> (constraint_type: ConstraintType)
        ensures
            constraint_type == self.constraint_type,
    {
        self.constraint_type
    }

    /// The least time between the two jobs
    pub fn get_delay(&self) -> (delay: Time)
        ensures
            delay == self.delay,
    {
        self.delay
    }
}

/// Jobs, the precedence constraints between them, and the number of identical cores
#[derive(Debug, Clone, Eq, PartialEq)]
pub struct Problem {
    pub jobs: Vec<Job>,
    pub constraints: Vec<Constraint>,
    pub num_cores: u32,
}

/// Whether each job of `jobs` carries its own position as index
pub open spec fn indices_match(jobs: Seq<Job>) -> bool {
    forall|i: int| 0 <= i < jobs.len() ==> (#[trigger] jobs[i]).index == i
}

/// Whether each constraint connects two of `num_jobs` jobs with a delay that is not negative
pub open spec fn constraints_valid(constraints: Seq<Constraint>, num_jobs: int) -> bool {
    forall|i: int|
        0 <= i < constraints.len() ==> {
            &&& (#[trigger] constraints[i]).delay >= 0
            &&& constraints[i].before < num_jobs
            &&& constraints[i].after < num_jobs
        }
}

/// Whether every constraint goes from a lower to a higher job index
pub open spec fn job_order_possible(constraints: Seq<Constraint>) -> bool {
    forall|i: int|
        0 <= i < constraints.len() ==> (#[trigger] constraints[i]).before < constraints[i].after
}

/// Whether at least one of `jobs` cannot meet its deadline by its own bounds
pub open spec fn some_job_infeasible(jobs: Seq<Job>) -> bool {
    exists|i: int| 0 <= i < jobs.len() && (#[trigger] jobs[i]).infeasible()
}

/// `jobs` with the index of each job set to its position
pub open spec fn restamped(jobs: Seq<Job>) -> Seq<Job> {
    Seq::new(jobs.len(), |i: int| Job { index: i as usize, ..jobs[i] })
}

impl Problem {
    /// Each job carries its position as index, and each constraint connects two jobs of the
    /// problem with a delay that is not negative.
    pub open spec fn valid(&self) -> bool {
        &&& indices_match(self.jobs@)
        &&& constraints_valid(self.constraints@, self.jobs@.len() as int)
    }

    /// A valid problem with at least one core, whose jobs are all well-formed
    pub open spec fn wf(&self) -> bool {
        &&& self.valid()
        &&& self.num_cores >= 1
        &&& forall|i: int| 0 <= i < self.jobs@.len() ==> (#[trigger] self.jobs@[i]).wf()
    }

    /// Checks whether this problem is valid:
    /// - `jobs[index].index = index` for all `0 <= index < jobs.len()`
    /// - `c.delay >= 0` for all constraints `c`
    /// - `c.before < jobs.len() && c.after < jobs.len()` for all constraints `c`
    pub fn validate(&self) -> (valid: bool)
        ensures
            valid == self.valid(),
    {
        let mut index: usize = 0;
        while index < self.jobs.len()
            invariant
                index <= self.jobs@.len(),
                forall|i: int| 0 <= i < index ==> (#[trigger] self.jobs@[i]).index == i,
            decreases self.jobs@.len() - index,
        {
            if self.jobs[index].index != index {
                return false;
            }
            index += 1;
        }
        let mut c: usize = 0;
        while c < self.constraints.len()
            invariant
                c <= self.constraints@.len(),
                indices_match(self.jobs@),
                constraints_valid(self.constraints@.take(c as int), self.jobs@.len() as int),
            decreases self.constraints@.len() - c,
        {
            let constraint = self.constraints[c];
            if constraint.delay < 0 || constraint.before >= self.jobs.len() || constraint.after
                >= self.jobs.len() {
                return false;
            }
            c += 1;
            assert forall|i: int| 0 <= i < c implies {
                &&& (#[trigger] self.constraints@.take(c as int)[i]).delay >= 0
                &&& self.constraints@.take(c as int)[i].before < self.jobs@.len()
                &&& self.constraints@.take(c as int)[i].after < self.jobs@.len()
            } by {
                if i < c - 1 {
                    assert(self.constraints@.take(c - 1)[i] == self.constraints@[i]);
                }
            }
        }
        assert(self.constraints@.take(c as int) == self.constraints@);
        true
    }

    /// A very simple sufficient test that checks whether this problem is certainly infeasible.
    pub fn is_certainly_infeasible(&self) -> (infeasible: bool)
        ensures
            infeasible == some_job_infeasible(self.jobs@),
    {
        let mut index: usize = 0;
        while index < self.jobs.len()
            invariant
                index <= self.jobs@.len(),
                forall|i: int| 0 <= i < index ==> !(#[trigger] self.jobs@[i]).infeasible(),
            decreases self.jobs@.len() - index,
        {
            if self.jobs[index].is_certainly_infeasible() {
                return true;
            }
            index += 1;
        }
        false
    }

    /// Changes `jobs[i].index` to `i`, for all `0 <= i < jobs.len()`
    pub fn update_job_indices(&mut self)
        ensures
            final(self).jobs@ == restamped(old(self).jobs@),
            final(self).constraints == old(self).constraints,
            final(self).num_cores == old(self).num_cores,
    {
        let mut index: usize = 0;
        while index < self.jobs.len()
            invariant
                index <= self.jobs@.len(),
                self.jobs@.len() == old(self).jobs@.len(),
                self.constraints == old(self).constraints,
                self.num_cores == old(self).num_cores,
                forall|i: int| 0 <= i < index ==> self.jobs@[i] == restamped(old(self).jobs@)[i],
                forall|i: int|
                    index <= i < self.jobs@.len() ==> self.jobs@[i] == old(self).jobs@[i],
            decreases self.jobs@.len() - index,
        {
            let mut job = self.jobs[index];
            job.index = index;
            self.jobs.set(index, job);
            index += 1;
        }
    }

    /// Tests whether the 'default' job ordering of this problem is **possible**. More formally,
    /// whether `c.before < c.after` holds for all constraints.
    pub fn is_job_order_possible(&self) -> (possible: bool)
        ensures
            possible == job_order_possible(self.constraints@),
    {
        let mut index: usize = 0;
        while index < self.constraints.len()
            invariant
                index <= self.constraints@.len(),
                forall|i: int| 0 <= i < index ==> (#[trigger] self.constraints@[i]).before
                    < self.constraints@[i].after,
            decreases self.constraints@.len() - index,
        {
            if self.constraints[index].before >= self.constraints[index].after {
                return false;
            }
            index += 1;
        }
        true
    }
}

} // verus!

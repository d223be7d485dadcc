//! A simulation of a scheduler that starts the jobs in the order in which they are handed to
//! it, each as early as possible.

pub mod core_availability;

use crate::necessary::load::larger;
use crate::problem::{
    constraints_valid, Constraint, ConstraintType, Job, Problem, Time, MAX_COUNT, MAX_DURATION,
    MAX_TIME,
};
use crate::simulator::core_availability::CoreAvailability;
use crate::sort::{all_within, in_ascending_order, lemma_in_ascending_order, lemma_same_bounds};
use vstd::prelude::*;

verus! {

/// A job that was started, and that may still have a successor that waits for it
#[derive(Clone, Copy)]
pub struct RunningJob {
    pub job: usize,
    pub started_at: Time,
    pub finishes_at: Time,
}

/// For each job, the constraints that lead to it
pub open spec fn predecessors_of(constraints: Seq<Constraint>, num_jobs: int) -> Seq<
    Seq<Constraint>,
>
    decreases constraints.len(),
{
    if constraints.len() == 0 {
        Seq::new(num_jobs as nat, |job: int| Seq::empty())
    } else {
        let rest = predecessors_of(constraints.drop_last(), num_jobs);
        let after = constraints.last().after as int;
        rest.update(after, rest[after].push(constraints.last()))
    }
}

/// The longest delay of a constraint, or 0
pub open spec fn longest_delay(constraints: Seq<Constraint>) -> int
    decreases constraints.len(),
{
    if constraints.len() == 0 {
        0
    } else {
        larger(longest_delay(constraints.drop_last()), constraints.last().delay as int)
    }
}

/// The first position from `from` on at which `running` holds the job with index `job`, or
/// the length of `running`
pub open spec fn running_position(running: Seq<RunningJob>, job: int, from: int) -> int
    decreases running.len() - from,
{
    if from < 0 || from >= running.len() {
        running.len() as int
    } else if running[from].job == job {
        from
    } else {
        running_position(running, job, from + 1)
    }
}

/// The earliest time at which the successor of `constraint` can start, given when the
/// predecessor was started and when it finishes
pub open spec fn ready_bound(constraint: Constraint, predecessor: RunningJob) -> int {
    constraint.delay + if constraint.constraint_type == ConstraintType::FinishToStart {
        predecessor.finishes_at
    } else {
        predecessor.started_at
    }
}

/// The earliest time at which a job can start that is released at `earliest` and to which
/// `constraints` lead: constraints whose predecessor has finished long ago do not matter.
pub open spec fn ready_time(
    constraints: Seq<Constraint>,
    finished: Seq<bool>,
    running: Seq<RunningJob>,
    earliest: int,
) -> int
    decreases constraints.len(),
{
    if constraints.len() == 0 {
        earliest
    } else {
        let rest = ready_time(constraints.drop_last(), finished, running, earliest);
        let constraint = constraints.last();
        if finished[constraint.before as int] {
            rest
        } else {
            larger(
                rest,
                ready_bound(
                    constraint,
                    running[running_position(running, constraint.before as int, 0)],
                ),
            )
        }
    }
}

/// Whether the predecessor of each of `constraints` has finished long ago or is among the
/// running jobs
pub open spec fn predecessors_started(
    constraints: Seq<Constraint>,
    finished: Seq<bool>,
    running: Seq<RunningJob>,
) -> bool {
    forall|k: int|
        0 <= k < constraints.len() ==> finished[(#[trigger] constraints[k]).before as int]
            || running_position(running, constraints[k].before as int, 0) < running.len()
}

/// The running jobs from position `index` on without those that finished, together with the
/// suspension, by time `now`; and the jobs that finished long ago, with those added. A job
/// that leaves the running jobs is replaced by the last running job.
pub open spec fn retired(
    running: Seq<RunningJob>,
    finished: Seq<bool>,
    index: int,
    now: int,
    suspension: int,
) -> (Seq<RunningJob>, Seq<bool>)
    decreases running.len() - index,
{
    if index < 0 || index >= running.len() {
        (running, finished)
    } else if now >= running[index].finishes_at + suspension {
        retired(
            running.update(index, running.last()).drop_last(),
            finished.update(running[index].job as int, true),
            index,
            now,
            suspension,
        )
    } else {
        retired(running, finished, index + 1, now, suspension)
    }
}

/// What the simulation knows
pub struct SimulatorState {
    /// For each job, whether it finished so long ago that no successor waits for it
    pub finished: Seq<bool>,
    /// The other jobs that were started
    pub running: Seq<RunningJob>,
    /// The time at which each core is available, in ascending order
    pub finish_times: Seq<Time>,
    /// The time at which the last job was started
    pub last_start: Time,
    /// The number of jobs that finished long ago
    pub num_finished: int,
    /// Whether a job was started after its latest start
    pub missed_deadline: bool,
}

/// The time at which `job` starts if it is dispatched next
pub open spec fn predicted_start(
    state: SimulatorState,
    predecessors: Seq<Seq<Constraint>>,
    job: Job,
) -> int {
    larger(
        ready_time(
            predecessors[job.index as int],
            state.finished,
            state.running,
            job.earliest_start as int,
        ),
        larger(state.finish_times[0] as int, state.last_start as int),
    )
}

/// What the simulation knows after `job` was dispatched
pub open spec fn dispatched(
    state: SimulatorState,
    predecessors: Seq<Seq<Constraint>>,
    suspension: int,
    job: Job,
) -> SimulatorState {
    let start = predicted_start(state, predecessors, job);
    let finish_times = in_ascending_order(
        state.finish_times.update(0, (start + job.execution_time) as Time),
    );
    let left = retired(
        state.running,
        state.finished,
        0,
        larger(finish_times[0] as int, start),
        suspension,
    );
    SimulatorState {
        finished: left.1,
        running: left.0.push(
            RunningJob {
                job: job.index,
                started_at: start as Time,
                finishes_at: (start + job.execution_time) as Time,
            },
        ),
        finish_times,
        last_start: start as Time,
        num_finished: state.num_finished + state.running.len() - left.0.len(),
        missed_deadline: state.missed_deadline || start > job.latest_start,
    }
}

/// Lists, for each job, the constraints that lead to it, and finds the longest delay.
fn create_predecessor_mapping(problem: &Problem) -> (result: (Vec<Vec<Constraint>>, Time))
    requires
        constraints_valid(problem.constraints@, problem.jobs@.len() as int),
    ensures
        mapping_view(result.0@) == predecessors_of(
            problem.constraints@,
            problem.jobs@.len() as int,
        ),
        result.0@.len() == problem.jobs@.len(),
        result.1 == longest_delay(problem.constraints@),
{
    let mut mapping: Vec<Vec<Constraint>> = Vec::new();
    let count = problem.jobs.len();
    let mut job: usize = 0;
    while job < count
        invariant
            job <= count,
            mapping@.len() == job,
            forall|j: int| 0 <= j < job ==> (#[trigger] mapping@[j])@.len() == 0,
        decreases count - job,
    {
        mapping.push(Vec::new());
        job += 1;
    }
    assert(mapping_view(mapping@) =~~= Seq::new(count as nat, |job: int| Seq::empty()));
    let mut maximum_suspension: Time = 0;
    let mut index: usize = 0;
    while index < problem.constraints.len()
        invariant
            index <= problem.constraints@.len(),
            constraints_valid(problem.constraints@, problem.jobs@.len() as int),
            count == problem.jobs@.len(),
            mapping@.len() == count,
            mapping_view(mapping@) == predecessors_of(
                problem.constraints@.take(index as int),
                count as int,
            ),
            maximum_suspension == longest_delay(problem.constraints@.take(index as int)),
        decreases problem.constraints@.len() - index,
    {
        let constraint = problem.constraints[index];
        let ghost before = mapping@;
        assert(problem.constraints@.take(index + 1).drop_last() == problem.constraints@.take(
            index as int,
        ));
        mapping[constraint.after].push(constraint);
        proof {
            let after = constraint.after as int;
            assert(mapping@[after]@ == before[after]@.push(constraint));
            assert(mapping_view(mapping@) =~~= mapping_view(before).update(
                after,
                mapping_view(before)[after].push(constraint),
            )) by {
                assert forall|j: int| 0 <= j < count implies mapping_view(mapping@)[j]
                    == mapping_view(before).update(
                    after,
                    mapping_view(before)[after].push(constraint),
                )[j] by {
                    if j != after {
                        assert(mapping@[j] == before[j]);
                    }
                }
            }
        }
        if constraint.delay > maximum_suspension {
            maximum_suspension = constraint.delay;
        }
        index += 1;
    }
    assert(problem.constraints@.take(problem.constraints@.len() as int) == problem.constraints@);
    (mapping, maximum_suspension)
}

/// The lists of constraints as sequences
pub open spec fn mapping_view(mapping: Seq<Vec<Constraint>>) -> Seq<Seq<Constraint>> {
    Seq::new(mapping.len(), |job: int| mapping[job]@)
}

/// The latest time at which a job can finish of which `count` were dispatched
pub open spec fn horizon(count: int) -> int {
    MAX_TIME + count * 0x100_0000_0000
}

/// Whether the times of `running` lie between `-MAX_TIME` and `limit`, and its jobs are
/// among `num_jobs` jobs
pub open spec fn running_within(running: Seq<RunningJob>, num_jobs: int, limit: int) -> bool {
    forall|i: int|
        0 <= i < running.len() ==> {
            &&& (#[trigger] running[i]).job < num_jobs
            &&& -MAX_TIME <= running[i].started_at <= limit
            &&& -MAX_TIME <= running[i].finishes_at <= limit
        }
}

/// Whether the constraints of `mapping` lead away from one of `num_jobs` jobs, with a delay
/// from 0 to `MAX_DURATION`
pub open spec fn mapping_within(mapping: Seq<Seq<Constraint>>, num_jobs: int) -> bool {
    forall|job: int, k: int|
        0 <= job < mapping.len() && 0 <= k < mapping[job].len() ==> {
            &&& (#[trigger] mapping[job][k]).before < num_jobs
            &&& 0 <= mapping[job][k].delay <= MAX_DURATION
        }
}

/// What a simulation asks of a problem: the constraints are valid, no delay is longer than
/// `MAX_DURATION`, and there is a core.
pub open spec fn fit_for_simulation(problem: Problem) -> bool {
    &&& constraints_valid(problem.constraints@, problem.jobs@.len() as int)
    &&& forall|k: int|
        0 <= k < problem.constraints@.len() ==> (#[trigger] problem.constraints@[k]).delay
            <= MAX_DURATION
    &&& problem.num_cores >= 1
}

/// The predecessors of valid constraints are listed for each job and lie among the jobs, and
/// the longest delay is within the limit on delays.
proof fn lemma_predecessors_within(constraints: Seq<Constraint>, num_jobs: int)
    requires
        num_jobs >= 0,
        constraints_valid(constraints, num_jobs),
        forall|k: int|
            0 <= k < constraints.len() ==> (#[trigger] constraints[k]).delay <= MAX_DURATION,
    ensures
        predecessors_of(constraints, num_jobs).len() == num_jobs,
        mapping_within(predecessors_of(constraints, num_jobs), num_jobs),
        0 <= longest_delay(constraints) <= MAX_DURATION,
    decreases constraints.len(),
{
    if constraints.len() > 0 {
        let rest_constraints = constraints.drop_last();
        assert(constraints_valid(rest_constraints, num_jobs)) by {
            assert forall|i: int| 0 <= i < rest_constraints.len() implies {
                &&& (#[trigger] rest_constraints[i]).delay >= 0
                &&& rest_constraints[i].before < num_jobs
                &&& rest_constraints[i].after < num_jobs
            } by {
                assert(constraints[i].delay >= 0);
            }
        }
        assert forall|k: int| 0 <= k < rest_constraints.len() implies (
        #[trigger] rest_constraints[k]).delay <= MAX_DURATION by {
            assert(constraints[k].delay <= MAX_DURATION);
        }
        lemma_predecessors_within(rest_constraints, num_jobs);
        let rest = predecessors_of(rest_constraints, num_jobs);
        let last = constraints[constraints.len() - 1];
        assert(last.delay >= 0 && last.delay <= MAX_DURATION && last.before < num_jobs
            && last.after < num_jobs);
        let all = predecessors_of(constraints, num_jobs);
        assert forall|job: int, k: int| 0 <= job < all.len() && 0 <= k < all[job].len() implies {
            &&& (#[trigger] all[job][k]).before < num_jobs
            &&& 0 <= all[job][k].delay <= MAX_DURATION
        } by {
            if job == last.after && k == rest[job].len() {
            } else {
                assert(all[job][k] == rest[job][k]);
            }
        }
    }
}

/// This struct simulates a non-preemptive work-conserving scheduler. Users can invoke the
/// `schedule(Job)` method to dispatch jobs, and this simulator checks whether a non-preemptive
/// work-conserving scheduler would miss deadlines if the jobs were dispatched in that order.
///
/// This struct also has methods like `predict_start_time(Job)` to predict at what time a job would
/// start if it were dispatched next, *without* actually scheduling that job.
#[derive(Clone)]
pub struct Simulator {
    finished_jobs: Vec<bool>,
    running_jobs: Vec<RunningJob>,
    core_availability: CoreAvailability,
    predecessor_mapping: Vec<Vec<Constraint>>,
    maximum_suspension: Time,
    num_finished_jobs: usize,
    missed_deadline: bool,
}

impl Simulator {
    /// What the simulation knows
    pub closed spec fn state(&self) -> SimulatorState {
        SimulatorState {
            finished: self.finished_jobs@,
            running: self.running_jobs@,
            finish_times: self.core_availability.finish_times(),
            last_start: self.core_availability.last_start(),
            num_finished: self.num_finished_jobs as int,
            missed_deadline: self.missed_deadline,
        }
    }

    /// For each job, the constraints that lead to it
    pub closed spec fn predecessors(&self) -> Seq<Seq<Constraint>> {
        mapping_view(self.predecessor_mapping@)
    }

    /// The longest delay of a constraint
    pub closed spec fn suspension(&self) -> int {
        self.maximum_suspension as int
    }

    /// The number of jobs that were dispatched
    pub open spec fn num_dispatched(&self) -> int {
        self.state().num_finished + self.state().running.len()
    }

    /// The simulation knows of each job of the problem, and its times are within the limits
    /// that keep their sums representable.
    pub closed spec fn wf(&self) -> bool {
        let state = self.state();
        let limit = horizon(self.num_dispatched());
        &&& state.finished.len() == self.predecessors().len()
        &&& mapping_within(self.predecessors(), state.finished.len() as int)
        &&& 0 <= self.maximum_suspension <= MAX_DURATION
        &&& self.core_availability.wf()
        &&& state.finish_times.len() >= 1
        &&& all_within(state.finish_times, -MAX_TIME as int, limit)
        &&& -MAX_TIME <= state.last_start <= limit
        &&& running_within(state.running, state.finished.len() as int, limit)
        &&& 0 <= self.num_dispatched() <= MAX_COUNT
    }

    /// Whether `job` can be dispatched next: it is a job of the problem whose times are
    /// within the limits, and each job that has to come before it was dispatched
    pub open spec fn can_predict(&self, job: Job) -> bool {
        &&& job.index < self.state().finished.len()
        &&& job.within_limits()
        &&& predecessors_started(
            self.predecessors()[job.index as int],
            self.state().finished,
            self.state().running,
        )
    }

    /// Constructs a new simulator for the given problem.
    /// No jobs are dispatched initially.
    pub fn new(problem: &Problem) -> (simulator: Self)
        requires
            fit_for_simulation(*problem),
        ensures
            simulator.wf(),
            simulator.predecessors() == predecessors_of(
                problem.constraints@,
                problem.jobs@.len() as int,
            ),
            simulator.suspension() == longest_delay(problem.constraints@),
            simulator.state() == (SimulatorState {
                finished: Seq::new(problem.jobs@.len(), |job: int| false),
                running: Seq::empty(),
                finish_times: Seq::new(problem.num_cores as nat, |core: int| 0i64),
                last_start: 0,
                num_finished: 0,
                missed_deadline: false,
            }),
    {
        let (predecessor_mapping, maximum_suspension) = create_predecessor_mapping(problem);
        let mut finished_jobs: Vec<bool> = Vec::new();
        let mut job: usize = 0;
        while job < problem.jobs.len()
            invariant
                job <= problem.jobs@.len(),
                finished_jobs@ == Seq::new(job as nat, |job: int| false),
            decreases problem.jobs@.len() - job,
        {
            finished_jobs.push(false);
            assert(finished_jobs@ == Seq::new((job + 1) as nat, |job: int| false));
            job += 1;
        }
        proof {
            lemma_predecessors_within(problem.constraints@, problem.jobs@.len() as int);
        }
        Self {
            finished_jobs,
            running_jobs: Vec::new(),
            core_availability: CoreAvailability::new(problem.num_cores as usize),
            predecessor_mapping,
            maximum_suspension,
            num_finished_jobs: 0,
            missed_deadline: false,
        }
    }

    /// The running job with index `job`
    fn find_running(&self, job: usize) -> (position: usize)
        requires
            running_position(self.running_jobs@, job as int, 0) < self.running_jobs@.len(),
        ensures
            position == running_position(self.running_jobs@, job as int, 0),
            position < self.running_jobs@.len(),
    {
        let count = self.running_jobs.len();
        let mut position: usize = 0;
        while self.running_jobs[position].job != job
            invariant
                count == self.running_jobs@.len(),
                position < self.running_jobs@.len(),
                running_position(self.running_jobs@, job as int, 0) == running_position(
                    self.running_jobs@,
                    job as int,
                    position as int,
                ),
                running_position(self.running_jobs@, job as int, 0) < self.running_jobs@.len(),
            decreases self.running_jobs@.len() - position,
        {
            proof {
                assert(running_position(self.running_jobs@, job as int, position as int)
                    == running_position(self.running_jobs@, job as int, position + 1));
                if position + 1 >= self.running_jobs@.len() {
                    assert(running_position(self.running_jobs@, job as int, position + 1)
                        == self.running_jobs@.len());
                }
            }
            position += 1;
        }
        position
    }

    /// Assuming that `job` is the next job that is dispatched, predicts at which time it would
    /// start executing. This method does **not** schedule `job`: it only provides information.
    #[verifier::rlimit(40)]
    pub fn predict_start_time(&self, job: Job) -> (start: Time)
        requires
            self.wf(),
            self.can_predict(job),
        ensures
            start == predicted_start(self.state(), self.predecessors(), job),
            -MAX_TIME <= start <= horizon(self.num_dispatched()) + MAX_DURATION,
            start >= job.earliest_start,
    {
        let mut ready = job.earliest_start;
        let ghost constraints = self.predecessors()[job.index as int];
        let count = self.predecessor_mapping[job.index].len();
        assert(constraints == self.predecessor_mapping@[job.index as int]@);
        let mut index: usize = 0;
        while index < count
            invariant
                index <= count,
                self.wf(),
                self.can_predict(job),
                constraints == self.predecessors()[job.index as int],
                constraints == self.predecessor_mapping@[job.index as int]@,
                count == constraints.len(),
                ready == ready_time(
                    constraints.take(index as int),
                    self.finished_jobs@,
                    self.running_jobs@,
                    job.earliest_start as int,
                ),
                job.earliest_start <= ready <= horizon(self.num_dispatched()) + MAX_DURATION,
            decreases count - index,
        {
            let constraint = self.predecessor_mapping[job.index][index];
            proof {
                assert(constraints.take(index + 1).drop_last() == constraints.take(index as int));
                assert(constraints[index as int] == constraint);
                assert(self.predecessors()[job.index as int][index as int].before
                    < self.finished_jobs@.len());
            }
            if !self.finished_jobs[constraint.before] {
                let position = self.find_running(constraint.before);
                let running_job = self.running_jobs[position];
                let mut ready_bound = constraint.delay;
                if constraint.constraint_type == ConstraintType::FinishToStart {
                    ready_bound += running_job.finishes_at;
                } else {
                    ready_bound += running_job.started_at;
                }
                if ready_bound > ready {
                    ready = ready_bound;
                }
            }
            index += 1;
        }
        assert(constraints.take(count as int) == constraints);
        let next_start = self.core_availability.next_start_time();
        assert(self.state().finish_times[0] <= horizon(self.num_dispatched()));
        if ready >= next_start {
            ready
        } else {
            next_start
        }
    }

    /// Assuming that `job` is the next job that is dispatched, this method predicts the earliest
    /// time at or after the start of `job` where at least 1 core is available. The core
    /// that executes `job` is not counted 'available' at the start time of `job`.
    pub fn predict_next_start_time(&self, job: Job) -> (next_start: Time)
        requires
            self.wf(),
            self.can_predict(job),
        ensures
            next_start == larger(
                predicted_start(self.state(), self.predecessors(), job),
                if self.state().finish_times.len() > 1 && larger(
                    self.state().finish_times[1] as int,
                    self.state().last_start as int,
                ) < predicted_start(self.state(), self.predecessors(), job) + job.execution_time {
                    larger(self.state().finish_times[1] as int, self.state().last_start as int)
                } else {
                    predicted_start(self.state(), self.predecessors(), job) + job.execution_time
                },
            ),
    {
        let current_start_time = self.predict_start_time(job);
        let mut next_start_time = current_start_time + job.execution_time;
        if self.core_availability.get_num_cores() > 1 {
            let second = self.core_availability.second_start_time();
            if second < next_start_time {
                next_start_time = second;
            }
        }
        if current_start_time >= next_start_time {
            current_start_time
        } else {
            next_start_time
        }
    }

    /// Whether `job` can be handed to `schedule`: it can be dispatched next, it was not
    /// dispatched before, and fewer than `MAX_COUNT` jobs were dispatched
    pub open spec fn can_schedule(&self, job: Job) -> bool {
        &&& self.can_predict(job)
        &&& !self.state().finished[job.index as int]
        &&& running_position(self.state().running, job.index as int, 0)
            == self.state().running.len()
        &&& self.num_dispatched() < MAX_COUNT
    }

    /// Ensures that `job` is the next job that starts. It will start as early as possible. The
    /// start time can be predicted using `predict_start_time(job)`.
    #[verifier::rlimit(40)]
    pub fn schedule(&mut self, job: Job)
        requires
            old(self).wf(),
            old(self).can_schedule(job),
        ensures
            final(self).wf(),
            final(self).predecessors() == old(self).predecessors(),
            final(self).suspension() == old(self).suspension(),
            final(self).state() == dispatched(
                old(self).state(),
                old(self).predecessors(),
                old(self).suspension(),
                job,
            ),
            final(self).num_dispatched() == old(self).num_dispatched() + 1,
    {
        let start_time = self.predict_start_time(job);
        if start_time > job.latest_start {
            self.missed_deadline = true;
        }
        let ghost old_limit = horizon(old(self).num_dispatched());
        let ghost new_limit = horizon(old(self).num_dispatched() + 1);
        let ghost unsorted = self.core_availability.finish_times().update(
            0,
            (start_time + job.execution_time) as Time,
        );
        self.core_availability.schedule(start_time, job.execution_time);
        proof {
            lemma_in_ascending_order(unsorted);
            assert(all_within(unsorted, -MAX_TIME as int, new_limit)) by {
                assert forall|i: int| 0 <= i < unsorted.len() implies -MAX_TIME
                    <= #[trigger] unsorted[i] <= new_limit by {
                    if i > 0 {
                        assert(unsorted[i] == old(self).state().finish_times[i]);
                    }
                }
            }
            lemma_same_bounds(
                self.core_availability.finish_times(),
                unsorted,
                -MAX_TIME as int,
                new_limit,
            );
        }
        let now = self.core_availability.next_start_time();
        let ghost running_before = self.running_jobs@;
        let ghost finished_before = self.finished_jobs@;
        let count = self.finished_jobs.len();
        let mut index: usize = 0;
        while index < self.running_jobs.len()
            invariant
                index <= self.running_jobs@.len(),
                count == self.finished_jobs@.len(),
                count == finished_before.len(),
                0 <= self.maximum_suspension <= MAX_DURATION,
                running_within(self.running_jobs@, count as int, old_limit),
                retired(
                    running_before,
                    finished_before,
                    0,
                    now as int,
                    self.maximum_suspension as int,
                ) == retired(
                    self.running_jobs@,
                    self.finished_jobs@,
                    index as int,
                    now as int,
                    self.maximum_suspension as int,
                ),
                self.num_finished_jobs + self.running_jobs@.len() == old(self).num_dispatched(),
                old(self).num_dispatched() < MAX_COUNT,
                old_limit == horizon(old(self).num_dispatched()),
                self.predecessor_mapping == old(self).predecessor_mapping,
                self.maximum_suspension == old(self).maximum_suspension,
                self.missed_deadline == (old(self).missed_deadline || start_time
                    > job.latest_start),
                self.core_availability.wf(),
                self.core_availability.finish_times() == in_ascending_order(unsorted),
                self.core_availability.last_start() == start_time,
            decreases self.running_jobs@.len() - index,
        {
            let running_job = self.running_jobs[index];
            assert(-MAX_TIME <= self.running_jobs@[index as int].finishes_at <= old_limit);
            assert(self.running_jobs@[index as int].job < count);
            if now >= running_job.finishes_at + self.maximum_suspension {
                self.finished_jobs.set(running_job.job, true);
                self.num_finished_jobs += 1;
                let ghost before = self.running_jobs@;
                self.running_jobs.swap_remove(index);
                proof {
                    assert forall|i: int| 0 <= i < self.running_jobs@.len() implies {
                        &&& (#[trigger] self.running_jobs@[i]).job < count
                        &&& -MAX_TIME <= self.running_jobs@[i].started_at <= old_limit
                        &&& -MAX_TIME <= self.running_jobs@[i].finishes_at <= old_limit
                    } by {
                        if i == index {
                            assert(self.running_jobs@[i] == before[before.len() - 1]);
                        } else {
                            assert(self.running_jobs@[i] == before[i]);
                        }
                    }
                }
            } else {
                index += 1;
            }
        }
        self.running_jobs.push(
            RunningJob {
                job: job.index,
                started_at: start_time,
                finishes_at: start_time + job.execution_time,
            },
        );
        proof {
            assert(running_within(self.running_jobs@, count as int, new_limit)) by {
                assert forall|i: int| 0 <= i < self.running_jobs@.len() implies {
                    &&& (#[trigger] self.running_jobs@[i]).job < count
                    &&& -MAX_TIME <= self.running_jobs@[i].started_at <= new_limit
                    &&& -MAX_TIME <= self.running_jobs@[i].finishes_at <= new_limit
                } by {
                    if i < self.running_jobs@.len() - 1 {
                        let previous = self.running_jobs@.drop_last();
                        assert(self.running_jobs@[i] == previous[i]);
                    }
                }
            }
        }
    }

    /// Predicts the earliest next time at which at least 1 core is available.
    pub fn next_core_available(&self) -> (time: Time)
        requires
            self.wf(),
        ensures
            time == larger(self.state().finish_times[0] as int, self.state().last_start as int),
    {
        self.core_availability.next_start_time()
    }

    /// Returns true if and only if a deadline miss was encountered, which is if and only if
    /// a job was `schedule`d after its latest start time.
    pub fn has_missed_deadline(&self) -> (missed: bool)
        ensures
            missed == self.state().missed_deadline,
    {
        self.missed_deadline
    }

    /// Returns the number of jobs that have been `schedule`d so far
    pub fn num_dispatched_jobs(&self) -> (count: usize)
        requires
            self.wf(),
        ensures
            count == self.num_dispatched(),
    {
        self.num_finished_jobs + self.running_jobs.len()
    }
}

} // verus!

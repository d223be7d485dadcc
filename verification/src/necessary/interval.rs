//! The feasibility interval test: between the earliest start and the latest finish of a job,
//! the jobs that must execute there have to fit on the cores.

use crate::necessary::interval_tree::{overlapping, overlaps, IntervalTree, JobInterval};
use crate::necessary::load::{fit_for_load, larger, smaller};
use crate::necessary::pack::{
    certainly_unpackable, is_certainly_unpackable, lemma_unpackable_permutation,
};
use crate::necessary::window::lemma_interval_test_is_sound;
use crate::problem::{Job, Problem, Time};
use crate::schedule::fits_in_no_way;
use vstd::prelude::*;
use vstd::seq_lib::{to_multiset_build, to_multiset_len, to_multiset_remove};

verus! {

/// What a step of the interval test found
#[derive(PartialEq, Eq, Copy, Clone, Debug, Structural)]
pub enum IntervalResult {
    /// The window of the last job was handled without a contradiction.
    Finished,
    /// No contradiction was found so far, and jobs are left.
    Running,
    /// The jobs that must execute within the window of a job do not fit on the cores.
    CertainlyInfeasible,
}

/// The time from the earliest start of `job` up to its latest finish
pub open spec fn interval_of(job: Job) -> JobInterval {
    JobInterval { job: job.index, start: job.earliest_start, end: job.latest_finish() as Time }
}

/// The interval of each job
pub open spec fn intervals_of(jobs: Seq<Job>) -> Seq<JobInterval> {
    Seq::new(jobs.len(), |i: int| interval_of(jobs[i]))
}

/// The longest time that `interval` reaches out of `window` at one side
pub open spec fn time_outside(interval: JobInterval, window: JobInterval) -> int {
    larger(
        if interval.start < window.start {
            window.start - interval.start
        } else {
            0
        },
        if interval.end > window.end {
            interval.end - window.end
        } else {
            0
        },
    )
}

/// The time that the job of `interval` must execute within `window`, if there is any: the
/// interval overlaps the window, and the job runs for longer than its interval reaches out of
/// the window.
pub open spec fn required_load(
    interval: JobInterval,
    window: JobInterval,
    jobs: Seq<Job>,
) -> Option<Time> {
    let execution_time = jobs[interval.job as int].execution_time;
    if overlaps(interval, window) && execution_time > time_outside(interval, window) {
        Some(
            smaller(
                execution_time - time_outside(interval, window),
                window.end - window.start,
            ) as Time,
        )
    } else {
        None
    }
}

/// The times that the jobs of `intervals` must execute within `window`
pub open spec fn required_loads(
    intervals: Seq<JobInterval>,
    window: JobInterval,
    jobs: Seq<Job>,
) -> Seq<Time>
    decreases intervals.len(),
{
    if intervals.len() == 0 {
        Seq::empty()
    } else {
        match required_load(intervals.last(), window, jobs) {
            Some(load) => required_loads(intervals.drop_last(), window, jobs).push(load),
            None => required_loads(intervals.drop_last(), window, jobs),
        }
    }
}

/// Whether the jobs that must execute between the earliest start and the latest finish of
/// the job at `index` certainly do not fit on the cores
pub open spec fn window_overloaded(jobs: Seq<Job>, num_cores: int, index: int) -> bool {
    let window = interval_of(jobs[index]);
    certainly_unpackable(
        num_cores,
        window.end - window.start,
        required_loads(intervals_of(jobs), window, jobs),
    )
}

/// Whether the interval test proves that the jobs cannot be scheduled on `num_cores` cores
pub open spec fn interval_test_fails(jobs: Seq<Job>, num_cores: int) -> bool {
    exists|index: int| 0 <= index < jobs.len() && window_overloaded(jobs, num_cores, index)
}

/// Every interval among the overlapping ones overlaps, and they are no more than all.
proof fn lemma_overlapping_overlap(items: Seq<JobInterval>, query: JobInterval)
    ensures
        forall|i: int|
            0 <= i < overlapping(items, query).len() ==> overlaps(
                #[trigger] overlapping(items, query)[i],
                query,
            ) && items.contains(overlapping(items, query)[i]),
        overlapping(items, query).len() <= items.len(),
    decreases items.len(),
{
    if items.len() > 0 {
        lemma_overlapping_overlap(items.drop_last(), query);
        let rest = overlapping(items.drop_last(), query);
        assert forall|i: int| 0 <= i < overlapping(items, query).len() implies overlaps(
            #[trigger] overlapping(items, query)[i],
            query,
        ) && items.contains(overlapping(items, query)[i]) by {
            if i < rest.len() {
                assert(overlapping(items, query)[i] == rest[i]);
                assert(items.drop_last().contains(rest[i]));
                let j = choose|j: int|
                    0 <= j < items.drop_last().len() && items.drop_last()[j] == rest[i];
                assert(items[j] == rest[i]);
            } else {
                assert(overlapping(items, query)[i] == items[items.len() - 1]);
            }
        }
    }
}

/// The required loads of the overlapping intervals are those of all intervals.
proof fn lemma_loads_of_overlapping(items: Seq<JobInterval>, window: JobInterval, jobs: Seq<Job>)
    ensures
        required_loads(overlapping(items, window), window, jobs) == required_loads(
            items,
            window,
            jobs,
        ),
        required_loads(items, window, jobs).len() <= items.len(),
    decreases items.len(),
{
    if items.len() > 0 {
        lemma_loads_of_overlapping(items.drop_last(), window, jobs);
        if overlaps(items.last(), window) {
            let rest = overlapping(items.drop_last(), window);
            assert(rest.push(items.last()).drop_last() == rest);
        }
    }
}

/// Taking one interval out takes its required load out, if it has one.
proof fn lemma_loads_remove(
    items: Seq<JobInterval>,
    index: int,
    window: JobInterval,
    jobs: Seq<Job>,
)
    requires
        0 <= index < items.len(),
    ensures
        required_loads(items, window, jobs).to_multiset() == match required_load(
            items[index],
            window,
            jobs,
        ) {
            Some(load) => required_loads(items.remove(index), window, jobs).to_multiset().insert(
                load,
            ),
            None => required_loads(items.remove(index), window, jobs).to_multiset(),
        },
    decreases items.len(),
{
    if index == items.len() - 1 {
        assert(items.remove(index) == items.drop_last());
        match required_load(items[index], window, jobs) {
            Some(load) => {
                to_multiset_build(required_loads(items.drop_last(), window, jobs), load);
            },
            None => {},
        }
    } else {
        let shorter = items.remove(index);
        lemma_loads_remove(items.drop_last(), index, window, jobs);
        assert(shorter.drop_last() == items.drop_last().remove(index));
        assert(shorter.last() == items.last());
        let rest = required_loads(items.drop_last(), window, jobs);
        let rest_shorter = required_loads(shorter.drop_last(), window, jobs);
        match required_load(items.last(), window, jobs) {
            Some(last_load) => {
                to_multiset_build(rest, last_load);
                to_multiset_build(rest_shorter, last_load);
                match required_load(items[index], window, jobs) {
                    Some(load) => {
                        assert(rest_shorter.to_multiset().insert(load).insert(last_load)
                            =~= rest_shorter.to_multiset().insert(last_load).insert(load));
                    },
                    None => {},
                }
            },
            None => {},
        }
    }
}

/// The required loads do not depend on the order of the intervals.
proof fn lemma_loads_permutation(
    a: Seq<JobInterval>,
    b: Seq<JobInterval>,
    window: JobInterval,
    jobs: Seq<Job>,
)
    requires
        a.to_multiset() == b.to_multiset(),
    ensures
        required_loads(a, window, jobs).to_multiset() == required_loads(
            b,
            window,
            jobs,
        ).to_multiset(),
    decreases a.len(),
{
    a.to_multiset_ensures();
    b.to_multiset_ensures();
    to_multiset_len(a);
    to_multiset_len(b);
    if a.len() == 0 {
        assert(b.len() == 0);
    } else {
        let x = a.last();
        assert(a.contains(x));
        assert(a.to_multiset().count(x) > 0);
        assert(b.contains(x));
        let index = choose|i: int| 0 <= i < b.len() && b[i] == x;
        to_multiset_remove(a, a.len() - 1);
        to_multiset_remove(b, index);
        assert(a.remove(a.len() - 1) == a.drop_last());
        lemma_loads_permutation(a.drop_last(), b.remove(index), window, jobs);
        lemma_loads_remove(b, index, window, jobs);
        match required_load(x, window, jobs) {
            Some(load) => {
                to_multiset_build(required_loads(a.drop_last(), window, jobs), load);
            },
            None => {},
        }
    }
}

/// The feasibility interval test of a problem, which handles the window of one job at a time
pub struct IntervalTest<'a> {
    problem: &'a Problem,
    interval_tree: IntervalTree,
    next_job_index: usize,
    relevant_jobs: Vec<JobInterval>,
    required_loads: Vec<Time>,
}

impl<'a> IntervalTest<'a> {
    /// The jobs of the problem
    pub closed spec fn jobs(&self) -> Seq<Job> {
        self.problem.jobs@
    }

    /// The number of cores of the problem
    pub closed spec fn num_cores(&self) -> int {
        self.problem.num_cores as int
    }

    /// The number of jobs whose window was handled
    pub closed spec fn position(&self) -> int {
        self.next_job_index as int
    }

    /// The tree holds the interval of each job, and the problem is within the limits.
    pub closed spec fn wf(&self) -> bool {
        &&& fit_for_load(self.jobs())
        &&& self.problem.num_cores >= 1
        &&& self.interval_tree.wf()
        &&& self.interval_tree.contents().to_multiset() == intervals_of(self.jobs()).to_multiset()
        &&& self.relevant_jobs@.len() == 0
        &&& self.next_job_index <= self.jobs().len()
    }

    /// Prepares the interval test of `problem`.
    pub fn new(problem: &'a Problem) -> (test: Self)
        requires
            fit_for_load(problem.jobs@),
            problem.num_cores >= 1,
        ensures
            test.wf(),
            test.jobs() == problem.jobs@,
            test.num_cores() == problem.num_cores,
            test.position() == 0,
    {
        let mut interval_tree = IntervalTree::new();
        let mut index: usize = 0;
        while index < problem.jobs.len()
            invariant
                index <= problem.jobs@.len(),
                fit_for_load(problem.jobs@),
                interval_tree.is_leaf(),
                interval_tree.contents() == intervals_of(problem.jobs@).take(index as int),
            decreases problem.jobs@.len() - index,
        {
            let job = problem.jobs[index];
            assert(job.within_limits());
            interval_tree.insert(
                JobInterval {
                    job: job.index,
                    start: job.earliest_start,
                    end: job.latest_start + job.execution_time,
                },
            );
            assert(intervals_of(problem.jobs@).take(index + 1) == intervals_of(problem.jobs@).take(
                index as int,
            ).push(interval_of(job)));
            index += 1;
        }
        assert(intervals_of(problem.jobs@).take(problem.jobs@.len() as int) == intervals_of(
            problem.jobs@,
        ));
        interval_tree.split();
        Self {
            problem,
            interval_tree,
            next_job_index: 0,
            relevant_jobs: Vec::new(),
            required_loads: Vec::new(),
        }
    }

    /// Handles the window of the next job: finds the jobs that can execute within the window,
    /// and tests whether the times that they must execute there fit on the cores.
    #[verifier::rlimit(40)]
    pub fn next(&mut self) -> (result: IntervalResult)
        requires
            old(self).wf(),
            old(self).position() < old(self).jobs().len(),
        ensures
            final(self).wf(),
            final(self).jobs() == old(self).jobs(),
            final(self).num_cores() == old(self).num_cores(),
            final(self).position() == old(self).position() + 1,
            result == if window_overloaded(
                old(self).jobs(),
                old(self).num_cores(),
                old(self).position(),
            ) {
                IntervalResult::CertainlyInfeasible
            } else if final(self).position() < final(self).jobs().len() {
                IntervalResult::Running
            } else {
                IntervalResult::Finished
            },
    {
        let problem = self.problem;
        let ghost jobs = problem.jobs@;
        let next_job = problem.jobs[self.next_job_index];
        assert(next_job.within_limits());
        self.next_job_index += 1;
        let start_time = next_job.earliest_start;
        let end_time = next_job.latest_start + next_job.execution_time;
        let window = JobInterval { job: next_job.index, start: start_time, end: end_time };
        assert(window == interval_of(next_job));

        self.interval_tree.query(window, &mut self.relevant_jobs);
        let ghost contents = self.interval_tree.contents();
        proof {
            assert(self.relevant_jobs@ =~= overlapping(contents, window));
            lemma_overlapping_overlap(contents, window);
            lemma_contents_are_intervals(contents, jobs);
        }

        self.required_loads.clear();
        let count = self.relevant_jobs.len();
        let mut index: usize = 0;
        while index < count
            invariant
                index <= count,
                count == self.relevant_jobs@.len(),
                count <= jobs.len(),
                jobs == problem.jobs@,
                fit_for_load(jobs),
                self.problem == problem,
                problem == old(self).problem,
                self.interval_tree == old(self).interval_tree,
                self.next_job_index == old(self).next_job_index + 1,
                start_time == window.start,
                end_time == window.end,
                window == interval_of(next_job),
                next_job.within_limits(),
                self.relevant_jobs@ == overlapping(contents, window),
                forall|i: int|
                    0 <= i < count ==> overlaps(#[trigger] self.relevant_jobs@[i], window)
                        && self.relevant_jobs@[i].job < jobs.len() && self.relevant_jobs@[i]
                        == interval_of(jobs[self.relevant_jobs@[i].job as int]),
                self.required_loads@ == required_loads(
                    self.relevant_jobs@.take(index as int),
                    window,
                    jobs,
                ),
                self.required_loads@.len() <= index,
            decreases count - index,
        {
            let interval = self.relevant_jobs[index];
            proof {
                assert(self.relevant_jobs@.take(index + 1).drop_last() == self.relevant_jobs@.take(
                    index as int,
                ));
                assert(overlaps(self.relevant_jobs@[index as int], window));
                assert(jobs[interval.job as int].within_limits());
                assert(interval == interval_of(jobs[interval.job as int]));
            }
            let mut non_overlapping_time: Time = 0;
            if interval.start < start_time {
                non_overlapping_time = start_time - interval.start;
            }
            if interval.end > end_time && interval.end - end_time > non_overlapping_time {
                non_overlapping_time = interval.end - end_time;
            }
            let execution_time = problem.jobs[interval.job].execution_time;
            if execution_time > non_overlapping_time {
                let inside = execution_time - non_overlapping_time;
                let length = end_time - start_time;
                self.required_loads.push(
                    if inside <= length {
                        inside
                    } else {
                        length
                    },
                );
            }
            index += 1;
        }
        self.relevant_jobs.clear();
        proof {
            assert(old(self).relevant_jobs@.len() == 0);
            assert(overlapping(contents, window).take(count as int) == overlapping(
                contents,
                window,
            ));
            lemma_loads_of_overlapping(contents, window, jobs);
            lemma_loads_permutation(contents, intervals_of(jobs), window, jobs);
            lemma_unpackable_permutation(
                problem.num_cores as int,
                end_time - start_time,
                self.required_loads@,
                required_loads(intervals_of(jobs), window, jobs),
            );
        }
        let bin_size = end_time - start_time;
        if is_certainly_unpackable(problem.num_cores, bin_size, &mut self.required_loads) {
            IntervalResult::CertainlyInfeasible
        } else if self.next_job_index < problem.jobs.len() {
            IntervalResult::Running
        } else {
            IntervalResult::Finished
        }
    }

    /// Whether the window of some job was not handled
    pub fn has_jobs_left(&self) -> (left: bool)
        requires
            self.wf(),
        ensures
            left == (self.position() < self.jobs().len()),
    {
        self.next_job_index < self.problem.jobs.len()
    }
}

/// The intervals of a tree that was filled with the intervals of the jobs are intervals of
/// jobs.
proof fn lemma_contents_are_intervals(contents: Seq<JobInterval>, jobs: Seq<Job>)
    requires
        contents.to_multiset() == intervals_of(jobs).to_multiset(),
        fit_for_load(jobs),
    ensures
        contents.len() == jobs.len(),
        forall|i: int|
            0 <= i < contents.len() ==> (#[trigger] contents[i]).job < jobs.len() && contents[i]
                == interval_of(jobs[contents[i].job as int]),
{
    let intervals = intervals_of(jobs);
    contents.to_multiset_ensures();
    intervals.to_multiset_ensures();
    to_multiset_len(contents);
    to_multiset_len(intervals);
    assert forall|i: int| 0 <= i < contents.len() implies (#[trigger] contents[i]).job < jobs.len()
        && contents[i] == interval_of(jobs[contents[i].job as int]) by {
        assert(contents.contains(contents[i]));
        assert(contents.to_multiset().count(contents[i]) > 0);
        assert(intervals.contains(contents[i]));
        let j = choose|j: int| 0 <= j < intervals.len() && intervals[j] == contents[i];
        assert(jobs[j].index == j);
    }
}

/// Runs the feasibility interval test and returns `true` if `problem` is certainly
/// infeasible. When this function returns `false`, `problem` may or may not be feasible.
///
/// For each job, the test looks at the time from its earliest start up to its latest finish.
/// Every job that cannot execute outside that time for its whole execution time must spend
/// the rest within it. If these rests certainly do not fit on the cores, the problem is
/// infeasible: then no start times within the bounds keep the jobs on the cores.
pub fn run_feasibility_interval_test(problem: &Problem) -> (infeasible: bool)
    requires
        fit_for_load(problem.jobs@),
        problem.num_cores >= 1,
    ensures
        infeasible == interval_test_fails(problem.jobs@, problem.num_cores as int),
        infeasible ==> fits_in_no_way(problem.jobs@, problem.num_cores as int),
{
    let mut test = IntervalTest::new(problem);
    loop
        invariant
            fit_for_load(problem.jobs@),
            problem.num_cores >= 1,
            test.wf(),
            test.jobs() == problem.jobs@,
            test.num_cores() == problem.num_cores,
            forall|index: int|
                0 <= index < test.position() ==> !window_overloaded(
                    problem.jobs@,
                    problem.num_cores as int,
                    index,
                ),
        decreases problem.jobs@.len() - test.position(),
    {
        if !test.has_jobs_left() {
            return false;
        }
        let ghost position = test.position();
        match test.next() {
            IntervalResult::Finished => {
                return false;
            },
            IntervalResult::Running => {},
            IntervalResult::CertainlyInfeasible => {
                proof {
                    assert(window_overloaded(problem.jobs@, problem.num_cores as int, position));
                    lemma_interval_test_is_sound(problem.jobs@, problem.num_cores as int);
                }
                return true;
            },
        }
    }
}

} // verus!

//! What it means to schedule the jobs of a problem, and why the strengthening of bounds does
//! not lose a schedule.

use crate::bounds::occupation::{
    all_tighten, certain_load, never_overloaded, occupation, OccupationTimeline,
};
use crate::permutation::is_permutation;
use crate::problem::{some_job_infeasible, Constraint, Job};
use vstd::prelude::*;

verus! {

/// Whether `starts` holds, for each job, a start time within the bounds of the job
pub open spec fn within_bounds(jobs: Seq<Job>, starts: Seq<int>) -> bool {
    &&& starts.len() == jobs.len()
    &&& forall|i: int|
        0 <= i < jobs.len() ==> (#[trigger] jobs[i]).earliest_start <= starts[i]
            <= jobs[i].latest_start
}

/// Whether the start times respect each constraint: the successor starts no earlier than the
/// delay after the start, or after the finish, of the predecessor
pub open spec fn respects_constraints(
    jobs: Seq<Job>,
    constraints: Seq<Constraint>,
    starts: Seq<int>,
) -> bool {
    forall|k: int|
        0 <= k < constraints.len() ==> starts[(#[trigger] constraints[k]).after as int]
            >= starts[constraints[k].before as int] + constraints[k].gap(jobs)
}

/// 1 if a job with this execution time that starts at `start` executes at time `t`, else 0
pub open spec fn running_load(job: Job, start: int, t: int) -> int {
    if start <= t < start + job.execution_time {
        1
    } else {
        0
    }
}

/// The number of jobs that execute at time `t` if they start at the times of `starts`
pub open spec fn busy_cores(jobs: Seq<Job>, starts: Seq<int>, t: int) -> int
    decreases jobs.len(),
{
    if jobs.len() == 0 {
        0
    } else {
        busy_cores(jobs.drop_last(), starts.drop_last(), t) + running_load(
            jobs.last(),
            starts.last(),
            t,
        )
    }
}

/// Whether at no time more jobs execute than there are cores
pub open spec fn fits_cores(jobs: Seq<Job>, starts: Seq<int>, num_cores: int) -> bool {
    forall|t: int| busy_cores(jobs, starts, t) <= num_cores
}

/// Whether `starts` is a schedule: each job starts within its bounds, the constraints are
/// respected, and no more jobs execute at a time than there are cores
pub open spec fn is_schedule(
    jobs: Seq<Job>,
    constraints: Seq<Constraint>,
    num_cores: int,
    starts: Seq<int>,
) -> bool {
    &&& within_bounds(jobs, starts)
    &&& respects_constraints(jobs, constraints, starts)
    &&& fits_cores(jobs, starts, num_cores)
}

/// A job that certainly executes at a time executes at that time, whenever it starts within
/// its bounds. So at least as many jobs execute at a time as certainly execute at it.
pub proof fn lemma_busy_at_least_occupied(jobs: Seq<Job>, starts: Seq<int>, t: int)
    requires
        within_bounds(jobs, starts),
    ensures
        busy_cores(jobs, starts, t) >= occupation(jobs, t),
    decreases jobs.len(),
{
    if jobs.len() > 0 {
        assert(within_bounds(jobs.drop_last(), starts.drop_last())) by {
            assert forall|i: int| 0 <= i < jobs.drop_last().len() implies (
            #[trigger] jobs.drop_last()[i]).earliest_start <= starts.drop_last()[i]
                <= jobs.drop_last()[i].latest_start by {
                assert(jobs[i].earliest_start <= starts[i]);
            }
        }
        lemma_busy_at_least_occupied(jobs.drop_last(), starts.drop_last(), t);
        let last = jobs.len() - 1;
        assert(jobs[last].earliest_start <= starts[last] <= jobs[last].latest_start);
    }
}

/// If a job executes at a time at which it does not certainly execute, one more job
/// executes at that time than certainly execute at it.
proof fn lemma_busy_with_one_more(jobs: Seq<Job>, starts: Seq<int>, t: int, index: int)
    requires
        within_bounds(jobs, starts),
        0 <= index < jobs.len(),
        running_load(jobs[index], starts[index], t) == 1,
        certain_load(jobs[index], t) == 0,
    ensures
        busy_cores(jobs, starts, t) >= occupation(jobs, t) + 1,
    decreases jobs.len(),
{
    let last = jobs.len() - 1;
    assert(within_bounds(jobs.drop_last(), starts.drop_last())) by {
        assert forall|i: int| 0 <= i < jobs.drop_last().len() implies (
        #[trigger] jobs.drop_last()[i]).earliest_start <= starts.drop_last()[i]
            <= jobs.drop_last()[i].latest_start by {
            assert(jobs[i].earliest_start <= starts[i]);
        }
    }
    if index == last {
        lemma_busy_at_least_occupied(jobs.drop_last(), starts.drop_last(), t);
    } else {
        lemma_busy_with_one_more(jobs.drop_last(), starts.drop_last(), t, index);
        assert(jobs[last].earliest_start <= starts[last] <= jobs[last].latest_start);
    }
}

/// The number of jobs that execute at a time does not depend on the bounds of the jobs.
pub proof fn lemma_busy_of_tightened(jobs: Seq<Job>, original: Seq<Job>, starts: Seq<int>, t: int)
    requires
        all_tighten(jobs, original),
        starts.len() == jobs.len(),
    ensures
        busy_cores(jobs, starts, t) == busy_cores(original, starts, t),
    decreases jobs.len(),
{
    if jobs.len() > 0 {
        assert(all_tighten(jobs.drop_last(), original.drop_last())) by {
            assert forall|i: int| 0 <= i < jobs.drop_last().len() implies (
            #[trigger] jobs.drop_last()[i]).tightens(original.drop_last()[i]) by {
                assert(jobs[i].tightens(original[i]));
            }
        }
        lemma_busy_of_tightened(jobs.drop_last(), original.drop_last(), starts.drop_last(), t);
        assert(jobs[jobs.len() - 1].tightens(original[jobs.len() - 1]));
    }
}

/// A start time that the timeline excludes for a job is the start time of that job in no
/// schedule: if the timeline holds what the jobs certainly occupy, and the jobs start within
/// their bounds and fit on the cores, the job does not start at a time that is excluded.
pub proof fn lemma_excluded_start_is_no_start(
    timeline: OccupationTimeline,
    jobs: Seq<Job>,
    starts: Seq<int>,
    index: int,
)
    requires
        forall|t: int| timeline.cores_at(t) == occupation(jobs, t),
        within_bounds(jobs, starts),
        fits_cores(jobs, starts, timeline.capacity() as int),
        0 <= index < jobs.len(),
    ensures
        !timeline.excludes_start(jobs[index], starts[index]),
{
    reveal(OccupationTimeline::excludes_start);
    if timeline.excludes_start(jobs[index], starts[index]) {
        let w = choose|w: int|
            starts[index] <= w < starts[index] + jobs[index].execution_time
                && timeline.saturated_at(w) && !jobs[index].certainly_runs_at(w);
        lemma_busy_with_one_more(jobs, starts, w, index);
        assert(timeline.cores_at(w) == occupation(jobs, w));
        assert(busy_cores(jobs, starts, w) <= timeline.capacity());
    }
}

/// Whether all start times that lie within the bounds of `original` and fit on the cores lie
/// within the bounds of `current` too
pub open spec fn keeps_schedules(current: Seq<Job>, original: Seq<Job>, num_cores: int) -> bool {
    forall|starts: Seq<int>|
        #[trigger] within_bounds(original, starts) && fits_cores(original, starts, num_cores)
            ==> within_bounds(current, starts)
}

/// Whether no start times lie within the bounds of `jobs` and fit on the cores
pub open spec fn fits_in_no_way(jobs: Seq<Job>, num_cores: int) -> bool {
    forall|starts: Seq<int>|
        !(#[trigger] within_bounds(jobs, starts) && fits_cores(jobs, starts, num_cores))
}

/// Moving the bounds of a job past start times that the timeline excludes loses no schedule.
pub proof fn lemma_refined_keeps_schedules(
    timeline: OccupationTimeline,
    jobs: Seq<Job>,
    original: Seq<Job>,
    index: int,
    job: Job,
)
    requires
        keeps_schedules(jobs, original, timeline.capacity() as int),
        all_tighten(jobs, original),
        forall|t: int| timeline.cores_at(t) == occupation(jobs, t),
        0 <= index < jobs.len(),
        job.tightens(jobs[index]),
        forall|t: int|
            jobs[index].earliest_start <= t < job.earliest_start ==> timeline.excludes_start(
                jobs[index],
                t,
            ),
        forall|t: int|
            job.latest_start < t <= jobs[index].latest_start ==> timeline.excludes_start(
                jobs[index],
                t,
            ),
    ensures
        keeps_schedules(jobs.update(index, job), original, timeline.capacity() as int),
{
    let num_cores = timeline.capacity() as int;
    let moved = jobs.update(index, job);
    assert forall|starts: Seq<int>|
        #[trigger] within_bounds(original, starts) && fits_cores(
            original,
            starts,
            num_cores,
        ) implies within_bounds(moved, starts) by {
        assert(within_bounds(jobs, starts));
        assert(fits_cores(jobs, starts, num_cores)) by {
            assert forall|t: int| busy_cores(jobs, starts, t) <= num_cores by {
                lemma_busy_of_tightened(jobs, original, starts, t);
            }
        }
        lemma_excluded_start_is_no_start(timeline, jobs, starts, index);
        assert(jobs[index].earliest_start <= starts[index] <= jobs[index].latest_start);
        assert forall|i: int| 0 <= i < moved.len() implies (#[trigger] moved[i]).earliest_start
            <= starts[i] <= moved[i].latest_start by {
            if i != index {
                assert(jobs[i].earliest_start <= starts[i]);
            }
        }
    }
}

/// Jobs of which one cannot meet its deadline by its own bounds, or of which more certainly
/// execute at some time than there are cores, fit in no way, and neither do the jobs whose
/// schedules they keep.
pub proof fn lemma_fits_in_no_way(current: Seq<Job>, original: Seq<Job>, num_cores: int)
    requires
        keeps_schedules(current, original, num_cores),
        all_tighten(current, original),
        some_job_infeasible(current) || !never_overloaded(current, num_cores),
    ensures
        fits_in_no_way(original, num_cores),
{
    assert forall|starts: Seq<int>|
        !(#[trigger] within_bounds(original, starts) && fits_cores(
            original,
            starts,
            num_cores,
        )) by {
        if within_bounds(original, starts) && fits_cores(original, starts, num_cores) {
            assert(within_bounds(current, starts));
            if some_job_infeasible(current) {
                let i = choose|i: int|
                    0 <= i < current.len() && (#[trigger] current[i]).infeasible();
                assert(current[i].earliest_start <= starts[i] <= current[i].latest_start);
            } else {
                let t = choose|t: int| occupation(current, t) > num_cores;
                lemma_busy_at_least_occupied(current, starts, t);
                lemma_busy_of_tightened(current, original, starts, t);
            }
        }
    }
}

/// Taking one job out lowers the number of jobs that execute at a time by that job, if it
/// executes at that time.
proof fn lemma_busy_remove(jobs: Seq<Job>, starts: Seq<int>, index: int, t: int)
    requires
        starts.len() == jobs.len(),
        0 <= index < jobs.len(),
    ensures
        busy_cores(jobs, starts, t) == busy_cores(jobs.remove(index), starts.remove(index), t)
            + running_load(jobs[index], starts[index], t),
    decreases jobs.len(),
{
    if index == jobs.len() - 1 {
        assert(jobs.remove(index) == jobs.drop_last());
        assert(starts.remove(index) == starts.drop_last());
    } else {
        lemma_busy_remove(jobs.drop_last(), starts.drop_last(), index, t);
        assert(jobs.remove(index).drop_last() == jobs.drop_last().remove(index));
        assert(starts.remove(index).drop_last() == starts.drop_last().remove(index));
        assert(jobs.remove(index).last() == jobs.last());
        assert(starts.remove(index).last() == starts.last());
    }
}

/// The number of jobs that execute at a time does not depend on the order of the jobs: if
/// each job of `a` executes at that time exactly if the job of `b` at the position that
/// `order` names does, as many jobs of `a` execute at that time as jobs of `b`.
pub proof fn lemma_busy_reordered(
    a: Seq<Job>,
    a_starts: Seq<int>,
    b: Seq<Job>,
    b_starts: Seq<int>,
    order: Seq<usize>,
    t: int,
)
    requires
        a.len() == b.len(),
        a_starts.len() == a.len(),
        b_starts.len() == a.len(),
        order.len() == a.len(),
        is_permutation(order),
        forall|i: int|
            0 <= i < a.len() ==> running_load(
                b[(#[trigger] order[i]) as int],
                b_starts[order[i] as int],
                t,
            ) == running_load(a[i], a_starts[i], t),
    ensures
        busy_cores(a, a_starts, t) == busy_cores(b, b_starts, t),
    decreases a.len(),
{
    if a.len() > 0 {
        let last = a.len() - 1;
        let k = order[last] as int;
        let moved = Seq::new(
            last as nat,
            |i: int|
                if order[i] > k {
                    (order[i] - 1) as usize
                } else {
                    order[i]
                },
        );
        assert(is_permutation(moved)) by {
            assert forall|i: int| 0 <= i < moved.len() implies moved[i] < moved.len() by {
                assert(order[i] != order[last]);
            }
            assert forall|i: int, j: int| 0 <= i < j < moved.len() implies moved[i]
                != moved[j] by {
                assert(order[i] != order[j]);
                assert(order[i] != order[last]);
                assert(order[j] != order[last]);
            }
        }
        assert forall|i: int| 0 <= i < last implies running_load(
            b.remove(k)[(#[trigger] moved[i]) as int],
            b_starts.remove(k)[moved[i] as int],
            t,
        ) == running_load(a.drop_last()[i], a_starts.drop_last()[i], t) by {
            assert(order[i] != order[last]);
            assert(running_load(b[order[i] as int], b_starts[order[i] as int], t) == running_load(
                a[i],
                a_starts[i],
                t,
            ));
        }
        lemma_busy_reordered(
            a.drop_last(),
            a_starts.drop_last(),
            b.remove(k),
            b_starts.remove(k),
            moved,
            t,
        );
        lemma_busy_remove(b, b_starts, k, t);
        assert(running_load(b[order[last] as int], b_starts[order[last] as int], t)
            == running_load(a[last], a_starts[last], t));
    }
}

/// Whether `cores` names one of `num_cores` cores for each job, such that no two jobs on
/// the same core execute at the same time if they start at the times of `starts`
pub open spec fn runs_on_cores(
    jobs: Seq<Job>,
    starts: Seq<int>,
    cores: Seq<int>,
    num_cores: int,
) -> bool {
    &&& starts.len() == jobs.len()
    &&& cores.len() == jobs.len()
    &&& forall|i: int| 0 <= i < jobs.len() ==> 0 <= #[trigger] cores[i] < num_cores
    &&& forall|i: int, j: int|
        0 <= i < j < jobs.len() && #[trigger] cores[i] == #[trigger] cores[j] ==> starts[i]
            + jobs[i].execution_time <= starts[j] || starts[j] + jobs[j].execution_time
            <= starts[i]
}

/// The number of the first `jobs.len()` jobs on core `core` that execute at time `t`
pub open spec fn core_busy(
    jobs: Seq<Job>,
    starts: Seq<int>,
    cores: Seq<int>,
    core: int,
    t: int,
) -> int
    decreases jobs.len(),
{
    if jobs.len() == 0 {
        0
    } else {
        core_busy(jobs.drop_last(), starts.drop_last(), cores.drop_last(), core, t)
            + if cores.last() == core {
            running_load(jobs.last(), starts.last(), t)
        } else {
            0
        }
    }
}

/// The number of jobs that execute at time `t` on the first `num_cores` cores
pub open spec fn busy_on_cores(
    jobs: Seq<Job>,
    starts: Seq<int>,
    cores: Seq<int>,
    num_cores: int,
    t: int,
) -> int
    decreases num_cores,
{
    if num_cores <= 0 {
        0
    } else {
        busy_on_cores(jobs, starts, cores, num_cores - 1, t) + core_busy(
            jobs,
            starts,
            cores,
            num_cores - 1,
            t,
        )
    }
}

/// At most one job executes on a core at a time, and if one does, it is the only one.
pub proof fn lemma_core_busy(
    jobs: Seq<Job>,
    starts: Seq<int>,
    cores: Seq<int>,
    num_cores: int,
    core: int,
    t: int,
    count: int,
)
    requires
        runs_on_cores(jobs, starts, cores, num_cores),
        0 <= count <= jobs.len(),
    ensures
        0 <= core_busy(jobs.take(count), starts.take(count), cores.take(count), core, t) <= 1,
        core_busy(jobs.take(count), starts.take(count), cores.take(count), core, t) == 1
            ==> exists|i: int|
            0 <= i < count && cores[i] == core && running_load(jobs[i], starts[i], t) == 1,
    decreases count,
{
    if count > 0 {
        lemma_core_busy(jobs, starts, cores, num_cores, core, t, count - 1);
        assert(jobs.take(count).drop_last() == jobs.take(count - 1));
        assert(starts.take(count).drop_last() == starts.take(count - 1));
        assert(cores.take(count).drop_last() == cores.take(count - 1));
        let before = core_busy(
            jobs.take(count - 1),
            starts.take(count - 1),
            cores.take(count - 1),
            core,
            t,
        );
        let last = count - 1;
        if before == 1 {
            let i = choose|i: int|
                0 <= i < count - 1 && cores[i] == core && running_load(jobs[i], starts[i], t) == 1;
            if cores[last] == core && running_load(jobs[last], starts[last], t) == 1 {
                assert(cores[i] == cores[last]);
            }
        }
    } else {
        assert(jobs.take(0).len() == 0);
    }
}

/// Adding a job to a core adds it to the jobs that execute on the cores.
proof fn lemma_busy_on_cores_push(
    jobs: Seq<Job>,
    starts: Seq<int>,
    cores: Seq<int>,
    job: Job,
    start: int,
    core: int,
    num_cores: int,
    t: int,
)
    ensures
        busy_on_cores(jobs.push(job), starts.push(start), cores.push(core), num_cores, t)
            == busy_on_cores(jobs, starts, cores, num_cores, t) + if 0 <= core < num_cores {
            running_load(job, start, t)
        } else {
            0
        },
    decreases num_cores,
{
    if num_cores > 0 {
        lemma_busy_on_cores_push(jobs, starts, cores, job, start, core, num_cores - 1, t);
        assert(jobs.push(job).drop_last() == jobs);
        assert(starts.push(start).drop_last() == starts);
        assert(cores.push(core).drop_last() == cores);
    }
}

/// Without jobs, nothing executes on the cores.
proof fn lemma_busy_on_no_jobs(starts: Seq<int>, cores: Seq<int>, num_cores: int, t: int)
    ensures
        busy_on_cores(Seq::<Job>::empty(), starts, cores, num_cores, t) == 0,
    decreases num_cores,
{
    if num_cores > 0 {
        lemma_busy_on_no_jobs(starts, cores, num_cores - 1, t);
    }
}

/// The jobs that execute on the cores are the jobs that execute.
proof fn lemma_busy_on_all_cores(
    jobs: Seq<Job>,
    starts: Seq<int>,
    cores: Seq<int>,
    num_cores: int,
    t: int,
)
    requires
        starts.len() == jobs.len(),
        cores.len() == jobs.len(),
        forall|i: int| 0 <= i < jobs.len() ==> 0 <= #[trigger] cores[i] < num_cores,
    ensures
        busy_on_cores(jobs, starts, cores, num_cores, t) == busy_cores(jobs, starts, t),
    decreases jobs.len(),
{
    if jobs.len() == 0 {
        assert(jobs == Seq::<Job>::empty());
        lemma_busy_on_no_jobs(starts, cores, num_cores, t);
    } else {
        let last = jobs.len() - 1;
        assert(0 <= cores[last] < num_cores);
        assert forall|i: int| 0 <= i < jobs.drop_last().len() implies 0
            <= #[trigger] cores.drop_last()[i] < num_cores by {
            assert(0 <= cores[i] < num_cores);
        }
        lemma_busy_on_all_cores(
            jobs.drop_last(),
            starts.drop_last(),
            cores.drop_last(),
            num_cores,
            t,
        );
        lemma_busy_on_cores_push(
            jobs.drop_last(),
            starts.drop_last(),
            cores.drop_last(),
            jobs.last(),
            starts.last(),
            cores.last(),
            num_cores,
            t,
        );
        assert(jobs.drop_last().push(jobs.last()) == jobs);
        assert(starts.drop_last().push(starts.last()) == starts);
        assert(cores.drop_last().push(cores.last()) == cores);
    }
}

/// At most one job executes on each of some cores.
proof fn lemma_busy_on_cores_bound(
    jobs: Seq<Job>,
    starts: Seq<int>,
    cores: Seq<int>,
    num_cores: int,
    count: int,
    t: int,
)
    requires
        runs_on_cores(jobs, starts, cores, num_cores),
        0 <= count,
    ensures
        busy_on_cores(jobs, starts, cores, count, t) <= count,
    decreases count,
{
    if count > 0 {
        lemma_busy_on_cores_bound(jobs, starts, cores, num_cores, count - 1, t);
        lemma_core_busy(jobs, starts, cores, num_cores, count - 1, t, jobs.len() as int);
        assert(jobs.take(jobs.len() as int) == jobs);
        assert(starts.take(jobs.len() as int) == starts);
        assert(cores.take(jobs.len() as int) == cores);
    }
}

/// Jobs that run on cores without executing at the same time on the same core fit on the
/// cores: at no time more jobs execute than there are cores.
pub proof fn lemma_jobs_on_cores_fit(
    jobs: Seq<Job>,
    starts: Seq<int>,
    cores: Seq<int>,
    num_cores: int,
)
    requires
        runs_on_cores(jobs, starts, cores, num_cores),
        num_cores >= 0,
    ensures
        fits_cores(jobs, starts, num_cores),
{
    assert forall|t: int| busy_cores(jobs, starts, t) <= num_cores by {
        lemma_busy_on_all_cores(jobs, starts, cores, num_cores, t);
        lemma_busy_on_cores_bound(jobs, starts, cores, num_cores, num_cores, t);
    }
}

/// A job that starts no earlier than any other
proof fn lemma_latest_start(starts: Seq<int>) -> (index: int)
    requires
        starts.len() > 0,
    ensures
        0 <= index < starts.len(),
        forall|i: int| 0 <= i < starts.len() ==> starts[i] <= starts[index],
    decreases starts.len(),
{
    if starts.len() == 1 {
        0
    } else {
        let index = lemma_latest_start(starts.drop_last());
        assert forall|i: int| 0 <= i < starts.len() - 1 implies starts[i] <= starts[index] by {
            assert(starts.drop_last()[i] == starts[i]);
            assert(starts.drop_last()[index] == starts[index]);
        }
        if starts[index] >= starts[starts.len() - 1] {
            index
        } else {
            starts.len() - 1
        }
    }
}

/// If fewer jobs execute on some cores than there are cores, no job executes on one of
/// them.
proof fn lemma_free_core(
    jobs: Seq<Job>,
    starts: Seq<int>,
    cores: Seq<int>,
    count: int,
    t: int,
) -> (core: int)
    requires
        busy_on_cores(jobs, starts, cores, count, t) < count,
    ensures
        0 <= core < count,
        core_busy(jobs, starts, cores, core, t) <= 0,
    decreases count,
{
    if core_busy(jobs, starts, cores, count - 1, t) <= 0 {
        count - 1
    } else {
        lemma_free_core(jobs, starts, cores, count - 1, t)
    }
}

/// If no job executes on a core at a time, then none of the jobs on that core does.
proof fn lemma_core_idle(jobs: Seq<Job>, starts: Seq<int>, cores: Seq<int>, core: int, t: int)
    requires
        starts.len() == jobs.len(),
        cores.len() == jobs.len(),
    ensures
        core_busy(jobs, starts, cores, core, t) >= 0,
        core_busy(jobs, starts, cores, core, t) <= 0 ==> forall|i: int|
            0 <= i < jobs.len() && #[trigger] cores[i] == core ==> running_load(
                jobs[i],
                starts[i],
                t,
            ) == 0,
    decreases jobs.len(),
{
    if jobs.len() > 0 {
        lemma_core_idle(jobs.drop_last(), starts.drop_last(), cores.drop_last(), core, t);
        if core_busy(jobs, starts, cores, core, t) <= 0 {
            assert forall|i: int|
                0 <= i < jobs.len() && #[trigger] cores[i] == core implies running_load(
                jobs[i],
                starts[i],
                t,
            ) == 0 by {
                if i < jobs.len() - 1 {
                    assert(cores.drop_last()[i] == core);
                    assert(jobs.drop_last()[i] == jobs[i]);
                    assert(starts.drop_last()[i] == starts[i]);
                }
            }
        }
    }
}

/// Jobs that fit on the cores can run on them: if at no time more jobs execute than there
/// are cores, each job can be given a core such that no two jobs execute on the same core at
/// the same time. The jobs get their cores in the order of their start times, and each gets
/// a core on which no job executes when it starts.
pub proof fn lemma_fitting_jobs_run_on_cores(
    jobs: Seq<Job>,
    starts: Seq<int>,
    num_cores: int,
) -> (cores: Seq<int>)
    requires
        starts.len() == jobs.len(),
        forall|i: int| 0 <= i < jobs.len() ==> (#[trigger] jobs[i]).execution_time > 0,
        fits_cores(jobs, starts, num_cores),
    ensures
        runs_on_cores(jobs, starts, cores, num_cores),
    decreases jobs.len(),
{
    if jobs.len() == 0 {
        Seq::empty()
    } else {
        let last = lemma_latest_start(starts);
        let t = starts[last];
        let rest_jobs = jobs.remove(last);
        let rest_starts = starts.remove(last);
        assert forall|i: int| 0 <= i < rest_jobs.len() implies (
        #[trigger] rest_jobs[i]).execution_time > 0 by {
            if i < last {
                assert(rest_jobs[i] == jobs[i]);
            } else {
                assert(rest_jobs[i] == jobs[i + 1]);
            }
        }
        assert forall|u: int| busy_cores(rest_jobs, rest_starts, u) <= num_cores by {
            lemma_busy_remove(jobs, starts, last, u);
            assert(busy_cores(jobs, starts, u) <= num_cores);
        }
        let rest_cores = lemma_fitting_jobs_run_on_cores(rest_jobs, rest_starts, num_cores);
        lemma_busy_remove(jobs, starts, last, t);
        assert(jobs[last].execution_time > 0);
        assert(busy_cores(jobs, starts, t) <= num_cores);
        lemma_busy_on_all_cores(rest_jobs, rest_starts, rest_cores, num_cores, t);
        let core = lemma_free_core(rest_jobs, rest_starts, rest_cores, num_cores, t);
        lemma_core_idle(rest_jobs, rest_starts, rest_cores, core, t);
        let cores = rest_cores.insert(last, core);
        assert forall|i: int| 0 <= i < jobs.len() implies 0 <= #[trigger] cores[i] < num_cores by {
            if i < last {
                assert(cores[i] == rest_cores[i]);
            } else if i > last {
                assert(cores[i] == rest_cores[i - 1]);
            }
        }
        assert forall|i: int, j: int|
            0 <= i < j < jobs.len() && #[trigger] cores[i] == #[trigger] cores[j] implies starts[i]
            + jobs[i].execution_time <= starts[j] || starts[j] + jobs[j].execution_time
            <= starts[i] by {
            let from = if i < last {
                i
            } else {
                i - 1
            };
            let to = if j < last {
                j
            } else {
                j - 1
            };
            if i != last {
                assert(cores[i] == rest_cores[from]);
                assert(rest_jobs[from] == jobs[i] && rest_starts[from] == starts[i]);
            }
            if j != last {
                assert(cores[j] == rest_cores[to]);
                assert(rest_jobs[to] == jobs[j] && rest_starts[to] == starts[j]);
            }
            if i == last {
                assert(running_load(rest_jobs[to], rest_starts[to], t) == 0);
                assert(starts[j] <= t);
            } else if j == last {
                assert(running_load(rest_jobs[from], rest_starts[from], t) == 0);
                assert(starts[i] <= t);
            } else {
                assert(rest_cores[from] == rest_cores[to]);
            }
        }
        cores
    }
}

/// Whether `starts` and `cores` are a schedule on the cores: each job starts within its
/// bounds, the constraints are respected, and no two jobs execute on the same core at the
/// same time
pub open spec fn is_schedule_on_cores(
    jobs: Seq<Job>,
    constraints: Seq<Constraint>,
    num_cores: int,
    starts: Seq<int>,
    cores: Seq<int>,
) -> bool {
    &&& within_bounds(jobs, starts)
    &&& respects_constraints(jobs, constraints, starts)
    &&& runs_on_cores(jobs, starts, cores, num_cores)
}

/// The start times of a schedule on the cores are a schedule.
pub proof fn lemma_schedule_on_cores_is_schedule(
    jobs: Seq<Job>,
    constraints: Seq<Constraint>,
    num_cores: int,
    starts: Seq<int>,
    cores: Seq<int>,
)
    requires
        is_schedule_on_cores(jobs, constraints, num_cores, starts, cores),
        num_cores >= 0,
    ensures
        is_schedule(jobs, constraints, num_cores, starts),
{
    lemma_jobs_on_cores_fit(jobs, starts, cores, num_cores);
}

/// Every schedule is a schedule on the cores, for some cores of the jobs.
pub proof fn lemma_schedule_runs_on_cores(
    jobs: Seq<Job>,
    constraints: Seq<Constraint>,
    num_cores: int,
    starts: Seq<int>,
) -> (cores: Seq<int>)
    requires
        is_schedule(jobs, constraints, num_cores, starts),
        forall|i: int| 0 <= i < jobs.len() ==> (#[trigger] jobs[i]).execution_time > 0,
    ensures
        is_schedule_on_cores(jobs, constraints, num_cores, starts, cores),
{
    lemma_fitting_jobs_run_on_cores(jobs, starts, num_cores)
}

} // verus!

//! Why the interval test is sound: in every schedule, the jobs execute within the window of
//! a job for at least the times that the test asks for, and so these times fit on the cores.

use crate::necessary::interval::{
    interval_of, interval_test_fails, intervals_of, required_load, required_loads,
    window_overloaded,
};
use crate::necessary::interval_tree::JobInterval;
use crate::necessary::load::fit_for_load;
use crate::necessary::pack::no_size_negative;
use crate::necessary::packing::{
    as_ints, bin_load, fits, lemma_unpackable_sizes_do_not_fit, names_bins, packs,
};
use crate::problem::Job;
use crate::schedule::{
    core_busy, fits_cores, fits_in_no_way, lemma_core_busy, lemma_fitting_jobs_run_on_cores,
    running_load, runs_on_cores, within_bounds,
};
use vstd::prelude::*;

verus! {

/// The number of times from `lo` up to `hi` at which `job` executes if it starts at `start`
pub open spec fn executed_within(job: Job, start: int, lo: int, hi: int) -> int
    decreases hi - lo,
{
    if lo >= hi {
        0
    } else {
        executed_within(job, start, lo, hi - 1) + running_load(job, start, hi - 1)
    }
}

/// The number of pairs of a job on core `core` and a time from `lo` up to `hi` at which that
/// job executes
pub open spec fn core_time(
    jobs: Seq<Job>,
    starts: Seq<int>,
    cores: Seq<int>,
    core: int,
    lo: int,
    hi: int,
) -> int
    decreases hi - lo,
{
    if lo >= hi {
        0
    } else {
        core_time(jobs, starts, cores, core, lo, hi - 1) + core_busy(
            jobs,
            starts,
            cores,
            core,
            hi - 1,
        )
    }
}

/// The time that the job at `index` must execute within `window`, or 0
pub open spec fn required_amount(jobs: Seq<Job>, window: JobInterval, index: int) -> int {
    match required_load(interval_of(jobs[index]), window, jobs) {
        Some(load) => load as int,
        None => 0,
    }
}

/// The time that the first `count` jobs on core `core` must execute within `window`
pub open spec fn core_required(
    jobs: Seq<Job>,
    cores: Seq<int>,
    core: int,
    window: JobInterval,
    count: int,
) -> int
    decreases count,
{
    if count <= 0 {
        0
    } else {
        core_required(jobs, cores, core, window, count - 1) + if cores[count - 1] == core {
            required_amount(jobs, window, count - 1)
        } else {
            0
        }
    }
}

/// The cores of the first `count` jobs that must execute within `window`
pub open spec fn cores_of_loads(
    jobs: Seq<Job>,
    cores: Seq<int>,
    window: JobInterval,
    count: int,
) -> Seq<int>
    decreases count,
{
    if count <= 0 {
        Seq::empty()
    } else {
        match required_load(interval_of(jobs[count - 1]), window, jobs) {
            Some(load) => cores_of_loads(jobs, cores, window, count - 1).push(cores[count - 1]),
            None => cores_of_loads(jobs, cores, window, count - 1),
        }
    }
}

/// A job executes within a window for as long as its execution and the window overlap.
proof fn lemma_executed_within(job: Job, start: int, lo: int, hi: int)
    requires
        job.execution_time > 0,
        lo <= hi,
    ensures
        executed_within(job, start, lo, hi) == if start + job.execution_time <= lo || hi
            <= start {
            0
        } else {
            (if hi <= start + job.execution_time {
                hi
            } else {
                start + job.execution_time
            }) - (if lo >= start {
                lo
            } else {
                start
            })
        },
    decreases hi - lo,
{
    if lo < hi {
        lemma_executed_within(job, start, lo, hi - 1);
    }
}

/// A job that starts within its bounds executes within a window for at least the time that
/// the interval test asks of it.
proof fn lemma_required_is_executed(
    jobs: Seq<Job>,
    starts: Seq<int>,
    window: JobInterval,
    index: int,
)
    requires
        fit_for_load(jobs),
        within_bounds(jobs, starts),
        0 <= index < jobs.len(),
        window.start <= window.end,
    ensures
        0 <= required_amount(jobs, window, index) <= executed_within(
            jobs[index],
            starts[index],
            window.start as int,
            window.end as int,
        ),
{
    let job = jobs[index];
    assert(job.within_limits());
    assert(job.index == index);
    assert(job.earliest_start <= starts[index] <= job.latest_start);
    lemma_executed_within(job, starts[index], window.start as int, window.end as int);
}

/// The time that the jobs on a core execute within a window grows with each job by the time
/// that the job executes within the window, if it is on the core.
proof fn lemma_core_time_push(
    jobs: Seq<Job>,
    starts: Seq<int>,
    cores: Seq<int>,
    core: int,
    lo: int,
    hi: int,
    count: int,
)
    requires
        starts.len() == jobs.len(),
        cores.len() == jobs.len(),
        0 < count <= jobs.len(),
        lo <= hi,
    ensures
        core_time(jobs.take(count), starts.take(count), cores.take(count), core, lo, hi)
            == core_time(
            jobs.take(count - 1),
            starts.take(count - 1),
            cores.take(count - 1),
            core,
            lo,
            hi,
        ) + if cores[count - 1] == core {
            executed_within(jobs[count - 1], starts[count - 1], lo, hi)
        } else {
            0
        },
    decreases hi - lo,
{
    if lo < hi {
        lemma_core_time_push(jobs, starts, cores, core, lo, hi - 1, count);
        assert(jobs.take(count).drop_last() == jobs.take(count - 1));
        assert(starts.take(count).drop_last() == starts.take(count - 1));
        assert(cores.take(count).drop_last() == cores.take(count - 1));
    }
}

/// The jobs on a core execute within a window for no longer than the window is.
proof fn lemma_core_time_bound(
    jobs: Seq<Job>,
    starts: Seq<int>,
    cores: Seq<int>,
    num_cores: int,
    core: int,
    lo: int,
    hi: int,
)
    requires
        runs_on_cores(jobs, starts, cores, num_cores),
        lo <= hi,
    ensures
        core_time(jobs, starts, cores, core, lo, hi) <= hi - lo,
    decreases hi - lo,
{
    if lo < hi {
        lemma_core_time_bound(jobs, starts, cores, num_cores, core, lo, hi - 1);
        lemma_core_busy(jobs, starts, cores, num_cores, core, hi - 1, jobs.len() as int);
        assert(jobs.take(jobs.len() as int) == jobs);
        assert(starts.take(jobs.len() as int) == starts);
        assert(cores.take(jobs.len() as int) == cores);
    }
}

/// Without jobs, nothing executes on a core.
proof fn lemma_no_core_time(starts: Seq<int>, cores: Seq<int>, core: int, lo: int, hi: int)
    ensures
        core_time(Seq::<Job>::empty(), starts, cores, core, lo, hi) == 0,
    decreases hi - lo,
{
    if lo < hi {
        lemma_no_core_time(starts, cores, core, lo, hi - 1);
    }
}

/// The jobs on a core must execute within a window for no longer than they do execute
/// within it.
proof fn lemma_core_required(
    jobs: Seq<Job>,
    starts: Seq<int>,
    cores: Seq<int>,
    num_cores: int,
    core: int,
    window: JobInterval,
    count: int,
)
    requires
        fit_for_load(jobs),
        within_bounds(jobs, starts),
        runs_on_cores(jobs, starts, cores, num_cores),
        window.start <= window.end,
        0 <= count <= jobs.len(),
    ensures
        core_required(jobs, cores, core, window, count) <= core_time(
            jobs.take(count),
            starts.take(count),
            cores.take(count),
            core,
            window.start as int,
            window.end as int,
        ),
    decreases count,
{
    if count > 0 {
        lemma_core_required(jobs, starts, cores, num_cores, core, window, count - 1);
        lemma_core_time_push(
            jobs,
            starts,
            cores,
            core,
            window.start as int,
            window.end as int,
            count,
        );
        lemma_required_is_executed(jobs, starts, window, count - 1);
    } else {
        assert(jobs.take(0) == Seq::<Job>::empty());
        lemma_no_core_time(
            starts.take(0),
            cores.take(0),
            core,
            window.start as int,
            window.end as int,
        );
    }
}

/// The times that jobs must execute within a window, each in the bin of the core of its
/// job, load the bins with what the jobs on the cores must execute.
proof fn lemma_loads_on_cores(
    jobs: Seq<Job>,
    cores: Seq<int>,
    num_cores: int,
    core: int,
    window: JobInterval,
    count: int,
)
    requires
        cores.len() == jobs.len(),
        forall|i: int| 0 <= i < jobs.len() ==> 0 <= #[trigger] cores[i] < num_cores,
        0 <= count <= jobs.len(),
    ensures
        bin_load(
            as_ints(required_loads(intervals_of(jobs).take(count), window, jobs)),
            cores_of_loads(jobs, cores, window, count),
            core,
        ) == core_required(jobs, cores, core, window, count),
        names_bins(
            cores_of_loads(jobs, cores, window, count),
            required_loads(intervals_of(jobs).take(count), window, jobs).len() as int,
            num_cores,
        ),
    decreases count,
{
    let intervals = intervals_of(jobs);
    if count > 0 {
        lemma_loads_on_cores(jobs, cores, num_cores, core, window, count - 1);
        assert(intervals.take(count).drop_last() == intervals.take(count - 1));
        assert(intervals.take(count).last() == interval_of(jobs[count - 1]));
        let before = required_loads(intervals.take(count - 1), window, jobs);
        let bins_before = cores_of_loads(jobs, cores, window, count - 1);
        assert(0 <= cores[count - 1] < num_cores);
        match required_load(interval_of(jobs[count - 1]), window, jobs) {
            Some(load) => {
                assert(as_ints(before.push(load)).drop_last() == as_ints(before));
                assert(bins_before.push(cores[count - 1]).drop_last() == bins_before);
            },
            None => {},
        }
    } else {
        assert(intervals.take(0).len() == 0);
    }
}

/// In every schedule, the times that the jobs must execute within the window of a job fit on
/// the cores: each core is a bin of the length of the window, which holds the jobs that run
/// on the core.
pub proof fn lemma_window_is_packed(
    jobs: Seq<Job>,
    starts: Seq<int>,
    cores: Seq<int>,
    num_cores: int,
    index: int,
)
    requires
        fit_for_load(jobs),
        within_bounds(jobs, starts),
        runs_on_cores(jobs, starts, cores, num_cores),
        0 <= index < jobs.len(),
    ensures
        fits(
            required_loads(intervals_of(jobs), interval_of(jobs[index]), jobs),
            num_cores,
            interval_of(jobs[index]).end - interval_of(jobs[index]).start,
        ),
        no_size_negative(required_loads(intervals_of(jobs), interval_of(jobs[index]), jobs)),
{
    let window = interval_of(jobs[index]);
    let count = jobs.len() as int;
    let loads = required_loads(intervals_of(jobs), window, jobs);
    let bins = cores_of_loads(jobs, cores, window, count);
    assert(jobs[index].within_limits());
    assert(jobs[index].earliest_start <= starts[index] <= jobs[index].latest_start);
    assert(window.start <= window.end);
    assert(intervals_of(jobs).take(count) == intervals_of(jobs));
    assert(jobs.take(count) == jobs);
    assert(starts.take(count) == starts);
    assert(cores.take(count) == cores);
    lemma_loads_on_cores(jobs, cores, num_cores, 0, window, count);
    assert(packs(loads, bins, num_cores, window.end - window.start)) by {
        assert forall|core: int| 0 <= core < num_cores implies #[trigger] bin_load(
            as_ints(loads),
            bins,
            core,
        ) <= window.end - window.start by {
            lemma_loads_on_cores(jobs, cores, num_cores, core, window, count);
            lemma_core_required(jobs, starts, cores, num_cores, core, window, count);
            lemma_core_time_bound(
                jobs,
                starts,
                cores,
                num_cores,
                core,
                window.start as int,
                window.end as int,
            );
        }
    }
    lemma_loads_not_negative(jobs, window, intervals_of(jobs));
}

/// No time that a job must execute within a window that is not empty is negative.
proof fn lemma_loads_not_negative(jobs: Seq<Job>, window: JobInterval, intervals: Seq<JobInterval>)
    requires
        window.start <= window.end,
    ensures
        no_size_negative(required_loads(intervals, window, jobs)),
    decreases intervals.len(),
{
    if intervals.len() > 0 {
        lemma_loads_not_negative(jobs, window, intervals.drop_last());
        let rest = required_loads(intervals.drop_last(), window, jobs);
        match required_load(intervals.last(), window, jobs) {
            Some(load) => {
                assert forall|i: int| 0 <= i < rest.push(load).len() implies rest.push(load)[i]
                    >= 0 by {
                    if i < rest.len() {
                        assert(rest[i] >= 0);
                    }
                }
            },
            None => {},
        }
    }
}

/// Jobs that fail the interval test have no schedule: whatever their start times within the
/// bounds are, more jobs execute at some time than there are cores.
pub proof fn lemma_interval_test_is_sound(jobs: Seq<Job>, num_cores: int)
    requires
        fit_for_load(jobs),
        num_cores >= 1,
        interval_test_fails(jobs, num_cores),
    ensures
        fits_in_no_way(jobs, num_cores),
{
    let index = choose|index: int|
        0 <= index < jobs.len() && window_overloaded(jobs, num_cores, index);
    let window = interval_of(jobs[index]);
    assert forall|starts: Seq<int>|
        !(#[trigger] within_bounds(jobs, starts) && fits_cores(jobs, starts, num_cores)) by {
        if within_bounds(jobs, starts) && fits_cores(jobs, starts, num_cores) {
            assert forall|i: int| 0 <= i < jobs.len() implies (#[trigger] jobs[i]).execution_time
                > 0 by {
                assert(jobs[i].within_limits());
            }
            let cores = lemma_fitting_jobs_run_on_cores(jobs, starts, num_cores);
            lemma_window_is_packed(jobs, starts, cores, num_cores, index);
            lemma_unpackable_sizes_do_not_fit(
                num_cores,
                window.end - window.start,
                required_loads(intervals_of(jobs), window, jobs),
            );
        }
    }
}

} // verus!

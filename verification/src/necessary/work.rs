//! Why the load test is sound: in every schedule, the work that was executed by a time of
//! interest lies between the two bounds that the test compares.

use crate::necessary::load::{
    advanced, arrival_of, arrived_early, arrived_finished_load, arrived_load, bounds_of,
    by_earliest_start, by_latest_start, entering, event_times, execution_sum, fit_for_load,
    initial_load_state, items_valid, larger, load_step, load_test_fails, minimum_spent,
    overload_found, passed_load, reach, renewed, retired_load, smaller, surplus, without_repeats,
    without_zero, LoadState, MAX_EVENT_TIME,
};
use crate::problem::{indices_match, Job, Time};
use crate::schedule::{busy_cores, fits_cores, fits_in_no_way, running_load, within_bounds};
use crate::sort::{
    all_within, ascending, ascending_timed, in_ascending_order, in_timed_order,
    lemma_in_ascending_order, lemma_in_timed_order, lemma_same_bounds, lemma_timed_order_unique,
    timed_job_leq, TimedJob,
};
use vstd::prelude::*;
use vstd::seq_lib::to_multiset_remove;

verus! {

/// The sum of the values of `f` at the numbers below `count`
pub open spec fn total(count: int, f: spec_fn(int) -> int) -> int
    decreases count,
{
    if count <= 0 {
        0
    } else {
        total(count - 1, f) + f(count - 1)
    }
}

/// The sum of the values of `f` at the jobs of `items`
pub open spec fn sum_by(items: Seq<TimedJob>, f: spec_fn(int) -> int) -> int
    decreases items.len(),
{
    if items.len() == 0 {
        0
    } else {
        sum_by(items.drop_last(), f) + f(items.last().1 as int)
    }
}

/// The time for which `job` has executed by time `t` if it starts at `start`
pub open spec fn done_by(job: Job, start: int, t: int) -> int {
    if t <= start {
        0
    } else if t >= start + job.execution_time {
        job.execution_time as int
    } else {
        t - start
    }
}

/// For each job, the time for which it has executed by time `t`
pub open spec fn done_term(jobs: Seq<Job>, starts: Seq<int>, t: int) -> spec_fn(int) -> int {
    |j: int| done_by(jobs[j], starts[j], t)
}

/// For each job, 1 if it executes at time `t`, else 0
pub open spec fn running_term(jobs: Seq<Job>, starts: Seq<int>, t: int) -> spec_fn(int) -> int {
    |j: int| running_load(jobs[j], starts[j], t)
}

/// The work that the jobs have executed by time `t` if they start at the times of `starts`
pub open spec fn work_done(jobs: Seq<Job>, starts: Seq<int>, t: int) -> int {
    total(jobs.len() as int, done_term(jobs, starts, t))
}

/// The number of pairs of a job and a time from `lo` up to `hi` at which the job executes
pub open spec fn busy_sum(jobs: Seq<Job>, starts: Seq<int>, lo: int, hi: int) -> int
    decreases hi - lo,
{
    if lo >= hi {
        0
    } else {
        busy_sum(jobs, starts, lo, hi - 1) + busy_cores(jobs, starts, hi - 1)
    }
}

/// A sum grows with its terms.
pub proof fn lemma_total_le(count: int, f: spec_fn(int) -> int, g: spec_fn(int) -> int)
    requires
        forall|j: int| 0 <= j < count ==> #[trigger] f(j) <= g(j),
    ensures
        total(count, f) <= total(count, g),
    decreases count,
{
    if count > 0 {
        lemma_total_le(count - 1, f, g);
    }
}

/// The sum of sums of two terms is the sum of the two sums.
pub proof fn lemma_total_add(
    count: int,
    f: spec_fn(int) -> int,
    g: spec_fn(int) -> int,
    both: spec_fn(int) -> int,
)
    requires
        forall|j: int| 0 <= j < count ==> #[trigger] both(j) == f(j) + g(j),
    ensures
        total(count, both) == total(count, f) + total(count, g),
    decreases count,
{
    if count > 0 {
        lemma_total_add(count - 1, f, g, both);
    }
}

/// A sum over jobs grows with its terms.
pub proof fn lemma_sum_by_le(items: Seq<TimedJob>, f: spec_fn(int) -> int, g: spec_fn(int) -> int)
    requires
        forall|i: int|
            0 <= i < items.len() ==> f((#[trigger] items[i]).1 as int) <= g(items[i].1 as int),
    ensures
        sum_by(items, f) <= sum_by(items, g),
    decreases items.len(),
{
    if items.len() > 0 {
        assert forall|i: int| 0 <= i < items.drop_last().len() implies f(
            (#[trigger] items.drop_last()[i]).1 as int,
        ) <= g(items.drop_last()[i].1 as int) by {
            assert(items.drop_last()[i] == items[i]);
        }
        lemma_sum_by_le(items.drop_last(), f, g);
        assert(f(items[items.len() - 1].1 as int) <= g(items[items.len() - 1].1 as int));
    }
}

/// The sum over the jobs of two sequences is the sum of the two sums.
pub proof fn lemma_sum_by_concat(a: Seq<TimedJob>, b: Seq<TimedJob>, f: spec_fn(int) -> int)
    ensures
        sum_by(a + b, f) == sum_by(a, f) + sum_by(b, f),
    decreases b.len(),
{
    if b.len() == 0 {
        assert(a + b == a);
    } else {
        lemma_sum_by_concat(a, b.drop_last(), f);
        assert((a + b).drop_last() == a + b.drop_last());
        assert((a + b).last() == b.last());
    }
}

/// Taking one item out of a sequence lowers the sum by the term of its job.
proof fn lemma_sum_by_remove(items: Seq<TimedJob>, f: spec_fn(int) -> int, index: int)
    requires
        0 <= index < items.len(),
    ensures
        sum_by(items, f) == sum_by(items.remove(index), f) + f(items[index].1 as int),
    decreases items.len(),
{
    if index == items.len() - 1 {
        assert(items.remove(index) == items.drop_last());
    } else {
        lemma_sum_by_remove(items.drop_last(), f, index);
        assert(items.remove(index).drop_last() == items.drop_last().remove(index));
        assert(items.remove(index).last() == items.last());
    }
}

/// A sum over jobs does not depend on the order of the items.
pub proof fn lemma_sum_by_permutation(a: Seq<TimedJob>, b: Seq<TimedJob>, f: spec_fn(int) -> int)
    requires
        a.to_multiset() == b.to_multiset(),
    ensures
        sum_by(a, f) == sum_by(b, f),
    decreases a.len(),
{
    a.to_multiset_ensures();
    b.to_multiset_ensures();
    if a.len() == 0 {
        assert(b.len() == 0);
    } else {
        let x = a.last();
        assert(a.contains(x));
        assert(a.to_multiset().count(x) > 0);
        assert(b.contains(x));
        let index = choose|i: int| 0 <= i < b.len() && b[i] == x;
        to_multiset_remove(a, a.len() - 1);
        to_multiset_remove(b, index);
        assert(a.remove(a.len() - 1) == a.drop_last());
        lemma_sum_by_permutation(a.drop_last(), b.remove(index), f);
        lemma_sum_by_remove(b, f, index);
    }
}

/// Whether `items` holds each job once, with a value of its own
pub open spec fn lists_jobs(items: Seq<TimedJob>, jobs: Seq<Job>, values: Seq<Time>) -> bool {
    &&& values.len() == jobs.len()
    &&& items == in_timed_order(Seq::new(jobs.len(), |i: int| (values[i], jobs[i].index)))
}

/// A sum over a sequence that holds each job once is the sum over the jobs, and each item
/// holds a job with its value.
pub proof fn lemma_sum_by_all(
    items: Seq<TimedJob>,
    jobs: Seq<Job>,
    values: Seq<Time>,
    f: spec_fn(int) -> int,
)
    requires
        indices_match(jobs),
        lists_jobs(items, jobs, values),
    ensures
        sum_by(items, f) == total(jobs.len() as int, f),
        items.len() == jobs.len(),
        ascending_timed(items),
        forall|i: int|
            0 <= i < items.len() ==> (#[trigger] items[i]).1 < jobs.len() && items[i].0
                == values[items[i].1 as int],
{
    let listed = Seq::new(jobs.len(), |i: int| (values[i], jobs[i].index));
    lemma_in_timed_order(listed);
    lemma_sum_by_permutation(items, listed, f);
    lemma_sum_by_listed(listed, jobs, jobs.len() as int, f);
    assert(listed.take(jobs.len() as int) == listed);
    items.to_multiset_ensures();
    listed.to_multiset_ensures();
    assert forall|i: int| 0 <= i < items.len() implies (#[trigger] items[i]).1 < jobs.len()
        && items[i].0 == values[items[i].1 as int] by {
        assert(items.contains(items[i]));
        assert(items.to_multiset().count(items[i]) > 0);
        assert(listed.contains(items[i]));
        let k = choose|k: int| 0 <= k < listed.len() && listed[k] == items[i];
        assert(jobs[k].index == k);
    }
}

/// A sum over the first jobs, listed in their own order, is the sum over these jobs.
proof fn lemma_sum_by_listed(
    listed: Seq<TimedJob>,
    jobs: Seq<Job>,
    count: int,
    f: spec_fn(int) -> int,
)
    requires
        indices_match(jobs),
        listed.len() == jobs.len(),
        forall|i: int| 0 <= i < listed.len() ==> (#[trigger] listed[i]).1 == jobs[i].index,
        0 <= count <= jobs.len(),
    ensures
        sum_by(listed.take(count), f) == total(count, f),
    decreases count,
{
    if count > 0 {
        lemma_sum_by_listed(listed, jobs, count - 1, f);
        assert(listed.take(count).drop_last() == listed.take(count - 1));
        assert(listed.take(count).last() == listed[count - 1]);
        assert(jobs[count - 1].index == count - 1);
    }
}

/// Whether each of `items` names one of `count` jobs
pub open spec fn names_jobs(items: Seq<TimedJob>, count: int) -> bool {
    forall|i: int| 0 <= i < items.len() ==> (#[trigger] items[i]).1 < count
}

/// A sum over the jobs that enter is a sum over all, in which a job counts only if its latest
/// finish lies after the time.
proof fn lemma_sum_entering(
    items: Seq<TimedJob>,
    jobs: Seq<Job>,
    t: int,
    f: spec_fn(int) -> int,
    g: spec_fn(int) -> int,
)
    requires
        forall|i: int|
            0 <= i < items.len() ==> {
                let j = (#[trigger] items[i]).1 as int;
                g(j) == if jobs[j].latest_finish() > t {
                    f(j)
                } else {
                    0
                }
            },
    ensures
        sum_by(entering(items, jobs, t), f) == sum_by(items, g),
    decreases items.len(),
{
    if items.len() > 0 {
        let rest = items.drop_last();
        assert forall|i: int| 0 <= i < rest.len() implies g((#[trigger] rest[i]).1 as int)
            == if jobs[rest[i].1 as int].latest_finish() > t {
            f(rest[i].1 as int)
        } else {
            0
        } by {
            assert(rest[i] == items[i]);
        }
        lemma_sum_entering(rest, jobs, t, f, g);
        let last = items[items.len() - 1];
        if jobs[last.1 as int].latest_finish() > t {
            let entered = ((jobs[last.1 as int].latest_finish() - t) as Time, last.1);
            assert(entering(items, jobs, t).drop_last() == entering(rest, jobs, t));
            assert(entering(items, jobs, t).last() == entered);
        }
    }
}

/// The load of the jobs that are certainly finished is a sum over all, in which a job counts
/// only if its latest finish does not lie after the time.
proof fn lemma_sum_finished(items: Seq<TimedJob>, jobs: Seq<Job>, t: int, g: spec_fn(int) -> int)
    requires
        forall|i: int|
            0 <= i < items.len() ==> {
                let j = (#[trigger] items[i]).1 as int;
                g(j) == if jobs[j].latest_finish() > t {
                    0
                } else {
                    jobs[j].execution_time as int
                }
            },
    ensures
        arrived_finished_load(items, jobs, t) == sum_by(items, g),
    decreases items.len(),
{
    if items.len() > 0 {
        let rest = items.drop_last();
        assert forall|i: int| 0 <= i < rest.len() implies g((#[trigger] rest[i]).1 as int)
            == if jobs[rest[i].1 as int].latest_finish() > t {
            0
        } else {
            jobs[rest[i].1 as int].execution_time as int
        } by {
            assert(rest[i] == items[i]);
        }
        lemma_sum_finished(rest, jobs, t, g);
        assert(items[items.len() - 1] == items.last());
    }
}

/// The sum of the execution times is a sum over the jobs.
proof fn lemma_sum_execution(items: Seq<TimedJob>, jobs: Seq<Job>, g: spec_fn(int) -> int)
    requires
        forall|i: int|
            0 <= i < items.len() ==> g((#[trigger] items[i]).1 as int)
                == jobs[items[i].1 as int].execution_time,
    ensures
        execution_sum(items, jobs) == sum_by(items, g),
    decreases items.len(),
{
    if items.len() > 0 {
        let rest = items.drop_last();
        assert forall|i: int| 0 <= i < rest.len() implies g((#[trigger] rest[i]).1 as int)
            == jobs[rest[i].1 as int].execution_time by {
            assert(rest[i] == items[i]);
        }
        lemma_sum_execution(rest, jobs, g);
        assert(items[items.len() - 1] == items.last());
    }
}

/// The time that jobs can have executed while time passed is a sum over the jobs.
proof fn lemma_sum_passed(items: Seq<TimedJob>, spent: int, g: spec_fn(int) -> int)
    requires
        forall|i: int|
            0 <= i < items.len() ==> g((#[trigger] items[i]).1 as int) == smaller(
                spent,
                items[i].0 as int,
            ),
    ensures
        passed_load(items, spent) == sum_by(items, g),
    decreases items.len(),
{
    if items.len() > 0 {
        let rest = items.drop_last();
        assert forall|i: int| 0 <= i < rest.len() implies g((#[trigger] rest[i]).1 as int)
            == smaller(spent, rest[i].0 as int) by {
            assert(rest[i] == items[i]);
        }
        lemma_sum_passed(rest, spent, g);
        assert(items[items.len() - 1] == items.last());
    }
}

/// The time that arriving jobs can have executed is a sum over the jobs.
proof fn lemma_sum_arrived(items: Seq<TimedJob>, jobs: Seq<Job>, t: int, g: spec_fn(int) -> int)
    requires
        forall|i: int|
            0 <= i < items.len() ==> {
                let j = (#[trigger] items[i]).1 as int;
                g(j) == if jobs[j].latest_finish() > t {
                    smaller(jobs[j].execution_time as int, t - jobs[j].earliest_start)
                } else {
                    jobs[j].execution_time as int
                }
            },
    ensures
        arrived_load(items, jobs, t) == sum_by(items, g),
    decreases items.len(),
{
    if items.len() > 0 {
        let rest = items.drop_last();
        assert forall|i: int| 0 <= i < rest.len() implies g((#[trigger] rest[i]).1 as int)
            == if jobs[rest[i].1 as int].latest_finish() > t {
            smaller(
                jobs[rest[i].1 as int].execution_time as int,
                t - jobs[rest[i].1 as int].earliest_start,
            )
        } else {
            jobs[rest[i].1 as int].execution_time as int
        } by {
            assert(rest[i] == items[i]);
        }
        lemma_sum_arrived(rest, jobs, t, g);
        assert(items[items.len() - 1] == items.last());
    }
}

/// A sum over the jobs that are kept is a sum over all, in which a job counts only if time
/// is left to it.
proof fn lemma_sum_renewed(
    items: Seq<TimedJob>,
    spent: int,
    jobs: Seq<Job>,
    t: int,
    f: spec_fn(int) -> int,
    g: spec_fn(int) -> int,
)
    requires
        forall|i: int|
            0 <= i < items.len() ==> g((#[trigger] items[i]).1 as int) == if items[i].0 > spent {
                f(items[i].1 as int)
            } else {
                0
            },
    ensures
        sum_by(renewed(items, spent, jobs, t), f) == sum_by(items, g),
    decreases items.len(),
{
    if items.len() > 0 {
        let rest = items.drop_last();
        assert forall|i: int| 0 <= i < rest.len() implies g((#[trigger] rest[i]).1 as int)
            == if rest[i].0 > spent {
            f(rest[i].1 as int)
        } else {
            0
        } by {
            assert(rest[i] == items[i]);
        }
        lemma_sum_renewed(rest, spent, jobs, t, f, g);
        let last = items[items.len() - 1];
        if last.0 > spent {
            let kept = ((jobs[last.1 as int].latest_finish() - t) as Time, last.1);
            assert(renewed(items, spent, jobs, t).drop_last() == renewed(rest, spent, jobs, t));
            assert(renewed(items, spent, jobs, t).last() == kept);
        }
    }
}

/// The jobs that enter from two sequences are those that enter from the first and those that
/// enter from the second, and so it is with the load of the jobs that are certainly finished.
proof fn lemma_entering_concat(a: Seq<TimedJob>, b: Seq<TimedJob>, jobs: Seq<Job>, t: int)
    ensures
        entering(a + b, jobs, t) == entering(a, jobs, t) + entering(b, jobs, t),
        arrived_finished_load(a + b, jobs, t) == arrived_finished_load(a, jobs, t)
            + arrived_finished_load(b, jobs, t),
    decreases b.len(),
{
    if b.len() == 0 {
        assert(a + b == a);
        assert(entering(a, jobs, t) + entering(b, jobs, t) == entering(a, jobs, t));
    } else {
        lemma_entering_concat(a, b.drop_last(), jobs, t);
        assert((a + b).drop_last() == a + b.drop_last());
        assert((a + b).last() == b.last());
        let rest = entering(a, jobs, t) + entering(b.drop_last(), jobs, t);
        if jobs[b.last().1 as int].latest_finish() > t {
            let entered = ((jobs[b.last().1 as int].latest_finish() - t) as Time, b.last().1);
            assert(rest.push(entered) == entering(a, jobs, t) + entering(
                b.drop_last(),
                jobs,
                t,
            ).push(entered));
        }
    }
}

/// Whether the time from `t` to the latest finish of each job is representable
pub open spec fn time_in_reach(jobs: Seq<Job>, t: int) -> bool {
    forall|j: int|
        0 <= j < jobs.len() ==> Time::MIN <= (#[trigger] jobs[j]).latest_finish() - t <= Time::MAX
}

/// When time passes for the jobs that entered, the jobs are left that enter at the later
/// time, and the others are certainly finished.
proof fn lemma_advance_entered(items: Seq<TimedJob>, jobs: Seq<Job>, t: int, spent: int)
    requires
        names_jobs(items, jobs.len() as int),
        time_in_reach(jobs, t),
        time_in_reach(jobs, t + spent),
        spent >= 0,
    ensures
        advanced(entering(items, jobs, t), spent) == entering(items, jobs, t + spent),
        retired_load(entering(items, jobs, t), spent, jobs) + arrived_finished_load(items, jobs, t)
            == arrived_finished_load(items, jobs, t + spent),
        items_valid(entering(items, jobs, t), jobs, t),
    decreases items.len(),
{
    if items.len() > 0 {
        let rest = items.drop_last();
        assert forall|i: int| 0 <= i < rest.len() implies (#[trigger] rest[i]).1 < jobs.len() by {
            assert(rest[i] == items[i]);
        }
        lemma_advance_entered(rest, jobs, t, spent);
        let last = items[items.len() - 1];
        let job = jobs[last.1 as int];
        assert(Time::MIN <= job.latest_finish() - t <= Time::MAX);
        assert(Time::MIN <= job.latest_finish() - (t + spent) <= Time::MAX);
        if job.latest_finish() > t {
            let entered = ((job.latest_finish() - t) as Time, last.1);
            let before = entering(rest, jobs, t);
            let all = before.push(entered);
            assert(all.drop_last() == before);
            assert(all.last() == entered);
            assert forall|i: int| 0 <= i < all.len() implies {
                &&& (#[trigger] all[i]).1 < jobs.len()
                &&& all[i].0 == jobs[all[i].1 as int].latest_finish() - t
                &&& all[i].0 > 0
            } by {
                if i < before.len() {
                    assert(all[i] == before[i]);
                }
            }
        }
    }
}

/// The number of jobs that execute at a time is the sum over the jobs of 1 for each that
/// executes.
proof fn lemma_busy_is_total(jobs: Seq<Job>, starts: Seq<int>, t: int, count: int)
    requires
        starts.len() == jobs.len(),
        0 <= count <= jobs.len(),
    ensures
        busy_cores(jobs.take(count), starts.take(count), t) == total(
            count,
            running_term(jobs, starts, t),
        ),
    decreases count,
{
    if count > 0 {
        lemma_busy_is_total(jobs, starts, t, count - 1);
        assert(jobs.take(count).drop_last() == jobs.take(count - 1));
        assert(starts.take(count).drop_last() == starts.take(count - 1));
    }
}

/// The work that is executed from one time to a later one is the number of jobs that execute,
/// summed over the times between.
proof fn lemma_work_between(jobs: Seq<Job>, starts: Seq<int>, lo: int, hi: int)
    requires
        starts.len() == jobs.len(),
        lo <= hi,
        forall|j: int| 0 <= j < jobs.len() ==> (#[trigger] jobs[j]).execution_time > 0,
    ensures
        work_done(jobs, starts, hi) == work_done(jobs, starts, lo) + busy_sum(jobs, starts, lo, hi),
    decreases hi - lo,
{
    if lo < hi {
        lemma_work_between(jobs, starts, lo, hi - 1);
        let count = jobs.len() as int;
        lemma_busy_is_total(jobs, starts, hi - 1, count);
        assert(jobs.take(count) == jobs);
        assert(starts.take(count) == starts);
        assert forall|j: int| 0 <= j < count implies #[trigger] done_term(jobs, starts, hi)(j)
            == done_term(jobs, starts, hi - 1)(j) + running_term(jobs, starts, hi - 1)(j) by {
            assert(jobs[j].execution_time > 0);
        }
        lemma_total_add(
            count,
            done_term(jobs, starts, hi - 1),
            running_term(jobs, starts, hi - 1),
            done_term(jobs, starts, hi),
        );
    }
}

/// From one time to a later one, no more work is executed than the cores can execute from
/// the time at which the first job executes.
proof fn lemma_busy_sum_bound(
    jobs: Seq<Job>,
    starts: Seq<int>,
    num_cores: int,
    lo: int,
    mid: int,
    hi: int,
)
    requires
        lo <= mid <= hi,
        fits_cores(jobs, starts, num_cores),
        forall|t: int| lo <= t < mid ==> busy_cores(jobs, starts, t) == 0,
    ensures
        busy_sum(jobs, starts, lo, hi) <= num_cores * (hi - mid),
        hi <= mid ==> busy_sum(jobs, starts, lo, hi) == 0,
    decreases hi - lo,
{
    if lo < hi {
        if hi > mid {
            lemma_busy_sum_bound(jobs, starts, num_cores, lo, mid, hi - 1);
            assert(busy_cores(jobs, starts, hi - 1) <= num_cores);
            assert(num_cores * (hi - mid) == num_cores * (hi - 1 - mid) + num_cores)
                by (nonlinear_arith);
        } else {
            lemma_busy_sum_bound(jobs, starts, num_cores, lo, hi - 1, hi - 1);
            assert(busy_cores(jobs, starts, hi - 1) == 0);
            assert(num_cores * (hi - mid) == 0) by (nonlinear_arith)
                requires
                    hi == mid,
            ;
        }
    } else {
        assert(num_cores * (hi - mid) == 0) by (nonlinear_arith)
            requires
                hi == mid,
        ;
    }
}

/// Whether the times of `items` ascend
pub open spec fn times_ascend(items: Seq<TimedJob>) -> bool {
    forall|i: int, j: int| 0 <= i <= j < items.len() ==> items[i].0 <= items[j].0
}

/// The least time that jobs have executed does not depend on how many of them count as
/// finished, if all of them do.
proof fn lemma_all_finished(items: Seq<TimedJob>, jobs: Seq<Job>, first: int, second: int)
    requires
        first >= items.len(),
        second >= items.len(),
    ensures
        minimum_spent(items, jobs, first) == minimum_spent(items, jobs, second),
    decreases items.len(),
{
    if items.len() > 0 {
        lemma_all_finished(items.drop_last(), jobs, first, second);
    }
}

/// If one more job counts as finished, the least time that the jobs have executed grows by
/// the time that was left to that job.
proof fn lemma_one_more_finished(items: Seq<TimedJob>, jobs: Seq<Job>, finished: int)
    requires
        0 <= finished < items.len(),
    ensures
        minimum_spent(items, jobs, finished + 1) == minimum_spent(items, jobs, finished)
            + items[finished].0,
    decreases items.len(),
{
    if finished == items.len() - 1 {
        lemma_all_finished(items.drop_last(), jobs, finished + 1, finished);
    } else {
        lemma_one_more_finished(items.drop_last(), jobs, finished);
    }
}

/// Jobs that have certainly started, of which at most `running` execute now, have executed
/// for at least the time that the load test counts: those that do not execute now are
/// finished, and the time that is left to the others is no more than the longest times left.
proof fn lemma_minimum_spent(
    items: Seq<TimedJob>,
    jobs: Seq<Job>,
    starts: Seq<int>,
    t: int,
    running: int,
)
    requires
        within_bounds(jobs, starts),
        items_valid(items, jobs, t),
        times_ascend(items),
        forall|i: int|
            0 <= i < items.len() ==> jobs[(#[trigger] items[i]).1 as int].latest_start <= t,
        forall|j: int| 0 <= j < jobs.len() ==> (#[trigger] jobs[j]).execution_time > 0,
        sum_by(items, running_term(jobs, starts, t)) <= running,
        running >= 0,
    ensures
        minimum_spent(items, jobs, surplus(items.len() as int, running)) <= sum_by(
            items,
            done_term(jobs, starts, t),
        ),
    decreases items.len(),
{
    if items.len() > 0 {
        let rest = items.drop_last();
        let count = items.len() as int;
        let last = items[count - 1];
        let job = jobs[last.1 as int];
        let start = starts[last.1 as int];
        assert(job.earliest_start <= start <= job.latest_start);
        assert(job.execution_time > 0);
        assert(last.0 == job.latest_finish() - t && last.0 > 0);
        assert forall|i: int| 0 <= i < rest.len() implies {
            &&& (#[trigger] rest[i]).1 < jobs.len()
            &&& rest[i].0 == jobs[rest[i].1 as int].latest_finish() - t
            &&& rest[i].0 > 0
            &&& jobs[rest[i].1 as int].latest_start <= t
        } by {
            assert(rest[i] == items[i]);
        }
        assert(times_ascend(rest)) by {
            assert forall|i: int, j: int| 0 <= i <= j < rest.len() implies rest[i].0
                <= rest[j].0 by {
                assert(rest[i] == items[i] && rest[j] == items[j]);
            }
        }
        lemma_running_sum(rest, jobs, starts, t);
        let finished = surplus(count, running);
        if running_load(job, start, t) == 1 {
            lemma_minimum_spent(rest, jobs, starts, t, running - 1);
        } else {
            lemma_minimum_spent(rest, jobs, starts, t, running);
            if count <= running {
            } else if running == 0 {
                lemma_all_finished(rest, jobs, count, count - 1);
            } else {
                lemma_one_more_finished(rest, jobs, finished - 1);
                assert(rest[finished - 1] == items[finished - 1]);
                assert(items[finished - 1].0 <= items[count - 1].0);
            }
        }
    }
}

/// The number of jobs of `items` that execute at a time is not negative.
proof fn lemma_running_sum(items: Seq<TimedJob>, jobs: Seq<Job>, starts: Seq<int>, t: int)
    ensures
        sum_by(items, running_term(jobs, starts, t)) >= 0,
    decreases items.len(),
{
    if items.len() > 0 {
        lemma_running_sum(items.drop_last(), jobs, starts, t);
    }
}

/// A sum of terms that are all 0 is 0.
proof fn lemma_total_zero(count: int, f: spec_fn(int) -> int)
    requires
        forall|j: int| 0 <= j < count ==> #[trigger] f(j) == 0,
    ensures
        total(count, f) == 0,
    decreases count,
{
    if count > 0 {
        lemma_total_zero(count - 1, f);
    }
}

/// A sum over jobs of terms that are all 0 is 0.
proof fn lemma_sum_by_zero(items: Seq<TimedJob>, f: spec_fn(int) -> int)
    requires
        forall|i: int| 0 <= i < items.len() ==> f((#[trigger] items[i]).1 as int) == 0,
    ensures
        sum_by(items, f) == 0,
    decreases items.len(),
{
    if items.len() > 0 {
        assert forall|i: int| 0 <= i < items.drop_last().len() implies f(
            (#[trigger] items.drop_last()[i]).1 as int,
        ) == 0 by {
            assert(items.drop_last()[i] == items[i]);
        }
        lemma_sum_by_zero(items.drop_last(), f);
        assert(f(items[items.len() - 1].1 as int) == 0);
    }
}

/// The sum over jobs of sums of two terms is the sum of the two sums.
proof fn lemma_sum_by_add(
    items: Seq<TimedJob>,
    f: spec_fn(int) -> int,
    g: spec_fn(int) -> int,
    both: spec_fn(int) -> int,
)
    requires
        forall|i: int|
            0 <= i < items.len() ==> both((#[trigger] items[i]).1 as int) == f(items[i].1 as int)
                + g(items[i].1 as int),
    ensures
        sum_by(items, both) == sum_by(items, f) + sum_by(items, g),
    decreases items.len(),
{
    if items.len() > 0 {
        assert forall|i: int| 0 <= i < items.drop_last().len() implies both(
            (#[trigger] items.drop_last()[i]).1 as int,
        ) == f(items.drop_last()[i].1 as int) + g(items.drop_last()[i].1 as int) by {
            assert(items.drop_last()[i] == items[i]);
        }
        lemma_sum_by_add(items.drop_last(), f, g, both);
        assert(both(items[items.len() - 1].1 as int) == f(items[items.len() - 1].1 as int) + g(
            items[items.len() - 1].1 as int,
        ));
    }
}

/// The position at which a sequence that holds each job once holds a given job
proof fn lemma_listed_position(
    items: Seq<TimedJob>,
    jobs: Seq<Job>,
    values: Seq<Time>,
    job: int,
) -> (position: int)
    requires
        indices_match(jobs),
        lists_jobs(items, jobs, values),
        0 <= job < jobs.len(),
    ensures
        0 <= position < items.len(),
        items[position].1 == job,
        items[position].0 == values[job],
{
    let listed = Seq::new(jobs.len(), |i: int| (values[i], jobs[i].index));
    lemma_in_timed_order(listed);
    items.to_multiset_ensures();
    listed.to_multiset_ensures();
    assert(jobs[job].index == job);
    assert(listed[job] == (values[job], jobs[job].index));
    assert(listed.contains(listed[job]));
    assert(listed.to_multiset().count(listed[job]) > 0);
    assert(items.contains(listed[job]));
    choose|i: int| 0 <= i < items.len() && items[i] == listed[job]
}

/// The position that is reached in an ascending sequence parts the items with a time up to
/// the given one from the others.
proof fn lemma_reach(sorted: Seq<TimedJob>, from: int, time: int)
    requires
        ascending_timed(sorted),
        0 <= from <= sorted.len(),
    ensures
        from <= reach(sorted, from, time) <= sorted.len(),
        forall|i: int| from <= i < reach(sorted, from, time) ==> (#[trigger] sorted[i]).0 <= time,
        forall|i: int|
            reach(sorted, from, time) <= i < sorted.len() ==> (#[trigger] sorted[i]).0 > time,
    decreases sorted.len() - from,
{
    if from < sorted.len() && sorted[from].0 <= time {
        lemma_reach(sorted, from + 1, time);
    } else if from < sorted.len() {
        assert forall|i: int| from <= i < sorted.len() implies (#[trigger] sorted[i]).0
            > time by {
            assert(timed_job_leq(sorted[from], sorted[i]));
        }
    }
}

/// A job whose latest finish lies after the time is among the jobs that enter.
proof fn lemma_entering_holds(
    items: Seq<TimedJob>,
    jobs: Seq<Job>,
    t: int,
    index: int,
) -> (position: int)
    requires
        0 <= index < items.len(),
        jobs[items[index].1 as int].latest_finish() > t,
    ensures
        0 <= position < entering(items, jobs, t).len(),
        entering(items, jobs, t)[position].1 == items[index].1,
    decreases items.len(),
{
    let rest = items.drop_last();
    if index == items.len() - 1 {
        entering(rest, jobs, t).len() as int
    } else {
        let position = lemma_entering_holds(rest, jobs, t, index);
        position
    }
}

/// The earliest arrival is no later than the bound and than the earliest start of each job.
proof fn lemma_arrival(items: Seq<TimedJob>, jobs: Seq<Job>, bound: int)
    ensures
        arrival_of(items, jobs, bound) <= bound,
        forall|i: int|
            0 <= i < items.len() ==> arrival_of(items, jobs, bound) <= jobs[(
            #[trigger] items[i]).1 as int].earliest_start,
    decreases items.len(),
{
    if items.len() > 0 {
        lemma_arrival(items.drop_last(), jobs, bound);
        assert forall|i: int| 0 <= i < items.len() implies arrival_of(items, jobs, bound)
            <= jobs[(#[trigger] items[i]).1 as int].earliest_start by {
            if i < items.len() - 1 {
                assert(items.drop_last()[i] == items[i]);
            }
        }
    }
}

/// The earliest arrival among the jobs that are certainly finished is no later than the
/// bound and than the earliest start of each such job.
proof fn lemma_arrived_early(items: Seq<TimedJob>, jobs: Seq<Job>, t: int, bound: int)
    ensures
        arrived_early(items, jobs, t, bound) <= bound,
        forall|i: int|
            0 <= i < items.len() && jobs[(#[trigger] items[i]).1 as int].latest_finish() <= t
                ==> arrived_early(items, jobs, t, bound) <= jobs[items[i].1 as int].earliest_start,
    decreases items.len(),
{
    if items.len() > 0 {
        lemma_arrived_early(items.drop_last(), jobs, t, bound);
        assert forall|i: int|
            0 <= i < items.len() && jobs[(#[trigger] items[i]).1 as int].latest_finish()
                <= t implies arrived_early(items, jobs, t, bound)
            <= jobs[items[i].1 as int].earliest_start by {
            if i < items.len() - 1 {
                assert(items.drop_last()[i] == items[i]);
            }
        }
    }
}

/// Whether each of `items` is a job that has certainly started by time `t` and is not
/// certainly finished, with the time from `t` to its latest finish
pub open spec fn started_valid(items: Seq<TimedJob>, jobs: Seq<Job>, t: int) -> bool {
    &&& items_valid(items, jobs, t)
    &&& forall|i: int|
        0 <= i < items.len() ==> jobs[(#[trigger] items[i]).1 as int].latest_start <= t
}

/// The jobs that are kept when time passes have started and are not certainly finished.
proof fn lemma_renewed_valid(items: Seq<TimedJob>, spent: int, jobs: Seq<Job>, t: int)
    requires
        started_valid(items, jobs, t),
        spent >= 0,
        time_in_reach(jobs, t + spent),
    ensures
        started_valid(renewed(items, spent, jobs, t + spent), jobs, t + spent),
    decreases items.len(),
{
    if items.len() > 0 {
        let rest = items.drop_last();
        assert(started_valid(rest, jobs, t)) by {
            assert forall|i: int| 0 <= i < rest.len() implies {
                &&& (#[trigger] rest[i]).1 < jobs.len()
                &&& rest[i].0 == jobs[rest[i].1 as int].latest_finish() - t
                &&& rest[i].0 > 0
                &&& jobs[rest[i].1 as int].latest_start <= t
            } by {
                assert(rest[i] == items[i]);
            }
        }
        lemma_renewed_valid(rest, spent, jobs, t);
        let last = items[items.len() - 1];
        let job = jobs[last.1 as int];
        assert(last.0 == job.latest_finish() - t);
        assert(job.latest_start <= t);
        assert(Time::MIN <= job.latest_finish() - (t + spent) <= Time::MAX);
        if last.0 > spent {
            let kept = ((job.latest_finish() - (t + spent)) as Time, last.1);
            let before = renewed(rest, spent, jobs, t + spent);
            lemma_valid_push(before, kept, jobs, t + spent);
        }
    }
}

/// One more job that has started and is not certainly finished
proof fn lemma_valid_push(items: Seq<TimedJob>, item: TimedJob, jobs: Seq<Job>, t: int)
    requires
        started_valid(items, jobs, t),
        item.1 < jobs.len(),
        item.0 == jobs[item.1 as int].latest_finish() - t,
        item.0 > 0,
        jobs[item.1 as int].latest_start <= t,
    ensures
        started_valid(items.push(item), jobs, t),
{
    let more = items.push(item);
    assert forall|i: int| 0 <= i < more.len() implies {
        &&& (#[trigger] more[i]).1 < jobs.len()
        &&& more[i].0 == jobs[more[i].1 as int].latest_finish() - t
        &&& more[i].0 > 0
        &&& jobs[more[i].1 as int].latest_start <= t
    } by {
        if i < items.len() {
            assert(more[i] == items[i]);
        }
    }
}

/// The jobs that enter when their latest start is reached have started and are not certainly
/// finished.
proof fn lemma_entering_valid(items: Seq<TimedJob>, jobs: Seq<Job>, t: int)
    requires
        names_jobs(items, jobs.len() as int),
        time_in_reach(jobs, t),
        forall|i: int|
            0 <= i < items.len() ==> jobs[(#[trigger] items[i]).1 as int].latest_start <= t,
    ensures
        started_valid(entering(items, jobs, t), jobs, t),
    decreases items.len(),
{
    if items.len() > 0 {
        let rest = items.drop_last();
        assert forall|i: int| 0 <= i < rest.len() implies (#[trigger] rest[i]).1 < jobs.len()
            && jobs[rest[i].1 as int].latest_start <= t by {
            assert(rest[i] == items[i]);
        }
        lemma_entering_valid(rest, jobs, t);
        let last = items[items.len() - 1];
        let job = jobs[last.1 as int];
        assert(Time::MIN <= job.latest_finish() - t <= Time::MAX);
        assert(job.latest_start <= t);
        if job.latest_finish() > t {
            lemma_valid_push(
                entering(rest, jobs, t),
                ((job.latest_finish() - t) as Time, last.1),
                jobs,
                t,
            );
        }
    }
}

/// Sequences with the same items agree on whether the jobs have started and are not certainly
/// finished.
proof fn lemma_valid_permutation(a: Seq<TimedJob>, b: Seq<TimedJob>, jobs: Seq<Job>, t: int)
    requires
        a.to_multiset() == b.to_multiset(),
        started_valid(b, jobs, t),
    ensures
        started_valid(a, jobs, t),
{
    a.to_multiset_ensures();
    b.to_multiset_ensures();
    assert forall|i: int| 0 <= i < a.len() implies {
        &&& (#[trigger] a[i]).1 < jobs.len()
        &&& a[i].0 == jobs[a[i].1 as int].latest_finish() - t
        &&& a[i].0 > 0
        &&& jobs[a[i].1 as int].latest_start <= t
    } by {
        assert(a.contains(a[i]));
        assert(a.to_multiset().count(a[i]) > 0);
        assert(b.contains(a[i]));
        let k = choose|k: int| 0 <= k < b.len() && b[k] == a[i];
        assert(b[k].1 < jobs.len());
    }
}

/// The latest starts and latest finishes of jobs lie within bounds that hold for each job.
proof fn lemma_bounds_within(jobs: Seq<Job>, least: int, most: int)
    requires
        forall|j: int|
            0 <= j < jobs.len() ==> least <= (#[trigger] jobs[j]).latest_start <= most && least
                <= jobs[j].latest_finish() <= most && Time::MIN <= jobs[j].latest_finish()
                <= Time::MAX,
    ensures
        all_within(bounds_of(jobs), least, most),
    decreases jobs.len(),
{
    if jobs.len() > 0 {
        let rest = jobs.drop_last();
        assert forall|j: int| 0 <= j < rest.len() implies least <= (#[trigger] rest[j]).latest_start
            <= most && least <= rest[j].latest_finish() <= most && Time::MIN
            <= rest[j].latest_finish() <= Time::MAX by {
            assert(rest[j] == jobs[j]);
        }
        lemma_bounds_within(rest, least, most);
        let last = jobs[jobs.len() - 1];
        assert(least <= last.latest_start <= most && least <= last.latest_finish() <= most);
        let before = bounds_of(rest);
        let bounds = before.push(last.latest_start).push(last.latest_finish() as Time);
        assert forall|i: int| 0 <= i < bounds.len() implies least <= #[trigger] bounds[i]
            <= most by {
            if i < before.len() {
                assert(bounds[i] == before[i]);
            }
        }
    }
}

/// Times without those that are 0 stay within their bounds.
proof fn lemma_without_zero_within(values: Seq<Time>, least: int, most: int)
    requires
        all_within(values, least, most),
    ensures
        all_within(without_zero(values), least, most),
    decreases values.len(),
{
    if values.len() > 0 {
        assert forall|i: int| 0 <= i < values.drop_last().len() implies least
            <= #[trigger] values.drop_last()[i] <= most by {
            assert(values.drop_last()[i] == values[i]);
        }
        lemma_without_zero_within(values.drop_last(), least, most);
        assert(least <= values[values.len() - 1] <= most);
    }
}

/// Times without repeats stay within their bounds.
proof fn lemma_without_repeats_within(values: Seq<Time>, least: int, most: int)
    requires
        all_within(values, least, most),
    ensures
        all_within(without_repeats(values), least, most),
    decreases values.len(),
{
    if values.len() > 0 {
        assert forall|i: int| 0 <= i < values.drop_last().len() implies least
            <= #[trigger] values.drop_last()[i] <= most by {
            assert(values.drop_last()[i] == values[i]);
        }
        lemma_without_repeats_within(values.drop_last(), least, most);
        assert(least <= values[values.len() - 1] <= most);
    }
}

/// Ascending times without repeats ascend.
proof fn lemma_without_repeats_ascend(values: Seq<Time>)
    requires
        ascending(values),
    ensures
        ascending(without_repeats(values)),
    decreases values.len(),
{
    if values.len() > 0 {
        let rest = values.drop_last();
        let last = values[values.len() - 1];
        assert(ascending(rest)) by {
            assert forall|i: int, j: int| 0 <= i <= j < rest.len() implies rest[i] <= rest[j] by {
                assert(rest[i] == values[i] && rest[j] == values[j]);
            }
        }
        lemma_without_repeats_ascend(rest);
        assert(all_within(rest, Time::MIN as int, last as int)) by {
            assert forall|i: int| 0 <= i < rest.len() implies Time::MIN <= #[trigger] rest[i]
                <= last by {
                assert(rest[i] == values[i]);
            }
        }
        lemma_without_repeats_within(rest, Time::MIN as int, last as int);
        let before = without_repeats(rest);
        assert forall|i: int, j: int| 0 <= i <= j < before.push(last).len() implies before.push(
            last,
        )[i] <= before.push(last)[j] by {
            if j < before.len() {
                assert(before[i] <= before[j]);
            } else if i < before.len() {
                assert(before[i] <= last);
            }
        }
    }
}

/// Whether no job is released before time 0
pub open spec fn released_from_zero(jobs: Seq<Job>) -> bool {
    forall|j: int| 0 <= j < jobs.len() ==> (#[trigger] jobs[j]).earliest_start >= 0
}

/// Whether the jobs are fit for the load test and released from time 0 on, and `starts`
/// holds a start time within the bounds of each job such that at no time more jobs execute
/// than there are cores
pub open spec fn scheduled(jobs: Seq<Job>, starts: Seq<int>, num_cores: int) -> bool {
    &&& fit_for_load(jobs)
    &&& released_from_zero(jobs)
    &&& within_bounds(jobs, starts)
    &&& fits_cores(jobs, starts, num_cores)
    &&& num_cores >= 0
}

/// The times of interest ascend and are not negative.
proof fn lemma_event_times(jobs: Seq<Job>)
    requires
        fit_for_load(jobs),
        forall|j: int| 0 <= j < jobs.len() ==> (#[trigger] jobs[j]).latest_start >= 0,
    ensures
        ascending(event_times(jobs)),
        all_within(event_times(jobs), 0, MAX_EVENT_TIME as int),
{
    assert forall|j: int| 0 <= j < jobs.len() implies 0 <= (#[trigger] jobs[j]).latest_start
        <= MAX_EVENT_TIME && 0 <= jobs[j].latest_finish() <= MAX_EVENT_TIME
        && jobs[j].latest_finish() <= Time::MAX by {
        assert(jobs[j].within_limits());
    }
    lemma_bounds_within(jobs, 0, MAX_EVENT_TIME as int);
    lemma_without_zero_within(bounds_of(jobs), 0, MAX_EVENT_TIME as int);
    let collected = without_zero(bounds_of(jobs));
    lemma_in_ascending_order(collected);
    lemma_same_bounds(in_ascending_order(collected), collected, 0, MAX_EVENT_TIME as int);
    lemma_without_repeats_within(in_ascending_order(collected), 0, MAX_EVENT_TIME as int);
    lemma_without_repeats_ascend(in_ascending_order(collected));
}

/// The time to the latest finish of each job is representable at each time that is not
/// negative and not later than the latest time of interest.
proof fn lemma_time_in_reach(jobs: Seq<Job>, t: int)
    requires
        fit_for_load(jobs),
        0 <= t <= MAX_EVENT_TIME,
    ensures
        time_in_reach(jobs, t),
{
    assert forall|j: int| 0 <= j < jobs.len() implies Time::MIN <= (
    #[trigger] jobs[j]).latest_finish() - t <= Time::MAX by {
        assert(jobs[j].within_limits());
    }
}

/// The earliest start of each job
pub open spec fn earliest_starts(jobs: Seq<Job>) -> Seq<Time> {
    Seq::new(jobs.len(), |i: int| jobs[i].earliest_start)
}

/// The latest start of each job
pub open spec fn latest_starts(jobs: Seq<Job>) -> Seq<Time> {
    Seq::new(jobs.len(), |i: int| jobs[i].latest_start)
}

/// The two orders of the jobs hold each job once, with its earliest start and with its
/// latest start.
proof fn lemma_orders(jobs: Seq<Job>)
    ensures
        lists_jobs(by_earliest_start(jobs), jobs, earliest_starts(jobs)),
        lists_jobs(by_latest_start(jobs), jobs, latest_starts(jobs)),
{
    let early_values = earliest_starts(jobs);
    let late_values = latest_starts(jobs);
    assert(Seq::new(jobs.len(), |i: int| (jobs[i].earliest_start, jobs[i].index)) =~= Seq::new(
        jobs.len(),
        |i: int| (early_values[i], jobs[i].index),
    ));
    assert(Seq::new(jobs.len(), |i: int| (jobs[i].latest_start, jobs[i].index)) =~= Seq::new(
        jobs.len(),
        |i: int| (late_values[i], jobs[i].index),
    ));
}

/// Whether two sequences give the same sum for every term
pub open spec fn same_sums(a: Seq<TimedJob>, b: Seq<TimedJob>) -> bool {
    forall|f: spec_fn(int) -> int| #[trigger] sum_by(a, f) == sum_by(b, f)
}

/// Whether the load test knows at its current time what it is meant to know: the jobs that
/// may be running are those whose earliest start has come and whose latest finish has not,
/// the certainly finished load is that of the jobs whose latest finish has come, and the jobs
/// that certainly started are those whose latest start has come and whose latest finish has
/// not.
pub open spec fn state_shaped(jobs: Seq<Job>, state: LoadState) -> bool {
    let early = by_earliest_start(jobs);
    let late = by_latest_start(jobs);
    let now = state.current_time;
    &&& 0 <= state.time_index <= event_times(jobs).len()
    &&& now == if state.time_index == 0 {
        0
    } else {
        event_times(jobs)[state.time_index - 1] as int
    }
    &&& 0 <= state.early_position <= jobs.len()
    &&& 0 <= state.late_position <= jobs.len()
    &&& forall|i: int| 0 <= i < state.early_position ==> (#[trigger] early[i]).0 <= now
    &&& forall|i: int| 0 <= i < state.late_position ==> (#[trigger] late[i]).0 <= now
    &&& state.running == entering(early.take(state.early_position), jobs, now)
    &&& state.finished_load == arrived_finished_load(
        early.take(state.early_position),
        jobs,
        now,
    )
    &&& started_valid(state.started, jobs, now)
    &&& same_sums(state.started, entering(late.take(state.late_position), jobs, now))
}

/// Whether all items of `sorted` from `position` on have a time after `time`
pub open spec fn later_from(sorted: Seq<TimedJob>, position: int, time: int) -> bool {
    forall|i: int| position <= i < sorted.len() ==> (#[trigger] sorted[i]).0 > time
}

/// The jobs that certainly started after a step give the same sums as the jobs whose latest
/// start has come and whose latest finish has not.
proof fn lemma_started_sum(
    jobs: Seq<Job>,
    started: Seq<TimedJob>,
    known: Seq<TimedJob>,
    arrived: Seq<TimedJob>,
    now: int,
    spent: int,
    f: spec_fn(int) -> int,
)
    requires
        started_valid(started, jobs, now),
        same_sums(started, entering(known, jobs, now)),
        spent >= 0,
    ensures
        sum_by(
            in_timed_order(
                renewed(started, spent, jobs, now + spent) + entering(arrived, jobs, now + spent),
            ),
            f,
        ) == sum_by(entering(known + arrived, jobs, now + spent), f),
{
    let next = now + spent;
    let kept = renewed(started, spent, jobs, next);
    let entered = entering(arrived, jobs, next);
    let g = |j: int|
        if jobs[j].latest_finish() > next {
            f(j)
        } else {
            0
        };
    lemma_in_timed_order(kept + entered);
    lemma_sum_by_permutation(in_timed_order(kept + entered), kept + entered, f);
    lemma_sum_by_concat(kept, entered, f);
    assert forall|i: int| 0 <= i < started.len() implies g((#[trigger] started[i]).1 as int)
        == if started[i].0 > spent {
        f(started[i].1 as int)
    } else {
        0
    } by {
        assert(started[i].0 == jobs[started[i].1 as int].latest_finish() - now);
    }
    lemma_sum_renewed(started, spent, jobs, next, f, g);
    assert(sum_by(started, g) == sum_by(entering(known, jobs, now), g));
    lemma_sum_entering(known, jobs, now, g, g);
    lemma_sum_entering(known, jobs, next, f, g);
    lemma_entering_concat(known, arrived, jobs, next);
    lemma_sum_by_concat(entering(known, jobs, next), entered, f);
}

/// A step of the load test keeps what the test is meant to know.
proof fn lemma_step_shaped(jobs: Seq<Job>, starts: Seq<int>, num_cores: int, state: LoadState)
    requires
        scheduled(jobs, starts, num_cores),
        state_shaped(jobs, state),
        state.time_index < event_times(jobs).len(),
    ensures
        state_shaped(jobs, load_step(jobs, num_cores, state)),
        0 <= state.current_time <= load_step(jobs, num_cores, state).current_time
            <= MAX_EVENT_TIME,
        later_from(
            by_earliest_start(jobs),
            load_step(jobs, num_cores, state).early_position,
            load_step(jobs, num_cores, state).current_time,
        ),
        later_from(
            by_latest_start(jobs),
            load_step(jobs, num_cores, state).late_position,
            load_step(jobs, num_cores, state).current_time,
        ),
        load_step(jobs, num_cores, state).started == in_timed_order(
            load_step(jobs, num_cores, state).started,
        ),
{
    let after = load_step(jobs, num_cores, state);
    let early = by_earliest_start(jobs);
    let late = by_latest_start(jobs);
    let events = event_times(jobs);
    let now = state.current_time;
    let next = events[state.time_index] as int;
    let spent = next - now;
    assert forall|j: int| 0 <= j < jobs.len() implies (#[trigger] jobs[j]).latest_start >= 0 by {
        assert(jobs[j].earliest_start <= starts[j] <= jobs[j].latest_start);
    }
    lemma_event_times(jobs);
    assert(0 <= now <= next <= MAX_EVENT_TIME) by {
        assert(0 <= events[state.time_index] <= MAX_EVENT_TIME);
        if state.time_index > 0 {
            assert(events[state.time_index - 1] <= events[state.time_index]);
        }
    }
    lemma_time_in_reach(jobs, now);
    lemma_time_in_reach(jobs, next);
    lemma_orders(jobs);
    let zero = |j: int| 0int;
    lemma_sum_by_all(early, jobs, earliest_starts(jobs), zero);
    lemma_sum_by_all(late, jobs, latest_starts(jobs), zero);
    lemma_reach(early, state.early_position, next);
    lemma_reach(late, state.late_position, next);
    let known_early = early.take(state.early_position);
    let arrived_early = early.subrange(state.early_position, after.early_position);
    let known_late = late.take(state.late_position);
    let arrived_late = late.subrange(state.late_position, after.late_position);
    assert(known_early + arrived_early == early.take(after.early_position));
    assert(known_late + arrived_late == late.take(after.late_position));
    assert(names_jobs(known_early, jobs.len() as int)) by {
        assert forall|i: int| 0 <= i < known_early.len() implies (#[trigger] known_early[i]).1
            < jobs.len() by {
            assert(known_early[i] == early[i]);
        }
    }
    lemma_advance_entered(known_early, jobs, now, spent);
    lemma_entering_concat(known_early, arrived_early, jobs, next);
    assert(after.running == entering(early.take(after.early_position), jobs, next));
    assert(after.finished_load == arrived_finished_load(
        early.take(after.early_position),
        jobs,
        next,
    ));
    let kept = renewed(state.started, spent, jobs, next);
    let entered = entering(arrived_late, jobs, next);
    lemma_renewed_valid(state.started, spent, jobs, now);
    assert(names_jobs(arrived_late, jobs.len() as int) && forall|i: int|
        0 <= i < arrived_late.len() ==> jobs[(#[trigger] arrived_late[i]).1 as int].latest_start
            <= next) by {
        assert forall|i: int| 0 <= i < arrived_late.len() implies (#[trigger] arrived_late[i]).1
            < jobs.len() && jobs[arrived_late[i].1 as int].latest_start <= next by {
            let at = state.late_position + i;
            assert(arrived_late[i] == late[at]);
            assert(late[at].0 == latest_starts(jobs)[late[at].1 as int]);
            assert(late[at].0 <= next);
        }
    }
    lemma_entering_valid(arrived_late, jobs, next);
    assert(started_valid(kept + entered, jobs, next)) by {
        assert forall|i: int| 0 <= i < (kept + entered).len() implies {
            &&& (#[trigger] (kept + entered)[i]).1 < jobs.len()
            &&& (kept + entered)[i].0 == jobs[(kept + entered)[i].1 as int].latest_finish() - next
            &&& (kept + entered)[i].0 > 0
            &&& jobs[(kept + entered)[i].1 as int].latest_start <= next
        } by {
            if i < kept.len() {
                assert((kept + entered)[i] == kept[i]);
            } else {
                assert((kept + entered)[i] == entered[i - kept.len()]);
            }
        }
    }
    lemma_in_timed_order(kept + entered);
    lemma_valid_permutation(after.started, kept + entered, jobs, next);
    lemma_timed_order_unique(after.started, after.started);
    assert forall|f: spec_fn(int) -> int| #[trigger]
        sum_by(after.started, f) == sum_by(
            entering(late.take(after.late_position), jobs, next),
            f,
        ) by {
        lemma_started_sum(jobs, state.started, known_late, arrived_late, now, spent, f);
    }
    assert forall|i: int| 0 <= i < after.early_position implies (#[trigger] early[i]).0
        <= next by {
        if i < state.early_position {
            assert(early[i].0 <= now);
        }
    }
    assert forall|i: int| 0 <= i < after.late_position implies (#[trigger] late[i]).0 <= next by {
        if i < state.late_position {
            assert(late[i].0 <= now);
        }
    }
}

/// In every schedule, the work that was executed by the current time of the load test is at
/// least the load of the jobs that are certainly finished and the least time that the jobs
/// that certainly started have executed.
proof fn lemma_minimum_load(jobs: Seq<Job>, starts: Seq<int>, num_cores: int, state: LoadState)
    requires
        scheduled(jobs, starts, num_cores),
        state_shaped(jobs, state),
        later_from(by_earliest_start(jobs), state.early_position, state.current_time),
        later_from(by_latest_start(jobs), state.late_position, state.current_time),
        state.started == in_timed_order(state.started),
    ensures
        state.finished_load + minimum_spent(
            state.started,
            jobs,
            surplus(state.started.len() as int, num_cores),
        ) <= work_done(jobs, starts, state.current_time),
{
    let early = by_earliest_start(jobs);
    let late = by_latest_start(jobs);
    let now = state.current_time;
    let count = jobs.len() as int;
    let done = done_term(jobs, starts, now);
    let running = running_term(jobs, starts, now);
    let finished = |j: int|
        if jobs[j].latest_finish() > now {
            0
        } else {
            jobs[j].execution_time as int
        };
    let begun = |j: int|
        if jobs[j].latest_start <= now < jobs[j].latest_finish() {
            done_by(jobs[j], starts[j], now)
        } else {
            0
        };
    let running_left = |j: int|
        if jobs[j].latest_finish() > now {
            running_load(jobs[j], starts[j], now)
        } else {
            0
        };
    let both = |j: int| finished(j) + begun(j);
    lemma_orders(jobs);
    lemma_sum_by_all(early, jobs, earliest_starts(jobs), finished);
    lemma_sum_by_all(late, jobs, latest_starts(jobs), begun);
    lemma_sum_by_all(late, jobs, latest_starts(jobs), running);
    let known_early = early.take(state.early_position);
    let rest_early = early.skip(state.early_position);
    let known_late = late.take(state.late_position);
    let rest_late = late.skip(state.late_position);
    assert(known_early + rest_early == early);
    assert(known_late + rest_late == late);
    // the load of the jobs that are certainly finished
    assert forall|i: int| 0 <= i < known_early.len() implies finished(
        (#[trigger] known_early[i]).1 as int,
    ) == if jobs[known_early[i].1 as int].latest_finish() > now {
        0
    } else {
        jobs[known_early[i].1 as int].execution_time as int
    } by {}
    lemma_sum_finished(known_early, jobs, now, finished);
    lemma_sum_by_concat(known_early, rest_early, finished);
    assert forall|i: int| 0 <= i < rest_early.len() implies finished(
        (#[trigger] rest_early[i]).1 as int,
    ) == 0 by {
        let at = state.early_position + i;
        let j = early[at].1 as int;
        assert(rest_early[i] == early[at]);
        assert(early[at].0 == earliest_starts(jobs)[j]);
        assert(early[at].0 > now);
        assert(jobs[j].earliest_start <= starts[j] <= jobs[j].latest_start);
        assert(jobs[j].within_limits());
    }
    lemma_sum_by_zero(rest_early, finished);
    assert(state.finished_load == total(count, finished));
    // the jobs that certainly started
    lemma_in_timed_order(state.started);
    assert(times_ascend(state.started)) by {
        assert forall|i: int, j: int| 0 <= i <= j < state.started.len() implies state.started[i].0
            <= state.started[j].0 by {
            assert(timed_job_leq(state.started[i], state.started[j]));
        }
    }
    assert forall|j: int| 0 <= j < jobs.len() implies (#[trigger] jobs[j]).execution_time > 0 by {
        assert(jobs[j].within_limits());
    }
    assert(sum_by(state.started, running) == sum_by(entering(known_late, jobs, now), running));
    assert forall|i: int| 0 <= i < known_late.len() implies running_left(
        (#[trigger] known_late[i]).1 as int,
    ) == if jobs[known_late[i].1 as int].latest_finish() > now {
        running(known_late[i].1 as int)
    } else {
        0
    } by {}
    lemma_sum_entering(known_late, jobs, now, running, running_left);
    assert forall|i: int| 0 <= i < known_late.len() implies running_left(
        (#[trigger] known_late[i]).1 as int,
    ) <= running(known_late[i].1 as int) by {}
    lemma_sum_by_le(known_late, running_left, running);
    lemma_sum_by_concat(known_late, rest_late, running);
    lemma_running_sum(rest_late, jobs, starts, now);
    lemma_busy_is_total(jobs, starts, now, count);
    assert(jobs.take(count) == jobs);
    assert(starts.take(count) == starts);
    assert(busy_cores(jobs, starts, now) <= num_cores);
    assert(sum_by(state.started, running) <= num_cores);
    lemma_minimum_spent(state.started, jobs, starts, now, num_cores);
    assert(sum_by(state.started, done) == sum_by(entering(known_late, jobs, now), done));
    assert forall|i: int| 0 <= i < known_late.len() implies begun(
        (#[trigger] known_late[i]).1 as int,
    ) == if jobs[known_late[i].1 as int].latest_finish() > now {
        done(known_late[i].1 as int)
    } else {
        0
    } by {
        assert(known_late[i] == late[i]);
        assert(late[i].0 == latest_starts(jobs)[late[i].1 as int]);
        assert(late[i].0 <= now);
    }
    lemma_sum_entering(known_late, jobs, now, done, begun);
    lemma_sum_by_concat(known_late, rest_late, begun);
    assert forall|i: int| 0 <= i < rest_late.len() implies begun(
        (#[trigger] rest_late[i]).1 as int,
    ) == 0 by {
        let at = state.late_position + i;
        assert(rest_late[i] == late[at]);
        assert(late[at].0 == latest_starts(jobs)[late[at].1 as int]);
        assert(late[at].0 > now);
    }
    lemma_sum_by_zero(rest_late, begun);
    assert(sum_by(state.started, done) == total(count, begun));
    // together
    assert forall|j: int| 0 <= j < count implies #[trigger] both(j) == finished(j) + begun(j) by {}
    lemma_total_add(count, finished, begun, both);
    assert forall|j: int| 0 <= j < count implies #[trigger] both(j) <= done(j) by {
        assert(jobs[j].earliest_start <= starts[j] <= jobs[j].latest_start);
        assert(jobs[j].execution_time > 0);
    }
    lemma_total_le(count, both, done);
}

/// In every schedule, the work that was executed by the current time of the load test is at
/// most the sum of the execution times of the jobs whose earliest start has come.
proof fn lemma_cap_by_arrived(jobs: Seq<Job>, starts: Seq<int>, num_cores: int, state: LoadState)
    requires
        scheduled(jobs, starts, num_cores),
        state_shaped(jobs, state),
        later_from(by_earliest_start(jobs), state.early_position, state.current_time),
    ensures
        work_done(jobs, starts, state.current_time) <= state.finished_load + execution_sum(
            state.running,
            jobs,
        ),
{
    let early = by_earliest_start(jobs);
    let now = state.current_time;
    let count = jobs.len() as int;
    let done = done_term(jobs, starts, now);
    let finished = |j: int|
        if jobs[j].latest_finish() > now {
            0
        } else {
            jobs[j].execution_time as int
        };
    let whole = |j: int| jobs[j].execution_time as int;
    let whole_left = |j: int|
        if jobs[j].latest_finish() > now {
            jobs[j].execution_time as int
        } else {
            0
        };
    lemma_orders(jobs);
    lemma_sum_by_all(early, jobs, earliest_starts(jobs), done);
    let known = early.take(state.early_position);
    let rest = early.skip(state.early_position);
    assert(known + rest == early);
    assert forall|i: int| 0 <= i < state.running.len() implies whole(
        (#[trigger] state.running[i]).1 as int,
    ) == jobs[state.running[i].1 as int].execution_time by {}
    lemma_sum_execution(state.running, jobs, whole);
    assert forall|i: int| 0 <= i < known.len() implies whole_left((#[trigger] known[i]).1 as int)
        == if jobs[known[i].1 as int].latest_finish() > now {
        whole(known[i].1 as int)
    } else {
        0
    } by {}
    lemma_sum_entering(known, jobs, now, whole, whole_left);
    assert forall|i: int| 0 <= i < known.len() implies finished((#[trigger] known[i]).1 as int)
        == if jobs[known[i].1 as int].latest_finish() > now {
        0
    } else {
        jobs[known[i].1 as int].execution_time as int
    } by {}
    lemma_sum_finished(known, jobs, now, finished);
    assert forall|i: int| 0 <= i < known.len() implies whole((#[trigger] known[i]).1 as int)
        == finished(known[i].1 as int) + whole_left(known[i].1 as int) by {}
    lemma_sum_by_add(known, finished, whole_left, whole);
    assert forall|i: int| 0 <= i < known.len() implies done((#[trigger] known[i]).1 as int)
        <= whole(known[i].1 as int) by {
        assert(known[i] == early[i]);
        assert(jobs[early[i].1 as int].within_limits());
    }
    lemma_sum_by_le(known, done, whole);
    lemma_sum_by_concat(known, rest, done);
    assert forall|i: int| 0 <= i < rest.len() implies done((#[trigger] rest[i]).1 as int) == 0 by {
        let at = state.early_position + i;
        let j = early[at].1 as int;
        assert(rest[i] == early[at]);
        assert(early[at].0 == earliest_starts(jobs)[j]);
        assert(early[at].0 > now);
        assert(jobs[j].earliest_start <= starts[j] <= jobs[j].latest_start);
    }
    lemma_sum_by_zero(rest, done);
}

/// In every schedule, the work that is executed during a step of the load test is at most
/// the time that the jobs that may be running and the jobs that arrive can execute.
proof fn lemma_cap_by_load(jobs: Seq<Job>, starts: Seq<int>, num_cores: int, state: LoadState)
    requires
        scheduled(jobs, starts, num_cores),
        state_shaped(jobs, state),
        state.time_index < event_times(jobs).len(),
    ensures
        work_done(jobs, starts, event_times(jobs)[state.time_index] as int) <= work_done(
            jobs,
            starts,
            state.current_time,
        ) + passed_load(state.running, event_times(jobs)[state.time_index] - state.current_time)
            + arrived_load(
            by_earliest_start(jobs).subrange(
                state.early_position,
                load_step(jobs, num_cores, state).early_position,
            ),
            jobs,
            event_times(jobs)[state.time_index] as int,
        ),
{
    let after = load_step(jobs, num_cores, state);
    let early = by_earliest_start(jobs);
    let now = state.current_time;
    let next = event_times(jobs)[state.time_index] as int;
    let spent = next - now;
    let count = jobs.len() as int;
    lemma_step_shaped(jobs, starts, num_cores, state);
    let before = done_term(jobs, starts, now);
    let done = done_term(jobs, starts, next);
    let gained = |j: int| done_by(jobs[j], starts[j], next) - done_by(jobs[j], starts[j], now);
    let passed = |j: int| smaller(spent, jobs[j].latest_finish() - now);
    let passed_left = |j: int|
        if jobs[j].latest_finish() > now {
            smaller(spent, jobs[j].latest_finish() - now)
        } else {
            0
        };
    let fresh = |j: int|
        if jobs[j].latest_finish() > next {
            smaller(jobs[j].execution_time as int, next - jobs[j].earliest_start)
        } else {
            jobs[j].execution_time as int
        };
    assert forall|j: int| 0 <= j < count implies #[trigger] done(j) == before(j) + gained(j) by {}
    lemma_total_add(count, before, gained, done);
    lemma_orders(jobs);
    lemma_sum_by_all(early, jobs, earliest_starts(jobs), gained);
    let known = early.take(state.early_position);
    let arrived = early.subrange(state.early_position, after.early_position);
    let rest = early.skip(after.early_position);
    assert(known + arrived + rest == early);
    lemma_sum_by_concat(known + arrived, rest, gained);
    lemma_sum_by_concat(known, arrived, gained);
    // the jobs that may be running
    lemma_time_in_reach(jobs, now);
    lemma_time_in_reach(jobs, next);
    assert(names_jobs(known, count)) by {
        assert forall|i: int| 0 <= i < known.len() implies (#[trigger] known[i]).1 < count by {
            assert(known[i] == early[i]);
        }
    }
    lemma_advance_entered(known, jobs, now, spent);
    assert forall|i: int| 0 <= i < state.running.len() implies passed(
        (#[trigger] state.running[i]).1 as int,
    ) == smaller(spent, state.running[i].0 as int) by {}
    lemma_sum_passed(state.running, spent, passed);
    assert forall|i: int| 0 <= i < known.len() implies passed_left((#[trigger] known[i]).1 as int)
        == if jobs[known[i].1 as int].latest_finish() > now {
        passed(known[i].1 as int)
    } else {
        0
    } by {}
    lemma_sum_entering(known, jobs, now, passed, passed_left);
    assert forall|i: int| 0 <= i < known.len() implies gained((#[trigger] known[i]).1 as int)
        <= passed_left(known[i].1 as int) by {
        let j = known[i].1 as int;
        assert(known[i] == early[i]);
        assert(jobs[j].within_limits());
        assert(jobs[j].earliest_start <= starts[j] <= jobs[j].latest_start);
    }
    lemma_sum_by_le(known, gained, passed_left);
    // the jobs that arrive
    assert forall|i: int| 0 <= i < arrived.len() implies fresh((#[trigger] arrived[i]).1 as int)
        == if jobs[arrived[i].1 as int].latest_finish() > next {
        smaller(
            jobs[arrived[i].1 as int].execution_time as int,
            next - jobs[arrived[i].1 as int].earliest_start,
        )
    } else {
        jobs[arrived[i].1 as int].execution_time as int
    } by {}
    lemma_sum_arrived(arrived, jobs, next, fresh);
    assert forall|i: int| 0 <= i < arrived.len() implies gained((#[trigger] arrived[i]).1 as int)
        <= fresh(arrived[i].1 as int) by {
        let at = state.early_position + i;
        let j = early[at].1 as int;
        assert(arrived[i] == early[at]);
        assert(early[at].0 == earliest_starts(jobs)[j]);
        assert(jobs[j].within_limits());
        assert(jobs[j].earliest_start <= starts[j] <= jobs[j].latest_start);
    }
    lemma_sum_by_le(arrived, gained, fresh);
    // the jobs that have not arrived
    assert forall|i: int| 0 <= i < rest.len() implies gained((#[trigger] rest[i]).1 as int)
        == 0 by {
        let at = after.early_position + i;
        let j = early[at].1 as int;
        assert(rest[i] == early[at]);
        assert(early[at].0 == earliest_starts(jobs)[j]);
        assert(early[at].0 > next);
        assert(jobs[j].earliest_start <= starts[j] <= jobs[j].latest_start);
    }
    lemma_sum_by_zero(rest, gained);
}

/// The earliest arrival of a step of the load test
pub open spec fn step_arrival(jobs: Seq<Job>, num_cores: int, state: LoadState) -> int {
    let after = load_step(jobs, num_cores, state);
    let next = event_times(jobs)[state.time_index] as int;
    larger(
        arrival_of(
            after.running,
            jobs,
            arrived_early(
                by_earliest_start(jobs).subrange(state.early_position, after.early_position),
                jobs,
                next,
                arrival_of(state.running, jobs, next),
            ),
        ),
        state.current_time,
    )
}

/// In every schedule, no job executes during a step of the load test before the earliest
/// arrival of the step.
proof fn lemma_idle_before_arrival(
    jobs: Seq<Job>,
    starts: Seq<int>,
    num_cores: int,
    state: LoadState,
    t: int,
)
    requires
        scheduled(jobs, starts, num_cores),
        state_shaped(jobs, state),
        state.time_index < event_times(jobs).len(),
        state.current_time <= t < step_arrival(jobs, num_cores, state),
    ensures
        busy_cores(jobs, starts, t) == 0,
{
    let after = load_step(jobs, num_cores, state);
    let early = by_earliest_start(jobs);
    let now = state.current_time;
    let next = event_times(jobs)[state.time_index] as int;
    let count = jobs.len() as int;
    lemma_step_shaped(jobs, starts, num_cores, state);
    lemma_orders(jobs);
    lemma_sum_by_all(early, jobs, earliest_starts(jobs), running_term(jobs, starts, t));
    let known = early.take(state.early_position);
    let arrived = early.subrange(state.early_position, after.early_position);
    let first = arrival_of(state.running, jobs, next);
    let second = arrived_early(arrived, jobs, next, first);
    let arrival = arrival_of(after.running, jobs, second);
    lemma_arrival(state.running, jobs, next);
    lemma_arrived_early(arrived, jobs, next, first);
    lemma_arrival(after.running, jobs, second);
    let running = running_term(jobs, starts, t);
    assert forall|j: int| 0 <= j < count implies #[trigger] running(j) == 0 by {
        if starts[j] <= t < starts[j] + jobs[j].execution_time {
            assert(jobs[j].earliest_start <= starts[j] <= jobs[j].latest_start);
            let at = lemma_listed_position(early, jobs, earliest_starts(jobs), j);
            assert(early[at].0 == jobs[j].earliest_start);
            if at < state.early_position {
                assert(known[at] == early[at]);
                let position = lemma_entering_holds(known, jobs, now, at);
                assert(state.running[position].1 == j);
                assert(first <= jobs[state.running[position].1 as int].earliest_start);
            } else if at < after.early_position {
                let index = at - state.early_position;
                assert(arrived[index] == early[at]);
                if jobs[j].latest_finish() <= next {
                    assert(second <= jobs[arrived[index].1 as int].earliest_start);
                } else {
                    let taken = early.take(after.early_position);
                    assert(taken[at] == early[at]);
                    let position = lemma_entering_holds(taken, jobs, next, at);
                    assert(after.running[position].1 == j);
                    assert(arrival <= jobs[after.running[position].1 as int].earliest_start);
                }
            } else {
                assert(early[at].0 > next);
            }
        }
    }
    lemma_total_zero(count, running);
    lemma_busy_is_total(jobs, starts, t, count);
    assert(jobs.take(count) == jobs);
    assert(starts.take(count) == starts);
}

/// In every schedule, the work that is executed during a step of the load test is at most
/// what the cores can execute from the earliest arrival of the step on.
proof fn lemma_cap_by_cores(jobs: Seq<Job>, starts: Seq<int>, num_cores: int, state: LoadState)
    requires
        scheduled(jobs, starts, num_cores),
        state_shaped(jobs, state),
        state.time_index < event_times(jobs).len(),
    ensures
        work_done(jobs, starts, event_times(jobs)[state.time_index] as int) <= work_done(
            jobs,
            starts,
            state.current_time,
        ) + num_cores * (event_times(jobs)[state.time_index] - step_arrival(
            jobs,
            num_cores,
            state,
        )),
{
    let after = load_step(jobs, num_cores, state);
    let now = state.current_time;
    let next = event_times(jobs)[state.time_index] as int;
    let arrival = step_arrival(jobs, num_cores, state);
    lemma_step_shaped(jobs, starts, num_cores, state);
    let arrived = by_earliest_start(jobs).subrange(state.early_position, after.early_position);
    let first = arrival_of(state.running, jobs, next);
    let second = arrived_early(arrived, jobs, next, first);
    lemma_arrival(state.running, jobs, next);
    lemma_arrived_early(arrived, jobs, next, first);
    lemma_arrival(after.running, jobs, second);
    assert(now <= arrival <= next);
    assert forall|j: int| 0 <= j < jobs.len() implies (#[trigger] jobs[j]).execution_time > 0 by {
        assert(jobs[j].within_limits());
    }
    lemma_work_between(jobs, starts, now, next);
    assert forall|t: int| now <= t < arrival implies busy_cores(jobs, starts, t) == 0 by {
        lemma_idle_before_arrival(jobs, starts, num_cores, state, t);
    }
    lemma_busy_sum_bound(jobs, starts, num_cores, now, arrival, next);
}

/// Whether the load test knows what it is meant to know, and its upper bound is at least the
/// work that was executed by its current time if the jobs start at the times of `starts`
pub open spec fn state_fits(jobs: Seq<Job>, starts: Seq<int>, state: LoadState) -> bool {
    &&& state_shaped(jobs, state)
    &&& work_done(jobs, starts, state.current_time) <= state.maximum_load
}

/// In every schedule, the work that was executed by a time of interest lies between the two
/// bounds of the load test.
pub proof fn lemma_load_step_bounds(
    jobs: Seq<Job>,
    starts: Seq<int>,
    num_cores: int,
    state: LoadState,
)
    requires
        scheduled(jobs, starts, num_cores),
        state_fits(jobs, starts, state),
        state.time_index < event_times(jobs).len(),
    ensures
        state_fits(jobs, starts, load_step(jobs, num_cores, state)),
        load_step(jobs, num_cores, state).minimum_load <= work_done(
            jobs,
            starts,
            load_step(jobs, num_cores, state).current_time,
        ) <= load_step(jobs, num_cores, state).maximum_load,
{
    let after = load_step(jobs, num_cores, state);
    lemma_step_shaped(jobs, starts, num_cores, state);
    lemma_minimum_load(jobs, starts, num_cores, after);
    lemma_cap_by_arrived(jobs, starts, num_cores, after);
    lemma_cap_by_load(jobs, starts, num_cores, state);
    lemma_cap_by_cores(jobs, starts, num_cores, state);
}

/// In every schedule, the load test finds no overload.
proof fn lemma_no_overload(jobs: Seq<Job>, starts: Seq<int>, num_cores: int, state: LoadState)
    requires
        scheduled(jobs, starts, num_cores),
        state_fits(jobs, starts, state),
    ensures
        !overload_found(jobs, num_cores, state),
    decreases event_times(jobs).len() - state.time_index,
{
    if state.time_index < event_times(jobs).len() {
        lemma_load_step_bounds(jobs, starts, num_cores, state);
        lemma_no_overload(jobs, starts, num_cores, load_step(jobs, num_cores, state));
    }
}

/// Jobs that are released from time 0 on and fail the load test have no schedule: whatever
/// their start times within the bounds are, more jobs execute at some time than there are
/// cores.
pub proof fn lemma_load_test_is_sound(jobs: Seq<Job>, num_cores: int)
    requires
        fit_for_load(jobs),
        released_from_zero(jobs),
        num_cores >= 0,
        load_test_fails(jobs, num_cores),
    ensures
        fits_in_no_way(jobs, num_cores),
{
    assert forall|starts: Seq<int>|
        !(#[trigger] within_bounds(jobs, starts) && fits_cores(jobs, starts, num_cores)) by {
        if within_bounds(jobs, starts) && fits_cores(jobs, starts, num_cores) {
            let state = initial_load_state();
            let count = jobs.len() as int;
            let done = done_term(jobs, starts, 0);
            assert forall|j: int| 0 <= j < count implies #[trigger] done(j) == 0 by {
                assert(jobs[j].earliest_start <= starts[j] <= jobs[j].latest_start);
            }
            lemma_total_zero(count, done);
            assert(by_earliest_start(jobs).take(0) == Seq::<TimedJob>::empty());
            assert(by_latest_start(jobs).take(0) == Seq::<TimedJob>::empty());
            assert(state_shaped(jobs, state));
            lemma_no_overload(jobs, starts, num_cores, state);
        }
    }
}

} // verus!

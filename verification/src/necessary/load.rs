//! The feasibility load test: at each time of interest, the work that must have been executed
//! is compared with the work that can have been executed.

use crate::necessary::work::{lemma_load_test_is_sound, released_from_zero};
use crate::problem::{indices_match, Job, Problem, Time, MAX_COUNT, MAX_DURATION, MAX_TIME};
use crate::schedule::fits_in_no_way;
use crate::sort::{
    ascending, in_ascending_order, in_timed_order, lemma_ascending_unique,
    lemma_in_ascending_order, lemma_in_timed_order, lemma_timed_order_unique, sort_timed_jobs,
    sort_times, TimedJob,
};
use crate::sorted_job_iterator::{valued_jobs, SortedJobIterator};
use vstd::prelude::*;

verus! {

/// The smaller of two numbers
pub open spec fn smaller(a: int, b: int) -> int {
    if a <= b {
        a
    } else {
        b
    }
}

/// The larger of two numbers
pub open spec fn larger(a: int, b: int) -> int {
    if a >= b {
        a
    } else {
        b
    }
}

/// The latest start and the latest finish of each job
pub open spec fn bounds_of(jobs: Seq<Job>) -> Seq<Time>
    decreases jobs.len(),
{
    if jobs.len() == 0 {
        Seq::empty()
    } else {
        bounds_of(jobs.drop_last()).push(jobs.last().latest_start).push(
            jobs.last().latest_finish() as Time,
        )
    }
}

/// `values` without the elements that are 0
pub open spec fn without_zero(values: Seq<Time>) -> Seq<Time>
    decreases values.len(),
{
    if values.len() == 0 {
        Seq::empty()
    } else if values.last() == 0 {
        without_zero(values.drop_last())
    } else {
        without_zero(values.drop_last()).push(values.last())
    }
}

/// `values` without each element that is equal to the element before it
pub open spec fn without_repeats(values: Seq<Time>) -> Seq<Time>
    decreases values.len(),
{
    if values.len() == 0 {
        Seq::empty()
    } else if values.len() >= 2 && values[values.len() - 2] == values.last() {
        without_repeats(values.drop_last())
    } else {
        without_repeats(values.drop_last()).push(values.last())
    }
}

/// The times of interest: each latest start and each latest finish of a job once, in
/// ascending order, but for time 0
pub open spec fn event_times(jobs: Seq<Job>) -> Seq<Time> {
    without_repeats(in_ascending_order(without_zero(bounds_of(jobs))))
}

/// The jobs with their earliest start, in ascending order of it
pub open spec fn by_earliest_start(jobs: Seq<Job>) -> Seq<TimedJob> {
    in_timed_order(Seq::new(jobs.len(), |i: int| (jobs[i].earliest_start, jobs[i].index)))
}

/// The jobs with their latest start, in ascending order of it
pub open spec fn by_latest_start(jobs: Seq<Job>) -> Seq<TimedJob> {
    in_timed_order(Seq::new(jobs.len(), |i: int| (jobs[i].latest_start, jobs[i].index)))
}

/// The earliest of `bound` and the earliest starts of the jobs of `items`
pub open spec fn arrival_of(items: Seq<TimedJob>, jobs: Seq<Job>, bound: int) -> int
    decreases items.len(),
{
    if items.len() == 0 {
        bound
    } else {
        smaller(
            arrival_of(items.drop_last(), jobs, bound),
            jobs[items.last().1 as int].earliest_start as int,
        )
    }
}

/// The jobs of `items` that may still run after `spent` time has passed, with what is left
/// of the time that each of them can run at most
pub open spec fn advanced(items: Seq<TimedJob>, spent: int) -> Seq<TimedJob>
    decreases items.len(),
{
    if items.len() == 0 {
        Seq::empty()
    } else if items.last().0 > spent {
        advanced(items.drop_last(), spent).push(((items.last().0 - spent) as Time, items.last().1))
    } else {
        advanced(items.drop_last(), spent)
    }
}

/// The sum of the execution times of the jobs of `items` that are certainly finished after
/// `spent` time has passed
pub open spec fn retired_load(items: Seq<TimedJob>, spent: int, jobs: Seq<Job>) -> int
    decreases items.len(),
{
    if items.len() == 0 {
        0
    } else if items.last().0 > spent {
        retired_load(items.drop_last(), spent, jobs)
    } else {
        retired_load(items.drop_last(), spent, jobs) + jobs[items.last().1 as int].execution_time
    }
}

/// The time that the jobs of `items` can have executed at most while `spent` time passed
pub open spec fn passed_load(items: Seq<TimedJob>, spent: int) -> int
    decreases items.len(),
{
    if items.len() == 0 {
        0
    } else if items.last().0 > spent {
        passed_load(items.drop_last(), spent) + spent
    } else {
        passed_load(items.drop_last(), spent) + items.last().0
    }
}

/// The position behind the items of `sorted` that follow each other from position `from`
/// on and whose time is at most `time`
pub open spec fn reach(sorted: Seq<TimedJob>, from: int, time: int) -> int
    decreases sorted.len() - from,
{
    if 0 <= from < sorted.len() && sorted[from].0 <= time {
        reach(sorted, from + 1, time)
    } else {
        from
    }
}

/// The jobs of `items` whose latest finish lies after `time`, each with the time from `time`
/// to its latest finish
pub open spec fn entering(items: Seq<TimedJob>, jobs: Seq<Job>, time: int) -> Seq<TimedJob>
    decreases items.len(),
{
    if items.len() == 0 {
        Seq::empty()
    } else if jobs[items.last().1 as int].latest_finish() > time {
        entering(items.drop_last(), jobs, time).push(
            ((jobs[items.last().1 as int].latest_finish() - time) as Time, items.last().1),
        )
    } else {
        entering(items.drop_last(), jobs, time)
    }
}

/// The sum of the execution times of the jobs of `items` whose latest finish does not lie
/// after `time`
pub open spec fn arrived_finished_load(items: Seq<TimedJob>, jobs: Seq<Job>, time: int) -> int
    decreases items.len(),
{
    if items.len() == 0 {
        0
    } else if jobs[items.last().1 as int].latest_finish() > time {
        arrived_finished_load(items.drop_last(), jobs, time)
    } else {
        arrived_finished_load(items.drop_last(), jobs, time)
            + jobs[items.last().1 as int].execution_time
    }
}

/// The time that the jobs of `items` can have executed at most by `time`, if none of them
/// executed before
pub open spec fn arrived_load(items: Seq<TimedJob>, jobs: Seq<Job>, time: int) -> int
    decreases items.len(),
{
    if items.len() == 0 {
        0
    } else {
        let job = jobs[items.last().1 as int];
        arrived_load(items.drop_last(), jobs, time) + if job.latest_finish() > time {
            smaller(job.execution_time as int, time - job.earliest_start)
        } else {
            job.execution_time as int
        }
    }
}

/// The earliest of `bound` and the earliest starts of the jobs of `items` whose latest
/// finish does not lie after `time`
pub open spec fn arrived_early(items: Seq<TimedJob>, jobs: Seq<Job>, time: int, bound: int) -> int
    decreases items.len(),
{
    if items.len() == 0 {
        bound
    } else {
        let job = jobs[items.last().1 as int];
        let rest = arrived_early(items.drop_last(), jobs, time, bound);
        if job.latest_finish() > time {
            rest
        } else {
            smaller(rest, job.earliest_start as int)
        }
    }
}

/// The jobs of `items` that are not certainly finished after `spent` time has passed, each
/// with the time from `time` to its latest finish
pub open spec fn renewed(
    items: Seq<TimedJob>,
    spent: int,
    jobs: Seq<Job>,
    time: int,
) -> Seq<TimedJob>
    decreases items.len(),
{
    if items.len() == 0 {
        Seq::empty()
    } else if items.last().0 > spent {
        renewed(items.drop_last(), spent, jobs, time).push(
            ((jobs[items.last().1 as int].latest_finish() - time) as Time, items.last().1),
        )
    } else {
        renewed(items.drop_last(), spent, jobs, time)
    }
}

/// The sum of the execution times of the jobs of `items`
pub open spec fn execution_sum(items: Seq<TimedJob>, jobs: Seq<Job>) -> int
    decreases items.len(),
{
    if items.len() == 0 {
        0
    } else {
        execution_sum(items.drop_last(), jobs) + jobs[items.last().1 as int].execution_time
    }
}

/// The number of jobs that must have finished if `count` jobs have started on `num_cores`
/// cores
pub open spec fn surplus(count: int, num_cores: int) -> int {
    if num_cores < count {
        count - num_cores
    } else {
        0
    }
}

/// The time that the jobs of `items` have executed at least: the first `finished` of them
/// for their whole execution time, the others for all but the time that is left to them
pub open spec fn minimum_spent(items: Seq<TimedJob>, jobs: Seq<Job>, finished: int) -> int
    decreases items.len(),
{
    if items.len() == 0 {
        0
    } else {
        minimum_spent(items.drop_last(), jobs, finished) + if items.len() - 1 < finished {
            jobs[items.last().1 as int].execution_time as int
        } else {
            jobs[items.last().1 as int].execution_time - items.last().0
        }
    }
}

/// What the load test asks of a problem: each job carries its position as index, and the
/// limits on the number of jobs and on their times hold.
pub open spec fn fit_for_load(jobs: Seq<Job>) -> bool {
    &&& indices_match(jobs)
    &&& jobs.len() <= MAX_COUNT
    &&& forall|i: int| 0 <= i < jobs.len() ==> (#[trigger] jobs[i]).within_limits()
}

/// Whether each of `items` names a job, with the time from `time` to its latest finish,
/// which lies after `time`
pub open spec fn items_valid(items: Seq<TimedJob>, jobs: Seq<Job>, time: int) -> bool {
    forall|i: int|
        0 <= i < items.len() ==> {
            &&& (#[trigger] items[i]).1 < jobs.len()
            &&& items[i].0 == jobs[items[i].1 as int].latest_finish() - time
            &&& items[i].0 > 0
        }
}

/// Whether each of `items` names a job
pub open spec fn items_name_jobs(items: Seq<TimedJob>, jobs: Seq<Job>) -> bool {
    forall|i: int| 0 <= i < items.len() ==> (#[trigger] items[i]).1 < jobs.len()
}

/// The largest distance from time 0 of a time of interest: `MAX_TIME + MAX_DURATION`
pub const MAX_EVENT_TIME: Time = 0x2000_0080_0000_0000;

/// The largest distance between two times of interest
pub const MAX_SPAN: Time = 0x4000_0100_0000_0000;

/// The earliest of `bound` and the earliest starts of the jobs of `items`
fn earliest_arrival(items: &Vec<TimedJob>, jobs: &Vec<Job>, bound: Time) -> (arrival: Time)
    requires
        items_name_jobs(items@, jobs@),
    ensures
        arrival == arrival_of(items@, jobs@, bound as int),
{
    let mut arrival = bound;
    let mut index: usize = 0;
    while index < items.len()
        invariant
            index <= items@.len(),
            items_name_jobs(items@, jobs@),
            arrival == arrival_of(items@.take(index as int), jobs@, bound as int),
        decreases items@.len() - index,
    {
        assert(items@.take(index + 1).drop_last() == items@.take(index as int));
        let earliest_start = jobs[items[index].1].earliest_start;
        if earliest_start < arrival {
            arrival = earliest_start;
        }
        index += 1;
    }
    assert(items@.take(items@.len() as int) == items@);
    arrival
}

/// Lets `spent` time pass for the jobs that are possibly running.
fn advance_running(
    items: &Vec<TimedJob>,
    spent: Time,
    jobs: &Vec<Job>,
    time: Ghost<int>,
) -> (result: (Vec<TimedJob>, i128, i128))
    requires
        fit_for_load(jobs@),
        items@.len() <= MAX_COUNT,
        items_valid(items@, jobs@, time@),
        -MAX_EVENT_TIME <= time@ <= MAX_EVENT_TIME,
        -MAX_EVENT_TIME <= time@ + spent <= MAX_EVENT_TIME,
    ensures
        result.0@ == advanced(items@, spent as int),
        result.1 == retired_load(items@, spent as int, jobs@),
        result.2 == passed_load(items@, spent as int),
        items_valid(result.0@, jobs@, time@ + spent),
        result.0@.len() <= items@.len(),
        0 <= result.1 <= (items@.len() - result.0@.len()) * MAX_DURATION,
        -items@.len() * MAX_SPAN <= result.2 <= items@.len() * MAX_SPAN,
{
    let mut kept: Vec<TimedJob> = Vec::new();
    let mut finished: i128 = 0;
    let mut load: i128 = 0;
    let mut index: usize = 0;
    while index < items.len()
        invariant
            index <= items@.len(),
            fit_for_load(jobs@),
            items@.len() <= MAX_COUNT,
            items_valid(items@, jobs@, time@),
            -MAX_EVENT_TIME <= time@ <= MAX_EVENT_TIME,
            -MAX_EVENT_TIME <= time@ + spent <= MAX_EVENT_TIME,
            kept@ == advanced(items@.take(index as int), spent as int),
            finished == retired_load(items@.take(index as int), spent as int, jobs@),
            load == passed_load(items@.take(index as int), spent as int),
            items_valid(kept@, jobs@, time@ + spent),
            kept@.len() <= index,
            0 <= finished <= (index - kept@.len()) * MAX_DURATION,
            -index * MAX_SPAN <= load <= index * MAX_SPAN,
        decreases items@.len() - index,
    {
        assert(items@.take(index + 1).drop_last() == items@.take(index as int));
        let (remaining, job) = items[index];
        assert(jobs@[job as int].within_limits());
        if remaining > spent {
            load += spent as i128;
            kept.push((remaining - spent, job));
        } else {
            finished += jobs[job].execution_time as i128;
            load += remaining as i128;
        }
        index += 1;
    }
    assert(items@.take(items@.len() as int) == items@);
    (kept, finished, load)
}

/// Renews the time that is left to the jobs that certainly started, and drops those that
/// are certainly finished after `spent` time has passed.
fn renew_started(items: &Vec<TimedJob>, spent: Time, jobs: &Vec<Job>, next_time: Time, time: Ghost<
    int,
>) -> (kept: Vec<TimedJob>)
    requires
        fit_for_load(jobs@),
        items_valid(items@, jobs@, time@),
        next_time == time@ + spent,
        -MAX_EVENT_TIME <= time@ <= MAX_EVENT_TIME,
        -MAX_EVENT_TIME <= next_time <= MAX_EVENT_TIME,
    ensures
        kept@ == renewed(items@, spent as int, jobs@, next_time as int),
        items_valid(kept@, jobs@, next_time as int),
        kept@.len() <= items@.len(),
{
    let mut kept: Vec<TimedJob> = Vec::new();
    let mut index: usize = 0;
    while index < items.len()
        invariant
            index <= items@.len(),
            fit_for_load(jobs@),
            items_valid(items@, jobs@, time@),
            next_time == time@ + spent,
            -MAX_EVENT_TIME <= time@ <= MAX_EVENT_TIME,
            -MAX_EVENT_TIME <= next_time <= MAX_EVENT_TIME,
            kept@ == renewed(items@.take(index as int), spent as int, jobs@, next_time as int),
            items_valid(kept@, jobs@, next_time as int),
            kept@.len() <= index,
        decreases items@.len() - index,
    {
        assert(items@.take(index + 1).drop_last() == items@.take(index as int));
        let (remaining, job) = items[index];
        assert(jobs@[job as int].within_limits());
        if remaining > spent {
            let latest_finish = jobs[job].latest_start + jobs[job].execution_time;
            kept.push((latest_finish - next_time, job));
        }
        index += 1;
    }
    assert(items@.take(items@.len() as int) == items@);
    kept
}

/// The sum of the execution times of the jobs of `items`
fn sum_execution_times(items: &Vec<TimedJob>, jobs: &Vec<Job>) -> (sum: i128)
    requires
        fit_for_load(jobs@),
        items_name_jobs(items@, jobs@),
        items@.len() <= MAX_COUNT,
    ensures
        sum == execution_sum(items@, jobs@),
        0 <= sum <= items@.len() * MAX_DURATION,
{
    let mut sum: i128 = 0;
    let mut index: usize = 0;
    while index < items.len()
        invariant
            index <= items@.len(),
            fit_for_load(jobs@),
            items_name_jobs(items@, jobs@),
            items@.len() <= MAX_COUNT,
            sum == execution_sum(items@.take(index as int), jobs@),
            0 <= sum <= index * MAX_DURATION,
        decreases items@.len() - index,
    {
        assert(items@.take(index + 1).drop_last() == items@.take(index as int));
        let job = items[index].1;
        assert(jobs@[job as int].within_limits());
        sum += jobs[job].execution_time as i128;
        index += 1;
    }
    assert(items@.take(items@.len() as int) == items@);
    sum
}

/// The time that the jobs that certainly started have executed at least. Since at most
/// `num_cores` of them can be running, the others must have finished, and those are the ones
/// with the least time left.
fn sum_minimum_spent(
    items: &Vec<TimedJob>,
    jobs: &Vec<Job>,
    num_cores: u32,
    time: Ghost<int>,
) -> (sum: i128)
    requires
        fit_for_load(jobs@),
        items_valid(items@, jobs@, time@),
        items@.len() <= MAX_COUNT,
        -MAX_EVENT_TIME <= time@ <= MAX_EVENT_TIME,
    ensures
        sum == minimum_spent(items@, jobs@, surplus(items@.len() as int, num_cores as int)),
        -items@.len() * MAX_SPAN <= sum <= items@.len() * MAX_DURATION,
{
    let count = items.len();
    let finished: usize = if (num_cores as u64) < (count as u64) {
        count - num_cores as usize
    } else {
        0
    };
    let mut sum: i128 = 0;
    let mut index: usize = 0;
    while index < count
        invariant
            index <= count,
            count == items@.len(),
            fit_for_load(jobs@),
            items_valid(items@, jobs@, time@),
            items@.len() <= MAX_COUNT,
            -MAX_EVENT_TIME <= time@ <= MAX_EVENT_TIME,
            finished == surplus(count as int, num_cores as int),
            sum == minimum_spent(items@.take(index as int), jobs@, finished as int),
            -index * MAX_SPAN <= sum <= index * MAX_DURATION,
        decreases count - index,
    {
        assert(items@.take(index + 1).drop_last() == items@.take(index as int));
        let (remaining, job) = items[index];
        assert(jobs@[job as int].within_limits());
        if index < finished {
            sum += jobs[job].execution_time as i128;
        } else {
            sum += jobs[job].execution_time as i128 - remaining as i128;
        }
        index += 1;
    }
    assert(items@.take(count as int) == items@);
    sum
}

/// Whether each of `values` is at most `MAX_EVENT_TIME` from time 0
pub open spec fn within_event_range(values: Seq<Time>) -> bool {
    forall|i: int|
        0 <= i < values.len() ==> -MAX_EVENT_TIME <= #[trigger] values[i] <= MAX_EVENT_TIME
}

/// Sequences with the same elements agree on whether all of them are within the range of the
/// times of interest.
proof fn lemma_same_range(a: Seq<Time>, b: Seq<Time>)
    requires
        a.to_multiset() == b.to_multiset(),
        within_event_range(b),
    ensures
        within_event_range(a),
{
    a.to_multiset_ensures();
    b.to_multiset_ensures();
    assert forall|i: int| 0 <= i < a.len() implies -MAX_EVENT_TIME <= #[trigger] a[i]
        <= MAX_EVENT_TIME by {
        assert(a.contains(a[i]));
        assert(a.to_multiset().count(a[i]) > 0);
        assert(b.contains(a[i]));
    }
}

/// Collects the times of interest of `jobs`.
fn times_of_interest(jobs: &Vec<Job>) -> (times: Vec<Time>)
    requires
        fit_for_load(jobs@),
    ensures
        times@ == event_times(jobs@),
        within_event_range(times@),
        times@.len() <= 2 * jobs@.len(),
{
    let mut collected: Vec<Time> = Vec::new();
    let mut index: usize = 0;
    while index < jobs.len()
        invariant
            index <= jobs@.len(),
            fit_for_load(jobs@),
            collected@ == without_zero(bounds_of(jobs@.take(index as int))),
            within_event_range(collected@),
            collected@.len() <= 2 * index,
        decreases jobs@.len() - index,
    {
        let job = jobs[index];
        assert(job.within_limits());
        let latest_finish = job.latest_start + job.execution_time;
        proof {
            let before = bounds_of(jobs@.take(index as int));
            assert(jobs@.take(index + 1).drop_last() == jobs@.take(index as int));
            assert(bounds_of(jobs@.take(index + 1)) == before.push(job.latest_start).push(
                latest_finish,
            ));
            let first = before.push(job.latest_start);
            let second = first.push(latest_finish);
            assert(second.drop_last() == first);
            assert(first.drop_last() == before);
            assert(first.last() == job.latest_start);
            assert(second.last() == latest_finish);
            assert(without_zero(first) == if job.latest_start == 0 {
                without_zero(before)
            } else {
                without_zero(before).push(job.latest_start)
            });
            assert(without_zero(second) == if latest_finish == 0 {
                without_zero(first)
            } else {
                without_zero(first).push(latest_finish)
            });
        }
        if job.latest_start != 0 {
            collected.push(job.latest_start);
        }
        if latest_finish != 0 {
            collected.push(latest_finish);
        }
        index += 1;
    }
    assert(jobs@.take(jobs@.len() as int) == jobs@);
    let ghost unsorted = collected@;
    sort_times(&mut collected);
    proof {
        lemma_ascending_unique(collected@, unsorted);
        lemma_same_range(collected@, unsorted);
        lemma_in_ascending_order(unsorted);
    }
    let mut times: Vec<Time> = Vec::new();
    let mut index: usize = 0;
    while index < collected.len()
        invariant
            index <= collected@.len(),
            within_event_range(collected@),
            times@ == without_repeats(collected@.take(index as int)),
            within_event_range(times@),
            times@.len() <= index,
        decreases collected@.len() - index,
    {
        assert(collected@.take(index + 1).drop_last() == collected@.take(index as int));
        if index == 0 || collected[index - 1] != collected[index] {
            times.push(collected[index]);
        }
        index += 1;
    }
    assert(collected@.take(collected@.len() as int) == collected@);
    times
}

/// Takes from `iterator` the jobs whose earliest start is at most `next_time`. Those that
/// can still be running are added to `running`; the others are certainly finished.
/// Returns the load of the jobs that are certainly finished, the time that the taken jobs can
/// have executed at most, and the earliest of `arrival` and the earliest starts of the
/// jobs that are certainly finished.
#[verifier::rlimit(40)]
fn admit_early(
    iterator: &mut SortedJobIterator,
    jobs: &Vec<Job>,
    next_time: Time,
    running: &mut Vec<TimedJob>,
    arrival: Time,
) -> (result: (i128, i128, Time))
    requires
        old(iterator).wf(),
        old(iterator).items().len() <= MAX_COUNT,
        items_name_jobs(old(iterator).items(), jobs@),
        fit_for_load(jobs@),
        -MAX_EVENT_TIME <= next_time <= MAX_EVENT_TIME,
        items_valid(old(running)@, jobs@, next_time as int),
        old(running)@.len() <= old(iterator).position(),
    ensures
        final(iterator).wf(),
        final(iterator).items() == old(iterator).items(),
        final(iterator).position() == reach(
            old(iterator).items(),
            old(iterator).position(),
            next_time as int,
        ),
        old(iterator).position() <= final(iterator).position(),
        final(running)@ == old(running)@ + entering(
            old(iterator).items().subrange(old(iterator).position(), final(iterator).position()),
            jobs@,
            next_time as int,
        ),
        result.0 == arrived_finished_load(
            old(iterator).items().subrange(old(iterator).position(), final(iterator).position()),
            jobs@,
            next_time as int,
        ),
        result.1 == arrived_load(
            old(iterator).items().subrange(old(iterator).position(), final(iterator).position()),
            jobs@,
            next_time as int,
        ),
        result.2 == arrived_early(
            old(iterator).items().subrange(old(iterator).position(), final(iterator).position()),
            jobs@,
            next_time as int,
            arrival as int,
        ),
        items_valid(final(running)@, jobs@, next_time as int),
        old(running)@.len() <= final(running)@.len(),
        0 <= result.0,
        result.0 <= (final(iterator).position() - old(iterator).position() - (
        final(running)@.len() - old(running)@.len())) * MAX_DURATION,
        -(final(iterator).position() - old(iterator).position()) * MAX_SPAN <= result.1,
        result.1 <= (final(iterator).position() - old(iterator).position()) * MAX_DURATION,
{
    let ghost items = iterator.items();
    let ghost from = iterator.position();
    let ghost running_before = running@;
    let mut finished: i128 = 0;
    let mut load: i128 = 0;
    let first_arrival = arrival;
    let mut arrival = arrival;
    loop
        invariant
            iterator.wf(),
            iterator.items() == items,
            items.len() <= MAX_COUNT,
            items_name_jobs(items, jobs@),
            fit_for_load(jobs@),
            -MAX_EVENT_TIME <= next_time <= MAX_EVENT_TIME,
            0 <= from <= iterator.position(),
            reach(items, from, next_time as int) == reach(
                items,
                iterator.position(),
                next_time as int,
            ),
            running@ == running_before + entering(
                items.subrange(from, iterator.position()),
                jobs@,
                next_time as int,
            ),
            finished == arrived_finished_load(
                items.subrange(from, iterator.position()),
                jobs@,
                next_time as int,
            ),
            load == arrived_load(
                items.subrange(from, iterator.position()),
                jobs@,
                next_time as int,
            ),
            arrival == arrived_early(
                items.subrange(from, iterator.position()),
                jobs@,
                next_time as int,
                first_arrival as int,
            ),
            items_valid(running@, jobs@, next_time as int),
            running_before.len() <= running@.len(),
            0 <= finished <= (iterator.position() - from - (running@.len() - running_before.len()))
                * MAX_DURATION,
            -(iterator.position() - from) * MAX_SPAN <= load <= (iterator.position() - from)
                * MAX_DURATION,
        ensures
            iterator.position() == reach(items, from, next_time as int),
        decreases items.len() - iterator.position(),
    {
        let ghost position = iterator.position();
        let admits = |time: Time| -> (admitted: bool)
            ensures
                admitted == (time <= next_time),
            {
                time <= next_time
            };
        let found = iterator.next(admits);
        match found {
            Some(job) => {
                proof {
                    assert(items.subrange(from, position + 1).drop_last() == items.subrange(
                        from,
                        position,
                    ));
                    assert(items.subrange(from, position + 1).last() == items[position]);
                    assert(items[position].1 == job);
                    assert(jobs@[job as int].within_limits());
                }
                let early_job = jobs[job];
                let latest_finish = early_job.latest_start + early_job.execution_time;
                if latest_finish > next_time {
                    running.push((latest_finish - next_time, job));
                    let passed = next_time as i128 - early_job.earliest_start as i128;
                    if (early_job.execution_time as i128) <= passed {
                        load += early_job.execution_time as i128;
                    } else {
                        load += passed;
                    }
                } else {
                    finished += early_job.execution_time as i128;
                    load += early_job.execution_time as i128;
                    if early_job.earliest_start < arrival {
                        arrival = early_job.earliest_start;
                    }
                }
            },
            None => {
                break ;
            },
        }
    }
    (finished, load, arrival)
}

/// Takes from `iterator` the jobs whose latest start is at most `next_time`, and adds those
/// that are not certainly finished to `started`.
fn admit_late(
    iterator: &mut SortedJobIterator,
    jobs: &Vec<Job>,
    next_time: Time,
    started: &mut Vec<TimedJob>,
)
    requires
        old(iterator).wf(),
        items_name_jobs(old(iterator).items(), jobs@),
        fit_for_load(jobs@),
        -MAX_EVENT_TIME <= next_time <= MAX_EVENT_TIME,
        items_valid(old(started)@, jobs@, next_time as int),
        old(started)@.len() <= old(iterator).position(),
    ensures
        final(iterator).wf(),
        final(iterator).items() == old(iterator).items(),
        final(iterator).position() == reach(
            old(iterator).items(),
            old(iterator).position(),
            next_time as int,
        ),
        old(iterator).position() <= final(iterator).position(),
        final(started)@ == old(started)@ + entering(
            old(iterator).items().subrange(old(iterator).position(), final(iterator).position()),
            jobs@,
            next_time as int,
        ),
        items_valid(final(started)@, jobs@, next_time as int),
        final(started)@.len() <= final(iterator).position(),
{
    let ghost items = iterator.items();
    let ghost from = iterator.position();
    let ghost started_before = started@;
    loop
        invariant
            iterator.wf(),
            iterator.items() == items,
            items_name_jobs(items, jobs@),
            fit_for_load(jobs@),
            -MAX_EVENT_TIME <= next_time <= MAX_EVENT_TIME,
            0 <= from <= iterator.position(),
            reach(items, from, next_time as int) == reach(
                items,
                iterator.position(),
                next_time as int,
            ),
            started@ == started_before + entering(
                items.subrange(from, iterator.position()),
                jobs@,
                next_time as int,
            ),
            items_valid(started@, jobs@, next_time as int),
            started@.len() <= iterator.position(),
        ensures
            iterator.position() == reach(items, from, next_time as int),
        decreases items.len() - iterator.position(),
    {
        let ghost position = iterator.position();
        let admits = |time: Time| -> (admitted: bool)
            ensures
                admitted == (time <= next_time),
            {
                time <= next_time
            };
        let found = iterator.next(admits);
        match found {
            Some(job) => {
                proof {
                    assert(items.subrange(from, position + 1).drop_last() == items.subrange(
                        from,
                        position,
                    ));
                    assert(items.subrange(from, position + 1).last() == items[position]);
                    assert(items[position].1 == job);
                    assert(jobs@[job as int].within_limits());
                }
                let late_job = jobs[job];
                let latest_finish = late_job.latest_start + late_job.execution_time;
                if latest_finish > next_time {
                    started.push((latest_finish - next_time, job));
                }
            },
            None => {
                break ;
            },
        }
    }
}

/// What a step of the load test found
#[derive(PartialEq, Eq, Copy, Clone, Debug, Structural)]
pub enum LoadResult {
    /// The last time of interest was handled without a contradiction.
    Finished,
    /// No contradiction was found so far, and times of interest are left.
    Running,
    /// More work must have been executed than can have been executed.
    CertainlyInfeasible,
}

/// What the load test knows at a time of interest
pub struct LoadState {
    /// The time of interest that was handled last, or 0
    pub current_time: int,
    /// The number of times of interest that were handled
    pub time_index: int,
    /// The number of jobs whose earliest start is not after the current time
    pub early_position: int,
    /// The number of jobs whose latest start is not after the current time
    pub late_position: int,
    /// The sum of the execution times of the jobs that are certainly finished
    pub finished_load: int,
    /// A lower bound on the work that was executed by the current time
    pub minimum_load: int,
    /// An upper bound on the work that was executed by the current time
    pub maximum_load: int,
    /// The jobs that may be running, each with the time to its latest finish
    pub running: Seq<TimedJob>,
    /// The jobs that certainly started and may not have finished, each with the time to its
    /// latest finish, in ascending order of that time
    pub started: Seq<TimedJob>,
}

/// The state of the load test before the first time of interest
pub open spec fn initial_load_state() -> LoadState {
    LoadState {
        current_time: 0,
        time_index: 0,
        early_position: 0,
        late_position: 0,
        finished_load: 0,
        minimum_load: 0,
        maximum_load: 0,
        running: Seq::empty(),
        started: Seq::empty(),
    }
}

/// The state of the load test after the next time of interest was handled
pub open spec fn load_step(jobs: Seq<Job>, num_cores: int, state: LoadState) -> LoadState {
    let next = event_times(jobs)[state.time_index] as int;
    let spent = next - state.current_time;
    let early = by_earliest_start(jobs);
    let late = by_latest_start(jobs);
    let early_position = reach(early, state.early_position, next);
    let late_position = reach(late, state.late_position, next);
    let arrived = early.subrange(state.early_position, early_position);
    let running = advanced(state.running, spent) + entering(arrived, jobs, next);
    let finished_load = state.finished_load + retired_load(state.running, spent, jobs)
        + arrived_finished_load(arrived, jobs, next);
    let load = passed_load(state.running, spent) + arrived_load(arrived, jobs, next);
    let started = in_timed_order(
        renewed(state.started, spent, jobs, next) + entering(
            late.subrange(state.late_position, late_position),
            jobs,
            next,
        ),
    );
    let arrival = larger(
        arrival_of(
            running,
            jobs,
            arrived_early(arrived, jobs, next, arrival_of(state.running, jobs, next)),
        ),
        state.current_time,
    );
    LoadState {
        current_time: next,
        time_index: state.time_index + 1,
        early_position,
        late_position,
        finished_load,
        minimum_load: finished_load + minimum_spent(
            started,
            jobs,
            surplus(started.len() as int, num_cores),
        ),
        maximum_load: smaller(
            state.maximum_load + smaller(num_cores * (next - arrival), load),
            finished_load + execution_sum(running, jobs),
        ),
        running,
        started,
    }
}

/// Whether the load test finds, at one of the times of interest that are left, that more
/// work must have been executed than can have been executed
pub open spec fn overload_found(jobs: Seq<Job>, num_cores: int, state: LoadState) -> bool
    decreases event_times(jobs).len() - state.time_index,
{
    if 0 <= state.time_index < event_times(jobs).len() {
        let next = load_step(jobs, num_cores, state);
        next.minimum_load > next.maximum_load || overload_found(jobs, num_cores, next)
    } else {
        false
    }
}

/// Whether the load test proves that the jobs cannot be scheduled on `num_cores` cores
pub open spec fn load_test_fails(jobs: Seq<Job>, num_cores: int) -> bool {
    overload_found(jobs, num_cores, initial_load_state())
}

/// Sequences with the same items agree on whether the items are valid.
proof fn lemma_items_valid(sorted: Seq<TimedJob>, items: Seq<TimedJob>, jobs: Seq<Job>, time: int)
    requires
        sorted.to_multiset() == items.to_multiset(),
        items_valid(items, jobs, time),
    ensures
        items_valid(sorted, jobs, time),
        sorted.len() == items.len(),
{
    sorted.to_multiset_ensures();
    items.to_multiset_ensures();
    assert forall|i: int| 0 <= i < sorted.len() implies {
        &&& (#[trigger] sorted[i]).1 < jobs.len()
        &&& sorted[i].0 == jobs[sorted[i].1 as int].latest_finish() - time
        &&& sorted[i].0 > 0
    } by {
        assert(sorted.contains(sorted[i]));
        assert(sorted.to_multiset().count(sorted[i]) > 0);
        assert(items.contains(sorted[i]));
        let j = choose|j: int| 0 <= j < items.len() && items[j] == sorted[i];
        assert(items[j].1 < jobs.len());
    }
}

/// The jobs in the order of a value name jobs.
proof fn lemma_ordered_jobs(jobs: Seq<Job>, values: Seq<Time>)
    requires
        indices_match(jobs),
        values.len() == jobs.len(),
    ensures
        items_name_jobs(in_timed_order(valued_jobs(jobs, values)), jobs),
        in_timed_order(valued_jobs(jobs, values)).len() == jobs.len(),
{
    let items = valued_jobs(jobs, values);
    let sorted = in_timed_order(items);
    lemma_in_timed_order(items);
    sorted.to_multiset_ensures();
    items.to_multiset_ensures();
    assert forall|i: int| 0 <= i < sorted.len() implies (#[trigger] sorted[i]).1 < jobs.len() by {
        assert(sorted.contains(sorted[i]));
        assert(sorted.to_multiset().count(sorted[i]) > 0);
        assert(items.contains(sorted[i]));
        let j = choose|j: int| 0 <= j < items.len() && items[j] == sorted[i];
        assert(items[j].1 == jobs[j].index);
    }
}

/// The feasibility load test of a problem, which handles one time of interest at a time
pub struct LoadTest<'a> {
    problem: &'a Problem,
    jobs_by_earliest_start: SortedJobIterator,
    jobs_by_latest_start: SortedJobIterator,
    times_of_interest: Vec<Time>,
    current_time: Time,
    time_index: usize,
    certainly_finished_jobs_load: i128,
    minimum_executed_load: i128,
    maximum_executed_load: i128,
    possibly_running_jobs: Vec<TimedJob>,
    certainly_started_jobs: Vec<TimedJob>,
}

impl<'a> LoadTest<'a> {
    /// The jobs of the problem
    pub closed spec fn jobs(&self) -> Seq<Job> {
        self.problem.jobs@
    }

    /// The number of cores of the problem
    pub closed spec fn num_cores(&self) -> int {
        self.problem.num_cores as int
    }

    /// What the test knows
    pub closed spec fn state(&self) -> LoadState {
        LoadState {
            current_time: self.current_time as int,
            time_index: self.time_index as int,
            early_position: self.jobs_by_earliest_start.position(),
            late_position: self.jobs_by_latest_start.position(),
            finished_load: self.certainly_finished_jobs_load as int,
            minimum_load: self.minimum_executed_load as int,
            maximum_load: self.maximum_executed_load as int,
            running: self.possibly_running_jobs@,
            started: self.certainly_started_jobs@,
        }
    }

    /// The jobs are in the two orders, the times of interest are collected, and what the test
    /// knows is within the limits that keep its sums representable.
    pub closed spec fn wf(&self) -> bool {
        let jobs = self.jobs();
        &&& fit_for_load(jobs)
        &&& self.jobs_by_earliest_start.wf()
        &&& self.jobs_by_latest_start.wf()
        &&& self.jobs_by_earliest_start.items() == by_earliest_start(jobs)
        &&& self.jobs_by_latest_start.items() == by_latest_start(jobs)
        &&& self.jobs_by_earliest_start.items().len() == jobs.len()
        &&& self.jobs_by_latest_start.items().len() == jobs.len()
        &&& items_name_jobs(self.jobs_by_earliest_start.items(), jobs)
        &&& items_name_jobs(self.jobs_by_latest_start.items(), jobs)
        &&& self.times_of_interest@ == event_times(jobs)
        &&& within_event_range(self.times_of_interest@)
        &&& self.times_of_interest@.len() <= 2 * jobs.len()
        &&& self.time_index <= self.times_of_interest@.len()
        &&& -MAX_EVENT_TIME <= self.current_time <= MAX_EVENT_TIME
        &&& items_valid(self.possibly_running_jobs@, jobs, self.current_time as int)
        &&& items_valid(self.certainly_started_jobs@, jobs, self.current_time as int)
        &&& self.possibly_running_jobs@.len() <= self.jobs_by_earliest_start.position()
        &&& self.certainly_started_jobs@.len() <= self.jobs_by_latest_start.position()
        &&& 0 <= self.certainly_finished_jobs_load <= (self.jobs_by_earliest_start.position()
            - self.possibly_running_jobs@.len()) * MAX_DURATION
        &&& -self.time_index * 0x1_0000_0000_0000_0000_0000_0000 <= self.maximum_executed_load
            <= MAX_COUNT * MAX_DURATION
    }

    /// Whether times of interest are left
    pub open spec fn has_next(&self) -> bool {
        self.state().time_index < event_times(self.jobs()).len()
    }

    /// Prepares the load test of `problem`.
    pub fn new(problem: &'a Problem) -> (test: Self)
        requires
            fit_for_load(problem.jobs@),
        ensures
            test.wf(),
            test.jobs() == problem.jobs@,
            test.num_cores() == problem.num_cores,
            test.state() == initial_load_state(),
    {
        let by_early = |job: &Job| -> (value: Time)
            ensures
                value == job.earliest_start,
            {
                job.earliest_start
            };
        let jobs_by_earliest_start = SortedJobIterator::new(&problem.jobs, by_early);
        let by_late = |job: &Job| -> (value: Time)
            ensures
                value == job.latest_start,
            {
                job.latest_start
            };
        let jobs_by_latest_start = SortedJobIterator::new(&problem.jobs, by_late);
        proof {
            let jobs = problem.jobs@;
            let values = choose|values: Seq<Time>|
                {
                    &&& values.len() == jobs.len()
                    &&& forall|i: int|
                        0 <= i < jobs.len()
                            ==> call_ensures(by_early, (&jobs[i],), #[trigger] values[i])
                    &&& jobs_by_earliest_start.items() == in_timed_order(valued_jobs(jobs, values))
                };
            assert(valued_jobs(jobs, values) =~= Seq::new(
                jobs.len(),
                |i: int| (jobs[i].earliest_start, jobs[i].index),
            )) by {
                assert forall|i: int| 0 <= i < jobs.len() implies values[i]
                    == jobs[i].earliest_start by {
                    assert(call_ensures(by_early, (&jobs[i],), values[i]));
                }
            }
            lemma_ordered_jobs(jobs, values);
            let values = choose|values: Seq<Time>|
                {
                    &&& values.len() == jobs.len()
                    &&& forall|i: int|
                        0 <= i < jobs.len()
                            ==> call_ensures(by_late, (&jobs[i],), #[trigger] values[i])
                    &&& jobs_by_latest_start.items() == in_timed_order(valued_jobs(jobs, values))
                };
            assert(valued_jobs(jobs, values) =~= Seq::new(
                jobs.len(),
                |i: int| (jobs[i].latest_start, jobs[i].index),
            )) by {
                assert forall|i: int| 0 <= i < jobs.len() implies values[i]
                    == jobs[i].latest_start by {
                    assert(call_ensures(by_late, (&jobs[i],), values[i]));
                }
            }
            lemma_ordered_jobs(jobs, values);
        }
        let times_of_interest = times_of_interest(&problem.jobs);
        LoadTest {
            problem,
            jobs_by_earliest_start,
            jobs_by_latest_start,
            times_of_interest,
            current_time: 0,
            time_index: 0,
            certainly_finished_jobs_load: 0,
            minimum_executed_load: 0,
            maximum_executed_load: 0,
            possibly_running_jobs: Vec::new(),
            certainly_started_jobs: Vec::new(),
        }
    }

    /// The time of interest that was handled last, or 0
    pub fn get_current_time(&self) -> (time: Time)
        ensures
            time == self.state().current_time,
    {
        self.current_time
    }

    /// The work that must have been executed by the current time
    pub fn get_minimum_executed_load(&self) -> (load: i128)
        ensures
            load == self.state().minimum_load,
    {
        self.minimum_executed_load
    }

    /// The work that can have been executed by the current time
    pub fn get_maximum_executed_load(&self) -> (load: i128)
        ensures
            load == self.state().maximum_load,
    {
        self.maximum_executed_load
    }

    /// Whether times of interest are left
    pub fn has_times_left(&self) -> (left: bool)
        requires
            self.wf(),
        ensures
            left == self.has_next(),
    {
        self.time_index < self.times_of_interest.len()
    }

    /// Handles the next time of interest: lets the time pass for the jobs that may be running
    /// and for those that certainly started, admits the jobs whose earliest start or latest
    /// start was reached, and compares the work that must have been executed with the work
    /// that can have been executed.
    #[verifier::rlimit(40)]
    pub fn next(&mut self) -> (result: LoadResult)
        requires
            old(self).wf(),
            old(self).has_next(),
        ensures
            final(self).wf(),
            final(self).jobs() == old(self).jobs(),
            final(self).num_cores() == old(self).num_cores(),
            final(self).state() == load_step(
                old(self).jobs(),
                old(self).num_cores(),
                old(self).state(),
            ),
            result == if final(self).state().minimum_load > final(self).state().maximum_load {
                LoadResult::CertainlyInfeasible
            } else if final(self).has_next() {
                LoadResult::Running
            } else {
                LoadResult::Finished
            },
    {
        let problem = self.problem;
        let jobs = &problem.jobs;
        let ghost before = self.state();
        let next_time = self.times_of_interest[self.time_index];
        self.time_index += 1;
        let spent = next_time - self.current_time;

        let first_arrival = earliest_arrival(&self.possibly_running_jobs, jobs, next_time);
        let (mut running, retired, passed) = advance_running(
            &self.possibly_running_jobs,
            spent,
            jobs,
            Ghost(self.current_time as int),
        );
        let (arrived_finished, arrived, arrival) = admit_early(
            &mut self.jobs_by_earliest_start,
            jobs,
            next_time,
            &mut running,
            first_arrival,
        );
        self.certainly_finished_jobs_load = self.certainly_finished_jobs_load + retired
            + arrived_finished;
        let load = passed + arrived;

        let mut started = renew_started(
            &self.certainly_started_jobs,
            spent,
            jobs,
            next_time,
            Ghost(self.current_time as int),
        );
        admit_late(&mut self.jobs_by_latest_start, jobs, next_time, &mut started);
        let ghost unsorted = started@;
        sort_timed_jobs(&mut started);
        proof {
            lemma_timed_order_unique(started@, unsorted);
            lemma_items_valid(started@, unsorted, jobs@, next_time as int);
        }
        let spent_at_least = sum_minimum_spent(
            &started,
            jobs,
            problem.num_cores,
            Ghost(next_time as int),
        );
        self.minimum_executed_load = self.certainly_finished_jobs_load + spent_at_least;

        let load_bound = self.certainly_finished_jobs_load + sum_execution_times(&running, jobs);
        let mut earliest_arrival = earliest_arrival(&running, jobs, arrival);
        if earliest_arrival < self.current_time {
            earliest_arrival = self.current_time;
        }
        let span = next_time as i128 - earliest_arrival as i128;
        assert(problem.num_cores * span <= 0x1_0000_0000 * 0x8000_0000_0000_0000
            && problem.num_cores * span >= -0x1_0000_0000 * 0x8000_0000_0000_0000)
            by (nonlinear_arith)
            requires
                0 <= problem.num_cores <= 0xffff_ffff,
                -0x8000_0000_0000_0000 <= span <= 0x8000_0000_0000_0000,
        ;
        let capacity = problem.num_cores as i128 * span;
        let step_load = if capacity <= load {
            capacity
        } else {
            load
        };
        let maximum = self.maximum_executed_load + step_load;
        self.maximum_executed_load = if maximum <= load_bound {
            maximum
        } else {
            load_bound
        };
        self.current_time = next_time;
        self.possibly_running_jobs = running;
        self.certainly_started_jobs = started;

        if self.minimum_executed_load > self.maximum_executed_load {
            LoadResult::CertainlyInfeasible
        } else if self.time_index < self.times_of_interest.len() {
            LoadResult::Running
        } else {
            LoadResult::Finished
        }
    }
}

/// Runs the Feasibility Load Test and returns `true` if `problem` is certainly infeasible. When
/// this function returns `false`, `problem` may or may not be feasible.
///
/// The Feasibility Load Test works by creating a set of potentially interesting intervals of time.
/// During each interval, it computes the minimum amount of time that must be spent on executing
/// jobs (assuming no deadlines are missed), as well as the maximum amount of time that can
/// possibly be spent on executing jobs.
///
/// If the minimum amount of time spent in any interval is larger than the maximum amount of time
/// spent in that interval, `problem` is certainly infeasible: if no job is released before time
/// 0, then no start times within the bounds keep the jobs on the cores.
pub fn run_feasibility_load_test(problem: &Problem) -> (infeasible: bool)
    requires
        fit_for_load(problem.jobs@),
    ensures
        infeasible == load_test_fails(problem.jobs@, problem.num_cores as int),
        infeasible && released_from_zero(problem.jobs@) ==> fits_in_no_way(
            problem.jobs@,
            problem.num_cores as int,
        ),
{
    let mut load_test = LoadTest::new(problem);
    loop
        invariant
            fit_for_load(problem.jobs@),
            load_test.wf(),
            load_test.jobs() == problem.jobs@,
            load_test.num_cores() == problem.num_cores,
            load_test_fails(problem.jobs@, problem.num_cores as int) == overload_found(
                problem.jobs@,
                problem.num_cores as int,
                load_test.state(),
            ),
        decreases event_times(problem.jobs@).len() - load_test.state().time_index,
    {
        if !load_test.has_times_left() {
            return false;
        }
        let result = load_test.next();
        if result == LoadResult::CertainlyInfeasible {
            proof {
                if released_from_zero(problem.jobs@) {
                    lemma_load_test_is_sound(problem.jobs@, problem.num_cores as int);
                }
            }
            return true;
        }
        if result == LoadResult::Finished {
            assert(!overload_found(
                problem.jobs@,
                problem.num_cores as int,
                load_test.state(),
            ));
            return false;
        }
    }
}

} // verus!

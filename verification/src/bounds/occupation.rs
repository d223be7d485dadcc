//! Bounds that follow from the cores that are certainly occupied.
//!
//! A job whose earliest finish lies after its latest start executes between these two times in
//! every schedule that meets its deadline. The timeline counts, for each time, the cores that
//! such jobs certainly occupy.

use crate::bounds::settled::{
    can_settle, keeps_settled, lemma_keeps_settled_at_first, lemma_nothing_settles,
    lemma_occupation_bounds, lemma_refined_keeps_settled, lemma_settles, occupation_bounds,
};
use crate::permutation::is_permutation;
use crate::problem::{some_job_infeasible, Job, Problem, Time, MAX_DURATION, MAX_TIME};
use crate::schedule::{
    fits_in_no_way, keeps_schedules, lemma_fits_in_no_way, lemma_refined_keeps_schedules,
};
use vstd::prelude::*;

verus! {

/// What `strengthen_bounds_using_core_occupation` found
#[derive(Debug, Copy, Clone, Eq, PartialEq, Structural)]
pub enum OccupationStrengthenResult {
    Unchanged,
    Modified,
    Infeasible,
}

/// A step of the timeline: from `start` up to the start of the next step, `num_cores` cores
/// are certainly occupied.
#[derive(Debug, Copy, Clone, Eq, PartialEq, Structural)]
pub struct OccupationInterval {
    pub start: Time,
    pub num_cores: u32,
}

/// What `OccupationTimeline::refine` did to a job
#[derive(Debug, Copy, Clone, Eq, PartialEq, Structural)]
pub enum RefineResult {
    Unchanged,
    ModifiedJob,
    ModifiedJobAndIntervals,
    Infeasible,
}

/// Whether each step starts before the next one
pub open spec fn starts_ascend(steps: Seq<OccupationInterval>) -> bool {
    forall|i: int, j: int| 0 <= i < j < steps.len() ==> steps[i].start < steps[j].start
}

/// Whether no step has the same number of cores as the next one
pub open spec fn coalesced(steps: Seq<OccupationInterval>) -> bool {
    forall|i: int|
        0 <= i < steps.len() - 1 ==> (#[trigger] steps[i]).num_cores != steps[i + 1].num_cores
}

/// The index of the last step that starts at or before time `t`, or -1 if there is none
pub open spec fn step_at(steps: Seq<OccupationInterval>, t: int) -> int
    decreases steps.len(),
{
    if steps.len() == 0 {
        -1
    } else if steps.last().start <= t {
        steps.len() - 1
    } else {
        step_at(steps.drop_last(), t)
    }
}

/// The number of cores that the steps hold for time `t`: none before the first step
pub open spec fn cores_at(steps: Seq<OccupationInterval>, t: int) -> int {
    let index = step_at(steps, t);
    if index < 0 {
        0
    } else {
        steps[index].num_cores as int
    }
}

/// 1 if `job` certainly runs at time `t`, else 0
pub open spec fn certain_load(job: Job, t: int) -> int {
    if job.certainly_runs_at(t) {
        1
    } else {
        0
    }
}

/// The step that holds a time is the one that starts at or before it, where the next starts
/// after it.
pub proof fn lemma_step_at(steps: Seq<OccupationInterval>, t: int, index: int)
    requires
        starts_ascend(steps),
        0 <= index < steps.len(),
        steps[index].start <= t,
        index + 1 < steps.len() ==> t < steps[index + 1].start,
    ensures
        step_at(steps, t) == index,
    decreases steps.len(),
{
    if index == steps.len() - 1 {
    } else {
        assert(steps[index + 1].start <= steps.last().start);
        assert(starts_ascend(steps.drop_last()));
        lemma_step_at(steps.drop_last(), t, index);
    }
}

/// The step that holds a time starts at or before it, and the next step starts after it.
pub proof fn lemma_step_at_holds(steps: Seq<OccupationInterval>, t: int)
    requires
        starts_ascend(steps),
    ensures
        -1 <= step_at(steps, t) < steps.len(),
        step_at(steps, t) >= 0 ==> steps[step_at(steps, t)].start <= t,
        step_at(steps, t) + 1 < steps.len() ==> t < steps[step_at(steps, t) + 1].start,
    decreases steps.len(),
{
    if steps.len() > 0 && steps.last().start > t {
        assert(starts_ascend(steps.drop_last()));
        lemma_step_at_holds(steps.drop_last(), t);
    }
}

/// The steps behind a step that does not start before a bound do not start before it either.
proof fn lemma_later_steps(steps: Seq<OccupationInterval>, index: int, bound: int)
    requires
        starts_ascend(steps),
        0 <= index < steps.len(),
        steps[index].start >= bound,
    ensures
        forall|i: int| index <= i < steps.len() ==> (#[trigger] steps[i]).start >= bound,
{
    assert forall|i: int| index <= i < steps.len() implies (#[trigger] steps[i]).start >= bound by {
        if i > index {
            assert(steps[index].start < steps[i].start);
        }
    }
}

/// The certainly occupied cores over time, as steps in ascending order of their start
#[derive(Debug, Clone)]
pub struct OccupationTimeline {
    intervals: Vec<OccupationInterval>,
    max_num_cores: u32,
}

/// Adds to `steps` the step that holds `num_cores` cores from `start` on, unless the last step
/// holds as many cores and so runs on.
fn push_step(steps: &mut Vec<OccupationInterval>, start: Time, num_cores: u32)
    requires
        old(steps)@.len() > 0 ==> old(steps)@.last().start < start,
        starts_ascend(old(steps)@),
        coalesced(old(steps)@),
    ensures
        starts_ascend(final(steps)@),
        coalesced(final(steps)@),
        final(steps)@.len() > 0,
        final(steps)@.last().num_cores == num_cores,
        final(steps)@.last().start <= start,
        final(steps)@[0].start == if old(steps)@.len() > 0 {
            old(steps)@[0].start
        } else {
            start
        },
        forall|t: int|
            cores_at(final(steps)@, t) == if t >= start {
                num_cores as int
            } else {
                cores_at(old(steps)@, t)
            },
        forall|i: int|
            0 <= i < final(steps)@.len() ==> (#[trigger] final(steps)@[i]).num_cores == num_cores
                || (i < old(steps)@.len() && final(steps)@[i] == old(steps)@[i]),
{
    let count = steps.len();
    if count > 0 && steps[count - 1].num_cores == num_cores {
        assert forall|t: int| t >= start implies cores_at(steps@, t) == num_cores by {
            lemma_step_at(steps@, t, count - 1);
        }
    } else {
        let ghost before = steps@;
        steps.push(OccupationInterval { start, num_cores });
        assert(steps@.drop_last() == before);
        assert forall|t: int|
            cores_at(steps@, t) == if t >= start {
                num_cores as int
            } else {
                cores_at(before, t)
            } by {
            assert(steps@.last().start == start);
            lemma_step_at_holds(before, t);
        }
        assert forall|i: int, j: int| 0 <= i < j < steps@.len() implies steps@[i].start
            < steps@[j].start by {
            if j == steps@.len() - 1 && i < j {
                assert(before[i].start <= before.last().start);
            }
        }
    }
}

impl OccupationTimeline {
    /// The steps of the timeline, in ascending order of their start
    pub closed spec fn steps(&self) -> Seq<OccupationInterval> {
        self.intervals@
    }

    /// The number of cores of the problem
    pub closed spec fn capacity(&self) -> u32 {
        self.max_num_cores
    }

    /// The timeline starts at time 0, its steps ascend, no step holds more cores than there
    /// are, no step holds as many cores as the next one, and the last step holds none.
    pub open spec fn wf(&self) -> bool {
        &&& self.steps().len() >= 1
        &&& self.steps()[0].start == 0
        &&& starts_ascend(self.steps())
        &&& coalesced(self.steps())
        &&& forall|i: int|
            0 <= i < self.steps().len() ==> (#[trigger] self.steps()[i]).num_cores
                <= self.capacity()
        &&& self.steps().last().num_cores == 0
    }

    /// The number of cores that are certainly occupied at time `t`
    pub open spec fn cores_at(&self, t: int) -> int {
        cores_at(self.steps(), t)
    }

    /// Whether every core is certainly occupied at time `t`
    pub open spec fn saturated_at(&self, t: int) -> bool {
        self.cores_at(t) == self.capacity()
    }

    /// Whether every core is certainly occupied at some time from `start` up to `bound`
    #[verifier::opaque]
    pub open spec fn saturated_within(&self, start: int, bound: int) -> bool {
        exists|t: int| start <= t < bound && self.saturated_at(t)
    }

    /// The start of the last step: from then on no core is certainly occupied
    pub open spec fn end(&self) -> int {
        self.steps().last().start as int
    }

    /// Creates the timeline of `num_cores` cores on which nothing is certainly occupied.
    pub fn new(num_cores: u32) -> (timeline: Self)
        ensures
            timeline.wf(),
            timeline.capacity() == num_cores,
            timeline.steps() == seq![OccupationInterval { start: 0, num_cores: 0 }],
            forall|t: int| timeline.cores_at(t) == 0,
    {
        let mut intervals = Vec::new();
        intervals.push(OccupationInterval { start: 0, num_cores: 0 });
        let timeline = OccupationTimeline { intervals, max_num_cores: num_cores };
        assert(timeline.steps() == seq![OccupationInterval { start: 0, num_cores: 0 }]);
        assert forall|t: int| timeline.cores_at(t) == 0 by {
            reveal_with_fuel(step_at, 2);
        }
        timeline
    }

    /// The steps of the timeline
    pub fn get_intervals(&self) -> (intervals: &Vec<OccupationInterval>)
        ensures
            intervals@ == self.steps(),
    {
        &self.intervals
    }

    /// The number of cores of the problem
    pub fn get_max_num_cores(&self) -> (num_cores: u32)
        ensures
            num_cores == self.capacity(),
    {
        self.max_num_cores
    }

    /// Adds the time during which `job` certainly executes, if there is any. Returns true if
    /// the problem is certainly infeasible, because more cores would be occupied at some time
    /// than there are. The timeline is then left as it was.
    #[verifier::rlimit(40)]
    pub fn insert(&mut self, job: Job) -> (overloaded: bool)
        requires
            old(self).wf(),
            job.wf(),
            job.earliest_finish() > job.latest_start ==> job.latest_start >= 0,
        ensures
            final(self).wf(),
            final(self).capacity() == old(self).capacity(),
            overloaded == exists|t: int| job.certainly_runs_at(t) && old(self).saturated_at(t),
            overloaded ==> final(self).steps() == old(self).steps(),
            !overloaded ==> forall|t: int|
                final(self).cores_at(t) == old(self).cores_at(t) + certain_load(job, t),
            final(self).end() <= old(self).end() || final(self).end() <= job.earliest_finish(),
    {
        let left = job.latest_start;
        let right = job.earliest_start + job.execution_time;
        if right <= left {
            return false;
        }
        let ghost before = self.intervals@;
        let capacity = self.max_num_cores;
        let count = self.intervals.len();
        let mut steps: Vec<OccupationInterval> = Vec::new();
        let mut index: usize = 0;
        assert forall|t: int| t < 0 implies cores_at(before, t) == 0 by {
            lemma_step_at_holds(before, t);
            if step_at(before, t) >= 0 {
                assert(before[0].start <= before[step_at(before, t)].start);
            }
        }
        while index < count
            invariant
                index <= count,
                count == before.len(),
                self.intervals@ == before,
                self.max_num_cores == capacity,
                old(self).wf(),
                before == old(self).steps(),
                capacity == old(self).capacity(),
                0 <= left < right,
                left == job.latest_start,
                right == job.earliest_finish(),
                starts_ascend(steps@),
                coalesced(steps@),
                index > 0 ==> steps@.len() > 0 && steps@[0].start == 0,
                index == 0 ==> steps@.len() == 0,
                index < count ==> (steps@.len() > 0 ==> steps@.last().start < before[index as
                    int].start),
                forall|i: int|
                    0 <= i < steps@.len() ==> (#[trigger] steps@[i]).num_cores <= capacity,
                forall|t: int|
                    (index < count ==> t < before[index as int].start) ==> cores_at(steps@, t)
                        == cores_at(before, t) + certain_load(job, t),
                forall|t: int|
                    (index < count ==> t < before[index as int].start) && job.certainly_runs_at(t)
                        ==> cores_at(before, t) < capacity,
                index == count ==> steps@.last().num_cores == 0,
                index == count ==> steps@.last().start <= before.last().start
                    || steps@.last().start <= right,
            decreases count - index,
        {
            let step = self.intervals[index];
            let last = index + 1 == count;
            let end = if last {
                Time::MAX
            } else {
                self.intervals[index + 1].start
            };
            let ghost previous = steps@;
            assert(index == 0 ==> step.start == 0);
            assert(!last ==> step.start < end);
            assert forall|t: int| step.start <= t && (!last ==> t < end) implies cores_at(before, t)
                == step.num_cores by {
                lemma_step_at(before, t, index as int);
            }
            assert forall|t: int| t < step.start implies cores_at(before, t) == 0 || (index > 0
                && step_at(before, t) < index) by {
                lemma_step_at_holds(before, t);
                if step_at(before, t) >= index as int {
                    assert(before[index as int].start <= before[step_at(before, t)].start);
                }
            }
            if step.start < left {
                push_step(&mut steps, step.start, step.num_cores);
            }
            let ghost first = steps@;
            let middle = if step.start < left {
                left
            } else {
                step.start
            };
            if middle < right && (last || middle < end) {
                if step.num_cores >= capacity {
                    assert(job.certainly_runs_at(middle as int));
                    assert(old(self).saturated_at(middle as int));
                    return true;
                }
                push_step(&mut steps, middle, step.num_cores + 1);
            }
            let ghost second = steps@;
            assert(second.len() > 0 && second[0].start == 0);
            let rest = if step.start < right {
                right
            } else {
                step.start
            };
            if last || rest < end {
                push_step(&mut steps, rest, step.num_cores);
            }
            index += 1;
        }
        self.intervals = steps;
        assert(!(exists|t: int| job.certainly_runs_at(t) && old(self).saturated_at(t)));
        false
    }

    /// Whether `job` cannot start at time `t`: while it would execute, there is a time at
    /// which every core is certainly occupied, and not by `job` itself.
    #[verifier::opaque]
    pub open spec fn excludes_start(&self, job: Job, t: int) -> bool {
        exists|w: int|
            t <= w < t + job.execution_time && self.saturated_at(w) && !job.certainly_runs_at(w)
    }

    /// The index of the step that holds time `t`
    fn step_index(&self, t: Time) -> (index: usize)
        requires
            self.wf(),
            t >= 0,
        ensures
            index == step_at(self.steps(), t as int),
            index < self.steps().len(),
    {
        let mut low: usize = 0;
        let mut high: usize = self.intervals.len();
        while high - low > 1
            invariant
                self.wf(),
                low < high <= self.intervals@.len(),
                self.intervals@[low as int].start <= t,
                high < self.intervals@.len() ==> t < self.intervals@[high as int].start,
            decreases high - low,
        {
            let middle = low + (high - low) / 2;
            if self.intervals[middle].start <= t {
                low = middle;
            } else {
                high = middle;
            }
        }
        proof {
            lemma_step_at(self.intervals@, t as int, low as int);
        }
        low
    }

    /// No core count is reached between two times if no step that holds one of the times
    /// between them has it.
    proof fn lemma_no_saturation(&self, start: int, bound: int, index: int)
        requires
            self.wf(),
            0 <= start < bound,
            0 <= index <= self.steps().len(),
            forall|i: int|
                step_at(self.steps(), start) <= i < index ==> (#[trigger] self.steps()[i]).num_cores
                    != self.capacity(),
            index < self.steps().len() ==> self.steps()[index].start >= bound,
        ensures
            !self.saturated_within(start, bound),
    {
        let steps = self.steps();
        reveal(OccupationTimeline::saturated_within);
        assert forall|t: int| start <= t < bound implies !self.saturated_at(t) by {
            lemma_step_at_holds(steps, t);
            lemma_step_at_holds(steps, start);
            let at = step_at(steps, t);
            let first = step_at(steps, start);
            assert(first >= 0) by {
                if first < 0 {
                    assert(steps[0].start <= start);
                }
            }
            assert(at >= first) by {
                if at < first {
                    assert(steps[at + 1].start <= steps[first].start);
                }
            }
            assert(at < index) by {
                if at >= index {
                    assert(steps[index].start <= steps[at].start);
                }
            }
        }
    }

    /// Finds the first step on which every core is certainly occupied, among the steps from
    /// the one that holds `start` on that start before `bound`. Where `start` lies before
    /// `bound`, these are the steps that hold a time from `start` up to `bound`.
    #[verifier::rlimit(40)]
    pub fn find_interruption(&self, start: Time, bound: Time) -> (interruption: Option<usize>)
        requires
            self.wf(),
            start >= 0,
        ensures
            match interruption {
                Some(index) => {
                    &&& step_at(self.steps(), start as int) <= index < self.steps().len()
                    &&& self.steps()[index as int].start < bound
                    &&& self.steps()[index as int].num_cores == self.capacity()
                    &&& forall|i: int|
                        step_at(self.steps(), start as int) <= i < index ==> (
                        #[trigger] self.steps()[i]).num_cores != self.capacity()
                },
                None => {
                    &&& forall|i: int|
                        step_at(self.steps(), start as int) <= i < self.steps().len() && (
                        #[trigger] self.steps()[i]).start < bound ==> self.steps()[i].num_cores
                            != self.capacity()
                    &&& start < bound ==> !self.saturated_within(start as int, bound as int)
                },
            },
    {
        let first = self.step_index(start);
        let count = self.intervals.len();
        let mut index = first;
        while index < count && self.intervals[index].start < bound
            invariant
                self.wf(),
                count == self.intervals@.len(),
                first <= index <= count,
                first == step_at(self.steps(), start as int),
                forall|i: int|
                    first <= i < index ==> (#[trigger] self.steps()[i]).num_cores
                        != self.capacity(),
            decreases count - index,
        {
            if self.intervals[index].num_cores == self.max_num_cores {
                return Some(index);
            }
            index += 1;
        }
        proof {
            if start < bound {
                self.lemma_no_saturation(start as int, bound as int, index as int);
            }
            if index < count {
                lemma_later_steps(self.steps(), index as int, bound as int);
            }
        }
        None
    }

    /// Finds the first step that holds a time from `start` up to `bound` and on which every
    /// core is certainly occupied.
    fn find_saturated(&self, start: Time, bound: Time) -> (interruption: Option<usize>)
        requires
            self.wf(),
            start >= 0,
        ensures
            match interruption {
                Some(index) => {
                    &&& start < bound
                    &&& step_at(self.steps(), start as int) <= index < self.steps().len()
                    &&& self.steps()[index as int].start < bound
                    &&& self.steps()[index as int].num_cores == self.capacity()
                },
                None => !self.saturated_within(start as int, bound as int),
            },
    {
        if start >= bound {
            proof {
                reveal(OccupationTimeline::saturated_within);
            }
            return None;
        }
        self.find_interruption(start, bound)
    }

    /// At no time more cores are certainly occupied than there are.
    pub proof fn lemma_cores_bounded(&self, t: int)
        requires
            self.wf(),
        ensures
            0 <= self.cores_at(t) <= self.capacity(),
    {
        lemma_step_at_holds(self.steps(), t);
    }

    /// A step on which every core is certainly occupied is not the last one, and the step
    /// behind it starts after every time that the step holds.
    proof fn lemma_saturated_step(&self, index: int, t: int)
        requires
            self.wf(),
            self.capacity() >= 1,
            0 <= index,
            step_at(self.steps(), t) <= index < self.steps().len(),
            self.steps()[index].num_cores == self.capacity(),
        ensures
            index + 1 < self.steps().len(),
            t < self.steps()[index + 1].start <= self.end(),
            0 <= self.steps()[index].start,
    {
        let steps = self.steps();
        lemma_step_at_holds(steps, t);
        if step_at(steps, t) < index {
            assert(steps[step_at(steps, t) + 1].start <= steps[index].start);
        }
        assert(steps[index + 1].start <= steps.last().start);
        assert(steps[0].start <= steps[index].start);
    }

    /// Whoever starts `job` at `t` executes at time `w`, at which every core is certainly
    /// occupied by other jobs.
    proof fn lemma_excluded_by(&self, job: Job, t: int, index: int, w: int)
        requires
            self.wf(),
            0 <= index < self.steps().len(),
            self.steps()[index].num_cores == self.capacity(),
            self.steps()[index].start <= w,
            index + 1 < self.steps().len() ==> w < self.steps()[index + 1].start,
            t <= w < t + job.execution_time,
            !job.certainly_runs_at(w),
        ensures
            self.excludes_start(job, t),
    {
        reveal(OccupationTimeline::excludes_start);
        lemma_step_at(self.steps(), w, index);
        assert(self.saturated_at(w));
    }

    /// Every core is certainly occupied at a time from `start` up to `bound` if a step on
    /// which every core is certainly occupied holds such a time.
    proof fn lemma_saturated_by(&self, index: int, w: int, start: int, bound: int)
        requires
            self.wf(),
            0 <= index < self.steps().len(),
            self.steps()[index].num_cores == self.capacity(),
            self.steps()[index].start <= w,
            index + 1 < self.steps().len() ==> w < self.steps()[index + 1].start,
            start <= w < bound,
        ensures
            self.saturated_within(start, bound),
    {
        reveal(OccupationTimeline::saturated_within);
        lemma_step_at(self.steps(), w, index);
        assert(self.saturated_at(w));
    }

    /// The start of the time up to the latest finish `finish` of a job that has to be free
    /// of certainly occupied cores: the latest start, or the earliest finish if that is later
    pub open spec fn late_bound(earliest_start: int, execution_time: int, finish: int) -> int {
        if finish - execution_time >= earliest_start + execution_time {
            finish - execution_time
        } else {
            earliest_start + execution_time
        }
    }

    /// Whether a job with the bounds of `old_job` cannot start at time `t` for the cores that
    /// are certainly occupied while it would execute, before the time from which `old_job`
    /// certainly executes itself
    pub open spec fn blocks_early_start(&self, old_job: Job, t: int) -> bool {
        self.saturated_within(t, Self::early_bound(old_job, t))
    }

    /// Whether the search for the earliest start of a job with the bounds of `old_job` stops
    /// at time `t`: no core that is certainly occupied blocks that start, or the job
    /// certainly executed from `t` on
    pub open spec fn stops_early_start(&self, old_job: Job, t: int) -> bool {
        ||| !self.blocks_early_start(old_job, t)
        ||| old_job.earliest_finish() > old_job.latest_start && t == old_job.latest_start
    }

    /// Whether `job` cannot start at time `t` for the cores that are certainly occupied
    /// while it would execute, behind the time up to which it executes if it starts as early
    /// as possible
    pub open spec fn blocks_late_start(&self, job: Job, t: int) -> bool {
        self.saturated_within(
            Self::late_bound(
                job.earliest_start as int,
                job.execution_time as int,
                t + job.execution_time,
            ),
            t + job.execution_time,
        )
    }

    /// The end of the time from the earliest start of a job on that has to be free of
    /// certainly occupied cores: the earliest finish, or the latest start that `old_job` had if
    /// it lies before that and `old_job` certainly executed from then on.
    pub open spec fn early_bound(old_job: Job, earliest_start: int) -> int {
        if old_job.earliest_finish() > old_job.latest_start && old_job.latest_start
            < earliest_start + old_job.execution_time {
            old_job.latest_start as int
        } else {
            earliest_start + old_job.execution_time
        }
    }

    /// Moves the earliest start of `job` behind the steps on which every core is certainly
    /// occupied and that the job would meet. Returns true if the earliest start stopped at the
    /// latest start, from which the job certainly executed before.
    #[verifier::rlimit(40)]
    fn advance_earliest_start(&self, job: &mut Job, old_job: Job) -> (capped: bool)
        requires
            self.wf(),
            self.capacity() >= 1,
            *old(job) == old_job,
            old_job.wf(),
            0 <= old_job.earliest_start < old_job.latest_start,
            self.end() + old_job.execution_time <= Time::MAX,
        ensures
            final(job).index == old_job.index,
            final(job).execution_time == old_job.execution_time,
            final(job).latest_start == old_job.latest_start,
            old_job.earliest_start <= final(job).earliest_start,
            final(job).earliest_start == old_job.earliest_start || final(job).earliest_start
                <= self.end(),
            old_job.earliest_finish() > old_job.latest_start ==> final(job).earliest_start
                <= old_job.latest_start,
            capped ==> final(job).earliest_start == old_job.latest_start
                && old_job.earliest_finish() > old_job.latest_start,
            !capped ==> !self.saturated_within(
                final(job).earliest_start as int,
                Self::early_bound(old_job, final(job).earliest_start as int),
            ),
            forall|t: int|
                old_job.earliest_start <= t < final(job).earliest_start ==> self.excludes_start(
                    old_job,
                    t,
                ),
            forall|t: int|
                old_job.earliest_start <= t < final(job).earliest_start
                    ==> #[trigger] self.saturated_within(t, Self::early_bound(old_job, t)),
    {
        let execution_time = job.execution_time;
        let was_certain = old_job.earliest_start + execution_time > old_job.latest_start;
        loop
            invariant
                self.wf(),
                self.capacity() >= 1,
                old_job.wf(),
                was_certain == (old_job.earliest_finish() > old_job.latest_start),
                execution_time == old_job.execution_time,
                self.end() + execution_time <= Time::MAX,
                job.index == old_job.index,
                job.execution_time == old_job.execution_time,
                job.latest_start == old_job.latest_start,
                0 <= old_job.earliest_start <= job.earliest_start,
                job.earliest_start == old_job.earliest_start || job.earliest_start <= self.end(),
                was_certain ==> job.earliest_start < old_job.latest_start,
                forall|t: int|
                    old_job.earliest_start <= t < job.earliest_start ==> self.excludes_start(
                        old_job,
                        t,
                    ),
                forall|t: int|
                    old_job.earliest_start <= t < job.earliest_start
                        ==> #[trigger] self.saturated_within(t, Self::early_bound(old_job, t)),
            decreases self.end() - job.earliest_start,
        {
            let mut interruption_bound = job.earliest_start + execution_time;
            if was_certain && old_job.latest_start < interruption_bound {
                interruption_bound = old_job.latest_start;
            }
            match self.find_saturated(job.earliest_start, interruption_bound) {
                Some(index) => {
                    let ghost previous = job.earliest_start;
                    proof {
                        self.lemma_saturated_step(index as int, previous as int);
                    }
                    let count = self.intervals.len();
                    assert(index + 1 < count);
                    let mut next = self.intervals[index + 1].start;
                    if was_certain && old_job.latest_start < next {
                        next = old_job.latest_start;
                    }
                    assert forall|t: int| previous <= t < next implies self.excludes_start(
                        old_job,
                        t,
                    ) by {
                        let w = if t < self.steps()[index as int].start {
                            self.steps()[index as int].start as int
                        } else {
                            t
                        };
                        self.lemma_excluded_by(old_job, t, index as int, w);
                    }
                    assert forall|t: int|
                        previous <= t < next implies #[trigger] self.saturated_within(
                        t,
                        Self::early_bound(old_job, t),
                    ) by {
                        let w = if t < self.steps()[index as int].start {
                            self.steps()[index as int].start as int
                        } else {
                            t
                        };
                        self.lemma_saturated_by(
                            index as int,
                            w,
                            t,
                            Self::early_bound(old_job, t),
                        );
                    }
                    job.earliest_start = next;
                    if was_certain && job.earliest_start == job.latest_start {
                        return true;
                    }
                },
                None => {
                    return false;
                },
            }
        }
    }

    /// Moves the latest start of `job` such that the job ends before the steps on which every
    /// core is certainly occupied and that it would meet behind its earliest finish.
    #[verifier::rlimit(40)]
    fn retreat_latest_start(&self, job: &mut Job, old_job: Job)
        requires
            self.wf(),
            self.capacity() >= 1,
            old_job.wf(),
            old(job).index == old_job.index,
            old(job).execution_time == old_job.execution_time,
            old(job).latest_start == old_job.latest_start,
            0 <= old_job.earliest_start <= old(job).earliest_start,
            old(job).earliest_start == old_job.earliest_start || old(job).earliest_start
                <= self.end(),
            old_job.earliest_start < old_job.latest_start,
            self.end() + old_job.execution_time <= Time::MAX,
        ensures
            final(job).index == old_job.index,
            final(job).execution_time == old_job.execution_time,
            final(job).earliest_start == old(job).earliest_start,
            final(job).latest_start <= old_job.latest_start,
            0 <= final(job).latest_finish(),
            old_job.earliest_finish() > old_job.latest_start ==> old_job.earliest_finish()
                <= final(job).latest_finish(),
            forall|t: int|
                final(job).latest_start < t <= old_job.latest_start ==> self.excludes_start(
                    old_job,
                    t,
                ),
            forall|t: int|
                final(job).latest_start < t <= old_job.latest_start && t
                    > final(job).earliest_start ==> #[trigger] self.saturated_within(
                    Self::late_bound(
                        old(job).earliest_start as int,
                        old_job.execution_time as int,
                        t + old_job.execution_time,
                    ),
                    t + old_job.execution_time,
                ),
            final(job).earliest_start == final(job).latest_start || !self.saturated_within(
                Self::late_bound(
                    old(job).earliest_start as int,
                    old_job.execution_time as int,
                    final(job).latest_finish(),
                ),
                final(job).latest_finish(),
            ),
    {
        let execution_time = job.execution_time;
        let old_finish = old_job.earliest_start + execution_time;
        let was_certain = old_finish > old_job.latest_start;
        let earliest = job.earliest_start;
        loop
            invariant
                self.wf(),
                self.capacity() >= 1,
                old_job.wf(),
                old_finish == old_job.earliest_finish(),
                was_certain == (old_finish > old_job.latest_start),
                execution_time == old_job.execution_time,
                self.end() + execution_time <= Time::MAX,
                job.index == old_job.index,
                job.execution_time == old_job.execution_time,
                job.earliest_start == old(job).earliest_start,
                0 <= old_job.earliest_start <= job.earliest_start,
                job.earliest_start == old_job.earliest_start || job.earliest_start <= self.end(),
                job.latest_start <= old_job.latest_start,
                0 <= job.latest_finish(),
                was_certain ==> old_finish <= job.latest_finish(),
                forall|t: int|
                    job.latest_start < t <= old_job.latest_start ==> self.excludes_start(
                        old_job,
                        t,
                    ),
                earliest == job.earliest_start,
                forall|t: int|
                    job.latest_start < t <= old_job.latest_start && t > earliest
                        ==> #[trigger] self.saturated_within(
                        Self::late_bound(
                            earliest as int,
                            execution_time as int,
                            t + execution_time,
                        ),
                        t + execution_time,
                    ),
            decreases job.latest_finish(),
        {
            let earliest_finish = job.earliest_start + execution_time;
            let latest_finish = job.latest_start + execution_time;
            let start = if job.latest_start < earliest_finish {
                earliest_finish
            } else {
                job.latest_start
            };
            match self.find_saturated(start, latest_finish) {
                Some(index) => {
                    let ghost previous = job.latest_start;
                    proof {
                        self.lemma_saturated_step(index as int, start as int);
                    }
                    let mut finish = self.intervals[index].start;
                    if was_certain && finish < old_finish {
                        finish = old_finish;
                    }
                    assert forall|t: int|
                        finish - execution_time < t <= previous implies self.excludes_start(
                        old_job,
                        t,
                    ) by {
                        let a = if t < self.steps()[index as int].start {
                            self.steps()[index as int].start as int
                        } else {
                            t
                        };
                        let w = if was_certain && a < old_finish {
                            old_finish as int
                        } else {
                            a
                        };
                        self.lemma_excluded_by(old_job, t, index as int, w);
                    }
                    assert forall|t: int|
                        finish - execution_time < t <= previous && t
                            > earliest implies #[trigger] self.saturated_within(
                        Self::late_bound(
                            earliest as int,
                            execution_time as int,
                            t + execution_time,
                        ),
                        t + execution_time,
                    ) by {
                        let from = Self::late_bound(
                            earliest as int,
                            execution_time as int,
                            t + execution_time,
                        );
                        let w = if from < self.steps()[index as int].start {
                            self.steps()[index as int].start as int
                        } else {
                            from
                        };
                        self.lemma_saturated_by(index as int, w, from, t + execution_time);
                    }
                    job.latest_start = finish - execution_time;
                    if was_certain && job.earliest_start == job.latest_start {
                        return ;
                    }
                },
                None => {
                    return ;
                },
            }
        }
    }

    /// Tightens the bounds of `job` as far as the certainly occupied cores allow: the job can
    /// neither start nor end while every core is certainly occupied by other jobs. The time
    /// during which `job` certainly executes is kept up to date on the timeline.
    ///
    /// The result is `Infeasible` if no start time is left, or if the job would certainly
    /// execute at a time at which every core is certainly occupied already.
    #[verifier::rlimit(40)]
    pub fn refine(&mut self, job: &mut Job) -> (result: RefineResult)
        requires
            old(self).wf(),
            old(self).capacity() >= 1,
            old(job).wf(),
            old(job).earliest_start < old(job).latest_start ==> old(job).earliest_start >= 0,
            old(self).end() + old(job).execution_time <= Time::MAX,
        ensures
            final(self).wf(),
            final(self).capacity() == old(self).capacity(),
            final(self).end() <= old(self).end() || final(self).end() <= old(job).latest_finish(),
            final(job).tightens(*old(job)),
            final(job).wf(),
            old(job).earliest_start >= old(job).latest_start ==> result == RefineResult::Unchanged,
            forall|t: int|
                old(job).earliest_start <= t < final(job).earliest_start
                    ==> old(self).excludes_start(*old(job), t),
            forall|t: int|
                final(job).latest_start < t <= old(job).latest_start ==> old(self).excludes_start(
                    *old(job),
                    t,
                ),
            old(job).earliest_start < old(job).latest_start ==> {
                &&& forall|t: int|
                    old(job).earliest_start <= t < final(job).earliest_start
                        ==> #[trigger] old(self).blocks_early_start(*old(job), t)
                &&& old(self).stops_early_start(*old(job), final(job).earliest_start as int)
                &&& forall|t: int|
                    final(job).latest_start < t <= old(job).latest_start && t
                        > final(job).earliest_start ==> #[trigger] old(self).blocks_late_start(
                        *final(job),
                        t,
                    )
                &&& final(job).earliest_start == final(job).latest_start || !old(
                    self,
                ).blocks_late_start(*final(job), final(job).latest_start as int)
            },
            result == RefineResult::Infeasible ==> final(job).infeasible() || exists|t: int|
                final(job).certainly_runs_at(t) && !old(job).certainly_runs_at(t) && old(
                    self,
                ).saturated_at(t),
            result != RefineResult::Infeasible ==> {
                &&& final(job).infeasible() ==> *final(job) == *old(job)
                &&& forall|t: int|
                    final(self).cores_at(t) == old(self).cores_at(t) + certain_load(*final(job), t)
                        - certain_load(*old(job), t)
                &&& forall|t: int|
                    final(job).earliest_start <= t < final(job).earliest_finish() && t
                        < final(job).latest_start ==> !final(self).saturated_at(t)
                &&& final(job).earliest_start >= final(job).latest_start || forall|t: int|
                    final(job).earliest_finish() <= t < final(job).latest_finish() && t
                        >= final(job).latest_start ==> !final(self).saturated_at(t)
                &&& result == RefineResult::Unchanged <==> *final(job) == *old(job)
                &&& result == RefineResult::ModifiedJobAndIntervals <==> *final(job) != *old(job)
                    && final(job).earliest_finish() > final(job).latest_start
            },
    {
        if job.earliest_start >= job.latest_start {
            return RefineResult::Unchanged;
        }
        let old_job = *job;
        let old_finish = old_job.earliest_start + old_job.execution_time;
        let was_certain = old_finish > old_job.latest_start;
        let execution_time = job.execution_time;
        let ghost before = *self;

        let capped = self.advance_earliest_start(job, old_job);
        self.retreat_latest_start(job, old_job);

        if job.earliest_start > job.latest_start {
            return RefineResult::Infeasible;
        }
        let earliest_finish = job.earliest_start + execution_time;
        assert forall|t: int|
            job.earliest_start <= t < job.earliest_finish() && t
                < job.latest_start implies !before.saturated_at(t) by {
            reveal(OccupationTimeline::saturated_within);
            if !capped {
                assert(t < Self::early_bound(old_job, job.earliest_start as int));
            }
        }
        assert(job.earliest_start == job.latest_start || forall|t: int|
            job.earliest_finish() <= t < job.latest_finish() && t
                >= job.latest_start ==> !before.saturated_at(t)) by {
            reveal(OccupationTimeline::saturated_within);
        }
        let mut result = RefineResult::Unchanged;
        if job.earliest_start != old_job.earliest_start || job.latest_start
            != old_job.latest_start {
            result = RefineResult::ModifiedJob;
            if was_certain {
                if job.latest_start < old_job.latest_start {
                    let added = Job::release_to_deadline(
                        job.index,
                        job.latest_start,
                        old_job.latest_start - job.latest_start,
                        old_job.latest_start,
                    );
                    if self.insert(added) {
                        assert(exists|t: int|
                            job.certainly_runs_at(t) && !old_job.certainly_runs_at(t)
                                && before.saturated_at(t)) by {
                            let t = choose|t: int|
                                added.certainly_runs_at(t) && before.saturated_at(t);
                            assert(job.certainly_runs_at(t) && !old_job.certainly_runs_at(t)
                                && before.saturated_at(t));
                        }
                        return RefineResult::Infeasible;
                    }
                    assert forall|t: int|
                        self.cores_at(t) == before.cores_at(t) + if job.latest_start <= t
                            < old_job.latest_start {
                            1int
                        } else {
                            0int
                        } by {
                        assert(self.cores_at(t) == before.cores_at(t) + certain_load(added, t));
                    }
                    result = RefineResult::ModifiedJobAndIntervals;
                }
                let ghost middle = *self;
                if earliest_finish > old_finish {
                    let added = Job::release_to_deadline(
                        job.index,
                        old_finish,
                        earliest_finish - old_finish,
                        earliest_finish,
                    );
                    if self.insert(added) {
                        assert(exists|t: int|
                            job.certainly_runs_at(t) && !old_job.certainly_runs_at(t)
                                && before.saturated_at(t)) by {
                            let t = choose|t: int|
                                added.certainly_runs_at(t) && middle.saturated_at(t);
                            assert(middle.cores_at(t) == before.cores_at(t));
                            assert(job.certainly_runs_at(t) && !old_job.certainly_runs_at(t)
                                && before.saturated_at(t));
                        }
                        return RefineResult::Infeasible;
                    }
                    assert forall|t: int|
                        self.cores_at(t) == middle.cores_at(t) + if old_finish <= t
                            < earliest_finish {
                            1int
                        } else {
                            0int
                        } by {
                        assert(self.cores_at(t) == middle.cores_at(t) + certain_load(added, t));
                    }
                    result = RefineResult::ModifiedJobAndIntervals;
                }
            } else if earliest_finish > job.latest_start {
                if self.insert(*job) {
                    let ghost t = choose|t: int|
                        job.certainly_runs_at(t) && before.saturated_at(t);
                    assert(job.certainly_runs_at(t) && !old_job.certainly_runs_at(t)
                        && before.saturated_at(t));
                    return RefineResult::Infeasible;
                }
                result = RefineResult::ModifiedJobAndIntervals;
            }
        }
        assert forall|t: int|
            job.earliest_start <= t < job.earliest_finish() && t
                < job.latest_start implies !self.saturated_at(t) by {
            assert(!before.saturated_at(t));
            assert(self.cores_at(t) == before.cores_at(t) + certain_load(*job, t) - certain_load(
                old_job,
                t,
            ));
        }
        if job.earliest_start < job.latest_start {
            assert forall|t: int|
                job.earliest_finish() <= t < job.latest_finish() && t
                    >= job.latest_start implies !self.saturated_at(t) by {
                assert(!before.saturated_at(t));
                assert(self.cores_at(t) == before.cores_at(t) + certain_load(*job, t)
                    - certain_load(old_job, t));
            }
        }
        result
    }
}

/// The number of `jobs` that certainly execute at time `t`
pub open spec fn occupation(jobs: Seq<Job>, t: int) -> int
    decreases jobs.len(),
{
    if jobs.len() == 0 {
        0
    } else {
        occupation(jobs.drop_last(), t) + certain_load(jobs.last(), t)
    }
}

/// Whether fewer than `num_cores` of `jobs` certainly execute at each time at which `job`
/// executes if it starts as early as possible, and before which it need not have started
pub open spec fn early_window_free(jobs: Seq<Job>, num_cores: int, job: Job) -> bool {
    forall|t: int|
        job.earliest_start <= t < job.earliest_finish() && t < job.latest_start ==> occupation(
            jobs,
            t,
        ) < num_cores
}

/// Whether fewer than `num_cores` of `jobs` certainly execute at each time at which `job`
/// executes if it starts as late as possible, and by which it need not have finished; a job
/// that has no choice of start time is left out
pub open spec fn late_window_free(jobs: Seq<Job>, num_cores: int, job: Job) -> bool {
    job.earliest_start >= job.latest_start || forall|t: int|
        job.earliest_finish() <= t < job.latest_finish() && t >= job.latest_start ==> occupation(
            jobs,
            t,
        ) < num_cores
}

/// Whether the bounds of `jobs` are as strong as the certainly occupied cores make them: at
/// no time more jobs certainly execute than there are cores, and the cores leave free what
/// each job needs if it starts as early or as late as possible
pub open spec fn strengthened_by_occupation(jobs: Seq<Job>, num_cores: int) -> bool {
    &&& never_overloaded(jobs, num_cores)
    &&& forall|i: int|
        0 <= i < jobs.len() ==> early_window_free(jobs, num_cores, #[trigger] jobs[i])
            && late_window_free(jobs, num_cores, jobs[i])
}

/// Whether at no time more than `num_cores` of `jobs` certainly execute
pub open spec fn never_overloaded(jobs: Seq<Job>, num_cores: int) -> bool {
    forall|t: int| occupation(jobs, t) <= num_cores
}

/// Whether each of `jobs` is the job of `before` at the same position, with bounds that are
/// at least as tight
pub open spec fn all_tighten(jobs: Seq<Job>, before: Seq<Job>) -> bool {
    &&& jobs.len() == before.len()
    &&& forall|i: int| 0 <= i < jobs.len() ==> (#[trigger] jobs[i]).tightens(before[i])
}

/// The number of start times that the bounds of `job` leave
pub open spec fn slack(job: Job) -> int {
    if job.latest_start >= job.earliest_start {
        job.latest_start - job.earliest_start
    } else {
        0
    }
}

/// The sum of the slack of `jobs`
pub open spec fn total_slack(jobs: Seq<Job>) -> int
    decreases jobs.len(),
{
    if jobs.len() == 0 {
        0
    } else {
        total_slack(jobs.drop_last()) + slack(jobs.last())
    }
}

/// Replacing one job changes the occupation by what the two jobs certainly occupy.
pub proof fn lemma_occupation_update(jobs: Seq<Job>, index: int, job: Job, t: int)
    requires
        0 <= index < jobs.len(),
    ensures
        occupation(jobs.update(index, job), t) == occupation(jobs, t) - certain_load(
            jobs[index],
            t,
        ) + certain_load(job, t),
    decreases jobs.len(),
{
    if index == jobs.len() - 1 {
        assert(jobs.update(index, job).drop_last() == jobs.drop_last());
    } else {
        lemma_occupation_update(jobs.drop_last(), index, job, t);
        assert(jobs.update(index, job).drop_last() == jobs.drop_last().update(index, job));
    }
}

/// Replacing one job changes the total slack by the difference in slack of the two jobs.
proof fn lemma_slack_update(jobs: Seq<Job>, index: int, job: Job)
    requires
        0 <= index < jobs.len(),
    ensures
        total_slack(jobs.update(index, job)) == total_slack(jobs) - slack(jobs[index]) + slack(
            job,
        ),
        total_slack(jobs) >= 0,
    decreases jobs.len(),
{
    lemma_slack_not_negative(jobs);
    if index == jobs.len() - 1 {
        assert(jobs.update(index, job).drop_last() == jobs.drop_last());
    } else {
        lemma_slack_update(jobs.drop_last(), index, job);
        assert(jobs.update(index, job).drop_last() == jobs.drop_last().update(index, job));
    }
}

/// The total slack is not negative.
proof fn lemma_slack_not_negative(jobs: Seq<Job>)
    ensures
        total_slack(jobs) >= 0,
    decreases jobs.len(),
{
    if jobs.len() > 0 {
        lemma_slack_not_negative(jobs.drop_last());
    }
}

/// What the strengthening by core occupation asks of each job: the limits on its times hold,
/// and neither bound lies before time 0, at which the timeline starts.
pub open spec fn fit_for_timeline(jobs: Seq<Job>) -> bool {
    forall|i: int|
        0 <= i < jobs.len() ==> {
            &&& (#[trigger] jobs[i]).within_limits()
            &&& jobs[i].earliest_start >= 0
            &&& jobs[i].latest_start >= 0
        }
}

/// Attempts to strengthen the bounds of the jobs of the given problem (their `earliest_start` and
/// `latest_start`), by analyzing intervals during which cores are certainly occupied by jobs.
///
/// For instance, a job that is released at time 10, takes 15 time units and has its deadline at
/// time 30, starts at time 15 at the latest and finishes at time 25 at the earliest. In all
/// schedules that meet its deadline, it occupies a core between time 15 and time 25.
///
/// When more cores are certainly occupied at some time than the problem has, the problem is
/// certainly infeasible. When every core is certainly occupied at some time, no other job can
/// execute at that time, which can exclude some of its start times. The bounds of the job then
/// move, the time during which it certainly executes may grow, and that may exclude start times
/// of yet another job. This function repeats that reasoning until no bound moves any more.
///
/// The bounds that are left do not depend on the order in which the jobs are looked at: they
/// are the loosest bounds within the given ones that the certainly occupied cores do not
/// move. The result is `Infeasible` exactly if no such bounds leave a start time to each job
/// that has one within the given bounds.
#[verifier::rlimit(40)]
pub fn strengthen_bounds_using_core_occupation(
    problem: &mut Problem,
) -> (result: OccupationStrengthenResult)
    requires
        old(problem).num_cores >= 1,
        fit_for_timeline(old(problem).jobs@),
    ensures
        final(problem).num_cores == old(problem).num_cores,
        final(problem).constraints == old(problem).constraints,
        all_tighten(final(problem).jobs@, old(problem).jobs@),
        forall|i: int|
            0 <= i < final(problem).jobs@.len() ==> (#[trigger] final(problem).jobs@[i]).wf(),
        result == OccupationStrengthenResult::Infeasible ==> some_job_infeasible(
            final(problem).jobs@,
        ) || !never_overloaded(final(problem).jobs@, final(problem).num_cores as int),
        keeps_schedules(final(problem).jobs@, old(problem).jobs@, old(problem).num_cores as int),
        strengthened_by_occupation(old(problem).jobs@, old(problem).num_cores as int) ==> result
            == OccupationStrengthenResult::Unchanged,
        result == OccupationStrengthenResult::Infeasible ==> fits_in_no_way(
            old(problem).jobs@,
            old(problem).num_cores as int,
        ),
        keeps_settled(final(problem).jobs@, old(problem).jobs@, old(problem).num_cores as int),
        result != OccupationStrengthenResult::Infeasible ==> final(problem).jobs@
            == occupation_bounds(old(problem).jobs@, old(problem).num_cores as int),
        result == OccupationStrengthenResult::Infeasible <==> !can_settle(
            old(problem).jobs@,
            old(problem).num_cores as int,
        ),
        result != OccupationStrengthenResult::Infeasible ==> {
            &&& fit_for_timeline(final(problem).jobs@)
            &&& never_overloaded(final(problem).jobs@, final(problem).num_cores as int)
            &&& forall|i: int|
                0 <= i < final(problem).jobs@.len() ==> early_window_free(
                    final(problem).jobs@,
                    final(problem).num_cores as int,
                    #[trigger] final(problem).jobs@[i],
                ) && late_window_free(
                    final(problem).jobs@,
                    final(problem).num_cores as int,
                    final(problem).jobs@[i],
                )
            &&& forall|i: int|
                0 <= i < final(problem).jobs@.len()
                    && (#[trigger] final(problem).jobs@[i]).infeasible()
                    ==> final(problem).jobs@[i] == old(problem).jobs@[i]
            &&& result == OccupationStrengthenResult::Unchanged <==> final(problem).jobs@
                == old(problem).jobs@
        },
{
    let ghost original = problem.jobs@;
    let num_cores = problem.num_cores;
    let count = problem.jobs.len();
    let mut timeline = OccupationTimeline::new(num_cores);
    let mut index: usize = 0;
    while index < count
        invariant
            index <= count,
            count == original.len(),
            problem.jobs@ == original,
            problem.num_cores == num_cores,
            num_cores == old(problem).num_cores,
            problem.constraints == old(problem).constraints,
            fit_for_timeline(original),
            timeline.wf(),
            timeline.capacity() == num_cores,
            timeline.end() <= MAX_TIME + MAX_DURATION,
            forall|t: int| timeline.cores_at(t) == occupation(original.take(index as int), t),
        decreases count - index,
    {
        let job = problem.jobs[index];
        let ghost before = timeline;
        assert(job.within_limits());
        assert(original.take(index + 1).drop_last() == original.take(index as int));
        if timeline.insert(job) {
            proof {
                let t = choose|t: int| job.certainly_runs_at(t) && before.saturated_at(t);
                lemma_occupation_take(original, index + 1, t);
                assert(occupation(original, t) > num_cores);
                assert(all_tighten(original, original));
                lemma_fits_in_no_way(original, original, num_cores as int);
                lemma_keeps_settled_at_first(original, num_cores as int);
                lemma_nothing_settles(original, original, num_cores as int);
            }
            return OccupationStrengthenResult::Infeasible;
        }
        index += 1;
    }
    assert(original.take(count as int) == original);
    assert(never_overloaded(original, num_cores as int)) by {
        assert forall|t: int| occupation(original, t) <= num_cores by {
            timeline.lemma_cores_bounded(t);
            assert(timeline.cores_at(t) == occupation(original.take(count as int), t));
        }
    }

    proof {
        lemma_keeps_settled_at_first(original, num_cores as int);
    }
    let mut modified_anything = false;
    loop
        invariant
            count == original.len(),
            original == old(problem).jobs@,
            num_cores >= 1,
            problem.num_cores == num_cores,
            num_cores == old(problem).num_cores,
            problem.constraints == old(problem).constraints,
            all_tighten(problem.jobs@, original),
            fit_for_timeline(problem.jobs@),
            forall|i: int|
                0 <= i < count && (#[trigger] problem.jobs@[i]).infeasible() ==> problem.jobs@[i]
                    == original[i],
            timeline.wf(),
            timeline.capacity() == num_cores,
            timeline.end() <= MAX_TIME + MAX_DURATION,
            forall|t: int| timeline.cores_at(t) == occupation(problem.jobs@, t),
            modified_anything <==> problem.jobs@ != original,
            keeps_schedules(problem.jobs@, original, num_cores as int),
            keeps_settled(problem.jobs@, original, num_cores as int),
            strengthened_by_occupation(original, num_cores as int) ==> problem.jobs@ == original,
        ensures
            never_overloaded(problem.jobs@, num_cores as int),
            forall|i: int|
                0 <= i < count ==> early_window_free(
                    problem.jobs@,
                    num_cores as int,
                    #[trigger] problem.jobs@[i],
                ) && late_window_free(problem.jobs@, num_cores as int, problem.jobs@[i]),
        decreases total_slack(problem.jobs@),
    {
        let ghost pass_start = problem.jobs@;
        let mut modified_interval = false;
        let mut index: usize = 0;
        while index < count
            invariant
                index <= count,
                count == original.len(),
                original == old(problem).jobs@,
                num_cores >= 1,
                problem.num_cores == num_cores,
                num_cores == old(problem).num_cores,
                problem.constraints == old(problem).constraints,
                all_tighten(problem.jobs@, original),
                fit_for_timeline(problem.jobs@),
                forall|i: int|
                    0 <= i < count && (#[trigger] problem.jobs@[i]).infeasible()
                        ==> problem.jobs@[i] == original[i],
                timeline.wf(),
                timeline.capacity() == num_cores,
                timeline.end() <= MAX_TIME + MAX_DURATION,
                forall|t: int| timeline.cores_at(t) == occupation(problem.jobs@, t),
                modified_anything <==> problem.jobs@ != original,
                keeps_schedules(problem.jobs@, original, num_cores as int),
                keeps_settled(problem.jobs@, original, num_cores as int),
                strengthened_by_occupation(original, num_cores as int) ==> problem.jobs@
                    == original,
                total_slack(problem.jobs@) <= total_slack(pass_start),
                modified_interval ==> total_slack(problem.jobs@) < total_slack(pass_start),
                !modified_interval ==> forall|i: int|
                    0 <= i < index ==> early_window_free(
                        problem.jobs@,
                        num_cores as int,
                        #[trigger] problem.jobs@[i],
                    ) && late_window_free(problem.jobs@, num_cores as int, problem.jobs@[i]),
            decreases count - index,
        {
            let ghost jobs_before = problem.jobs@;
            let ghost timeline_before = timeline;
            let mut job = problem.jobs[index];
            let ghost old_job = job;
            assert(old_job.within_limits());
            let result = timeline.refine(&mut job);
            problem.jobs.set(index, job);
            proof {
                if strengthened_by_occupation(original, num_cores as int) {
                    assert(old_job == original[index as int]);
                    assert(early_window_free(original, num_cores as int, old_job));
                    assert(late_window_free(original, num_cores as int, old_job));
                    if old_job.earliest_start < old_job.latest_start {
                        reveal(OccupationTimeline::saturated_within);
                        if job.earliest_start > old_job.earliest_start {
                            assert(timeline_before.blocks_early_start(
                                old_job,
                                old_job.earliest_start as int,
                            ));
                            let w = choose|w: int|
                                old_job.earliest_start <= w < OccupationTimeline::early_bound(
                                    old_job,
                                    old_job.earliest_start as int,
                                ) && timeline_before.saturated_at(w);
                            assert(occupation(original, w) < num_cores);
                        }
                        if job.latest_start < old_job.latest_start {
                            let finish = old_job.latest_start + old_job.execution_time;
                            assert(timeline_before.blocks_late_start(
                                job,
                                old_job.latest_start as int,
                            ));
                            let w = choose|w: int|
                                OccupationTimeline::late_bound(
                                    job.earliest_start as int,
                                    old_job.execution_time as int,
                                    finish,
                                ) <= w < finish && timeline_before.saturated_at(w);
                            assert(occupation(original, w) < num_cores);
                        }
                    }
                    assert(job == old_job);
                    assert(result == RefineResult::Unchanged);
                }
                assert(problem.jobs@ == jobs_before.update(index as int, job));
                lemma_refined_keeps_schedules(
                    timeline_before,
                    jobs_before,
                    original,
                    index as int,
                    job,
                );
                lemma_refined_keeps_settled(
                    timeline_before,
                    jobs_before,
                    original,
                    index as int,
                    job,
                );
                lemma_slack_update(jobs_before, index as int, job);
                assert forall|t: int| #![auto]
                    occupation(problem.jobs@, t) == occupation(jobs_before, t) - certain_load(
                        old_job,
                        t,
                    ) + certain_load(job, t) by {
                    lemma_occupation_update(jobs_before, index as int, job, t);
                }
            }
            if result == RefineResult::Infeasible {
                proof {
                    if !job.infeasible() {
                        let t = choose|t: int|
                            job.certainly_runs_at(t) && !old_job.certainly_runs_at(t)
                                && timeline_before.saturated_at(t);
                        assert(occupation(problem.jobs@, t) > num_cores);
                    } else {
                        assert(problem.jobs@[index as int].infeasible());
                        assert(old_job.tightens(original[index as int]));
                        assert(!original[index as int].infeasible());
                    }
                    assert forall|i: int| 0 <= i < problem.jobs@.len() implies (
                    #[trigger] problem.jobs@[i]).wf() by {
                        if i != index {
                            assert(jobs_before[i].within_limits());
                        }
                    }
                    assert(all_tighten(problem.jobs@, original)) by {
                        assert forall|i: int| 0 <= i < problem.jobs@.len() implies (
                        #[trigger] problem.jobs@[i]).tightens(original[i]) by {
                            assert(jobs_before[i].tightens(original[i]));
                        }
                    }
                    lemma_fits_in_no_way(problem.jobs@, original, num_cores as int);
                    lemma_nothing_settles(problem.jobs@, original, num_cores as int);
                }
                return OccupationStrengthenResult::Infeasible;
            }
            proof {
                assert(job.within_limits() && job.earliest_start >= 0 && job.latest_start >= 0);
                assert(fit_for_timeline(problem.jobs@)) by {
                    assert forall|i: int| 0 <= i < problem.jobs@.len() implies {
                        &&& (#[trigger] problem.jobs@[i]).within_limits()
                        &&& problem.jobs@[i].earliest_start >= 0
                        &&& problem.jobs@[i].latest_start >= 0
                    } by {
                        if i != index {
                            assert(jobs_before[i].within_limits());
                        }
                    }
                }
                assert(all_tighten(problem.jobs@, original)) by {
                    assert forall|i: int| 0 <= i < problem.jobs@.len() implies (
                    #[trigger] problem.jobs@[i]).tightens(original[i]) by {
                        if i != index {
                            assert(jobs_before[i].tightens(original[i]));
                        }
                    }
                }
                if job != old_job {
                    assert(problem.jobs@[index as int] != original[index as int]);
                } else {
                    assert(problem.jobs@ == jobs_before);
                }
            }
            if result == RefineResult::ModifiedJobAndIntervals {
                modified_interval = true;
                modified_anything = true;
            }
            if result == RefineResult::ModifiedJob {
                modified_anything = true;
            }
            proof {
                if !modified_interval {
                    assert forall|t: int| occupation(problem.jobs@, t) == occupation(
                        jobs_before,
                        t,
                    ) by {
                        if job != old_job {
                            assert(result == RefineResult::ModifiedJob);
                            assert(certain_load(job, t) == 0);
                            assert(certain_load(old_job, t) == 0);
                        }
                    }
                    assert forall|i: int| 0 <= i < index + 1 implies early_window_free(
                        problem.jobs@,
                        num_cores as int,
                        #[trigger] problem.jobs@[i],
                    ) && late_window_free(problem.jobs@, num_cores as int, problem.jobs@[i]) by {
                        if i < index {
                            let known = jobs_before[i];
                            assert(early_window_free(jobs_before, num_cores as int, known));
                            assert(late_window_free(jobs_before, num_cores as int, known));
                        } else {
                            if job.earliest_start < job.latest_start {
                                assert forall|t: int|
                                    job.earliest_finish() <= t < job.latest_finish() && t
                                        >= job.latest_start implies occupation(problem.jobs@, t)
                                    < num_cores by {
                                    assert(!timeline.saturated_at(t));
                                    timeline.lemma_cores_bounded(t);
                                }
                            }
                            assert forall|t: int|
                                job.earliest_start <= t < job.earliest_finish() && t
                                    < job.latest_start implies occupation(problem.jobs@, t)
                                < num_cores by {
                                assert(!timeline.saturated_at(t));
                                timeline.lemma_cores_bounded(t);
                            }
                        }
                    }
                }
            }
            index += 1;
        }
        if !modified_interval {
            proof {
                assert(never_overloaded(problem.jobs@, num_cores as int)) by {
                    assert forall|t: int| occupation(problem.jobs@, t) <= num_cores by {
                        timeline.lemma_cores_bounded(t);
                        assert(timeline.cores_at(t) == occupation(problem.jobs@, t));
                    }
                }
            }
            break ;
        }
        proof {
            lemma_slack_not_negative(problem.jobs@);
        }
    }

    proof {
        lemma_settles(problem.jobs@, original, num_cores as int);
        lemma_occupation_bounds(problem.jobs@, original, num_cores as int);
    }
    if modified_anything {
        OccupationStrengthenResult::Modified
    } else {
        OccupationStrengthenResult::Unchanged
    }
}

/// The occupation by the first jobs is at most the occupation by all jobs.
proof fn lemma_occupation_take(jobs: Seq<Job>, count: int, t: int)
    requires
        0 <= count <= jobs.len(),
    ensures
        occupation(jobs.take(count), t) <= occupation(jobs, t),
    decreases jobs.len() - count,
{
    if count < jobs.len() {
        lemma_occupation_take(jobs, count + 1, t);
        assert(jobs.take(count + 1).drop_last() == jobs.take(count));
    } else {
        assert(jobs.take(count) == jobs);
    }
}

/// Taking one job out lowers the occupation by what that job certainly occupies.
pub proof fn lemma_occupation_remove(jobs: Seq<Job>, index: int, t: int)
    requires
        0 <= index < jobs.len(),
    ensures
        occupation(jobs, t) == occupation(jobs.remove(index), t) + certain_load(jobs[index], t),
    decreases jobs.len(),
{
    if index == jobs.len() - 1 {
        assert(jobs.remove(index) == jobs.drop_last());
    } else {
        lemma_occupation_remove(jobs.drop_last(), index, t);
        assert(jobs.remove(index).drop_last() == jobs.drop_last().remove(index));
        assert(jobs.remove(index).last() == jobs.last());
    }
}

/// The occupation does not depend on the order of the jobs: if each job of `a` has the
/// bounds and the execution time of the job of `b` at the position that `order` names, the
/// two occupations are equal.
pub proof fn lemma_occupation_reordered(a: Seq<Job>, b: Seq<Job>, order: Seq<usize>, t: int)
    requires
        a.len() == b.len(),
        order.len() == a.len(),
        is_permutation(order),
        forall|i: int|
            0 <= i < a.len() ==> certain_load(b[(#[trigger] order[i]) as int], t) == certain_load(
                a[i],
                t,
            ),
    ensures
        occupation(a, t) == occupation(b, t),
    decreases a.len(),
{
    if a.len() > 0 {
        let last = a.len() - 1;
        let k = order[last] as int;
        let shorter = b.remove(k);
        let moved = Seq::new(
            last as nat,
            |i: int|
                if order[i] > k {
                    (order[i] - 1) as usize
                } else {
                    order[i]
                },
        );
        assert(is_permutation(moved)) by {
            assert forall|i: int| 0 <= i < moved.len() implies moved[i] < moved.len() by {
                assert(order[i] != order[last]);
            }
            assert forall|i: int, j: int| 0 <= i < j < moved.len() implies moved[i]
                != moved[j] by {
                assert(order[i] != order[j]);
                assert(order[i] != order[last]);
                assert(order[j] != order[last]);
            }
        }
        assert forall|i: int| 0 <= i < last implies certain_load(
            shorter[(#[trigger] moved[i]) as int],
            t,
        ) == certain_load(a.drop_last()[i], t) by {
            assert(order[i] != order[last]);
            assert(certain_load(b[order[i] as int], t) == certain_load(a[i], t));
        }
        lemma_occupation_reordered(a.drop_last(), shorter, moved, t);
        lemma_occupation_remove(b, k, t);
        assert(certain_load(b[order[last] as int], t) == certain_load(a[last], t));
    }
}

} // verus!

//! The bounds that the strengthening by core occupation ends with are the loosest bounds that
//! are as strong as the certainly occupied cores make them.

use crate::bounds::occupation::{
    all_tighten, certain_load, early_window_free, late_window_free, lemma_occupation_update,
    never_overloaded, occupation, strengthened_by_occupation, OccupationTimeline,
};
use crate::problem::Job;
use vstd::prelude::*;

verus! {

/// Whether every strengthening of the bounds of `original` that is as strong as the certainly
/// occupied cores make it is a strengthening of the bounds of `current` too
#[verifier::opaque]
pub open spec fn keeps_settled(current: Seq<Job>, original: Seq<Job>, num_cores: int) -> bool {
    forall|other: Seq<Job>|
        all_tighten(other, original) && #[trigger] strengthened_by_occupation(other, num_cores)
            ==> all_tighten(other, current)
}

/// Whether each job that has a start time within the bounds of `original` has one within
/// `bounds` too
pub open spec fn keeps_start_times(bounds: Seq<Job>, original: Seq<Job>) -> bool {
    forall|i: int|
        0 <= i < bounds.len() && (#[trigger] bounds[i]).infeasible() ==> original[i].infeasible()
}

/// Whether the bounds of `original` can be strengthened as far as the certainly occupied cores
/// ask for, such that each job that has a start time keeps one
#[verifier::opaque]
pub open spec fn can_settle(original: Seq<Job>, num_cores: int) -> bool {
    exists|other: Seq<Job>|
        all_tighten(other, original) && #[trigger] strengthened_by_occupation(other, num_cores)
            && keeps_start_times(other, original)
}

/// Whether `bounds` are the loosest bounds within those of `jobs` that are as strong as the
/// certainly occupied cores make them
pub open spec fn loosest_settled(bounds: Seq<Job>, jobs: Seq<Job>, num_cores: int) -> bool {
    &&& all_tighten(bounds, jobs)
    &&& strengthened_by_occupation(bounds, num_cores)
    &&& keeps_settled(bounds, jobs, num_cores)
}

/// The loosest bounds within those of `jobs` that are as strong as the certainly occupied
/// cores make them, if there are any
pub open spec fn occupation_bounds(jobs: Seq<Job>, num_cores: int) -> Seq<Job> {
    choose|bounds: Seq<Job>| loosest_settled(bounds, jobs, num_cores)
}

/// With tighter bounds, no fewer jobs certainly execute at a time.
proof fn lemma_occupation_grows(tight: Seq<Job>, loose: Seq<Job>, t: int)
    requires
        all_tighten(tight, loose),
    ensures
        occupation(tight, t) >= occupation(loose, t),
    decreases tight.len(),
{
    if tight.len() > 0 {
        assert(all_tighten(tight.drop_last(), loose.drop_last())) by {
            assert forall|i: int| 0 <= i < tight.len() - 1 implies (
            #[trigger] tight.drop_last()[i]).tightens(loose.drop_last()[i]) by {
                assert(tight[i].tightens(loose[i]));
            }
        }
        lemma_occupation_grows(tight.drop_last(), loose.drop_last(), t);
        assert(tight[tight.len() - 1].tightens(loose[tight.len() - 1]));
    }
}

/// With tighter bounds, no fewer of the other jobs certainly execute at a time.
proof fn lemma_occupation_by_others_grows(tight: Seq<Job>, loose: Seq<Job>, index: int, t: int)
    requires
        all_tighten(tight, loose),
        0 <= index < tight.len(),
    ensures
        occupation(tight, t) - certain_load(tight[index], t) >= occupation(loose, t)
            - certain_load(loose[index], t),
{
    let mixed = tight.update(index, loose[index]);
    lemma_occupation_update(tight, index, loose[index], t);
    assert(all_tighten(mixed, loose)) by {
        assert forall|i: int| 0 <= i < mixed.len() implies (#[trigger] mixed[i]).tightens(
            loose[i],
        ) by {
            if i != index {
                assert(tight[i].tightens(loose[i]));
            }
        }
    }
    lemma_occupation_grows(mixed, loose, t);
}

/// Bounds keep every strengthening of themselves.
pub proof fn lemma_keeps_settled_at_first(original: Seq<Job>, num_cores: int)
    ensures
        keeps_settled(original, original, num_cores),
{
    reveal(keeps_settled);
}

/// Moving the bounds of a job past start times that the timeline excludes keeps every
/// strengthening that is as strong as the certainly occupied cores make it: such a
/// strengthening leaves the job none of these start times.
pub proof fn lemma_refined_keeps_settled(
    timeline: OccupationTimeline,
    jobs: Seq<Job>,
    original: Seq<Job>,
    index: int,
    job: Job,
)
    requires
        keeps_settled(jobs, original, timeline.capacity() as int),
        forall|t: int| timeline.cores_at(t) == occupation(jobs, t),
        0 <= index < jobs.len(),
        job.tightens(jobs[index]),
        forall|t: int|
            jobs[index].earliest_start <= t < job.earliest_start ==> timeline.excludes_start(
                jobs[index],
                t,
            ),
        forall|t: int|
            job.latest_start < t <= jobs[index].latest_start ==> timeline.excludes_start(
                jobs[index],
                t,
            ),
    ensures
        keeps_settled(jobs.update(index, job), original, timeline.capacity() as int),
{
    reveal(keeps_settled);
    reveal(OccupationTimeline::excludes_start);
    let num_cores = timeline.capacity() as int;
    let moved = jobs.update(index, job);
    let known = jobs[index];
    assert forall|other: Seq<Job>|
        all_tighten(other, original) && #[trigger] strengthened_by_occupation(
            other,
            num_cores,
        ) implies all_tighten(other, moved) by {
        assert(all_tighten(other, jobs));
        let settled = other[index];
        assert(settled.tightens(known));
        assert(early_window_free(other, num_cores, settled));
        assert(late_window_free(other, num_cores, settled));
        if settled.earliest_start < job.earliest_start {
            let t = settled.earliest_start as int;
            assert(timeline.excludes_start(known, t));
            let w = choose|w: int|
                t <= w < t + known.execution_time && timeline.saturated_at(w)
                    && !known.certainly_runs_at(w);
            assert(timeline.cores_at(w) == occupation(jobs, w));
            lemma_occupation_by_others_grows(other, jobs, index, w);
            assert(occupation(other, w) <= num_cores);
        }
        if settled.latest_start > job.latest_start {
            let t = settled.latest_start as int;
            assert(timeline.excludes_start(known, t));
            let w = choose|w: int|
                t <= w < t + known.execution_time && timeline.saturated_at(w)
                    && !known.certainly_runs_at(w);
            assert(timeline.cores_at(w) == occupation(jobs, w));
            lemma_occupation_by_others_grows(other, jobs, index, w);
            assert(occupation(other, w) <= num_cores);
        }
        assert forall|i: int| 0 <= i < other.len() implies (#[trigger] other[i]).tightens(
            moved[i],
        ) by {
            if i != index {
                assert(other[i].tightens(jobs[i]));
            }
        }
    }
}

/// If a job has lost its last start time, or more jobs certainly execute at some time than
/// there are cores, then it is so with all tighter bounds, so the bounds of which these keep
/// every settled strengthening cannot be settled.
pub proof fn lemma_nothing_settles(current: Seq<Job>, original: Seq<Job>, num_cores: int)
    requires
        keeps_settled(current, original, num_cores),
        !keeps_start_times(current, original) || !never_overloaded(current, num_cores),
    ensures
        !can_settle(original, num_cores),
{
    reveal(keeps_settled);
    reveal(can_settle);
    assert forall|other: Seq<Job>|
        all_tighten(other, original) && #[trigger] strengthened_by_occupation(
            other,
            num_cores,
        ) implies !keeps_start_times(other, original) by {
        assert(all_tighten(other, current));
        if !keeps_start_times(current, original) {
            let i = choose|i: int|
                0 <= i < current.len() && (#[trigger] current[i]).infeasible()
                    && !original[i].infeasible();
            assert(other[i].tightens(current[i]));
            assert(other[i].infeasible());
        } else {
            let t = choose|t: int| occupation(current, t) > num_cores;
            lemma_occupation_grows(other, current, t);
            assert(occupation(other, t) <= num_cores);
        }
    }
}

/// Bounds that are as strong as the certainly occupied cores make them, and that leave a
/// start time to each job that has one, settle the bounds that they strengthen.
pub proof fn lemma_settles(settled: Seq<Job>, original: Seq<Job>, num_cores: int)
    requires
        all_tighten(settled, original),
        strengthened_by_occupation(settled, num_cores),
        keeps_start_times(settled, original),
    ensures
        can_settle(original, num_cores),
{
    reveal(can_settle);
}

/// The loosest bounds that are as strong as the certainly occupied cores make them are
/// unique.
pub proof fn lemma_occupation_bounds(bounds: Seq<Job>, jobs: Seq<Job>, num_cores: int)
    requires
        loosest_settled(bounds, jobs, num_cores),
    ensures
        occupation_bounds(jobs, num_cores) == bounds,
{
    reveal(keeps_settled);
    let other = occupation_bounds(jobs, num_cores);
    assert(loosest_settled(other, jobs, num_cores));
    assert(all_tighten(bounds, other));
    assert(all_tighten(other, bounds));
    assert forall|i: int| 0 <= i < bounds.len() implies other[i] == bounds[i] by {
        assert(bounds[i].tightens(other[i]));
        assert(other[i].tightens(bounds[i]));
    }
    assert(other =~= bounds);
}

} // verus!

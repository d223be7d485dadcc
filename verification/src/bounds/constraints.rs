//! Bounds that follow from the precedence constraints.

use crate::bounds::occupation::all_tighten;
use crate::bounds::respected::{
    keeps_respected, lemma_keeps_respected_at_first, lemma_precedence_bounds,
    lemma_relaxed_keeps_respected, lemma_respected_bounds_stay, lemma_respected_keeps_schedules,
    loosest_respected, precedence_bounds,
};
use crate::problem::{
    constraints_valid, job_order_possible, Constraint, ConstraintType, Job, Problem, Time,
    MAX_COUNT, MAX_DURATION, MAX_TIME,
};
use crate::schedule::{respects_constraints, within_bounds};
use vstd::prelude::*;

verus! {

/// What `strengthen_bounds_using_constraints` did
#[derive(Debug, Copy, Clone, Eq, PartialEq, Structural)]
pub enum PrecedenceStrengthenResult {
    /// No bound was changed.
    Nothing,
    /// At least one bound was changed.
    Modified,
    /// Some constraint does not lead from a lower to a higher job index, which is the case
    /// when the constraints are cyclic. No bound was changed.
    Cyclic,
}

/// `jobs` after the successor of `constraint` was made to start late enough
pub open spec fn relax_forward(jobs: Seq<Job>, constraint: Constraint) -> Seq<Job> {
    let earliest_start = jobs[constraint.before as int].earliest_start + constraint.gap(jobs);
    let after = jobs[constraint.after as int];
    if earliest_start > after.earliest_start {
        jobs.update(
            constraint.after as int,
            Job { earliest_start: earliest_start as Time, ..after },
        )
    } else {
        jobs
    }
}

/// `jobs` after the predecessor of `constraint` was made to start early enough
pub open spec fn relax_backward(jobs: Seq<Job>, constraint: Constraint) -> Seq<Job> {
    let latest_start = jobs[constraint.after as int].latest_start - constraint.gap(jobs);
    let before = jobs[constraint.before as int];
    if latest_start < before.latest_start {
        jobs.update(constraint.before as int, Job { latest_start: latest_start as Time, ..before })
    } else {
        jobs
    }
}

/// Whether the bounds of `jobs` respect each of `constraints`
pub open spec fn all_respected(jobs: Seq<Job>, constraints: Seq<Constraint>) -> bool {
    forall|k: int| 0 <= k < constraints.len() ==> (#[trigger] constraints[k]).respected_by(jobs)
}

/// What the strengthening asks of a problem, such that no sum of times along a chain of
/// constraints leaves the range of `Time`: the limits on the number of jobs, on the delays
/// and on the times of the jobs hold.
pub open spec fn fit_for_precedence(jobs: Seq<Job>, constraints: Seq<Constraint>) -> bool {
    &&& jobs.len() <= MAX_COUNT
    &&& forall|k: int|
        0 <= k < constraints.len() ==> (#[trigger] constraints[k]).delay <= MAX_DURATION
    &&& forall|i: int| 0 <= i < jobs.len() ==> (#[trigger] jobs[i]).within_limits()
}

/// Whether the times of `jobs` are within what constraints that lead from lower to higher
/// positions can make of times that are fit for the strengthening: along a chain of
/// constraints, the earliest start of the job at a position grows by at most two times
/// `MAX_DURATION` for each position before it, and the latest start falls by as much for each
/// position behind it.
spec fn within_reach(jobs: Seq<Job>) -> bool {
    forall|i: int|
        0 <= i < jobs.len() ==> {
            &&& 0 < (#[trigger] jobs[i]).execution_time <= MAX_DURATION
            &&& -MAX_TIME <= jobs[i].earliest_start <= MAX_TIME + 0x100_0000_0000 * i
            &&& -MAX_TIME - 0x100_0000_0000 * (jobs.len() - 1 - i) <= jobs[i].latest_start
                <= MAX_TIME
        }
}

/// The room that is left for the bounds to move: it shrinks whenever a bound moves. For each
/// job it counts the distance from its earliest start to its latest start, and as much more
/// as keeps the count above 0 while the bounds are within reach.
spec fn room(jobs: Seq<Job>) -> int
    decreases jobs.len(),
{
    if jobs.len() == 0 {
        0
    } else {
        room(jobs.drop_last()) + jobs.last().latest_start - jobs.last().earliest_start
            + 0x6000_0000_0000_0000
    }
}

/// Replacing one job changes the room by what the bounds of the two jobs leave.
proof fn lemma_room_update(jobs: Seq<Job>, index: int, job: Job)
    requires
        0 <= index < jobs.len(),
    ensures
        room(jobs.update(index, job)) == room(jobs) - (jobs[index].latest_start
            - jobs[index].earliest_start) + (job.latest_start - job.earliest_start),
    decreases jobs.len(),
{
    if index == jobs.len() - 1 {
        assert(jobs.update(index, job).drop_last() == jobs.drop_last());
    } else {
        lemma_room_update(jobs.drop_last(), index, job);
        assert(jobs.update(index, job).drop_last() == jobs.drop_last().update(index, job));
    }
}

/// The room is not negative while the bounds are within reach.
proof fn lemma_room_not_negative(jobs: Seq<Job>)
    requires
        forall|i: int|
            0 <= i < jobs.len() ==> (#[trigger] jobs[i]).latest_start - jobs[i].earliest_start
                >= -0x6000_0000_0000_0000,
    ensures
        room(jobs) >= 0,
    decreases jobs.len(),
{
    if jobs.len() > 0 {
        assert forall|i: int| 0 <= i < jobs.drop_last().len() implies (
        #[trigger] jobs.drop_last()[i]).latest_start - jobs.drop_last()[i].earliest_start
            >= -0x6000_0000_0000_0000 by {
            assert(jobs.drop_last()[i] == jobs[i]);
        }
        lemma_room_not_negative(jobs.drop_last());
        let last = jobs[jobs.len() - 1];
        assert(last.latest_start - last.earliest_start >= -0x6000_0000_0000_0000);
    }
}

/// Bounds that are within reach leave room that is not negative.
proof fn lemma_room_within_reach(jobs: Seq<Job>)
    requires
        within_reach(jobs),
        jobs.len() <= MAX_COUNT,
    ensures
        room(jobs) >= 0,
{
    assert forall|i: int| 0 <= i < jobs.len() implies (#[trigger] jobs[i]).latest_start
        - jobs[i].earliest_start >= -0x6000_0000_0000_0000 by {
        assert(jobs[i].earliest_start <= MAX_TIME + 0x100_0000_0000 * i);
    }
    lemma_room_not_negative(jobs);
}

/// Attempts to strengthen the bounds of the jobs of the given problem (their `earliest_start` and
/// `latest_start`), by analyzing their successors and predecessors. The constraints must lead
/// from lower to higher job indices; else the result is `Cyclic`.
///
/// This function ensures for all finish-to-start constraints `c` that
/// `jobs[c.before].earliest_start + jobs[c.before].execution_time + c.delay
/// <= jobs[c.after].earliest_start`, for all start-to-start constraints `c` that
/// `jobs[c.before].earliest_start + c.delay <= jobs[c.after].earliest_start`, and the
/// same of the latest starts. No bound is moved further than that: whatever bounds within
/// the given ones respect the constraints lie within the strengthened bounds too.
///
/// The constraints are applied to the earliest starts in their order and to the latest
/// starts in the opposite order, and this is repeated until no bound moves. Where the
/// constraints are ordered by the job that they lead away from, nothing moves after the
/// first time.
#[verifier::rlimit(60)]
pub fn strengthen_bounds_using_constraints(
    problem: &mut Problem,
) -> (result: PrecedenceStrengthenResult)
    requires
        constraints_valid(old(problem).constraints@, old(problem).jobs@.len() as int),
        fit_for_precedence(old(problem).jobs@, old(problem).constraints@),
    ensures
        final(problem).num_cores == old(problem).num_cores,
        final(problem).constraints@ == old(problem).constraints@,
        result == PrecedenceStrengthenResult::Cyclic <==> !job_order_possible(
            old(problem).constraints@,
        ),
        result == PrecedenceStrengthenResult::Cyclic ==> final(problem).jobs@ == old(
            problem,
        ).jobs@,
        result != PrecedenceStrengthenResult::Cyclic ==> final(problem).jobs@
            == precedence_bounds(old(problem).jobs@, old(problem).constraints@),
        result != PrecedenceStrengthenResult::Cyclic ==> loosest_respected(
            final(problem).jobs@,
            old(problem).jobs@,
            old(problem).constraints@,
        ),
        result == PrecedenceStrengthenResult::Modified <==> final(problem).jobs@ != old(
            problem,
        ).jobs@,
        all_respected(old(problem).jobs@, old(problem).constraints@) ==> final(problem).jobs@
            == old(problem).jobs@,
        all_tighten(final(problem).jobs@, old(problem).jobs@),
        forall|i: int|
            0 <= i < final(problem).jobs@.len() ==> (#[trigger] final(problem).jobs@[i]).wf(),
        forall|starts: Seq<int>|
            #[trigger] within_bounds(old(problem).jobs@, starts) && respects_constraints(
                old(problem).jobs@,
                old(problem).constraints@,
                starts,
            ) ==> within_bounds(final(problem).jobs@, starts),
{
    let ghost original = problem.jobs@;
    let ghost cs = problem.constraints@;
    proof {
        assert forall|i: int| 0 <= i < original.len() implies (#[trigger] original[i]).wf() by {
            assert(original[i].within_limits());
        }
    }
    if !problem.is_job_order_possible() {
        assert(all_tighten(problem.jobs@, original));
        return PrecedenceStrengthenResult::Cyclic;
    }
    let count = problem.constraints.len();
    let mut modified = false;
    proof {
        lemma_keeps_respected_at_first(original, cs);
        assert(within_reach(original)) by {
            assert forall|i: int| 0 <= i < original.len() implies {
                &&& 0 < (#[trigger] original[i]).execution_time <= MAX_DURATION
                &&& -MAX_TIME <= original[i].earliest_start <= MAX_TIME + 0x100_0000_0000 * i
                &&& -MAX_TIME - 0x100_0000_0000 * (original.len() - 1 - i)
                    <= original[i].latest_start <= MAX_TIME
            } by {
                assert(original[i].within_limits());
            }
        }
    }
    loop
        invariant
            count == cs.len(),
            problem.constraints@ == cs,
            problem.num_cores == old(problem).num_cores,
            constraints_valid(cs, original.len() as int),
            job_order_possible(cs),
            forall|k: int| 0 <= k < cs.len() ==> (#[trigger] cs[k]).delay <= MAX_DURATION,
            original.len() <= MAX_COUNT,
            all_tighten(problem.jobs@, original),
            within_reach(problem.jobs@),
            keeps_respected(problem.jobs@, original, cs),
            modified <==> problem.jobs@ != original,
        ensures
            all_respected(problem.jobs@, cs),
        decreases room(problem.jobs@),
    {
        let ghost pass_start = problem.jobs@;
        proof {
            lemma_room_within_reach(pass_start);
        }
        let mut moved = false;
        let mut index: usize = 0;
        while index < count
            invariant
                index <= count,
                count == cs.len(),
                problem.constraints@ == cs,
                problem.num_cores == old(problem).num_cores,
                constraints_valid(cs, original.len() as int),
                job_order_possible(cs),
                forall|k: int| 0 <= k < cs.len() ==> (#[trigger] cs[k]).delay <= MAX_DURATION,
                original.len() <= MAX_COUNT,
                all_tighten(problem.jobs@, original),
                within_reach(problem.jobs@),
                keeps_respected(problem.jobs@, original, cs),
                modified <==> problem.jobs@ != original,
                room(problem.jobs@) <= room(pass_start),
                moved ==> room(problem.jobs@) < room(pass_start),
                !moved ==> forall|k: int|
                    0 <= k < index ==> problem.jobs@[(#[trigger] cs[k]).after as int].earliest_start
                        >= problem.jobs@[cs[k].before as int].earliest_start + cs[k].gap(
                        problem.jobs@,
                    ),
            decreases count - index,
        {
            let constraint = problem.constraints[index];
            let ghost jobs_before = problem.jobs@;
            assert(cs[index as int].delay <= MAX_DURATION);
            assert(cs[index as int].before < cs[index as int].after);
            let before = problem.jobs[constraint.before];
            assert(jobs_before[constraint.before as int].execution_time <= MAX_DURATION);
            let mut earliest_start = before.earliest_start + constraint.delay;
            if constraint.constraint_type == ConstraintType::FinishToStart {
                earliest_start += before.execution_time;
            }
            let mut after = problem.jobs[constraint.after];
            if earliest_start > after.earliest_start {
                after.earliest_start = earliest_start;
                problem.jobs.set(constraint.after, after);
                modified = true;
                moved = true;
                proof {
                    assert(jobs_before[constraint.after as int].tightens(
                        original[constraint.after as int],
                    ));
                    assert(problem.jobs@[constraint.after as int]
                        != original[constraint.after as int]);
                    lemma_room_update(jobs_before, constraint.after as int, after);
                }
            }
            proof {
                assert(problem.jobs@ == relax_forward(jobs_before, constraint));
                lemma_relaxed_keeps_respected(jobs_before, original, cs, index as int);
                assert(all_tighten(problem.jobs@, original)) by {
                    assert forall|i: int| 0 <= i < problem.jobs@.len() implies (
                    #[trigger] problem.jobs@[i]).tightens(original[i]) by {
                        assert(jobs_before[i].tightens(original[i]));
                    }
                }
                assert(within_reach(problem.jobs@)) by {
                    assert forall|i: int| 0 <= i < problem.jobs@.len() implies {
                        &&& 0 < (#[trigger] problem.jobs@[i]).execution_time <= MAX_DURATION
                        &&& -MAX_TIME <= problem.jobs@[i].earliest_start <= MAX_TIME
                            + 0x100_0000_0000 * i
                        &&& -MAX_TIME - 0x100_0000_0000 * (problem.jobs@.len() - 1 - i)
                            <= problem.jobs@[i].latest_start <= MAX_TIME
                    } by {
                        assert(jobs_before[i].execution_time > 0);
                        assert(jobs_before[constraint.before as int].earliest_start <= MAX_TIME
                            + 0x100_0000_0000 * constraint.before);
                    }
                }
            }
            index += 1;
        }
        let mut index: usize = count;
        while index > 0
            invariant
                index <= count,
                count == cs.len(),
                problem.constraints@ == cs,
                problem.num_cores == old(problem).num_cores,
                constraints_valid(cs, original.len() as int),
                job_order_possible(cs),
                forall|k: int| 0 <= k < cs.len() ==> (#[trigger] cs[k]).delay <= MAX_DURATION,
                original.len() <= MAX_COUNT,
                all_tighten(problem.jobs@, original),
                within_reach(problem.jobs@),
                keeps_respected(problem.jobs@, original, cs),
                modified <==> problem.jobs@ != original,
                room(problem.jobs@) <= room(pass_start),
                moved ==> room(problem.jobs@) < room(pass_start),
                !moved ==> forall|k: int|
                    0 <= k < count ==> problem.jobs@[(#[trigger] cs[k]).after as int].earliest_start
                        >= problem.jobs@[cs[k].before as int].earliest_start + cs[k].gap(
                        problem.jobs@,
                    ),
                !moved ==> forall|k: int|
                    index <= k < count ==> problem.jobs@[(
                    #[trigger] cs[k]).before as int].latest_start
                        <= problem.jobs@[cs[k].after as int].latest_start - cs[k].gap(
                        problem.jobs@,
                    ),
            decreases index,
        {
            index -= 1;
            let constraint = problem.constraints[index];
            let ghost jobs_before = problem.jobs@;
            assert(cs[index as int].delay <= MAX_DURATION);
            assert(cs[index as int].before < cs[index as int].after);
            let after = problem.jobs[constraint.after];
            let mut before = problem.jobs[constraint.before];
            assert(jobs_before[constraint.before as int].execution_time <= MAX_DURATION);
            let mut latest_start = after.latest_start - constraint.delay;
            if constraint.constraint_type == ConstraintType::FinishToStart {
                latest_start -= before.execution_time;
            }
            if latest_start < before.latest_start {
                before.latest_start = latest_start;
                problem.jobs.set(constraint.before, before);
                modified = true;
                moved = true;
                proof {
                    assert(jobs_before[constraint.before as int].tightens(
                        original[constraint.before as int],
                    ));
                    assert(problem.jobs@[constraint.before as int]
                        != original[constraint.before as int]);
                    lemma_room_update(jobs_before, constraint.before as int, before);
                }
            }
            proof {
                assert(problem.jobs@ == relax_backward(jobs_before, constraint));
                lemma_relaxed_keeps_respected(jobs_before, original, cs, index as int);
                assert(all_tighten(problem.jobs@, original)) by {
                    assert forall|i: int| 0 <= i < problem.jobs@.len() implies (
                    #[trigger] problem.jobs@[i]).tightens(original[i]) by {
                        assert(jobs_before[i].tightens(original[i]));
                    }
                }
                assert(within_reach(problem.jobs@)) by {
                    assert forall|i: int| 0 <= i < problem.jobs@.len() implies {
                        &&& 0 < (#[trigger] problem.jobs@[i]).execution_time <= MAX_DURATION
                        &&& -MAX_TIME <= problem.jobs@[i].earliest_start <= MAX_TIME
                            + 0x100_0000_0000 * i
                        &&& -MAX_TIME - 0x100_0000_0000 * (problem.jobs@.len() - 1 - i)
                            <= problem.jobs@[i].latest_start <= MAX_TIME
                    } by {
                        assert(jobs_before[i].execution_time > 0);
                        assert(jobs_before[constraint.after as int].latest_start >= -MAX_TIME
                            - 0x100_0000_0000 * (jobs_before.len() - 1 - constraint.after));
                    }
                }
            }
        }
        if !moved {
            proof {
                assert forall|k: int| 0 <= k < cs.len() implies (#[trigger] cs[k]).respected_by(
                    problem.jobs@,
                ) by {}
            }
            break ;
        }
        proof {
            lemma_room_within_reach(problem.jobs@);
        }
    }
    proof {
        lemma_precedence_bounds(problem.jobs@, original, cs);
        if all_respected(original, cs) {
            lemma_respected_bounds_stay(original, cs);
        }
        lemma_respected_keeps_schedules(problem.jobs@, original, cs);
        assert forall|i: int| 0 <= i < problem.jobs@.len() implies (
        #[trigger] problem.jobs@[i]).wf() by {
            assert(problem.jobs@[i].execution_time > 0);
        }
    }
    if modified {
        PrecedenceStrengthenResult::Modified
    } else {
        PrecedenceStrengthenResult::Nothing
    }
}

} // verus!

//! The whole analysis of a problem: the bounds of the jobs are strengthened, and the tests
//! for infeasibility are run on the strengthened problem.

use crate::bounds::constraints::{
    fit_for_precedence, strengthen_bounds_using_constraints, PrecedenceStrengthenResult,
};
use crate::bounds::occupation::{
    all_tighten, certain_load, fit_for_timeline, lemma_occupation_reordered, never_overloaded,
    occupation, strengthen_bounds_using_core_occupation, strengthened_by_occupation,
    OccupationStrengthenResult,
};
use crate::bounds::respected::{lemma_precedence_bounds, loosest_respected, precedence_bounds};
use crate::bounds::settled::{
    can_settle, lemma_occupation_bounds, loosest_settled, occupation_bounds,
};
use crate::necessary::interval::{interval_test_fails, run_feasibility_interval_test};
use crate::necessary::load::{fit_for_load, load_test_fails, run_feasibility_load_test};
use crate::permutation::{
    admits_order, lemma_permutation_covers, lemma_position_of,
    lemma_transform_back_undoes_permutation, position_of, ProblemPermutation,
};
use crate::necessary::work::released_from_zero;
use crate::problem::{
    constraints_valid, indices_match, some_job_infeasible, Constraint, Job, Problem, MAX_COUNT,
    MAX_DURATION, MAX_TIME,
};
use crate::reordered::{
    lemma_can_settle_reordered, lemma_loosest_respected_restored, lemma_loosest_settled_restored,
    lemma_reordered_settled, lemma_reordered_tighten,
};
use crate::schedule::{
    busy_cores, fits_cores, fits_in_no_way, is_schedule, lemma_busy_at_least_occupied,
    lemma_busy_of_tightened, lemma_busy_reordered, respects_constraints, within_bounds,
};
use vstd::prelude::*;

verus! {

/// What the analysis found out about a problem
#[derive(Debug, Copy, Clone, Eq, PartialEq, Structural)]
pub enum Verdict {
    /// No schedule meets every deadline.
    Infeasible,
    /// The constraints are cyclic, so no schedule respects them.
    Cyclic,
    /// The problem may or may not be feasible.
    Unknown,
}

/// What the analysis asks of a problem: it is valid, it has a core, each job is released at
/// time 0 or later, and the limits on the number of jobs, on the delays and on the times of
/// the jobs hold.
pub open spec fn fit_for_analysis(problem: Problem) -> bool {
    &&& problem.wf()
    &&& fit_for_precedence(problem.jobs@, problem.constraints@)
    &&& forall|i: int|
        0 <= i < problem.jobs@.len() ==> (#[trigger] problem.jobs@[i]).earliest_start >= 0
}

/// Tests whether `problem` is fit for the analysis.
pub fn is_fit_for_analysis(problem: &Problem) -> (fit: bool)
    ensures
        fit == fit_for_analysis(*problem),
{
    if !problem.validate() || problem.num_cores < 1 || problem.jobs.len() > MAX_COUNT {
        return false;
    }
    let mut index: usize = 0;
    while index < problem.constraints.len()
        invariant
            index <= problem.constraints@.len(),
            forall|k: int|
                0 <= k < index ==> (#[trigger] problem.constraints@[k]).delay
                    <= MAX_DURATION,
        decreases problem.constraints@.len() - index,
    {
        if problem.constraints[index].delay > MAX_DURATION {
            return false;
        }
        index += 1;
    }
    index = 0;
    while index < problem.jobs.len()
        invariant
            index <= problem.jobs@.len(),
            forall|i: int|
                0 <= i < index ==> {
                    &&& (#[trigger] problem.jobs@[i]).within_limits()
                    &&& problem.jobs@[i].earliest_start >= 0
                },
        decreases problem.jobs@.len() - index,
    {
        let job = problem.jobs[index];
        if job.execution_time <= 0 || job.execution_time > MAX_DURATION || job.earliest_start < 0
            || job.earliest_start > MAX_TIME || job.latest_start < -MAX_TIME || job.latest_start
            > MAX_TIME {
            return false;
        }
        index += 1;
    }
    true
}

/// Whether one of the tests proves that `jobs` cannot be scheduled on `num_cores` cores: a
/// job cannot meet its deadline by its own bounds, more jobs certainly execute at some time
/// than there are cores, or the load test or the interval test fails
pub open spec fn certainly_infeasible(jobs: Seq<Job>, num_cores: int) -> bool {
    ||| some_job_infeasible(jobs)
    ||| !never_overloaded(jobs, num_cores)
    ||| load_test_fails(jobs, num_cores)
    ||| interval_test_fails(jobs, num_cores)
}

/// The verdict on jobs with constraints on a number of cores. The constraints decide whether
/// it is `Cyclic`. Else the bounds are strengthened by the constraints and then by the
/// certainly occupied cores, and the verdict is `Infeasible` if one of the two leaves a job
/// without a start time, or if the strengthened jobs fail the load test or the interval test.
pub open spec fn expected_verdict(
    jobs: Seq<Job>,
    constraints: Seq<Constraint>,
    num_cores: int,
) -> Verdict {
    let middle = precedence_bounds(jobs, constraints);
    let last = occupation_bounds(middle, num_cores);
    if !admits_order(constraints, jobs.len() as int) {
        Verdict::Cyclic
    } else if some_job_infeasible(middle) || !can_settle(middle, num_cores) {
        Verdict::Infeasible
    } else if load_test_fails(last, num_cores) || interval_test_fails(last, num_cores) {
        Verdict::Infeasible
    } else {
        Verdict::Unknown
    }
}

/// Putting reordered jobs back keeps what the tests look at.
proof fn lemma_restored(permutation: ProblemPermutation, current: Seq<Job>, original: Seq<Job>)
    requires
        permutation.wf(),
        permutation.job_order().len() == original.len(),
        indices_match(original),
        all_tighten(current, permutation.permuted_jobs(original)),
    ensures
        all_tighten(permutation.restored_jobs(current), original),
        indices_match(permutation.restored_jobs(current)),
        some_job_infeasible(permutation.restored_jobs(current)) == some_job_infeasible(current),
        forall|t: int|
            occupation(permutation.restored_jobs(current), t) == #[trigger] occupation(current, t),
        (forall|i: int| 0 <= i < current.len() ==> (#[trigger] current[i]).within_limits())
            ==> (forall|i: int|
            0 <= i < current.len() ==> (#[trigger] permutation.restored_jobs(
                current,
            )[i]).within_limits()),
{
    let order = permutation.job_order();
    let restored = permutation.restored_jobs(current);
    let permuted = permutation.permuted_jobs(original);
    assert forall|o: int| 0 <= o < restored.len() implies (#[trigger] restored[o]).tightens(
        original[o],
    ) by {
        lemma_permutation_covers(order, o);
        let i = position_of(order, o);
        assert(current[i].tightens(permuted[i]));
    }
    if some_job_infeasible(restored) {
        let o = choose|o: int| 0 <= o < restored.len() && (#[trigger] restored[o]).infeasible();
        lemma_permutation_covers(order, o);
        assert(current[position_of(order, o)].infeasible());
    }
    if some_job_infeasible(current) {
        let i = choose|i: int| 0 <= i < current.len() && (#[trigger] current[i]).infeasible();
        lemma_position_of(order, i);
        assert(restored[order[i] as int].infeasible());
    }
    assert forall|t: int| occupation(restored, t) == #[trigger] occupation(current, t) by {
        assert forall|i: int| 0 <= i < current.len() implies certain_load(
            restored[(#[trigger] order[i]) as int],
            t,
        ) == certain_load(current[i], t) by {
            lemma_position_of(order, i);
        }
        lemma_occupation_reordered(current, restored, order, t);
    }
    if forall|i: int| 0 <= i < current.len() ==> (#[trigger] current[i]).within_limits() {
        assert forall|o: int| 0 <= o < current.len() implies (
        #[trigger] restored[o]).within_limits() by {
            lemma_permutation_covers(order, o);
            assert(current[position_of(order, o)].within_limits());
        }
    }
}

/// The start times of the jobs in their new order
pub open spec fn permuted_starts(permutation: ProblemPermutation, starts: Seq<int>) -> Seq<int> {
    Seq::new(starts.len(), |i: int| starts[permutation.job_order()[i] as int])
}

/// A schedule of a problem is, in the new order of the jobs, a schedule of the reordered
/// problem.
proof fn lemma_schedule_of_permuted(
    permutation: ProblemPermutation,
    jobs: Seq<Job>,
    constraints: Seq<Constraint>,
    num_cores: int,
    starts: Seq<int>,
)
    requires
        permutation.fits(jobs, constraints),
        indices_match(jobs),
        constraints_valid(constraints, jobs.len() as int),
        is_schedule(jobs, constraints, num_cores, starts),
    ensures
        is_schedule(
            permutation.permuted_jobs(jobs),
            permutation.permuted_constraints(constraints),
            num_cores,
            permuted_starts(permutation, starts),
        ),
{
    let order = permutation.job_order();
    let moved = permutation.permuted_jobs(jobs);
    let moved_constraints = permutation.permuted_constraints(constraints);
    let moved_starts = permuted_starts(permutation, starts);
    assert(within_bounds(moved, moved_starts)) by {
        assert forall|i: int| 0 <= i < moved.len() implies (#[trigger] moved[i]).earliest_start
            <= moved_starts[i] <= moved[i].latest_start by {
            assert(jobs[order[i] as int].earliest_start <= starts[order[i] as int]);
        }
    }
    assert(respects_constraints(moved, moved_constraints, moved_starts)) by {
        assert forall|k: int| 0 <= k < moved_constraints.len() implies moved_starts[(
        #[trigger] moved_constraints[k]).after as int]
            >= moved_starts[moved_constraints[k].before as int] + moved_constraints[k].gap(
            moved,
        ) by {
            let from = permutation.constraint_order()[k] as int;
            let c = constraints[from];
            assert(c.before < jobs.len() && c.after < jobs.len());
            lemma_permutation_covers(order, c.before as int);
            lemma_permutation_covers(order, c.after as int);
            lemma_permutation_covers(order, jobs.len() - 1);
            assert(starts[c.after as int] >= starts[c.before as int] + c.gap(jobs));
            assert(moved_constraints[k].before == position_of(order, c.before as int));
            assert(moved_constraints[k].after == position_of(order, c.after as int));
        }
    }
    assert(fits_cores(moved, moved_starts, num_cores)) by {
        assert forall|t: int| busy_cores(moved, moved_starts, t) <= num_cores by {
            lemma_busy_reordered(moved, moved_starts, jobs, starts, order, t);
            assert(busy_cores(jobs, starts, t) <= num_cores);
        }
    }
}

/// Start times that lie, in the new order of the jobs, within the bounds of the reordered
/// jobs lie within the bounds of the jobs that were put back.
proof fn lemma_restored_within(permutation: ProblemPermutation, current: Seq<Job>, starts: Seq<int>)
    requires
        permutation.wf(),
        permutation.job_order().len() == current.len(),
        starts.len() == current.len(),
        within_bounds(current, permuted_starts(permutation, starts)),
    ensures
        within_bounds(permutation.restored_jobs(current), starts),
{
    let order = permutation.job_order();
    let restored = permutation.restored_jobs(current);
    let moved_starts = permuted_starts(permutation, starts);
    assert forall|o: int| 0 <= o < restored.len() implies (#[trigger] restored[o]).earliest_start
        <= starts[o] <= restored[o].latest_start by {
        lemma_permutation_covers(order, o);
        let i = position_of(order, o);
        assert(current[i].earliest_start <= moved_starts[i] <= current[i].latest_start);
    }
}

/// Jobs that keep the bounds of every schedule, and of which one cannot meet its deadline or
/// of which too many certainly execute at some time, have no schedule.
proof fn lemma_no_schedule(
    current: Seq<Job>,
    original: Seq<Job>,
    constraints: Seq<Constraint>,
    num_cores: int,
)
    requires
        all_tighten(current, original),
        forall|starts: Seq<int>| #[trigger]
            is_schedule(original, constraints, num_cores, starts)
                ==> within_bounds(current, starts),
        some_job_infeasible(current) || !never_overloaded(current, num_cores),
    ensures
        forall|starts: Seq<int>| !#[trigger] is_schedule(original, constraints, num_cores, starts),
{
    assert forall|starts: Seq<int>| !#[trigger] is_schedule(
        original,
        constraints,
        num_cores,
        starts,
    ) by {
        if is_schedule(original, constraints, num_cores, starts) {
            assert(within_bounds(current, starts));
            if some_job_infeasible(current) {
                let i = choose|i: int|
                    0 <= i < current.len() && (#[trigger] current[i]).infeasible();
                assert(current[i].earliest_start <= starts[i] <= current[i].latest_start);
            } else {
                let t = choose|t: int| occupation(current, t) > num_cores;
                lemma_busy_at_least_occupied(current, starts, t);
                lemma_busy_of_tightened(current, original, starts, t);
                assert(busy_cores(original, starts, t) <= num_cores);
            }
        }
    }
}

/// Jobs that keep the bounds of every schedule, and that fit on the cores with no start times
/// within their bounds, have no schedule.
proof fn lemma_no_fitting_schedule(
    current: Seq<Job>,
    original: Seq<Job>,
    constraints: Seq<Constraint>,
    num_cores: int,
)
    requires
        all_tighten(current, original),
        forall|starts: Seq<int>| #[trigger]
            is_schedule(original, constraints, num_cores, starts)
                ==> within_bounds(current, starts),
        fits_in_no_way(current, num_cores),
    ensures
        forall|starts: Seq<int>| !#[trigger] is_schedule(original, constraints, num_cores, starts),
{
    assert forall|starts: Seq<int>| !#[trigger] is_schedule(
        original,
        constraints,
        num_cores,
        starts,
    ) by {
        if is_schedule(original, constraints, num_cores, starts) {
            assert(within_bounds(current, starts));
            assert forall|t: int| busy_cores(current, starts, t) <= num_cores by {
                lemma_busy_of_tightened(current, original, starts, t);
                assert(busy_cores(original, starts, t) <= num_cores);
            }
            assert(fits_cores(current, starts, num_cores));
        }
    }
}

/// Analyses `problem`: puts the jobs in an order that respects the constraints, strengthens
/// their bounds by the constraints and by the cores that are certainly occupied, puts the jobs
/// back, and runs the load test and the interval test. The verdict is `Infeasible` as soon as
/// one of these steps proves that no schedule meets every deadline. The bounds of the jobs of
/// `problem` are left as far as they were strengthened.
///
/// Neither the verdict nor the strengthened bounds depend on the order that the jobs were
/// put in. A verdict of `Infeasible` is never given to a problem that has a schedule.
#[verifier::rlimit(40)]
pub fn analyze(problem: &mut Problem) -> (verdict: Verdict)
    requires
        fit_for_analysis(*old(problem)),
    ensures
        final(problem).num_cores == old(problem).num_cores,
        final(problem).constraints@ == old(problem).constraints@,
        verdict == Verdict::Cyclic <==> !admits_order(
            old(problem).constraints@,
            old(problem).jobs@.len() as int,
        ),
        verdict == Verdict::Cyclic ==> final(problem).jobs@ == old(problem).jobs@,
        all_tighten(final(problem).jobs@, old(problem).jobs@),
        verdict != Verdict::Cyclic ==> (verdict == Verdict::Infeasible <==> certainly_infeasible(
            final(problem).jobs@,
            final(problem).num_cores as int,
        )),
        forall|starts: Seq<int>| #[trigger]
            is_schedule(
                old(problem).jobs@,
                old(problem).constraints@,
                old(problem).num_cores as int,
                starts,
            ) ==> within_bounds(final(problem).jobs@, starts),
        verdict == Verdict::Infeasible ==> forall|starts: Seq<int>|
            !#[trigger] is_schedule(
                old(problem).jobs@,
                old(problem).constraints@,
                old(problem).num_cores as int,
                starts,
            ),
        verdict == expected_verdict(
            old(problem).jobs@,
            old(problem).constraints@,
            old(problem).num_cores as int,
        ),
        verdict != Verdict::Cyclic ==> {
            let middle = precedence_bounds(old(problem).jobs@, old(problem).constraints@);
            &&& loosest_respected(middle, old(problem).jobs@, old(problem).constraints@)
            &&& all_tighten(final(problem).jobs@, middle)
            &&& some_job_infeasible(middle) ==> final(problem).jobs@ == middle
            &&& !some_job_infeasible(middle) && can_settle(middle, old(problem).num_cores as int)
                ==> final(problem).jobs@ == occupation_bounds(
                middle,
                old(problem).num_cores as int,
            ) && loosest_settled(final(problem).jobs@, middle, old(problem).num_cores as int)
        },
{
    let ghost original = problem.jobs@;
    let ghost constraints = problem.constraints@;
    let num_cores = problem.num_cores;
    let permutation = match ProblemPermutation::possible(problem) {
        Some(permutation) => permutation,
        None => {
            assert(all_tighten(problem.jobs@, original));
            assert forall|starts: Seq<int>| #[trigger]
                is_schedule(original, constraints, num_cores as int, starts) implies within_bounds(
                problem.jobs@,
                starts,
            ) by {}
            return Verdict::Cyclic;
        },
    };
    let ghost handle = permutation;
    let ghost permuted = problem.jobs@;
    proof {
        lemma_transform_back_undoes_permutation(handle, original, constraints);
        assert(fit_for_precedence(problem.jobs@, problem.constraints@)) by {
            assert forall|k: int| 0 <= k < problem.constraints@.len() implies (
            #[trigger] problem.constraints@[k]).delay <= MAX_DURATION by {
                let from = handle.constraint_order()[k] as int;
                assert(constraints[from].delay <= MAX_DURATION);
            }
            assert forall|i: int| 0 <= i < problem.jobs@.len() implies (
            #[trigger] problem.jobs@[i]).within_limits() by {
                let from = handle.job_order()[i] as int;
                assert(original[from].within_limits());
            }
        }
    }
    let strengthened = strengthen_bounds_using_constraints(problem);
    proof {
        assert(strengthened != PrecedenceStrengthenResult::Cyclic);
        assert(all_tighten(problem.jobs@, permuted));
    }
    let ghost after_precedence = problem.jobs@;
    let ghost moved_constraints = problem.constraints@;
    let ghost middle = handle.restored_jobs(after_precedence);
    proof {
        lemma_loosest_respected_restored(handle, original, constraints, after_precedence);
        lemma_precedence_bounds(middle, original, constraints);
        lemma_reordered_settled(handle, after_precedence, num_cores as int);
        lemma_can_settle_reordered(handle, after_precedence, num_cores as int);
    }
    if problem.is_certainly_infeasible() {
        permutation.transform_back(problem);
        proof {
            lemma_restored(handle, after_precedence, original);
            assert forall|starts: Seq<int>| #[trigger]
                is_schedule(original, constraints, num_cores as int, starts) implies within_bounds(
                problem.jobs@,
                starts,
            ) by {
                lemma_schedule_of_permuted(handle, original, constraints, num_cores as int, starts);
                lemma_restored_within(handle, after_precedence, starts);
            }
            lemma_no_schedule(problem.jobs@, original, constraints, num_cores as int);
        }
        return Verdict::Infeasible;
    }
    proof {
        assert(fit_for_timeline(problem.jobs@)) by {
            assert forall|i: int| 0 <= i < problem.jobs@.len() implies {
                &&& (#[trigger] problem.jobs@[i]).within_limits()
                &&& problem.jobs@[i].earliest_start >= 0
                &&& problem.jobs@[i].latest_start >= 0
            } by {
                assert(problem.jobs@[i].tightens(permuted[i]));
                assert(original[handle.job_order()[i] as int].earliest_start >= 0);
                assert(!problem.jobs@[i].infeasible());
            }
        }
    }
    let ghost before_occupation = problem.jobs@;
    let occupied = strengthen_bounds_using_core_occupation(problem);
    let ghost current = problem.jobs@;
    proof {
        assert(all_tighten(current, permuted)) by {
            assert forall|i: int| 0 <= i < current.len() implies (#[trigger] current[i]).tightens(
                permuted[i],
            ) by {
                assert(current[i].tightens(before_occupation[i]));
                assert(before_occupation[i].tightens(permuted[i]));
            }
        }
    }
    permutation.transform_back(problem);
    proof {
        lemma_reordered_tighten(handle, current, after_precedence);
        if occupied != OccupationStrengthenResult::Infeasible {
            assert(strengthened_by_occupation(current, num_cores as int));
            lemma_loosest_settled_restored(handle, after_precedence, current, num_cores as int);
            lemma_occupation_bounds(problem.jobs@, middle, num_cores as int);
            lemma_reordered_settled(handle, current, num_cores as int);
            assert(!some_job_infeasible(current)) by {
                if some_job_infeasible(current) {
                    let i = choose|i: int|
                        0 <= i < current.len() && (#[trigger] current[i]).infeasible();
                    assert(after_precedence[i].infeasible());
                }
            }
        }
        lemma_restored(handle, current, original);
        assert forall|starts: Seq<int>| #[trigger]
            is_schedule(original, constraints, num_cores as int, starts) implies within_bounds(
            problem.jobs@,
            starts,
        ) by {
            lemma_schedule_of_permuted(handle, original, constraints, num_cores as int, starts);
            let moved_starts = permuted_starts(handle, starts);
            assert(within_bounds(after_precedence, moved_starts));
            assert(fits_cores(after_precedence, moved_starts, num_cores as int)) by {
                assert forall|t: int| busy_cores(after_precedence, moved_starts, t)
                    <= num_cores by {
                    lemma_busy_of_tightened(after_precedence, permuted, moved_starts, t);
                    assert(busy_cores(permuted, moved_starts, t) <= num_cores);
                }
            }
            assert(within_bounds(current, moved_starts));
            lemma_restored_within(handle, current, starts);
        }
        if occupied == OccupationStrengthenResult::Infeasible {
            lemma_no_schedule(problem.jobs@, original, constraints, num_cores as int);
        }
        if !never_overloaded(current, problem.num_cores as int) {
            let t = choose|t: int| occupation(current, t) > problem.num_cores;
            assert(occupation(problem.jobs@, t) == occupation(current, t));
        }
        if never_overloaded(current, problem.num_cores as int) {
            assert forall|t: int| occupation(problem.jobs@, t) <= problem.num_cores by {
                assert(occupation(problem.jobs@, t) == occupation(current, t));
            }
        }
    }
    if occupied == OccupationStrengthenResult::Infeasible {
        return Verdict::Infeasible;
    }
    proof {
        assert(fit_for_load(problem.jobs@));
    }
    if problem.is_certainly_infeasible() {
        proof {
            lemma_no_schedule(problem.jobs@, original, constraints, num_cores as int);
        }
        return Verdict::Infeasible;
    }
    if run_feasibility_load_test(problem) {
        proof {
            assert(released_from_zero(problem.jobs@)) by {
                assert forall|i: int| 0 <= i < problem.jobs@.len() implies (
                #[trigger] problem.jobs@[i]).earliest_start >= 0 by {
                    assert(problem.jobs@[i].tightens(original[i]));
                }
            }
            lemma_no_fitting_schedule(problem.jobs@, original, constraints, num_cores as int);
        }
        return Verdict::Infeasible;
    }
    if run_feasibility_interval_test(problem) {
        proof {
            lemma_no_fitting_schedule(problem.jobs@, original, constraints, num_cores as int);
        }
        return Verdict::Infeasible;
    }
    Verdict::Unknown
}

} // verus!

//! What reordering the jobs of a problem keeps: bounds that respect the constraints, and
//! bounds that are as strong as the certainly occupied cores make them.

use crate::bounds::constraints::all_respected;
use crate::bounds::respected::{keeps_respected, loosest_respected};
use crate::bounds::settled::{can_settle, keeps_settled, keeps_start_times, loosest_settled};
use crate::bounds::occupation::{
    all_tighten, certain_load, early_window_free, late_window_free, lemma_occupation_reordered,
    occupation, strengthened_by_occupation,
};
use crate::permutation::{
    lemma_permutation_covers, lemma_position_of, position_of, ProblemPermutation,
};
use crate::problem::{constraints_valid, indices_match, some_job_infeasible, Constraint, Job};
use vstd::prelude::*;

verus! {

/// Whether two jobs have the same bounds and the same execution time
pub open spec fn same_times(a: Job, b: Job) -> bool {
    &&& a.execution_time == b.execution_time
    &&& a.earliest_start == b.earliest_start
    &&& a.latest_start == b.latest_start
}

/// Whether one of `jobs` has the bounds and the execution time of `job`
pub open spec fn has_times_of(jobs: Seq<Job>, job: Job) -> bool {
    exists|j: int| 0 <= j < jobs.len() && same_times(job, #[trigger] jobs[j])
}

/// Reordering jobs and putting them back gives the jobs that were there, and so does
/// putting jobs back and reordering them.
pub proof fn lemma_reordered_and_back(permutation: ProblemPermutation, jobs: Seq<Job>)
    requires
        permutation.wf(),
        permutation.job_order().len() == jobs.len(),
        indices_match(jobs),
    ensures
        permutation.permuted_jobs(permutation.restored_jobs(jobs)) == jobs,
        permutation.restored_jobs(permutation.permuted_jobs(jobs)) == jobs,
{
    let order = permutation.job_order();
    let there = permutation.permuted_jobs(permutation.restored_jobs(jobs));
    let back = permutation.restored_jobs(permutation.permuted_jobs(jobs));
    assert forall|i: int| 0 <= i < jobs.len() implies there[i] == jobs[i] && back[i]
        == jobs[i] by {
        lemma_position_of(order, i);
        lemma_permutation_covers(order, i);
        assert(jobs[i].index == i);
    }
    assert(there =~= jobs);
    assert(back =~= jobs);
}

/// Reordered jobs tighten the jobs that they tightened before.
pub proof fn lemma_reordered_tighten(
    permutation: ProblemPermutation,
    tight: Seq<Job>,
    loose: Seq<Job>,
)
    requires
        permutation.wf(),
        permutation.job_order().len() == loose.len(),
        all_tighten(tight, loose),
    ensures
        all_tighten(permutation.permuted_jobs(tight), permutation.permuted_jobs(loose)),
        all_tighten(permutation.restored_jobs(tight), permutation.restored_jobs(loose)),
{
    let order = permutation.job_order();
    assert forall|i: int| 0 <= i < tight.len() implies (#[trigger] permutation.permuted_jobs(
        tight,
    )[i]).tightens(permutation.permuted_jobs(loose)[i]) by {
        assert(tight[order[i] as int].tightens(loose[order[i] as int]));
    }
    assert forall|o: int| 0 <= o < tight.len() implies (#[trigger] permutation.restored_jobs(
        tight,
    )[o]).tightens(permutation.restored_jobs(loose)[o]) by {
        lemma_permutation_covers(order, o);
        let i = position_of(order, o);
        assert(tight[i].tightens(loose[i]));
    }
}

/// Jobs with the times of other jobs that are as strong as the certainly occupied cores make
/// them, of which as many certainly execute at each time, are as strong too.
proof fn lemma_settled_with_same_times(a: Seq<Job>, b: Seq<Job>, num_cores: int)
    requires
        strengthened_by_occupation(a, num_cores),
        forall|t: int| occupation(b, t) == #[trigger] occupation(a, t),
        forall|i: int| 0 <= i < b.len() ==> has_times_of(a, #[trigger] b[i]),
    ensures
        strengthened_by_occupation(b, num_cores),
{
    assert forall|t: int| occupation(b, t) <= num_cores by {
        assert(occupation(b, t) == occupation(a, t));
    }
    assert forall|i: int| 0 <= i < b.len() implies early_window_free(
        b,
        num_cores,
        #[trigger] b[i],
    ) && late_window_free(b, num_cores, b[i]) by {
        assert(has_times_of(a, b[i]));
        let j = choose|j: int| 0 <= j < a.len() && same_times(b[i], #[trigger] a[j]);
        assert(early_window_free(a, num_cores, a[j]));
        assert(late_window_free(a, num_cores, a[j]));
        assert forall|t: int| b[i].earliest_start <= t < b[i].earliest_finish() && t
            < b[i].latest_start implies occupation(b, t) < num_cores by {
            assert(occupation(b, t) == occupation(a, t));
        }
        if b[i].earliest_start < b[i].latest_start {
            assert forall|t: int| b[i].earliest_finish() <= t < b[i].latest_finish() && t
                >= b[i].latest_start implies occupation(b, t) < num_cores by {
                assert(occupation(b, t) == occupation(a, t));
            }
        }
    }
}

/// Reordering keeps bounds as strong as the certainly occupied cores make them, and it
/// keeps whether a job cannot meet its deadline.
pub proof fn lemma_reordered_settled(
    permutation: ProblemPermutation,
    jobs: Seq<Job>,
    num_cores: int,
)
    requires
        permutation.wf(),
        permutation.job_order().len() == jobs.len(),
    ensures
        strengthened_by_occupation(jobs, num_cores) ==> strengthened_by_occupation(
            permutation.permuted_jobs(jobs),
            num_cores,
        ) && strengthened_by_occupation(permutation.restored_jobs(jobs), num_cores),
        some_job_infeasible(permutation.permuted_jobs(jobs)) == some_job_infeasible(jobs),
        some_job_infeasible(permutation.restored_jobs(jobs)) == some_job_infeasible(jobs),
        forall|t: int|
            occupation(permutation.permuted_jobs(jobs), t) == #[trigger] occupation(jobs, t),
        forall|t: int|
            occupation(permutation.restored_jobs(jobs), t) == #[trigger] occupation(jobs, t),
{
    let order = permutation.job_order();
    let moved = permutation.permuted_jobs(jobs);
    let back = permutation.restored_jobs(jobs);
    assert forall|t: int| occupation(moved, t) == #[trigger] occupation(jobs, t) by {
        assert forall|i: int| 0 <= i < moved.len() implies certain_load(
            jobs[(#[trigger] order[i]) as int],
            t,
        ) == certain_load(moved[i], t) by {}
        lemma_occupation_reordered(moved, jobs, order, t);
    }
    assert forall|t: int| occupation(back, t) == #[trigger] occupation(jobs, t) by {
        assert forall|i: int| 0 <= i < jobs.len() implies certain_load(
            back[(#[trigger] order[i]) as int],
            t,
        ) == certain_load(jobs[i], t) by {
            lemma_position_of(order, i);
        }
        lemma_occupation_reordered(jobs, back, order, t);
    }
    assert forall|i: int| 0 <= i < moved.len() implies has_times_of(jobs, #[trigger] moved[i]) by {
        assert(same_times(moved[i], jobs[order[i] as int]));
    }
    assert forall|o: int| 0 <= o < back.len() implies has_times_of(jobs, #[trigger] back[o]) by {
        lemma_permutation_covers(order, o);
        assert(same_times(back[o], jobs[position_of(order, o)]));
    }
    if strengthened_by_occupation(jobs, num_cores) {
        lemma_settled_with_same_times(jobs, moved, num_cores);
        lemma_settled_with_same_times(jobs, back, num_cores);
    }
    if some_job_infeasible(jobs) {
        let j = choose|j: int| 0 <= j < jobs.len() && (#[trigger] jobs[j]).infeasible();
        lemma_permutation_covers(order, j);
        lemma_position_of(order, j);
        assert(moved[position_of(order, j)].infeasible());
        assert(back[order[j] as int].infeasible());
    }
    if some_job_infeasible(moved) {
        let i = choose|i: int| 0 <= i < moved.len() && (#[trigger] moved[i]).infeasible();
        assert(jobs[order[i] as int].infeasible());
    }
    if some_job_infeasible(back) {
        let o = choose|o: int| 0 <= o < back.len() && (#[trigger] back[o]).infeasible();
        lemma_permutation_covers(order, o);
        assert(jobs[position_of(order, o)].infeasible());
    }
}

/// Bounds that respect the constraints respect the reordered constraints when they are
/// reordered, and bounds that respect the reordered constraints respect the constraints
/// when they are put back.
pub proof fn lemma_reordered_respected(
    permutation: ProblemPermutation,
    jobs: Seq<Job>,
    constraints: Seq<Constraint>,
)
    requires
        permutation.fits(jobs, constraints),
        constraints_valid(constraints, jobs.len() as int),
    ensures
        all_respected(jobs, constraints) ==> all_respected(
            permutation.permuted_jobs(jobs),
            permutation.permuted_constraints(constraints),
        ),
        all_respected(jobs, permutation.permuted_constraints(constraints)) ==> all_respected(
            permutation.restored_jobs(jobs),
            constraints,
        ),
{
    let order = permutation.job_order();
    let moved = permutation.permuted_jobs(jobs);
    let back = permutation.restored_jobs(jobs);
    let moved_constraints = permutation.permuted_constraints(constraints);
    if all_respected(jobs, constraints) {
        assert forall|j: int| 0 <= j < moved_constraints.len() implies (
        #[trigger] moved_constraints[j]).respected_by(moved) by {
            let c = constraints[permutation.constraint_order()[j] as int];
            assert(c.respected_by(jobs));
            assert(c.before < jobs.len() && c.after < jobs.len());
            lemma_permutation_covers(order, c.before as int);
            lemma_permutation_covers(order, c.after as int);
            lemma_permutation_covers(order, jobs.len() - 1);
        }
    }
    if all_respected(jobs, moved_constraints) {
        assert forall|k: int| 0 <= k < constraints.len() implies (
        #[trigger] constraints[k]).respected_by(back) by {
            let c = constraints[k];
            lemma_permutation_covers(permutation.constraint_order(), k);
            let j = position_of(permutation.constraint_order(), k);
            assert(moved_constraints[j].respected_by(jobs));
            assert(c.before < jobs.len() && c.after < jobs.len());
            lemma_permutation_covers(order, c.before as int);
            lemma_permutation_covers(order, c.after as int);
            lemma_permutation_covers(order, jobs.len() - 1);
        }
    }
}

/// The loosest bounds of the reordered jobs that respect the reordered constraints are, put
/// back, the loosest bounds of the jobs that respect the constraints.
pub proof fn lemma_loosest_respected_restored(
    permutation: ProblemPermutation,
    jobs: Seq<Job>,
    constraints: Seq<Constraint>,
    bounds: Seq<Job>,
)
    requires
        permutation.fits(jobs, constraints),
        indices_match(jobs),
        constraints_valid(constraints, jobs.len() as int),
        loosest_respected(
            bounds,
            permutation.permuted_jobs(jobs),
            permutation.permuted_constraints(constraints),
        ),
    ensures
        loosest_respected(permutation.restored_jobs(bounds), jobs, constraints),
{
    reveal(keeps_respected);
    let moved = permutation.permuted_jobs(jobs);
    let moved_constraints = permutation.permuted_constraints(constraints);
    let back = permutation.restored_jobs(bounds);
    lemma_reordered_tighten(permutation, bounds, moved);
    lemma_reordered_and_back(permutation, jobs);
    lemma_reordered_respected(permutation, bounds, constraints);
    assert forall|other: Seq<Job>|
        all_tighten(other, jobs) && #[trigger] all_respected(
            other,
            constraints,
        ) implies all_tighten(other, back) by {
        lemma_reordered_tighten(permutation, other, jobs);
        lemma_reordered_respected(permutation, other, constraints);
        let moved_other = permutation.permuted_jobs(other);
        assert(all_tighten(moved_other, bounds));
        lemma_reordered_tighten(permutation, moved_other, bounds);
        assert(indices_match(other)) by {
            assert forall|i: int| 0 <= i < other.len() implies (#[trigger] other[i]).index
                == i by {
                assert(other[i].tightens(jobs[i]));
            }
        }
        lemma_reordered_and_back(permutation, other);
    }
}

/// Reordered jobs can be settled exactly if the jobs can.
pub proof fn lemma_can_settle_reordered(
    permutation: ProblemPermutation,
    jobs: Seq<Job>,
    num_cores: int,
)
    requires
        permutation.wf(),
        permutation.job_order().len() == jobs.len(),
        indices_match(jobs),
    ensures
        can_settle(permutation.restored_jobs(jobs), num_cores) == can_settle(jobs, num_cores),
{
    reveal(can_settle);
    let order = permutation.job_order();
    let back = permutation.restored_jobs(jobs);
    lemma_reordered_and_back(permutation, jobs);
    if can_settle(jobs, num_cores) {
        let other = choose|other: Seq<Job>|
            all_tighten(other, jobs) && #[trigger] strengthened_by_occupation(other, num_cores)
                && keeps_start_times(other, jobs);
        lemma_reordered_tighten(permutation, other, jobs);
        lemma_reordered_settled(permutation, other, num_cores);
        let witness = permutation.restored_jobs(other);
        assert forall|o: int| 0 <= o < witness.len() && (
        #[trigger] witness[o]).infeasible() implies back[o].infeasible() by {
            lemma_permutation_covers(order, o);
            assert(other[position_of(order, o)].infeasible());
        }
        assert(all_tighten(witness, back) && strengthened_by_occupation(witness, num_cores)
            && keeps_start_times(witness, back));
    }
    if can_settle(back, num_cores) {
        let other = choose|other: Seq<Job>|
            all_tighten(other, back) && #[trigger] strengthened_by_occupation(other, num_cores)
                && keeps_start_times(other, back);
        lemma_reordered_tighten(permutation, other, back);
        lemma_reordered_settled(permutation, other, num_cores);
        let witness = permutation.permuted_jobs(other);
        assert forall|i: int| 0 <= i < witness.len() && (
        #[trigger] witness[i]).infeasible() implies jobs[i].infeasible() by {
            lemma_position_of(order, i);
            assert(other[order[i] as int].infeasible());
            assert(back[order[i] as int].infeasible());
        }
        assert(all_tighten(witness, jobs) && strengthened_by_occupation(witness, num_cores)
            && keeps_start_times(witness, jobs));
    }
}

/// The loosest bounds of the reordered jobs that are as strong as the certainly occupied
/// cores make them are, put back, the loosest such bounds of the jobs that were put back.
pub proof fn lemma_loosest_settled_restored(
    permutation: ProblemPermutation,
    jobs: Seq<Job>,
    bounds: Seq<Job>,
    num_cores: int,
)
    requires
        permutation.wf(),
        permutation.job_order().len() == jobs.len(),
        indices_match(jobs),
        loosest_settled(bounds, jobs, num_cores),
    ensures
        loosest_settled(
            permutation.restored_jobs(bounds),
            permutation.restored_jobs(jobs),
            num_cores,
        ),
{
    reveal(keeps_settled);
    let back = permutation.restored_jobs(jobs);
    lemma_reordered_tighten(permutation, bounds, jobs);
    lemma_reordered_settled(permutation, bounds, num_cores);
    lemma_reordered_and_back(permutation, jobs);
    assert forall|other: Seq<Job>|
        all_tighten(other, back) && #[trigger] strengthened_by_occupation(
            other,
            num_cores,
        ) implies all_tighten(other, permutation.restored_jobs(bounds)) by {
        lemma_reordered_tighten(permutation, other, back);
        lemma_reordered_settled(permutation, other, num_cores);
        let moved_other = permutation.permuted_jobs(other);
        assert(all_tighten(moved_other, bounds));
        lemma_reordered_tighten(permutation, moved_other, bounds);
        assert(indices_match(other)) by {
            assert forall|i: int| 0 <= i < other.len() implies (#[trigger] other[i]).index
                == i by {
                assert(other[i].tightens(back[i]));
                assert(jobs[i].index == i);
            }
        }
        lemma_reordered_and_back(permutation, other);
    }
}

} // verus!

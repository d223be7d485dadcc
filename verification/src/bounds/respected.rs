//! The bounds that the strengthening by the constraints ends with are the loosest bounds
//! that respect the constraints.

use crate::bounds::constraints::{all_respected, relax_backward, relax_forward};
use crate::bounds::occupation::all_tighten;
use crate::problem::{constraints_valid, Constraint, Job, Time};
use crate::schedule::{respects_constraints, within_bounds};
use vstd::prelude::*;

verus! {

/// Whether every strengthening of the bounds of `original` that respects `constraints` is a
/// strengthening of the bounds of `current` too
#[verifier::opaque]
pub open spec fn keeps_respected(
    current: Seq<Job>,
    original: Seq<Job>,
    constraints: Seq<Constraint>,
) -> bool {
    forall|other: Seq<Job>|
        all_tighten(other, original) && #[trigger] all_respected(other, constraints)
            ==> all_tighten(other, current)
}

/// Whether `bounds` are the loosest bounds within those of `jobs` that respect `constraints`
pub open spec fn loosest_respected(
    bounds: Seq<Job>,
    jobs: Seq<Job>,
    constraints: Seq<Constraint>,
) -> bool {
    &&& all_tighten(bounds, jobs)
    &&& all_respected(bounds, constraints)
    &&& keeps_respected(bounds, jobs, constraints)
}

/// The loosest bounds within those of `jobs` that respect `constraints`, if there are any
pub open spec fn precedence_bounds(jobs: Seq<Job>, constraints: Seq<Constraint>) -> Seq<Job> {
    choose|bounds: Seq<Job>| loosest_respected(bounds, jobs, constraints)
}

/// Bounds that respect a constraint are at least as tight as what the constraint makes of
/// looser bounds.
proof fn lemma_relaxed_is_looser(jobs: Seq<Job>, constraint: Constraint, other: Seq<Job>)
    requires
        constraint.before < jobs.len(),
        constraint.after < jobs.len(),
        all_tighten(other, jobs),
        constraint.respected_by(other),
    ensures
        all_tighten(other, relax_forward(jobs, constraint)),
        all_tighten(other, relax_backward(jobs, constraint)),
{
    let before = constraint.before as int;
    let after = constraint.after as int;
    assert(other[before].tightens(jobs[before]));
    assert(other[after].tightens(jobs[after]));
    let forward = relax_forward(jobs, constraint);
    assert forall|i: int| 0 <= i < other.len() implies (#[trigger] other[i]).tightens(
        forward[i],
    ) by {
        assert(other[i].tightens(jobs[i]));
    }
    let backward = relax_backward(jobs, constraint);
    assert forall|i: int| 0 <= i < other.len() implies (#[trigger] other[i]).tightens(
        backward[i],
    ) by {
        assert(other[i].tightens(jobs[i]));
    }
}

/// Bounds keep every strengthening of themselves.
pub proof fn lemma_keeps_respected_at_first(original: Seq<Job>, constraints: Seq<Constraint>)
    ensures
        keeps_respected(original, original, constraints),
{
    reveal(keeps_respected);
}

/// What a constraint makes of bounds keeps every strengthening that respects the
/// constraints.
pub proof fn lemma_relaxed_keeps_respected(
    jobs: Seq<Job>,
    original: Seq<Job>,
    constraints: Seq<Constraint>,
    index: int,
)
    requires
        constraints_valid(constraints, jobs.len() as int),
        0 <= index < constraints.len(),
        keeps_respected(jobs, original, constraints),
    ensures
        keeps_respected(relax_forward(jobs, constraints[index]), original, constraints),
        keeps_respected(relax_backward(jobs, constraints[index]), original, constraints),
{
    reveal(keeps_respected);
    let constraint = constraints[index];
    assert forall|other: Seq<Job>|
        all_tighten(other, original) && #[trigger] all_respected(
            other,
            constraints,
        ) implies all_tighten(other, relax_forward(jobs, constraint)) && all_tighten(
        other,
        relax_backward(jobs, constraint),
    ) by {
        assert(constraint.respected_by(other));
        lemma_relaxed_is_looser(jobs, constraint, other);
    }
}

/// Bounds that keep every strengthening that respects the constraints lose no schedule:
/// start times that lie within the bounds of the jobs and that respect the constraints are
/// themselves bounds that respect the constraints.
pub proof fn lemma_respected_keeps_schedules(
    current: Seq<Job>,
    original: Seq<Job>,
    constraints: Seq<Constraint>,
)
    requires
        constraints_valid(constraints, original.len() as int),
        keeps_respected(current, original, constraints),
    ensures
        forall|starts: Seq<int>|
            #[trigger] within_bounds(original, starts) && respects_constraints(
                original,
                constraints,
                starts,
            ) ==> within_bounds(current, starts),
{
    reveal(keeps_respected);
    assert forall|starts: Seq<int>|
        #[trigger] within_bounds(original, starts) && respects_constraints(
            original,
            constraints,
            starts,
        ) implies within_bounds(current, starts) by {
        let other = Seq::new(
            original.len(),
            |i: int|
                Job {
                    earliest_start: starts[i] as Time,
                    latest_start: starts[i] as Time,
                    ..original[i]
                },
        );
        assert forall|i: int| 0 <= i < other.len() implies (#[trigger] other[i]).tightens(
            original[i],
        ) && other[i].earliest_start == starts[i] && other[i].latest_start == starts[i] by {
            assert(original[i].earliest_start <= starts[i] <= original[i].latest_start);
        }
        assert forall|k: int| 0 <= k < constraints.len() implies (
        #[trigger] constraints[k]).respected_by(other) by {
            let c = constraints[k];
            assert(c.before < original.len() && c.after < original.len());
            assert(starts[c.after as int] >= starts[c.before as int] + c.gap(original));
            assert(other[c.before as int].tightens(original[c.before as int]));
            assert(other[c.after as int].tightens(original[c.after as int]));
        }
        assert(all_tighten(other, original));
        assert(all_respected(other, constraints));
        assert(all_tighten(other, current));
        assert forall|i: int| 0 <= i < current.len() implies (#[trigger] current[i]).earliest_start
            <= starts[i] <= current[i].latest_start by {
            assert(other[i].tightens(current[i]));
            assert(other[i].tightens(original[i]));
        }
    }
}

/// Bounds that respect the constraints are the loosest bounds within themselves that do:
/// strengthening them changes nothing.
pub proof fn lemma_respected_bounds_stay(jobs: Seq<Job>, constraints: Seq<Constraint>)
    requires
        all_respected(jobs, constraints),
    ensures
        precedence_bounds(jobs, constraints) == jobs,
{
    reveal(keeps_respected);
    assert(all_tighten(jobs, jobs));
    lemma_precedence_bounds(jobs, jobs, constraints);
}

/// The loosest bounds that respect the constraints are unique.
pub proof fn lemma_precedence_bounds(
    bounds: Seq<Job>,
    jobs: Seq<Job>,
    constraints: Seq<Constraint>,
)
    requires
        loosest_respected(bounds, jobs, constraints),
    ensures
        precedence_bounds(jobs, constraints) == bounds,
{
    reveal(keeps_respected);
    let other = precedence_bounds(jobs, constraints);
    assert(loosest_respected(other, jobs, constraints));
    assert(all_tighten(bounds, other));
    assert(all_tighten(other, bounds));
    assert forall|i: int| 0 <= i < bounds.len() implies other[i] == bounds[i] by {
        assert(bounds[i].tightens(other[i]));
        assert(other[i].tightens(bounds[i]));
    }
    assert(other =~= bounds);
}

} // verus!

//! Reordering of the jobs of a problem such that every constraint leads from a lower to a
//! higher job index.

use crate::problem::{
    constraints_valid, indices_match, job_order_possible, Constraint, Job, Problem,
};
use vstd::prelude::*;
use vstd::set_lib::{lemma_int_range, lemma_len_subset, lemma_subset_equality, set_int_range};

verus! {

/// Whether the elements of `order` differ from each other and lie below `bound`
pub open spec fn distinct_below(order: Seq<usize>, bound: int) -> bool {
    &&& forall|i: int| 0 <= i < order.len() ==> order[i] < bound
    &&& forall|i: int, j: int| 0 <= i < j < order.len() ==> order[i] != order[j]
}

/// Whether `order` holds each number below its length once
pub open spec fn is_permutation(order: Seq<usize>) -> bool {
    distinct_below(order, order.len() as int)
}

/// The position at which `order` holds `value`
pub open spec fn position_of(order: Seq<usize>, value: int) -> int {
    choose|i: int| 0 <= i < order.len() && order[i] == value
}

/// Whether `rank` gives each of `num_jobs` jobs a number such that each constraint leads
/// from a lower to a higher number
pub open spec fn is_topological_rank(
    constraints: Seq<Constraint>,
    num_jobs: int,
    rank: Seq<nat>,
) -> bool {
    &&& rank.len() == num_jobs
    &&& forall|k: int|
        0 <= k < constraints.len() ==> rank[(#[trigger] constraints[k]).before as int]
            < rank[constraints[k].after as int]
}

/// Whether the jobs can be put in an order that respects every constraint, which is to say
/// that the constraints are not cyclic
pub open spec fn admits_order(constraints: Seq<Constraint>, num_jobs: int) -> bool {
    exists|rank: Seq<nat>| is_topological_rank(constraints, num_jobs, rank)
}

/// Whether `order` holds the predecessor of each constraint before its successor, where it
/// holds the successor
pub open spec fn respects(order: Seq<usize>, constraints: Seq<Constraint>) -> bool {
    forall|k: int, i: int|
        0 <= k < constraints.len() && 0 <= i < order.len() && #[trigger] order[i] == (
        #[trigger] constraints[k]).after ==> exists|j: int|
            0 <= j < i && #[trigger] order[j] == constraints[k].before
}

/// Whether no constraint has a predecessor that lies behind the predecessor of a later
/// constraint
pub open spec fn ordered_by_before(constraints: Seq<Constraint>) -> bool {
    forall|i: int, j: int|
        0 <= i <= j < constraints.len() ==> constraints[i].before <= constraints[j].before
}

/// The number of constraints that lead to `job` and whose index is not in `done`
pub open spec fn pending(constraints: Seq<Constraint>, done: Set<int>, job: int) -> int
    decreases constraints.len(),
{
    if constraints.len() == 0 {
        0
    } else {
        pending(constraints.drop_last(), done, job) + if constraints.last().after == job
            && !done.contains(constraints.len() - 1) {
            1int
        } else {
            0int
        }
    }
}

/// When a constraint is done, one predecessor fewer is pending for its successor.
proof fn lemma_pending_insert(constraints: Seq<Constraint>, done: Set<int>, job: int, k: int)
    requires
        0 <= k < constraints.len(),
        !done.contains(k),
    ensures
        pending(constraints, done.insert(k), job) == pending(constraints, done, job)
            - if constraints[k].after == job {
            1int
        } else {
            0int
        },
    decreases constraints.len(),
{
    if k == constraints.len() - 1 {
        lemma_pending_beyond(constraints.drop_last(), done, job, k);
    } else {
        lemma_pending_insert(constraints.drop_last(), done, job, k);
    }
}

/// An index that no constraint has does not matter.
proof fn lemma_pending_beyond(constraints: Seq<Constraint>, done: Set<int>, job: int, k: int)
    requires
        k >= constraints.len(),
    ensures
        pending(constraints, done.insert(k), job) == pending(constraints, done, job),
    decreases constraints.len(),
{
    if constraints.len() > 0 {
        lemma_pending_beyond(constraints.drop_last(), done, job, k);
    }
}

/// Where constraints are pending, one of them can be named; where none is pending, every
/// constraint that leads to the job is done.
proof fn lemma_pending_witness(constraints: Seq<Constraint>, done: Set<int>, job: int)
    ensures
        pending(constraints, done, job) >= 0,
        pending(constraints, done, job) > 0 ==> exists|k: int|
            0 <= k < constraints.len() && (#[trigger] constraints[k]).after == job
                && !done.contains(k),
        pending(constraints, done, job) == 0 ==> forall|k: int|
            0 <= k < constraints.len() && (#[trigger] constraints[k]).after == job
                ==> done.contains(k),
    decreases constraints.len(),
{
    if constraints.len() > 0 {
        let rest = constraints.drop_last();
        lemma_pending_witness(rest, done, job);
        let last = constraints.len() - 1;
        if pending(constraints, done, job) > 0 {
            if constraints.last().after == job && !done.contains(last) {
                assert(constraints[last].after == job);
            } else {
                let k = choose|k: int|
                    0 <= k < rest.len() && (#[trigger] rest[k]).after == job && !done.contains(k);
                assert(constraints[k].after == job);
            }
        }
        if pending(constraints, done, job) == 0 {
            assert forall|k: int|
                0 <= k < constraints.len() && (#[trigger] constraints[k]).after
                    == job implies done.contains(k) by {
                if k < last {
                    assert(rest[k].after == job);
                }
            }
        }
    }
}

/// The elements of `order` as integers
pub open spec fn as_ints(order: Seq<usize>) -> Seq<int> {
    Seq::new(order.len(), |i: int| order[i] as int)
}

/// Distinct numbers below a bound that are fewer than the bound leave a number out.
proof fn lemma_leaves_out(order: Seq<usize>, bound: int) -> (missing: int)
    requires
        distinct_below(order, bound),
        order.len() < bound,
    ensures
        0 <= missing < bound,
        forall|i: int| 0 <= i < order.len() ==> order[i] != missing,
{
    let ints = as_ints(order);
    let range = set_int_range(0, bound);
    lemma_int_range(0, bound);
    ints.lemma_cardinality_of_set();
    if range.subset_of(ints.to_set()) {
        vstd::seq_lib::seq_to_set_is_finite(ints);
        lemma_len_subset(range, ints.to_set());
        assert(false);
    }
    let missing = choose|v: int| range.contains(v) && !ints.to_set().contains(v);
    assert forall|i: int| 0 <= i < order.len() implies order[i] != missing by {
        if order[i] == missing {
            assert(ints[i] == missing);
            assert(ints.contains(missing));
        }
    }
    missing
}

/// A permutation holds every number below its length.
pub proof fn lemma_permutation_covers(order: Seq<usize>, value: int)
    requires
        is_permutation(order),
        0 <= value < order.len(),
    ensures
        0 <= position_of(order, value) < order.len(),
        order[position_of(order, value)] == value,
{
    let ints = as_ints(order);
    let range = set_int_range(0, order.len() as int);
    lemma_int_range(0, order.len() as int);
    assert(ints.no_duplicates());
    ints.unique_seq_to_set();
    vstd::seq_lib::seq_to_set_is_finite(ints);
    assert(ints.to_set().subset_of(range)) by {
        assert forall|v: int| ints.to_set().contains(v) implies range.contains(v) by {
            assert(ints.contains(v));
            let i = choose|i: int| 0 <= i < ints.len() && ints[i] == v;
            assert(order[i] < order.len());
        }
    }
    lemma_subset_equality(ints.to_set(), range);
    assert(range.contains(value));
    assert(ints.contains(value));
    let i = choose|i: int| 0 <= i < ints.len() && ints[i] == value;
    assert(order[i] == value);
}

/// A permutation holds each of its elements at one position only.
pub proof fn lemma_position_of(order: Seq<usize>, index: int)
    requires
        is_permutation(order),
        0 <= index < order.len(),
    ensures
        position_of(order, order[index] as int) == index,
{
    let p = position_of(order, order[index] as int);
    assert(0 <= p < order.len() && order[p] == order[index]);
}

/// Whether `order` holds `value`
pub open spec fn holds(order: Seq<usize>, value: int) -> bool {
    exists|i: int| 0 <= i < order.len() && order[i] == value
}

/// Whether the list of each job holds, in ascending order, the indices below `upto` of the
/// constraints that lead away from that job
spec fn lists_hold(lists: Seq<Vec<usize>>, constraints: Seq<Constraint>, upto: int) -> bool {
    &&& forall|p: int, q: int|
        0 <= p < lists.len() && 0 <= q < lists[p]@.len() ==> (#[trigger] lists[p]@[q]) < upto
            && constraints[lists[p]@[q] as int].before == p
    &&& forall|p: int, q1: int, q2: int|
        0 <= p < lists.len() && 0 <= q1 < q2 < lists[p]@.len() ==> (#[trigger] lists[p]@[q1]) < (
        #[trigger] lists[p]@[q2])
    &&& forall|k: int|
        0 <= k < upto ==> exists|q: int|
            0 <= q < lists[(#[trigger] constraints[k]).before as int]@.len()
                && lists[constraints[k].before as int]@[q] == k
}

/// Lists, for each job, the constraints that lead away from it.
fn successor_lists(constraints: &Vec<Constraint>, num_jobs: usize) -> (lists: Vec<Vec<usize>>)
    requires
        constraints_valid(constraints@, num_jobs as int),
    ensures
        lists@.len() == num_jobs,
        lists_hold(lists@, constraints@, constraints@.len() as int),
{
    let mut lists: Vec<Vec<usize>> = Vec::new();
    let mut job: usize = 0;
    while job < num_jobs
        invariant
            job <= num_jobs,
            lists@.len() == job,
            forall|p: int| 0 <= p < job ==> (#[trigger] lists@[p])@.len() == 0,
        decreases num_jobs - job,
    {
        lists.push(Vec::new());
        job += 1;
    }
    let count = constraints.len();
    let mut k: usize = 0;
    while k < count
        invariant
            k <= count,
            count == constraints@.len(),
            constraints_valid(constraints@, num_jobs as int),
            lists@.len() == num_jobs,
            lists_hold(lists@, constraints@, k as int),
        decreases count - k,
    {
        let before = constraints[k].before;
        let ghost previous = lists@;
        lists[before].push(k);
        proof {
            assert(lists@[before as int]@ == previous[before as int]@.push(k));
            assert forall|p: int, q: int|
                0 <= p < lists@.len() && 0 <= q < lists@[p]@.len() implies (
            #[trigger] lists@[p]@[q]) < k + 1 && constraints@[lists@[p]@[q] as int].before
                == p by {
                if p == before && q == previous[p]@.len() {
                } else {
                    assert(lists@[p]@[q] == previous[p]@[q]);
                }
            }
            assert forall|p: int, q1: int, q2: int|
                0 <= p < lists@.len() && 0 <= q1 < q2 < lists@[p]@.len() implies (
            #[trigger] lists@[p]@[q1]) < (#[trigger] lists@[p]@[q2]) by {
                assert(lists@[p]@[q1] == previous[p]@[q1]);
                if p == before && q2 == previous[p]@.len() {
                } else {
                    assert(lists@[p]@[q2] == previous[p]@[q2]);
                }
            }
            assert forall|j: int| 0 <= j < k + 1 implies exists|q: int|
                0 <= q < lists@[(#[trigger] constraints@[j]).before as int]@.len()
                    && lists@[constraints@[j].before as int]@[q] == j by {
                if j == k {
                    let q = previous[before as int]@.len() as int;
                    assert(lists@[before as int]@[q] == k);
                } else {
                    let b = constraints@[j].before as int;
                    let q = choose|q: int| 0 <= q < previous[b]@.len() && previous[b]@[q] == j;
                    assert(lists@[b]@[q] == j);
                }
            }
        }
        k += 1;
    }
    lists
}

/// Counts, for each job, the constraints that lead to it.
fn predecessor_counts(constraints: &Vec<Constraint>, num_jobs: usize) -> (counts: Vec<usize>)
    requires
        constraints_valid(constraints@, num_jobs as int),
    ensures
        counts@.len() == num_jobs,
        forall|j: int|
            0 <= j < num_jobs ==> (#[trigger] counts@[j]) == pending(constraints@, Set::empty(), j),
{
    let mut counts: Vec<usize> = Vec::new();
    let mut job: usize = 0;
    while job < num_jobs
        invariant
            job <= num_jobs,
            counts@.len() == job,
            forall|j: int| 0 <= j < job ==> (#[trigger] counts@[j]) == 0,
        decreases num_jobs - job,
    {
        counts.push(0);
        job += 1;
    }
    let count = constraints.len();
    let mut k: usize = 0;
    while k < count
        invariant
            k <= count,
            count == constraints@.len(),
            constraints_valid(constraints@, num_jobs as int),
            counts@.len() == num_jobs,
            forall|j: int|
                0 <= j < num_jobs ==> (#[trigger] counts@[j]) == pending(
                    constraints@.take(k as int),
                    Set::empty(),
                    j,
                ) && counts@[j] <= k,
        decreases count - k,
    {
        let after = constraints[k].after;
        let ghost previous = counts@;
        counts[after] += 1;
        proof {
            assert(constraints@.take(k + 1).drop_last() == constraints@.take(k as int));
            assert forall|j: int| 0 <= j < num_jobs implies (#[trigger] counts@[j]) == pending(
                constraints@.take(k + 1),
                Set::empty(),
                j,
            ) && counts@[j] <= k + 1 by {
                assert(previous[j] == pending(constraints@.take(k as int), Set::empty(), j));
            }
        }
        k += 1;
    }
    assert(constraints@.take(count as int) == constraints@);
    counts
}

/// Whether the state of the search for an order is sound: the jobs in `completed` are in an
/// order that respects the constraints, `remaining` counts for each job the constraints
/// that lead to it and are not in `done`, and `next` holds the jobs that are not completed
/// and to which no constraint is pending.
spec fn search_sound(
    constraints: Seq<Constraint>,
    num_jobs: int,
    remaining: Seq<usize>,
    next: Seq<usize>,
    completed: Seq<usize>,
    done: Set<int>,
) -> bool {
    &&& remaining.len() == num_jobs
    &&& distinct_below(completed, num_jobs)
    &&& distinct_below(next, num_jobs)
    &&& forall|j: int|
        0 <= j < num_jobs ==> (#[trigger] remaining[j]) == pending(constraints, done, j)
    &&& forall|j: int|
        0 <= j < num_jobs ==> (#[trigger] holds(next, j) <==> remaining[j] == 0
            && !holds(completed, j))
    &&& forall|i: int| 0 <= i < completed.len() ==> remaining[(#[trigger] completed[i]) as int] == 0
    &&& respects(completed, constraints)
}

/// Whether `grouped` names each constraint of `done` once, with the position in `completed`
/// of the job that it leads away from, and in ascending order of these positions
spec fn grouped_sound(
    constraints: Seq<Constraint>,
    completed: Seq<usize>,
    grouped: Seq<(usize, usize)>,
    done: Set<int>,
) -> bool {
    &&& groups(constraints, completed, grouped)
    &&& forall|g: int| 0 <= g < grouped.len() ==> done.contains((#[trigger] grouped[g]).1 as int)
    &&& done.finite()
    &&& done.len() == grouped.len()
    &&& forall|k: int| done.contains(k) ==> 0 <= k < constraints.len()
}

/// Whether `grouped` names constraints that differ from each other, each with the position
/// in `order` of the job that it leads away from, and in ascending order of these positions
pub open spec fn groups(
    constraints: Seq<Constraint>,
    order: Seq<usize>,
    grouped: Seq<(usize, usize)>,
) -> bool {
    &&& forall|g: int|
        0 <= g < grouped.len() ==> {
            &&& (#[trigger] grouped[g]).1 < constraints.len()
            &&& grouped[g].0 < order.len()
            &&& order[grouped[g].0 as int] == constraints[grouped[g].1 as int].before
        }
    &&& forall|g1: int, g2: int|
        0 <= g1 < g2 < grouped.len() ==> (#[trigger] grouped[g1]).1 != (#[trigger] grouped[g2]).1
            && grouped[g1].0 <= grouped[g2].0
}

/// No numbering respects the constraints if a constraint is pending to each job that is not
/// completed, from a job that is not completed either.
proof fn lemma_no_order(
    constraints: Seq<Constraint>,
    num_jobs: int,
    completed: Seq<usize>,
    done: Set<int>,
    rank: Seq<nat>,
    job: int,
)
    requires
        constraints_valid(constraints, num_jobs),
        0 <= job < num_jobs,
        !holds(completed, job),
        forall|j: int|
            0 <= j < num_jobs && !holds(completed, j) ==> #[trigger] pending(
                constraints,
                done,
                j,
            ) > 0,
        forall|k: int|
            0 <= k < constraints.len() && holds(
                completed,
                (#[trigger] constraints[k]).before as int,
            ) ==> done.contains(k),
    ensures
        !is_topological_rank(constraints, num_jobs, rank),
    decreases rank[job],
{
    if is_topological_rank(constraints, num_jobs, rank) {
        assert(pending(constraints, done, job) > 0);
        lemma_pending_witness(constraints, done, job);
        let k = choose|k: int|
            0 <= k < constraints.len() && (#[trigger] constraints[k]).after == job
                && !done.contains(k);
        let before = constraints[k].before as int;
        assert(rank[before] < rank[job]);
        lemma_no_order(constraints, num_jobs, completed, done, rank, before);
    }
}

/// Searches for an order of the jobs that respects the constraints: a job is next when no
/// constraint is pending to it, and completing a job settles the constraints that lead away
/// from it. Returns the order together with the constraints in the order in which they were
/// settled, each with the position of its predecessor in the order of the jobs.
#[verifier::rlimit(40)]
fn topological_order(constraints: &Vec<Constraint>, num_jobs: usize) -> (result: Option<
    (Vec<usize>, Vec<(usize, usize)>),
>)
    requires
        constraints_valid(constraints@, num_jobs as int),
    ensures
        match result {
            Some((order, grouped)) => {
                &&& order@.len() == num_jobs
                &&& is_permutation(order@)
                &&& respects(order@, constraints@)
                &&& grouped@.len() == constraints@.len()
                &&& groups(constraints@, order@, grouped@)
            },
            None => !admits_order(constraints@, num_jobs as int),
        },
{
    let successors = successor_lists(constraints, num_jobs);
    let mut remaining = predecessor_counts(constraints, num_jobs);
    let mut completed: Vec<usize> = Vec::new();
    let mut next_jobs: Vec<usize> = Vec::new();
    let mut grouped: Vec<(usize, usize)> = Vec::new();
    let ghost mut done: Set<int> = Set::empty();
    let ghost cs = constraints@;
    let ghost n = num_jobs as int;

    let mut job: usize = 0;
    while job < num_jobs
        invariant
            job <= num_jobs,
            remaining@.len() == num_jobs,
            distinct_below(next_jobs@, job as int),
            forall|i: int, j: int| 0 <= i < j < next_jobs@.len() ==> next_jobs@[i] < next_jobs@[j],
            forall|j: int|
                0 <= j < job ==> (#[trigger] holds(next_jobs@, j) <==> remaining@[j]
                    == 0),
        decreases num_jobs - job,
    {
        let ghost previous = next_jobs@;
        if remaining[job] == 0 {
            next_jobs.push(job);
            proof {
                assert(next_jobs@[previous.len() as int] == job);
                assert forall|j: int| 0 <= j < job + 1 implies (#[trigger] holds(next_jobs@, j)
                    <==> remaining@[j] == 0) by {
                    if j < job {
                        if holds(previous, j) {
                            let i = choose|i: int| 0 <= i < previous.len() && previous[i] == j;
                            assert(next_jobs@[i] == j);
                        }
                        if holds(next_jobs@, j) {
                            let i = choose|i: int|
                                0 <= i < next_jobs@.len() && next_jobs@[i] == j;
                            assert(previous[i] == j);
                        }
                    }
                }
            }
        } else {
            proof {
                if holds(next_jobs@, job as int) {
                    let i = choose|i: int| 0 <= i < next_jobs@.len() && next_jobs@[i] == job;
                    assert(false);
                }
            }
        }
        job += 1;
    }
    assert(search_sound(cs, n, remaining@, next_jobs@, completed@, done));
    assert(grouped_sound(cs, completed@, grouped@, done));

    while next_jobs.len() > 0
        invariant
            cs == constraints@,
            n == num_jobs,
            constraints_valid(cs, n),
            successors@.len() == num_jobs,
            lists_hold(successors@, cs, cs.len() as int),
            search_sound(cs, n, remaining@, next_jobs@, completed@, done),
            grouped_sound(cs, completed@, grouped@, done),
            forall|k: int|
                0 <= k < cs.len()
                    ==> (done.contains(k) <==> holds(completed@, (#[trigger] cs[k]).before as int)),
        decreases num_jobs - completed@.len(),
    {
        let ghost next_before = next_jobs@;
        let ghost completed_before = completed@;
        let predecessor = next_jobs.pop().unwrap();
        let position = completed.len();
        proof {
            assert(holds(next_before, predecessor as int)) by {
                assert(next_before[next_before.len() - 1] == predecessor);
            }
            assert(remaining@[predecessor as int] == 0);
            assert(!holds(completed_before, predecessor as int));
            lemma_room_left(completed_before, n, predecessor as int);
        }
        completed.push(predecessor);
        proof {
            lemma_completed_one(
                cs,
                n,
                remaining@,
                next_before,
                completed_before,
                done,
                predecessor,
            );
            assert(next_jobs@ == next_before.drop_last());
            assert(completed@ == completed_before.push(predecessor));
            assert(grouped_sound(cs, completed@, grouped@, done)) by {
                assert forall|g: int| 0 <= g < grouped@.len() implies {
                    &&& (#[trigger] grouped@[g]).1 < cs.len()
                    &&& grouped@[g].0 < completed@.len()
                    &&& completed@[grouped@[g].0 as int] == cs[grouped@[g].1 as int].before
                } by {
                    let at = grouped@[g].0 as int;
                    assert(completed@[at] == completed_before[at]);
                }
            }
        }
        let list_length = successors[predecessor].len();
        let mut q: usize = 0;
        while q < list_length
            invariant
                q <= list_length,
                cs == constraints@,
                n == num_jobs,
                constraints_valid(cs, n),
                predecessor < num_jobs,
                successors@.len() == num_jobs,
                list_length == successors@[predecessor as int]@.len(),
                lists_hold(successors@, cs, cs.len() as int),
                position + 1 == completed@.len(),
                completed@ == completed_before.push(predecessor),
                !holds(completed_before, predecessor as int),
                search_sound(cs, n, remaining@, next_jobs@, completed@, done),
                grouped_sound(cs, completed@, grouped@, done),
                forall|k: int|
                    0 <= k < cs.len() ==> (done.contains(k) <==> holds(
                        completed_before,
                        (#[trigger] cs[k]).before as int,
                    ) || (cs[k].before == predecessor && exists|r: int|
                        0 <= r < q && successors@[predecessor as int]@[r] == k)),
            decreases list_length - q,
        {
            let k = successors[predecessor][q];
            let successor = constraints[k].after;
            let ghost remaining_before = remaining@;
            let ghost next_now = next_jobs@;
            let ghost grouped_before = grouped@;
            let ghost done_before = done;
            proof {
                assert(cs[k as int].before == predecessor);
                assert(!done.contains(k as int)) by {
                    if done.contains(k as int) {
                        let r = choose|r: int|
                            0 <= r < q && successors@[predecessor as int]@[r] == k;
                        let listed = successors@[predecessor as int]@;
                        assert(listed[r] < listed[q as int]);
                    }
                }
                lemma_pending_witness(cs, done, successor as int);
                assert(pending(cs, done, successor as int) > 0) by {
                    lemma_pending_insert(cs, done, successor as int, k as int);
                    lemma_pending_witness(cs, done.insert(k as int), successor as int);
                }
                done = done.insert(k as int);
            }
            remaining[successor] -= 1;
            if remaining[successor] == 0 {
                next_jobs.push(successor);
            }
            grouped.push((position, k));
            proof {
                lemma_settled_one(
                    cs,
                    n,
                    remaining_before,
                    remaining@,
                    next_now,
                    next_jobs@,
                    completed@,
                    done_before,
                    k as int,
                );
                assert(grouped_sound(cs, completed@, grouped@, done)) by {
                    assert(grouped@ == grouped_before.push((position, k)));
                    assert forall|g: int| 0 <= g < grouped@.len() implies {
                        &&& (#[trigger] grouped@[g]).1 < cs.len()
                        &&& grouped@[g].0 < completed@.len()
                        &&& completed@[grouped@[g].0 as int] == cs[grouped@[g].1 as int].before
                    } by {
                        if g < grouped_before.len() {
                            assert(grouped@[g] == grouped_before[g]);
                        }
                    }
                    assert forall|g1: int, g2: int| 0 <= g1 < g2 < grouped@.len() implies (
                    #[trigger] grouped@[g1]).1 != (#[trigger] grouped@[g2]).1 && grouped@[g1].0
                        <= grouped@[g2].0 by {
                        assert(grouped@[g1] == grouped_before[g1]);
                        if g2 < grouped_before.len() {
                            assert(grouped@[g2] == grouped_before[g2]);
                        } else {
                            assert(done_before.contains(grouped_before[g1].1 as int));
                        }
                    }
                    assert forall|g: int| 0 <= g < grouped@.len() implies done.contains(
                        (#[trigger] grouped@[g]).1 as int,
                    ) by {
                        if g < grouped_before.len() {
                            assert(grouped@[g] == grouped_before[g]);
                        }
                    }
                }
                assert forall|j: int| 0 <= j < cs.len() implies (done.contains(j)
                    <==> holds(completed_before, (#[trigger] cs[j]).before as int) || (cs[j].before
                    == predecessor && exists|r: int|
                    0 <= r < q + 1 && successors@[predecessor as int]@[r] == j)) by {
                    if j == k {
                        assert(successors@[predecessor as int]@[q as int] == j);
                    } else {
                        if done_before.contains(j) && !holds(
                            completed_before,
                            cs[j].before as int,
                        ) {
                            let r = choose|r: int|
                                0 <= r < q && successors@[predecessor as int]@[r] == j;
                            assert(0 <= r < q + 1 && successors@[predecessor as int]@[r] == j);
                        }
                    }
                }
            }
            q += 1;
        }
        proof {
            assert forall|k: int| 0 <= k < cs.len() implies (done.contains(k)
                <==> holds(completed@, (#[trigger] cs[k]).before as int)) by {
                let before = cs[k].before;
                if holds(completed@, before as int) {
                    let i = choose|i: int| 0 <= i < completed@.len() && completed@[i] == before;
                    if i < completed_before.len() {
                        assert(completed_before[i] == before);
                    } else {
                        assert(before == predecessor);
                        let r = choose|r: int|
                            0 <= r < successors@[before as int]@.len()
                                && successors@[before as int]@[r] == k;
                        assert(0 <= r < q && successors@[predecessor as int]@[r] == k);
                    }
                }
                if holds(completed_before, before as int) {
                    let i = choose|i: int|
                        0 <= i < completed_before.len() && completed_before[i] == before;
                    assert(completed@[i] == before);
                }
                if before == predecessor {
                    assert(completed@[position as int] == before);
                }
            }
        }
    }

    if completed.len() != num_jobs {
        proof {
            assert(completed@.len() <= n) by {
                if completed@.len() > n {
                    let shorter = completed@.take(n);
                    assert(distinct_below(shorter, n));
                    assert(is_permutation(shorter));
                    lemma_permutation_covers(shorter, completed@[n] as int);
                    let i = position_of(shorter, completed@[n] as int);
                    assert(completed@[i] == completed@[n]);
                }
            }
            let missing = lemma_leaves_out(completed@, n);
            assert(!holds(completed@, missing));
            assert forall|j: int|
                0 <= j < n && !holds(completed@, j) implies #[trigger] pending(
                cs,
                done,
                j,
            ) > 0 by {
                assert(!holds(next_jobs@, j));
                assert(remaining@[j] == pending(cs, done, j));
                lemma_pending_witness(cs, done, j);
            }
            if admits_order(cs, n) {
                let rank = choose|rank: Seq<nat>| is_topological_rank(cs, n, rank);
                lemma_no_order(cs, n, completed@, done, rank, missing);
            }
        }
        return None;
    }
    proof {
        assert(done =~= set_int_range(0, cs.len() as int)) by {
            assert forall|k: int| 0 <= k < cs.len() implies done.contains(k) by {
                lemma_permutation_covers(completed@, cs[k].before as int);
                assert(holds(completed@, cs[k].before as int));
            }
        }
        lemma_int_range(0, cs.len() as int);
    }
    Some((completed, grouped))
}

/// Distinct numbers below a bound that leave a number out are fewer than the bound.
proof fn lemma_room_left(completed: Seq<usize>, bound: int, job: int)
    requires
        distinct_below(completed, bound),
        0 <= job < bound,
        !holds(completed, job),
    ensures
        completed.len() < bound,
{
    if completed.len() >= bound {
        let shorter = completed.take(bound);
        assert(is_permutation(shorter));
        lemma_permutation_covers(shorter, job);
        let i = position_of(shorter, job);
        assert(completed[i] == job);
    }
}

/// Completing a job to which no constraint is pending keeps the state of the search sound.
proof fn lemma_completed_one(
    constraints: Seq<Constraint>,
    num_jobs: int,
    remaining: Seq<usize>,
    next: Seq<usize>,
    completed: Seq<usize>,
    done: Set<int>,
    job: usize,
)
    requires
        constraints_valid(constraints, num_jobs),
        search_sound(constraints, num_jobs, remaining, next, completed, done),
        next.len() > 0,
        next.last() == job,
        forall|k: int|
            0 <= k < constraints.len() ==> (done.contains(k) <==> holds(
                completed,
                (#[trigger] constraints[k]).before as int,
            )),
    ensures
        search_sound(
            constraints,
            num_jobs,
            remaining,
            next.drop_last(),
            completed.push(job),
            done,
        ),
{
    let next2 = next.drop_last();
    let completed2 = completed.push(job);
    assert(holds(next, job as int)) by {
        assert(next[next.len() - 1] == job);
    }
    assert(remaining[job as int] == 0 && !holds(completed, job as int));
    assert(distinct_below(completed2, num_jobs)) by {
        assert forall|i: int, j: int| 0 <= i < j < completed2.len() implies completed2[i]
            != completed2[j] by {
            if j == completed.len() {
                if completed2[i] == job {
                    assert(completed[i] == job);
                }
            }
        }
    }
    assert(distinct_below(next2, num_jobs));
    assert forall|j: int| 0 <= j < num_jobs implies (#[trigger] holds(next2, j)
        <==> remaining[j] == 0 && !holds(completed2, j)) by {
        if holds(next2, j) {
            let i = choose|i: int| 0 <= i < next2.len() && next2[i] == j;
            assert(next[i] == j);
            assert(holds(next, j));
            assert(j != job);
            if holds(completed2, j) {
                let c = choose|c: int| 0 <= c < completed2.len() && completed2[c] == j;
                assert(completed[c] == j);
            }
        }
        if remaining[j] == 0 && !holds(completed2, j) {
            assert(j != job) by {
                assert(completed2[completed.len() as int] == job);
            }
            if holds(completed, j) {
                let c = choose|c: int| 0 <= c < completed.len() && completed[c] == j;
                assert(completed2[c] == j);
            }
            assert(holds(next, j));
            let i = choose|i: int| 0 <= i < next.len() && next[i] == j;
            assert(next2[i] == j);
        }
    }
    assert forall|i: int| 0 <= i < completed2.len() implies remaining[(
    #[trigger] completed2[i]) as int] == 0 by {
        if i < completed.len() {
            assert(completed2[i] == completed[i]);
        }
    }
    assert(respects(completed2, constraints)) by {
        assert forall|k: int, i: int|
            0 <= k < constraints.len() && 0 <= i < completed2.len() && #[trigger] completed2[i]
                == (#[trigger] constraints[k]).after implies exists|j: int|
            0 <= j < i && #[trigger] completed2[j] == constraints[k].before by {
            if i < completed.len() {
                assert(completed[i] == constraints[k].after);
                let j = choose|j: int|
                    0 <= j < i && #[trigger] completed[j] == constraints[k].before;
                assert(completed2[j] == constraints[k].before);
            } else {
                lemma_pending_witness(constraints, done, job as int);
                assert(done.contains(k));
                assert(holds(completed, constraints[k].before as int));
                let j = choose|j: int|
                    0 <= j < completed.len() && completed[j] == constraints[k].before;
                assert(completed2[j] == constraints[k].before);
            }
        }
    }
}

/// Settling a constraint, which lowers the count of its successor and makes the successor
/// next if the count becomes zero, keeps the state of the search sound.
proof fn lemma_settled_one(
    constraints: Seq<Constraint>,
    num_jobs: int,
    remaining: Seq<usize>,
    remaining2: Seq<usize>,
    next: Seq<usize>,
    next2: Seq<usize>,
    completed: Seq<usize>,
    done: Set<int>,
    k: int,
)
    requires
        constraints_valid(constraints, num_jobs),
        search_sound(constraints, num_jobs, remaining, next, completed, done),
        0 <= k < constraints.len(),
        !done.contains(k),
        remaining[constraints[k].after as int] > 0,
        remaining2 == remaining.update(
            constraints[k].after as int,
            (remaining[constraints[k].after as int] - 1) as usize,
        ),
        next2 == if remaining2[constraints[k].after as int] == 0 {
            next.push(constraints[k].after)
        } else {
            next
        },
    ensures
        search_sound(constraints, num_jobs, remaining2, next2, completed, done.insert(k)),
{
    let successor = constraints[k].after;
    assert forall|j: int| 0 <= j < num_jobs implies (#[trigger] remaining2[j]) == pending(
        constraints,
        done.insert(k),
        j,
    ) by {
        lemma_pending_insert(constraints, done, j, k);
        assert(remaining[j] == pending(constraints, done, j));
    }
    assert(!holds(next, successor as int));
    assert(!holds(completed, successor as int)) by {
        if holds(completed, successor as int) {
            let c = choose|c: int| 0 <= c < completed.len() && completed[c] == successor;
            assert(remaining[completed[c] as int] == 0);
        }
    }
    assert(distinct_below(next2, num_jobs)) by {
        assert forall|i: int, j: int| 0 <= i < j < next2.len() implies next2[i] != next2[j] by {
            if j == next.len() {
                if next2[i] == successor {
                    assert(next[i] == successor);
                }
            }
        }
    }
    assert forall|j: int| 0 <= j < num_jobs implies (#[trigger] holds(next2, j)
        <==> remaining2[j] == 0 && !holds(completed, j)) by {
        assert(holds(next, j) <==> remaining[j] == 0 && !holds(completed, j));
        if holds(next2, j) {
            let i = choose|i: int| 0 <= i < next2.len() && next2[i] == j;
            if i < next.len() {
                assert(next[i] == j);
                assert(holds(next, j));
            }
        }
        if remaining2[j] == 0 && !holds(completed, j) {
            if j == successor {
                assert(next2[next.len() as int] == successor);
            } else {
                assert(holds(next, j));
                let i = choose|i: int| 0 <= i < next.len() && next[i] == j;
                assert(next2[i] == j);
            }
        }
    }
    assert forall|i: int| 0 <= i < completed.len() implies remaining2[(
    #[trigger] completed[i]) as int] == 0 by {
        assert(remaining[completed[i] as int] == 0);
    }
}

/// A reordering of the jobs and constraints of a problem that can be undone.
///
/// The jobs are reordered such that they can be started in order without violating any
/// constraint. The constraints follow the order of the jobs that they lead away from.
pub struct ProblemPermutation {
    /// At each new position, the original position of the job
    jobs: Vec<usize>,
    /// At each new position, the original position of the constraint
    constraints: Vec<usize>,
}

impl ProblemPermutation {
    /// At each new position of a job, its original position
    pub closed spec fn job_order(&self) -> Seq<usize> {
        self.jobs@
    }

    /// At each new position of a constraint, its original position
    pub closed spec fn constraint_order(&self) -> Seq<usize> {
        self.constraints@
    }

    /// Both orders hold each original position once.
    pub open spec fn wf(&self) -> bool {
        &&& is_permutation(self.job_order())
        &&& is_permutation(self.constraint_order())
    }

    /// Whether the permutation is one of a problem with these jobs and constraints
    pub open spec fn fits(&self, jobs: Seq<Job>, constraints: Seq<Constraint>) -> bool {
        &&& self.wf()
        &&& self.job_order().len() == jobs.len()
        &&& self.constraint_order().len() == constraints.len()
    }

    /// The jobs of a problem in their new order, each with its new position as index
    pub open spec fn permuted_jobs(&self, jobs: Seq<Job>) -> Seq<Job> {
        Seq::new(
            jobs.len(),
            |i: int| Job { index: i as usize, ..jobs[self.job_order()[i] as int] },
        )
    }

    /// The constraints of a problem in their new order, between the new positions of the jobs
    pub open spec fn permuted_constraints(&self, constraints: Seq<Constraint>) -> Seq<Constraint> {
        Seq::new(
            constraints.len(),
            |j: int|
                {
                    let c = constraints[self.constraint_order()[j] as int];
                    Constraint {
                        before: position_of(self.job_order(), c.before as int) as usize,
                        after: position_of(self.job_order(), c.after as int) as usize,
                        ..c
                    }
                },
        )
    }

    /// The reordered jobs back in their original order, each with its original position as
    /// index
    pub open spec fn restored_jobs(&self, jobs: Seq<Job>) -> Seq<Job> {
        Seq::new(
            jobs.len(),
            |o: int| Job { index: o as usize, ..jobs[position_of(self.job_order(), o)] },
        )
    }

    /// The reordered constraints back in their original order, between the original
    /// positions of the jobs
    pub open spec fn restored_constraints(&self, constraints: Seq<Constraint>) -> Seq<Constraint> {
        Seq::new(
            constraints.len(),
            |k: int|
                {
                    let c = constraints[position_of(self.constraint_order(), k)];
                    Constraint {
                        before: self.job_order()[c.before as int],
                        after: self.job_order()[c.after as int],
                        ..c
                    }
                },
        )
    }

    /// The original position of the job at each new position
    pub fn get_jobs(&self) -> (jobs: &Vec<usize>)
        ensures
            jobs@ == self.job_order(),
    {
        &self.jobs
    }

    /// The original position of the constraint at each new position
    pub fn get_constraints(&self) -> (constraints: &Vec<usize>)
        ensures
            constraints@ == self.constraint_order(),
    {
        &self.constraints
    }

    /// This function creates a **possible** permutation of the jobs: the jobs will be sorted such
    /// that they can be started in order, *without violating any constraints*. More formally,
    /// after this function returns, it holds for any constraint `c` that `c.before < c.after`.
    /// Furthermore, all constraints are sorted by their `before` job.
    ///
    /// When no **possible** permutation exists (so when the constraints are cyclic), this function
    /// returns `None` and leaves the problem as it is.
    #[verifier::rlimit(40)]
    pub fn possible(problem: &mut Problem) -> (permutation: Option<ProblemPermutation>)
        requires
            old(problem).valid(),
        ensures
            final(problem).num_cores == old(problem).num_cores,
            permutation.is_some() <==> admits_order(
                old(problem).constraints@,
                old(problem).jobs@.len() as int,
            ),
            match permutation {
                Some(p) => {
                    &&& p.fits(old(problem).jobs@, old(problem).constraints@)
                    &&& final(problem).jobs@ == p.permuted_jobs(old(problem).jobs@)
                    &&& final(problem).constraints@ == p.permuted_constraints(
                        old(problem).constraints@,
                    )
                    &&& final(problem).valid()
                    &&& job_order_possible(final(problem).constraints@)
                    &&& ordered_by_before(final(problem).constraints@)
                },
                None => {
                    &&& final(problem).jobs@ == old(problem).jobs@
                    &&& final(problem).constraints@ == old(problem).constraints@
                },
            },
    {
        let num_jobs = problem.jobs.len();
        let num_constraints = problem.constraints.len();
        let ghost jobs = problem.jobs@;
        let ghost cs = problem.constraints@;
        let (order, grouped) = match topological_order(&problem.constraints, num_jobs) {
            Some(found) => found,
            None => {
                return None;
            },
        };

        let mut position: Vec<usize> = Vec::new();
        let mut index: usize = 0;
        while index < num_jobs
            invariant
                index <= num_jobs,
                position@.len() == index,
            decreases num_jobs - index,
        {
            position.push(0);
            index += 1;
        }
        index = 0;
        while index < num_jobs
            invariant
                index <= num_jobs,
                order@.len() == num_jobs,
                is_permutation(order@),
                position@.len() == num_jobs,
                forall|i: int| 0 <= i < index ==> position@[(#[trigger] order@[i]) as int] == i,
            decreases num_jobs - index,
        {
            position.set(order[index], index);
            index += 1;
        }
        proof {
            assert forall|v: int| 0 <= v < num_jobs implies (#[trigger] position@[v])
                == position_of(order@, v) by {
                lemma_permutation_covers(order@, v);
                assert(position@[order@[position_of(order@, v)] as int] == position_of(order@, v));
            }
        }

        let mut new_jobs: Vec<Job> = Vec::new();
        index = 0;
        while index < num_jobs
            invariant
                index <= num_jobs,
                num_jobs == jobs.len(),
                problem.jobs@ == jobs,
                problem.constraints@ == cs,
                problem.num_cores == old(problem).num_cores,
                order@.len() == num_jobs,
                is_permutation(order@),
                new_jobs@.len() == index,
                forall|i: int|
                    0 <= i < index ==> (#[trigger] new_jobs@[i]) == (Job {
                        index: i as usize,
                        ..jobs[order@[i] as int]
                    }),
            decreases num_jobs - index,
        {
            let mut job = problem.jobs[order[index]];
            job.index = index;
            new_jobs.push(job);
            index += 1;
        }

        let mut new_constraints: Vec<Constraint> = Vec::new();
        let mut constraint_order: Vec<usize> = Vec::new();
        index = 0;
        while index < num_constraints
            invariant
                index <= num_constraints,
                num_constraints == cs.len(),
                num_jobs == jobs.len(),
                problem.jobs@ == jobs,
                problem.constraints@ == cs,
                problem.num_cores == old(problem).num_cores,
                constraints_valid(cs, num_jobs as int),
                order@.len() == num_jobs,
                is_permutation(order@),
                position@.len() == num_jobs,
                forall|v: int|
                    0 <= v < num_jobs ==> (#[trigger] position@[v]) == position_of(order@, v),
                grouped@.len() == num_constraints,
                groups(cs, order@, grouped@),
                new_constraints@.len() == index,
                constraint_order@.len() == index,
                forall|j: int|
                    0 <= j < index ==> (#[trigger] constraint_order@[j]) == grouped@[j].1,
                forall|j: int|
                    0 <= j < index ==> (#[trigger] new_constraints@[j]) == (Constraint {
                        before: position_of(
                            order@,
                            cs[grouped@[j].1 as int].before as int,
                        ) as usize,
                        after: position_of(
                            order@,
                            cs[grouped@[j].1 as int].after as int,
                        ) as usize,
                        ..cs[grouped@[j].1 as int]
                    }),
                forall|j: int|
                    0 <= j < index ==> (#[trigger] new_constraints@[j]).before == grouped@[j].0,
            decreases num_constraints - index,
        {
            let (before, original) = grouped[index];
            let constraint = problem.constraints[original];
            proof {
                assert(grouped@[index as int].0 == before && grouped@[index as int].1 == original);
                assert(order@[before as int] == cs[original as int].before);
                lemma_position_of(order@, before as int);
                assert(cs[original as int].after < num_jobs);
            }
            new_constraints.push(
                Constraint {
                    before,
                    after: position[constraint.after],
                    constraint_type: constraint.constraint_type,
                    delay: constraint.delay,
                },
            );
            constraint_order.push(original);
            index += 1;
        }

        problem.jobs = new_jobs;
        problem.constraints = new_constraints;
        let permutation = ProblemPermutation { jobs: order, constraints: constraint_order };
        proof {
            let order = permutation.job_order();
            let moved = permutation.constraint_order();
            assert(is_permutation(moved)) by {
                assert forall|i: int, j: int| 0 <= i < j < moved.len() implies moved[i]
                    != moved[j] by {
                    assert(grouped@[i].1 != grouped@[j].1);
                }
                assert forall|i: int| 0 <= i < moved.len() implies moved[i] < moved.len() by {
                    assert(grouped@[i].1 < cs.len());
                }
            }
            assert(problem.jobs@ == permutation.permuted_jobs(jobs));
            assert(problem.constraints@ == permutation.permuted_constraints(cs));
            assert(indices_match(problem.jobs@));
            assert forall|j: int| 0 <= j < problem.constraints@.len() implies {
                &&& (#[trigger] problem.constraints@[j]).delay >= 0
                &&& problem.constraints@[j].before < problem.constraints@[j].after
                &&& problem.constraints@[j].after < num_jobs
            } by {
                let c = cs[grouped@[j].1 as int];
                assert(c.delay >= 0 && c.before < num_jobs && c.after < num_jobs);
                lemma_permutation_covers(order, c.after as int);
                lemma_permutation_covers(order, c.before as int);
                let i = position_of(order, c.after as int);
                assert(order[i] == cs[grouped@[j].1 as int].after);
                let b = choose|b: int| 0 <= b < i && #[trigger] order[b] == c.before;
                lemma_position_of(order, b);
            }
            assert(ordered_by_before(problem.constraints@)) by {
                assert forall|i: int, j: int|
                    0 <= i <= j < problem.constraints@.len() implies problem.constraints@[i].before
                    <= problem.constraints@[j].before by {
                    if i < j {
                        assert(grouped@[i].0 <= grouped@[j].0);
                    }
                }
            }
            let rank = Seq::new(num_jobs as nat, |v: int| position_of(order, v) as nat);
            assert(is_topological_rank(cs, num_jobs as int, rank)) by {
                assert forall|k: int| 0 <= k < cs.len() implies rank[(
                #[trigger] cs[k]).before as int] < rank[cs[k].after as int] by {
                    let c = cs[k];
                    assert(c.before < num_jobs && c.after < num_jobs);
                    lemma_permutation_covers(order, c.after as int);
                    lemma_permutation_covers(order, c.before as int);
                    let i = position_of(order, c.after as int);
                    assert(order[i] == cs[k].after);
                    let b = choose|b: int| 0 <= b < i && #[trigger] order[b] == c.before;
                    lemma_position_of(order, b);
                }
            }
        }
        Some(permutation)
    }

    /// Puts all jobs and precedence constraints back at their original position (index), and fixes
    /// all the indices.
    #[verifier::rlimit(40)]
    pub fn transform_back(self, problem: &mut Problem)
        requires
            self.fits(old(problem).jobs@, old(problem).constraints@),
            forall|j: int|
                0 <= j < old(problem).constraints@.len() ==> (#[trigger] old(
                    problem,
                ).constraints@[j]).before < old(problem).jobs@.len() && old(
                    problem,
                ).constraints@[j].after < old(problem).jobs@.len(),
        ensures
            final(problem).num_cores == old(problem).num_cores,
            final(problem).jobs@ == self.restored_jobs(old(problem).jobs@),
            final(problem).constraints@ == self.restored_constraints(old(problem).constraints@),
    {
        let num_jobs = problem.jobs.len();
        let num_constraints = problem.constraints.len();
        let ghost jobs = problem.jobs@;
        let ghost cs = problem.constraints@;

        let mut new_jobs: Vec<Job> = Vec::new();
        let mut index: usize = 0;
        while index < num_jobs
            invariant
                index <= num_jobs,
                new_jobs@.len() == index,
            decreases num_jobs - index,
        {
            new_jobs.push(Job::dummy());
            index += 1;
        }
        index = 0;
        while index < num_jobs
            invariant
                index <= num_jobs,
                num_jobs == jobs.len(),
                problem.jobs@ == jobs,
                problem.constraints@ == cs,
                problem.num_cores == old(problem).num_cores,
                self.jobs@.len() == num_jobs,
                is_permutation(self.jobs@),
                new_jobs@.len() == num_jobs,
                forall|i: int|
                    0 <= i < index ==> new_jobs@[(#[trigger] self.jobs@[i]) as int] == (Job {
                        index: self.jobs@[i],
                        ..jobs[i]
                    }),
            decreases num_jobs - index,
        {
            let original = self.jobs[index];
            let mut job = problem.jobs[index];
            job.index = original;
            new_jobs.set(original, job);
            index += 1;
        }

        let mut new_constraints: Vec<Constraint> = Vec::new();
        index = 0;
        while index < num_constraints
            invariant
                index <= num_constraints,
                new_constraints@.len() == index,
            decreases num_constraints - index,
        {
            new_constraints.push(Constraint::dummy());
            index += 1;
        }
        index = 0;
        while index < num_constraints
            invariant
                index <= num_constraints,
                num_constraints == cs.len(),
                num_jobs == jobs.len(),
                problem.jobs@ == jobs,
                problem.constraints@ == cs,
                problem.num_cores == old(problem).num_cores,
                self.jobs@.len() == num_jobs,
                self.constraints@.len() == num_constraints,
                is_permutation(self.constraints@),
                forall|j: int|
                    0 <= j < cs.len() ==> (#[trigger] cs[j]).before < num_jobs && cs[j].after
                        < num_jobs,
                new_constraints@.len() == num_constraints,
                forall|j: int|
                    0 <= j < index ==> new_constraints@[(#[trigger] self.constraints@[j]) as int]
                        == (Constraint {
                        before: self.jobs@[cs[j].before as int],
                        after: self.jobs@[cs[j].after as int],
                        ..cs[j]
                    }),
            decreases num_constraints - index,
        {
            let original = self.constraints[index];
            let constraint = problem.constraints[index];
            assert(cs[index as int].before < num_jobs);
            new_constraints.set(
                original,
                Constraint {
                    before: self.jobs[constraint.before],
                    after: self.jobs[constraint.after],
                    constraint_type: constraint.constraint_type,
                    delay: constraint.delay,
                },
            );
            index += 1;
        }
        problem.jobs = new_jobs;
        problem.constraints = new_constraints;
        proof {
            assert forall|o: int| 0 <= o < num_jobs implies (#[trigger] problem.jobs@[o])
                == self.restored_jobs(jobs)[o] by {
                lemma_permutation_covers(self.job_order(), o);
                let i = position_of(self.job_order(), o);
                assert(problem.jobs@[self.jobs@[i] as int] == (Job {
                    index: self.jobs@[i],
                    ..jobs[i]
                }));
            }
            assert(problem.jobs@ =~= self.restored_jobs(jobs));
            assert forall|k: int| 0 <= k < num_constraints implies (
            #[trigger] problem.constraints@[k]) == self.restored_constraints(cs)[k] by {
                lemma_permutation_covers(self.constraint_order(), k);
                let j = position_of(self.constraint_order(), k);
                assert(problem.constraints@[self.constraints@[j] as int] == (Constraint {
                    before: self.jobs@[cs[j].before as int],
                    after: self.jobs@[cs[j].after as int],
                    ..cs[j]
                }));
            }
            assert(problem.constraints@ =~= self.restored_constraints(cs));
        }
    }
}

/// Reordering the jobs and constraints of a valid problem and putting them back gives the
/// jobs and the constraints that the problem had.
pub proof fn lemma_transform_back_undoes_permutation(
    permutation: ProblemPermutation,
    jobs: Seq<Job>,
    constraints: Seq<Constraint>,
)
    requires
        permutation.fits(jobs, constraints),
        indices_match(jobs),
        constraints_valid(constraints, jobs.len() as int),
    ensures
        permutation.restored_jobs(permutation.permuted_jobs(jobs)) == jobs,
        permutation.restored_constraints(permutation.permuted_constraints(constraints))
            == constraints,
{
    let order = permutation.job_order();
    let constraint_order = permutation.constraint_order();
    let back = permutation.restored_jobs(permutation.permuted_jobs(jobs));
    assert forall|o: int| 0 <= o < jobs.len() implies back[o] == jobs[o] by {
        lemma_permutation_covers(order, o);
    }
    assert(back =~= jobs);
    let back = permutation.restored_constraints(permutation.permuted_constraints(constraints));
    assert forall|k: int| 0 <= k < constraints.len() implies back[k] == constraints[k] by {
        lemma_permutation_covers(constraint_order, k);
        let c = constraints[k];
        assert(c.before < jobs.len() && c.after < jobs.len());
        lemma_permutation_covers(order, c.before as int);
        lemma_permutation_covers(order, c.after as int);
        lemma_permutation_covers(order, jobs.len() - 1);
        assert(jobs.len() - 1 <= usize::MAX);
        let j = position_of(constraint_order, k);
        let moved = permutation.permuted_constraints(constraints)[j];
        assert(moved.before == position_of(order, c.before as int));
        assert(moved.after == position_of(order, c.after as int));
    }
    assert(back =~= constraints);
}

} // verus!

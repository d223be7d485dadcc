//! Ordering of times, and of times that are paired with a job index.

use crate::problem::Time;
use vstd::prelude::*;
use vstd::relations::{sorted_by, total_ordering};
use vstd::seq_lib::{lemma_sorted_unique, to_multiset_remove};

verus! {

/// A time together with the index of the job that it belongs to
pub type TimedJob = (Time, usize);

/// Whether no element of `values` is larger than a later one
pub open spec fn ascending(values: Seq<Time>) -> bool {
    forall|i: int, j: int| 0 <= i <= j < values.len() ==> values[i] <= values[j]
}

/// The order of timed jobs: by time, and by job index where the times are equal
pub open spec fn timed_job_leq(a: TimedJob, b: TimedJob) -> bool {
    a.0 < b.0 || (a.0 == b.0 && a.1 <= b.1)
}

/// Whether no element of `items` comes after a later one in the order of timed jobs
pub open spec fn ascending_timed(items: Seq<TimedJob>) -> bool {
    forall|i: int, j: int| 0 <= i <= j < items.len() ==> timed_job_leq(items[i], items[j])
}

/// The elements of `values` in ascending order
pub open spec fn in_ascending_order(values: Seq<Time>) -> Seq<Time> {
    values.sort_by(|a: Time, b: Time| a <= b)
}

/// The elements of `items` in the order of timed jobs
pub open spec fn in_timed_order(items: Seq<TimedJob>) -> Seq<TimedJob> {
    items.sort_by(|a: TimedJob, b: TimedJob| timed_job_leq(a, b))
}

/// The sum of the elements of `values`
pub open spec fn sum(values: Seq<Time>) -> int
    decreases values.len(),
{
    if values.len() == 0 {
        0
    } else {
        sum(values.drop_last()) + values.last()
    }
}

/// Sorts `values` with the slice method `sort` of the standard library, which
/// leaves the same elements in ascending order.
#[verifier::external_body]
pub(crate) fn sort_times(values: &mut Vec<Time>)
    ensures
        ascending(final(values)@),
        final(values)@.to_multiset() == old(values)@.to_multiset(),
{
    values.sort();
}

/// Sorts `items` with the slice method `sort` of the standard library, which leaves the same
/// elements in ascending order. Tuples are ordered by their first component, and by their
/// second component where the first is equal.
#[verifier::external_body]
pub(crate) fn sort_timed_jobs(items: &mut Vec<TimedJob>)
    ensures
        ascending_timed(final(items)@),
        final(items)@.to_multiset() == old(items)@.to_multiset(),
{
    items.sort();
}

/// There is only one way to put given times in ascending order.
pub proof fn lemma_ascending_unique(sorted: Seq<Time>, values: Seq<Time>)
    requires
        ascending(sorted),
        sorted.to_multiset() == values.to_multiset(),
    ensures
        sorted == in_ascending_order(values),
{
    let leq = |a: Time, b: Time| a <= b;
    assert(total_ordering(leq));
    values.lemma_sort_by_ensures(leq);
    assert(sorted_by(sorted, leq));
    lemma_sorted_unique(sorted, values.sort_by(leq), leq);
}

/// The ascending order of times is ascending and holds the same elements.
pub proof fn lemma_in_ascending_order(values: Seq<Time>)
    ensures
        ascending(in_ascending_order(values)),
        in_ascending_order(values).to_multiset() == values.to_multiset(),
        in_ascending_order(values).len() == values.len(),
{
    let leq = |a: Time, b: Time| a <= b;
    assert(total_ordering(leq));
    values.lemma_sort_by_ensures(leq);
    let sorted = values.sort_by(leq);
    assert forall|i: int, j: int| 0 <= i <= j < sorted.len() implies sorted[i] <= sorted[j] by {
        if i < j {
            assert(leq(sorted[i], sorted[j]));
        }
    }
    sorted.to_multiset_ensures();
    values.to_multiset_ensures();
}

/// There is only one way to put given timed jobs in order.
pub proof fn lemma_timed_order_unique(sorted: Seq<TimedJob>, items: Seq<TimedJob>)
    requires
        ascending_timed(sorted),
        sorted.to_multiset() == items.to_multiset(),
    ensures
        sorted == in_timed_order(items),
{
    let leq = |a: TimedJob, b: TimedJob| timed_job_leq(a, b);
    assert(total_ordering(leq));
    items.lemma_sort_by_ensures(leq);
    assert(sorted_by(sorted, leq));
    lemma_sorted_unique(sorted, items.sort_by(leq), leq);
}

/// The order of timed jobs is ascending and holds the same elements.
pub proof fn lemma_in_timed_order(items: Seq<TimedJob>)
    ensures
        ascending_timed(in_timed_order(items)),
        in_timed_order(items).to_multiset() == items.to_multiset(),
        in_timed_order(items).len() == items.len(),
{
    let leq = |a: TimedJob, b: TimedJob| timed_job_leq(a, b);
    assert(total_ordering(leq));
    items.lemma_sort_by_ensures(leq);
    let sorted = items.sort_by(leq);
    assert forall|i: int, j: int| 0 <= i <= j < sorted.len() implies timed_job_leq(
        sorted[i],
        sorted[j],
    ) by {
        if i < j {
            assert(leq(sorted[i], sorted[j]));
        }
    }
    sorted.to_multiset_ensures();
    items.to_multiset_ensures();
}

/// Taking one element out of a sequence lowers its sum by that element.
pub proof fn lemma_sum_remove(values: Seq<Time>, index: int)
    requires
        0 <= index < values.len(),
    ensures
        sum(values) == sum(values.remove(index)) + values[index],
    decreases values.len(),
{
    if index == values.len() - 1 {
        assert(values.remove(index) == values.drop_last());
    } else {
        lemma_sum_remove(values.drop_last(), index);
        assert(values.remove(index).drop_last() == values.drop_last().remove(index));
        assert(values.remove(index).last() == values.last());
    }
}

/// The sum of a sequence does not depend on the order of its elements.
pub proof fn lemma_sum_of_permutation(a: Seq<Time>, b: Seq<Time>)
    requires
        a.to_multiset() == b.to_multiset(),
    ensures
        sum(a) == sum(b),
    decreases a.len(),
{
    a.to_multiset_ensures();
    b.to_multiset_ensures();
    if a.len() == 0 {
        assert(b.len() == 0);
    } else {
        let x = a.last();
        assert(a.contains(x));
        assert(a.to_multiset().count(x) > 0);
        assert(b.contains(x));
        let index = choose|i: int| 0 <= i < b.len() && b[i] == x;
        to_multiset_remove(a, a.len() - 1);
        to_multiset_remove(b, index);
        assert(a.remove(a.len() - 1) == a.drop_last());
        lemma_sum_of_permutation(a.drop_last(), b.remove(index));
        lemma_sum_remove(b, index);
    }
}

/// Whether each of `values` lies from `least` to `most`
pub open spec fn all_within(values: Seq<Time>, least: int, most: int) -> bool {
    forall|i: int| 0 <= i < values.len() ==> least <= #[trigger] values[i] <= most
}

/// Sequences with the same elements agree on whether all elements lie within given bounds.
pub proof fn lemma_same_bounds(a: Seq<Time>, b: Seq<Time>, least: int, most: int)
    requires
        a.to_multiset() == b.to_multiset(),
        all_within(b, least, most),
    ensures
        all_within(a, least, most),
        a.len() == b.len(),
{
    a.to_multiset_ensures();
    b.to_multiset_ensures();
    vstd::seq_lib::to_multiset_len(a);
    vstd::seq_lib::to_multiset_len(b);
    assert forall|i: int| 0 <= i < a.len() implies least <= #[trigger] a[i] <= most by {
        assert(a.contains(a[i]));
        assert(a.to_multiset().count(a[i]) > 0);
        assert(b.contains(a[i]));
    }
}

} // verus!

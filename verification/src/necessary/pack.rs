//! A sufficient test that durations cannot be packed into bins of a given size.

use crate::necessary::packing::{fits, lemma_unpackable_sizes_do_not_fit};
use crate::problem::Time;
use crate::sort::{
    ascending, in_ascending_order, lemma_ascending_unique, lemma_in_ascending_order,
    lemma_sum_of_permutation, sort_times, sum,
};
use vstd::prelude::*;

verus! {

/// Whether at least one of `sizes` is larger than `bin_size`
pub open spec fn exceeds_bin(sizes: Seq<Time>, bin_size: int) -> bool {
    exists|i: int| 0 <= i < sizes.len() && sizes[i] > bin_size
}

/// The smaller of two numbers
pub open spec fn smaller(a: int, b: int) -> int {
    if a <= b {
        a
    } else {
        b
    }
}

/// The space that certainly stays empty in the bin that holds the size at `index` of the
/// ascending `sorted`: the size leaves room for no other size, for nothing but the smallest
/// size, or for nothing but the second smallest size.
pub open spec fn forced_waste_at(sorted: Seq<Time>, bin_size: int, index: int) -> int {
    let size = sorted[index];
    if size + sorted[0] > bin_size {
        bin_size - size
    } else if index > 1 && size + sorted[1] > bin_size {
        bin_size - sorted[0] - size
    } else if index > 2 && size + smaller(sorted[2] as int, sorted[0] + sorted[1]) > bin_size {
        bin_size - sorted[1] - size
    } else {
        0
    }
}

/// The sum of the forced waste of the sizes of `sorted` from position `from` on
pub open spec fn forced_waste(sorted: Seq<Time>, bin_size: int, from: int) -> int
    decreases sorted.len() - from,
{
    if from >= sorted.len() {
        0
    } else {
        forced_waste_at(sorted, bin_size, from) + forced_waste(sorted, bin_size, from + 1)
    }
}

/// Whether the rules of the test prove that `sizes` do not fit into `num_bins` bins of
/// `bin_size`. The rules are tried in this order:
/// - a size that is larger than a bin does not fit;
/// - sizes whose sum is larger than the space in all bins do not fit;
/// - as many sizes as there are bins fit, one in each bin;
/// - with one bin, or with at most two sizes, nothing more can be proved;
/// - three sizes do not fit into two bins when the two smallest do not fit into one;
/// - four or more sizes do not fit when their sum and the forced waste of all but the
///   smallest are together larger than the space in all bins.
pub open spec fn certainly_unpackable(num_bins: int, bin_size: int, sizes: Seq<Time>) -> bool {
    let sorted = in_ascending_order(sizes);
    if exceeds_bin(sizes, bin_size) {
        true
    } else if sum(sizes) > num_bins * bin_size {
        true
    } else if sizes.len() <= num_bins {
        false
    } else if num_bins == 1 || sizes.len() <= 2 {
        false
    } else if sizes.len() == 3 {
        sorted[0] + sorted[1] > bin_size
    } else {
        sum(sizes) + forced_waste(sorted, bin_size, 1) > num_bins * bin_size
    }
}

/// Whether `is_certainly_unpackable` puts the sizes in ascending order before it answers
pub open spec fn orders_sizes(num_bins: int, bin_size: int, sizes: Seq<Time>) -> bool {
    &&& !exceeds_bin(sizes, bin_size)
    &&& sum(sizes) <= num_bins * bin_size
    &&& sizes.len() > num_bins
    &&& num_bins != 1
    &&& sizes.len() > 2
}

/// Returns `true` only when `jobs`, the durations of jobs, certainly do not fit into
/// `num_processors` bins of `bin_size`. The answer `false` says nothing: the durations may or
/// may not fit. The durations may be reordered.
#[verifier::rlimit(40)]
pub fn is_certainly_unpackable(
    num_processors: u32,
    bin_size: Time,
    jobs: &mut Vec<Time>,
) -> (unpackable: bool)
    requires
        num_processors >= 1,
        old(jobs)@.len() <= isize::MAX,
    ensures
        unpackable == certainly_unpackable(num_processors as int, bin_size as int, old(jobs)@),
        final(jobs)@ == if orders_sizes(num_processors as int, bin_size as int, old(jobs)@) {
            in_ascending_order(old(jobs)@)
        } else {
            old(jobs)@
        },
        unpackable && no_size_negative(old(jobs)@) ==> !fits(
            old(jobs)@,
            num_processors as int,
            bin_size as int,
        ),
{
    proof {
        if no_size_negative(jobs@) && certainly_unpackable(
            num_processors as int,
            bin_size as int,
            jobs@,
        ) {
            lemma_unpackable_sizes_do_not_fit(
                num_processors as int,
                bin_size as int,
                jobs@,
            );
        }
    }
    let ghost sizes = jobs@;
    let count = jobs.len();
    let mut total: i128 = 0;
    let mut index: usize = 0;
    while index < count
        invariant
            index <= count,
            count == jobs@.len(),
            jobs@ == sizes,
            total == sum(sizes.take(index as int)),
            sizes == old(jobs)@,
            no_size_negative(sizes) && certainly_unpackable(
                num_processors as int,
                bin_size as int,
                sizes,
            ) ==> !fits(sizes, num_processors as int, bin_size as int),
            -index * 0x8000_0000_0000_0000 <= total <= index * 0x7fff_ffff_ffff_ffff,
            forall|i: int| 0 <= i < index ==> sizes[i] <= bin_size,
        decreases count - index,
    {
        let job = jobs[index];
        if job > bin_size {
            return true;
        }
        assert(sizes.take(index + 1).drop_last() == sizes.take(index as int));
        total = total + job as i128;
        index += 1;
    }
    assert(sizes.take(count as int) == sizes);

    assert(num_processors * bin_size <= 0x1_0000_0000 * 0x8000_0000_0000_0000 && num_processors
        * bin_size >= -0x1_0000_0000 * 0x8000_0000_0000_0000) by (nonlinear_arith)
        requires
            1 <= num_processors <= 0xffff_ffff,
            -0x8000_0000_0000_0000 <= bin_size <= 0x7fff_ffff_ffff_ffff,
    ;
    let capacity: i128 = num_processors as i128 * bin_size as i128;
    if total > capacity {
        return true;
    }
    if count as u64 <= num_processors as u64 {
        return false;
    }
    if num_processors == 1 || count <= 2 {
        return false;
    }
    sort_times(jobs);
    proof {
        lemma_ascending_unique(jobs@, sizes);
        lemma_in_ascending_order(sizes);
        jobs@.to_multiset_ensures();
        sizes.to_multiset_ensures();
    }
    let ghost sorted = jobs@;
    assert(!exceeds_bin(sorted, bin_size as int)) by {
        assert forall|i: int| 0 <= i < sorted.len() implies sorted[i] <= bin_size by {
            assert(sorted.contains(sorted[i]));
            assert(sorted.to_multiset().count(sorted[i]) > 0);
            assert(sizes.contains(sorted[i]));
        }
    }

    if count == 3 {
        return jobs[0] as i128 + jobs[1] as i128 > bin_size as i128;
    }
    let smallest2: i128 = if jobs[2] as i128 <= jobs[0] as i128 + jobs[1] as i128 {
        jobs[2] as i128
    } else {
        jobs[0] as i128 + jobs[1] as i128
    };
    let mut min_wasted_space: i128 = 0;
    let mut index: usize = count;
    while index > 1
        invariant
            1 <= index <= count,
            count == sorted.len(),
            count >= 4,
            jobs@ == sorted,
            ascending(sorted),
            !exceeds_bin(sorted, bin_size as int),
            smallest2 == smaller(sorted[2] as int, sorted[0] + sorted[1]),
            min_wasted_space == forced_waste(sorted, bin_size as int, index as int),
            0 <= min_wasted_space,
            total + min_wasted_space <= capacity,
            total == sum(sizes),
            capacity == num_processors * bin_size,
            sizes == old(jobs)@,
            no_size_negative(sizes) && certainly_unpackable(
                num_processors as int,
                bin_size as int,
                sizes,
            ) ==> !fits(sizes, num_processors as int, bin_size as int),

            sizes.len() == count,
            count <= isize::MAX,
            sorted == in_ascending_order(sizes),
            !exceeds_bin(sizes, bin_size as int),
            num_processors != 1,
            count > num_processors,
            -count * 0x8000_0000_0000_0000 <= total,
            -0x1_0000_0000 * 0x8000_0000_0000_0000 <= capacity <= 0x1_0000_0000
                * 0x8000_0000_0000_0000,
        decreases index,
    {
        index -= 1;
        let duration = jobs[index] as i128;
        assert(sorted[index as int] <= bin_size);
        let mut wasted: i128 = 0;
        if duration + jobs[0] as i128 > bin_size as i128 {
            wasted = bin_size as i128 - duration;
        } else if index > 1 && duration + jobs[1] as i128 > bin_size as i128 {
            wasted = bin_size as i128 - jobs[0] as i128 - duration;
        } else if index > 2 && duration + smallest2 > bin_size as i128 {
            wasted = bin_size as i128 - jobs[1] as i128 - duration;
        }
        assert(wasted == forced_waste_at(sorted, bin_size as int, index as int));
        assert(0 <= wasted <= 0x2_0000_0000_0000_0000);
        min_wasted_space = min_wasted_space + wasted;
        if total + min_wasted_space > capacity {
            proof {
                lemma_forced_waste_split(sorted, bin_size as int, 1, index as int);
            }
            return true;
        }
    }
    false
}

/// The forced waste from `from` on is that of the positions before `middle` and that from
/// `middle` on, and the first part is not negative.
proof fn lemma_forced_waste_split(sorted: Seq<Time>, bin_size: int, from: int, middle: int)
    requires
        ascending(sorted),
        !exceeds_bin(sorted, bin_size),
        1 <= from <= middle <= sorted.len(),
    ensures
        forced_waste(sorted, bin_size, from) >= forced_waste(sorted, bin_size, middle),
    decreases middle - from,
{
    if from < middle {
        lemma_forced_waste_split(sorted, bin_size, from + 1, middle);
        assert(sorted[from] <= bin_size);
    }
}

/// Whether no size is negative, as holds of durations
pub open spec fn no_size_negative(sizes: Seq<Time>) -> bool {
    forall|i: int| 0 <= i < sizes.len() ==> sizes[i] >= 0
}

/// The number of positions from `from` on whose size carries forced waste
pub open spec fn wasteful_count(sorted: Seq<Time>, bin_size: int, from: int) -> int
    decreases sorted.len() - from,
{
    if from >= sorted.len() {
        0
    } else if forced_waste_at(sorted, bin_size, from) > 0 {
        1 + wasteful_count(sorted, bin_size, from + 1)
    } else {
        wasteful_count(sorted, bin_size, from + 1)
    }
}

/// Whether the answer of the test for these sizes rests on the forced waste
pub open spec fn decided_by_forced_waste(num_bins: int, bin_size: int, sizes: Seq<Time>) -> bool {
    orders_sizes(num_bins, bin_size, sizes) && sizes.len() >= 4
}

/// The sum of sizes of which none is negative is at least the sum of any two of them.
proof fn lemma_sum_at_least_two(sizes: Seq<Time>, i: int, j: int)
    requires
        no_size_negative(sizes),
        0 <= i < j < sizes.len(),
    ensures
        sum(sizes) >= sizes[i] + sizes[j],
        sum(sizes) >= sizes[j],
        sum(sizes) >= 0,
    decreases sizes.len(),
{
    let rest = sizes.drop_last();
    assert(no_size_negative(rest)) by {
        assert forall|k: int| 0 <= k < rest.len() implies rest[k] >= 0 by {
            assert(sizes[k] >= 0);
        }
    }
    lemma_sum_not_negative(rest);
    if j == sizes.len() - 1 {
        lemma_sum_at_least_one(rest, i);
    } else {
        lemma_sum_at_least_two(rest, i, j);
        assert(sizes.last() >= 0);
    }
}

/// The sum of sizes of which none is negative is not negative.
proof fn lemma_sum_not_negative(sizes: Seq<Time>)
    requires
        no_size_negative(sizes),
    ensures
        sum(sizes) >= 0,
    decreases sizes.len(),
{
    if sizes.len() > 0 {
        let rest = sizes.drop_last();
        assert(no_size_negative(rest)) by {
            assert forall|k: int| 0 <= k < rest.len() implies rest[k] >= 0 by {
                assert(sizes[k] >= 0);
            }
        }
        lemma_sum_not_negative(rest);
        assert(sizes.last() >= 0);
    }
}

/// The sum of sizes of which none is negative is at least each of them.
proof fn lemma_sum_at_least_one(sizes: Seq<Time>, i: int)
    requires
        no_size_negative(sizes),
        0 <= i < sizes.len(),
    ensures
        sum(sizes) >= sizes[i],
    decreases sizes.len(),
{
    let rest = sizes.drop_last();
    assert(no_size_negative(rest)) by {
        assert forall|k: int| 0 <= k < rest.len() implies rest[k] >= 0 by {
            assert(sizes[k] >= 0);
        }
    }
    lemma_sum_not_negative(rest);
    if i < sizes.len() - 1 {
        lemma_sum_at_least_one(rest, i);
        assert(sizes.last() >= 0);
    }
}

/// Where there is forced waste, some size carries it.
proof fn lemma_waste_has_position(sorted: Seq<Time>, bin_size: int, from: int) -> (position: int)
    requires
        0 <= from,
        forced_waste(sorted, bin_size, from) > 0,
    ensures
        from <= position < sorted.len(),
        forced_waste_at(sorted, bin_size, position) > 0,
    decreases sorted.len() - from,
{
    if forced_waste_at(sorted, bin_size, from) > 0 {
        from
    } else {
        lemma_waste_has_position(sorted, bin_size, from + 1)
    }
}

/// Two sizes that both carry forced waste either exist, or the forced waste is at most one bin.
proof fn lemma_waste_of_one_bin(sorted: Seq<Time>, bin_size: int, from: int) -> (pair: Option<
    (int, int),
>)
    requires
        ascending(sorted),
        no_size_negative(sorted),
        !exceeds_bin(sorted, bin_size),
        bin_size >= 0,
        1 <= from,
    ensures
        match pair {
            Some((i, j)) => from <= i < j < sorted.len() && forced_waste_at(sorted, bin_size, i)
                > 0 && forced_waste_at(sorted, bin_size, j) > 0,
            None => forced_waste(sorted, bin_size, from) <= bin_size,
        },
    decreases sorted.len() - from,
{
    if from >= sorted.len() {
        None
    } else if forced_waste_at(sorted, bin_size, from) > 0 {
        if forced_waste(sorted, bin_size, from + 1) > 0 {
            let j = lemma_waste_has_position(sorted, bin_size, from + 1);
            Some((from, j))
        } else {
            assert(sorted[from] >= 0);
            assert(sorted[0] >= 0);
            assert(sorted[1] >= 0);
            None
        }
    } else {
        lemma_waste_of_one_bin(sorted, bin_size, from + 1)
    }
}

/// Two different sizes that both carry forced waste do not fit into one bin.
pub proof fn lemma_wasteful_pair(sorted: Seq<Time>, bin_size: int, i: int, j: int)
    requires
        ascending(sorted),
        sorted.len() >= 3,
        1 <= i < j < sorted.len(),
        forced_waste_at(sorted, bin_size, i) > 0,
        forced_waste_at(sorted, bin_size, j) > 0,
    ensures
        sorted[i] + sorted[j] > bin_size,
{
    assert(sorted[0] <= sorted[1] <= sorted[2]);
    assert(sorted[0] <= sorted[i] <= sorted[j]);
    assert(sorted[1] <= sorted[i]);
    if i >= 2 {
        assert(sorted[2] <= sorted[i]);
    }
}

/// Sizes that certainly do not fit into some bins do not fit into fewer bins either.
/// This holds of sizes of which none is negative.
pub proof fn lemma_unpackable_with_fewer_bins(num_bins: int, bin_size: int, sizes: Seq<Time>)
    requires
        num_bins >= 2,
        no_size_negative(sizes),
        certainly_unpackable(num_bins, bin_size, sizes),
    ensures
        certainly_unpackable(num_bins - 1, bin_size, sizes),
{
    let sorted = in_ascending_order(sizes);
    lemma_in_ascending_order(sizes);
    if exceeds_bin(sizes, bin_size) {
    } else if sum(sizes) > num_bins * bin_size {
        if sizes.len() > 0 {
            assert(0 <= sizes[0] <= bin_size);
            assert(num_bins * bin_size >= (num_bins - 1) * bin_size) by (nonlinear_arith)
                requires
                    bin_size >= 0,
            ;
        } else if bin_size >= 0 {
            assert(num_bins * bin_size >= (num_bins - 1) * bin_size) by (nonlinear_arith)
                requires
                    bin_size >= 0,
            ;
        } else {
            assert((num_bins - 1) * bin_size < 0) by (nonlinear_arith)
                requires
                    num_bins >= 2,
                    bin_size < 0,
            ;
        }
    } else {
        assert(sizes.len() > num_bins);
        assert(sizes[0] >= 0);
        assert(bin_size >= 0);
        lemma_sum_of_permutation(sorted, sizes);
        lemma_same_elements(sorted, sizes, bin_size);
        if sizes.len() == 3 {
            assert(num_bins == 2);
            assert((num_bins - 1) * bin_size == bin_size) by (nonlinear_arith)
                requires
                    num_bins == 2,
            ;
            lemma_sum_at_least_two(sorted, 0, 1);
            lemma_sum_at_least_two(sorted, 1, 2);
            assert(sorted[2] >= 0);
        } else {
            assert(sum(sizes) + forced_waste(sorted, bin_size, 1) > num_bins * bin_size);
            if num_bins == 2 {
                assert((num_bins - 1) * bin_size == bin_size && num_bins * bin_size == 2
                    * bin_size) by (nonlinear_arith)
                    requires
                        num_bins == 2,
                ;
                match lemma_waste_of_one_bin(sorted, bin_size, 1) {
                    Some((i, j)) => {
                        lemma_wasteful_pair(sorted, bin_size, i, j);
                        lemma_sum_at_least_two(sorted, i, j);
                    },
                    None => {},
                }
            } else {
                assert(num_bins * bin_size >= (num_bins - 1) * bin_size) by (nonlinear_arith)
                    requires
                        bin_size >= 0,
                ;
            }
        }
    }
}

/// Sequences with the same elements agree on whether a size is negative or exceeds a bin.
proof fn lemma_same_elements(a: Seq<Time>, b: Seq<Time>, bin_size: int)
    requires
        a.to_multiset() == b.to_multiset(),
    ensures
        no_size_negative(b) ==> no_size_negative(a),
        !exceeds_bin(b, bin_size) ==> !exceeds_bin(a, bin_size),
{
    a.to_multiset_ensures();
    b.to_multiset_ensures();
    assert forall|i: int| 0 <= i < a.len() implies b.contains(#[trigger] a[i]) by {
        assert(a.contains(a[i]));
        assert(a.to_multiset().count(a[i]) > 0);
    }
    if no_size_negative(b) {
        assert forall|i: int| 0 <= i < a.len() implies a[i] >= 0 by {
            assert(b.contains(a[i]));
        }
    }
    if !exceeds_bin(b, bin_size) {
        assert forall|i: int| 0 <= i < a.len() implies a[i] <= bin_size by {
            assert(b.contains(a[i]));
        }
    }
}

/// In a smaller bin, a size carries at most as much less forced waste as the bin is smaller.
proof fn lemma_waste_in_smaller_bin(sorted: Seq<Time>, bin_size: int, smaller_bin: int, from: int)
    requires
        ascending(sorted),
        no_size_negative(sorted),
        !exceeds_bin(sorted, smaller_bin),
        smaller_bin < bin_size,
        sorted.len() >= 3,
        1 <= from,
    ensures
        forced_waste(sorted, smaller_bin, from) >= forced_waste(sorted, bin_size, from)
            - wasteful_count(sorted, bin_size, from) * (bin_size - smaller_bin),
        wasteful_count(sorted, bin_size, from) >= 0,
    decreases sorted.len() - from,
{
    if from < sorted.len() {
        lemma_waste_in_smaller_bin(sorted, bin_size, smaller_bin, from + 1);
        let count = wasteful_count(sorted, bin_size, from + 1);
        let delta = bin_size - smaller_bin;
        assert(sorted[from] <= smaller_bin);
        assert(0 <= sorted[0] <= sorted[1] <= sorted[2]);
        assert(sorted[0] <= sorted[from]);
        assert(forced_waste_at(sorted, smaller_bin, from) >= 0);
        assert(forced_waste_at(sorted, smaller_bin, from) >= forced_waste_at(
            sorted,
            bin_size,
            from,
        ) - delta);
        assert((1 + count) * delta == delta + count * delta) by (nonlinear_arith);
    }
}

/// Sizes that certainly do not fit into bins of some size do not fit into smaller bins either.
/// This holds of sizes of which none is negative, and where the answer rests on the forced
/// waste only if at most as many sizes carry forced waste as there are bins.
pub proof fn lemma_unpackable_with_smaller_bins(
    num_bins: int,
    bin_size: int,
    smaller_bin: int,
    sizes: Seq<Time>,
)
    requires
        num_bins >= 1,
        smaller_bin < bin_size,
        no_size_negative(sizes),
        decided_by_forced_waste(num_bins, bin_size, sizes) ==> wasteful_count(
            in_ascending_order(sizes),
            bin_size,
            1,
        ) <= num_bins,
        certainly_unpackable(num_bins, bin_size, sizes),
    ensures
        certainly_unpackable(num_bins, smaller_bin, sizes),
{
    let sorted = in_ascending_order(sizes);
    lemma_in_ascending_order(sizes);
    if exceeds_bin(sizes, smaller_bin) {
    } else {
        assert(!exceeds_bin(sizes, bin_size));
        assert(num_bins * bin_size >= num_bins * smaller_bin) by (nonlinear_arith)
            requires
                num_bins >= 1,
                smaller_bin < bin_size,
        ;
        if sum(sizes) > num_bins * bin_size {
        } else if sum(sizes) > num_bins * smaller_bin {
        } else if sizes.len() == 3 {
            assert(sizes.len() > num_bins);
        } else {
            assert(sizes.len() > num_bins);
            lemma_same_elements(sorted, sizes, smaller_bin);
            lemma_waste_in_smaller_bin(sorted, bin_size, smaller_bin, 1);
            let count = wasteful_count(sorted, bin_size, 1);
            let delta = bin_size - smaller_bin;
            assert(num_bins * bin_size - count * delta >= num_bins * smaller_bin)
                by (nonlinear_arith)
                requires
                    0 <= count <= num_bins,
                    delta == bin_size - smaller_bin,
                    delta > 0,
            ;
        }
    }
}

/// The answer of the test does not depend on the order of the sizes.
pub proof fn lemma_unpackable_permutation(
    num_bins: int,
    bin_size: int,
    a: Seq<Time>,
    b: Seq<Time>,
)
    requires
        a.to_multiset() == b.to_multiset(),
    ensures
        certainly_unpackable(num_bins, bin_size, a) == certainly_unpackable(num_bins, bin_size, b),
        a.len() == b.len(),
{
    lemma_same_elements(a, b, bin_size);
    lemma_same_elements(b, a, bin_size);
    lemma_sum_of_permutation(a, b);
    lemma_in_ascending_order(a);
    lemma_in_ascending_order(b);
    lemma_ascending_unique(in_ascending_order(a), b);
    vstd::seq_lib::to_multiset_len(a);
    vstd::seq_lib::to_multiset_len(b);
}

} // verus!

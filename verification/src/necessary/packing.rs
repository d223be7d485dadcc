//! What it means to pack sizes into bins, and why sizes that the test of `pack` calls
//! unpackable do not fit.

use crate::necessary::pack::{
    certainly_unpackable, exceeds_bin, forced_waste, forced_waste_at,
    lemma_unpackable_permutation, lemma_wasteful_pair, no_size_negative, smaller,
};
use crate::problem::Time;
use crate::sort::{
    all_within, ascending, in_ascending_order, lemma_ascending_unique, lemma_in_ascending_order,
    lemma_same_bounds, sum,
};
use vstd::prelude::*;
use vstd::seq_lib::to_multiset_remove;

verus! {

/// The sum of the sizes that `bins` puts into bin `bin`, where `bins` names the bin of each
/// size
pub open spec fn bin_load(sizes: Seq<int>, bins: Seq<int>, bin: int) -> int
    decreases sizes.len(),
{
    if sizes.len() == 0 {
        0
    } else {
        bin_load(sizes.drop_last(), bins.drop_last(), bin) + if bins.last() == bin {
            sizes.last()
        } else {
            0
        }
    }
}

/// The sum of the loads of the first `num_bins` bins
pub open spec fn load_of_bins(sizes: Seq<int>, bins: Seq<int>, num_bins: int) -> int
    decreases num_bins,
{
    if num_bins <= 0 {
        0
    } else {
        load_of_bins(sizes, bins, num_bins - 1) + bin_load(sizes, bins, num_bins - 1)
    }
}

/// The sum of the elements of `sizes`
pub open spec fn total(sizes: Seq<int>) -> int
    decreases sizes.len(),
{
    if sizes.len() == 0 {
        0
    } else {
        total(sizes.drop_last()) + sizes.last()
    }
}

/// Whether `bins` names one of `num_bins` bins for each size
pub open spec fn names_bins(bins: Seq<int>, count: int, num_bins: int) -> bool {
    &&& bins.len() == count
    &&& forall|i: int| 0 <= i < bins.len() ==> 0 <= #[trigger] bins[i] < num_bins
}

/// The sizes as integers
pub open spec fn as_ints(sizes: Seq<Time>) -> Seq<int> {
    Seq::new(sizes.len(), |i: int| sizes[i] as int)
}

/// Whether `bins` packs `sizes` into `num_bins` bins of `bin_size`: it names a bin for each
/// size, and the sizes in no bin are more than `bin_size` together
pub open spec fn packs(sizes: Seq<Time>, bins: Seq<int>, num_bins: int, bin_size: int) -> bool {
    &&& names_bins(bins, sizes.len() as int, num_bins)
    &&& forall|bin: int|
        0 <= bin < num_bins ==> #[trigger] bin_load(as_ints(sizes), bins, bin) <= bin_size
}

/// Whether `sizes` fit into `num_bins` bins of `bin_size`
pub open spec fn fits(sizes: Seq<Time>, num_bins: int, bin_size: int) -> bool {
    exists|bins: Seq<int>| packs(sizes, bins, num_bins, bin_size)
}

/// Whether no element is negative
pub open spec fn not_negative(sizes: Seq<int>) -> bool {
    forall|i: int| 0 <= i < sizes.len() ==> #[trigger] sizes[i] >= 0
}

/// Adding a size to a bin adds it to the load of the bins.
proof fn lemma_load_of_bins_push(
    sizes: Seq<int>,
    bins: Seq<int>,
    size: int,
    bin: int,
    num_bins: int,
)
    requires
        sizes.len() == bins.len(),
    ensures
        load_of_bins(sizes.push(size), bins.push(bin), num_bins) == load_of_bins(
            sizes,
            bins,
            num_bins,
        ) + if 0 <= bin < num_bins {
            size
        } else {
            0
        },
    decreases num_bins,
{
    if num_bins > 0 {
        lemma_load_of_bins_push(sizes, bins, size, bin, num_bins - 1);
        assert(sizes.push(size).drop_last() == sizes);
        assert(bins.push(bin).drop_last() == bins);
    }
}

/// The loads of the bins are together the sum of all sizes.
pub proof fn lemma_load_of_bins(sizes: Seq<int>, bins: Seq<int>, num_bins: int)
    requires
        names_bins(bins, sizes.len() as int, num_bins),
    ensures
        load_of_bins(sizes, bins, num_bins) == total(sizes),
    decreases sizes.len(),
{
    if sizes.len() == 0 {
        assert(sizes == Seq::<int>::empty());
        lemma_no_load(bins, num_bins);
    } else {
        let rest = sizes.drop_last();
        let rest_bins = bins.drop_last();
        assert(names_bins(rest_bins, rest.len() as int, num_bins)) by {
            assert forall|i: int| 0 <= i < rest_bins.len() implies 0 <= #[trigger] rest_bins[i]
                < num_bins by {
                assert(0 <= bins[i] < num_bins);
            }
        }
        lemma_load_of_bins(rest, rest_bins, num_bins);
        lemma_load_of_bins_push(rest, rest_bins, sizes.last(), bins.last(), num_bins);
        assert(rest.push(sizes.last()) == sizes);
        assert(rest_bins.push(bins.last()) == bins);
        assert(0 <= bins[bins.len() - 1] < num_bins);
    }
}

/// Bins that hold nothing carry no load.
proof fn lemma_no_load(bins: Seq<int>, num_bins: int)
    ensures
        load_of_bins(Seq::<int>::empty(), bins, num_bins) == 0,
    decreases num_bins,
{
    if num_bins > 0 {
        lemma_no_load(bins, num_bins - 1);
    }
}

/// The load of a bin is at least each size in it, and at least any two sizes in it
/// together, if no size is negative.
pub proof fn lemma_load_at_least(sizes: Seq<int>, bins: Seq<int>, bin: int, i: int, j: int)
    requires
        sizes.len() == bins.len(),
        not_negative(sizes),
        0 <= i <= j < sizes.len(),
        bins[i] == bin,
        bins[j] == bin,
    ensures
        bin_load(sizes, bins, bin) >= 0,
        bin_load(sizes, bins, bin) >= sizes[j],
        i < j ==> bin_load(sizes, bins, bin) >= sizes[i] + sizes[j],
    decreases sizes.len(),
{
    let rest = sizes.drop_last();
    let rest_bins = bins.drop_last();
    assert(not_negative(rest)) by {
        assert forall|k: int| 0 <= k < rest.len() implies #[trigger] rest[k] >= 0 by {
            assert(sizes[k] >= 0);
        }
    }
    lemma_load_not_negative(rest, rest_bins, bin);
    assert(sizes[sizes.len() - 1] >= 0);
    if j == sizes.len() - 1 {
        if i < j {
            lemma_load_at_least(rest, rest_bins, bin, i, i);
        }
    } else {
        lemma_load_at_least(rest, rest_bins, bin, i, j);
    }
}

/// The load of a bin that holds no negative size is not negative.
proof fn lemma_load_not_negative(sizes: Seq<int>, bins: Seq<int>, bin: int)
    requires
        not_negative(sizes),
    ensures
        bin_load(sizes, bins, bin) >= 0,
    decreases sizes.len(),
{
    if sizes.len() > 0 {
        let rest = sizes.drop_last();
        assert(not_negative(rest)) by {
            assert forall|k: int| 0 <= k < rest.len() implies #[trigger] rest[k] >= 0 by {
                assert(sizes[k] >= 0);
            }
        }
        lemma_load_not_negative(rest, bins.drop_last(), bin);
        assert(sizes[sizes.len() - 1] >= 0);
    }
}

/// The load of a bin is at least any three sizes in it together, if no size is negative.
proof fn lemma_load_at_least_three(
    sizes: Seq<int>,
    bins: Seq<int>,
    bin: int,
    i: int,
    j: int,
    k: int,
)
    requires
        sizes.len() == bins.len(),
        not_negative(sizes),
        0 <= i < j < k < sizes.len(),
        bins[i] == bin,
        bins[j] == bin,
        bins[k] == bin,
    ensures
        bin_load(sizes, bins, bin) >= sizes[i] + sizes[j] + sizes[k],
    decreases sizes.len(),
{
    let rest = sizes.drop_last();
    let rest_bins = bins.drop_last();
    assert(not_negative(rest)) by {
        assert forall|n: int| 0 <= n < rest.len() implies #[trigger] rest[n] >= 0 by {
            assert(sizes[n] >= 0);
        }
    }
    assert(sizes[sizes.len() - 1] >= 0);
    if k == sizes.len() - 1 {
        lemma_load_at_least(rest, rest_bins, bin, i, j);
    } else {
        lemma_load_at_least_three(rest, rest_bins, bin, i, j, k);
    }
}

/// The part of `weights[i] + weights[k]` that lies at positions before `count`
pub open spec fn weight_before(weights: Seq<int>, count: int, i: int, k: int) -> int {
    (if 0 <= i < count {
        weights[i]
    } else {
        0
    }) + (if 0 <= k < count && k != i {
        weights[k]
    } else {
        0
    })
}

/// The weights in a bin are together at most the weights at two positions, if every other
/// position in the bin has no weight.
proof fn lemma_load_at_most(
    weights: Seq<int>,
    bins: Seq<int>,
    bin: int,
    count: int,
    i: int,
    k: int,
)
    requires
        weights.len() == bins.len(),
        not_negative(weights),
        0 <= count <= weights.len(),
        forall|j: int|
            0 <= j < weights.len() && #[trigger] bins[j] == bin && j != i && j != k ==> weights[j]
                == 0,
    ensures
        bin_load(weights.take(count), bins.take(count), bin) <= weight_before(weights, count, i, k),
    decreases count,
{
    if count > 0 {
        lemma_load_at_most(weights, bins, bin, count - 1, i, k);
        assert(weights.take(count).drop_last() == weights.take(count - 1));
        assert(bins.take(count).drop_last() == bins.take(count - 1));
        assert(weights[count - 1] >= 0);
        if 0 <= i < weights.len() {
            assert(weights[i] >= 0);
        }
        if 0 <= k < weights.len() {
            assert(weights[k] >= 0);
        }
        if bins[count - 1] == bin && count - 1 != i && count - 1 != k {
            assert(weights[count - 1] == 0);
        }
    } else {
        assert(weights.take(0).len() == 0);
    }
}

/// If each of some bins holds at most `bin_size` of sizes and weights together, the bins
/// hold at most as many times `bin_size`.
proof fn lemma_bins_hold_at_most(
    sizes: Seq<int>,
    weights: Seq<int>,
    bins: Seq<int>,
    num_bins: int,
    bin_size: int,
)
    requires
        num_bins >= 0,
        forall|bin: int|
            0 <= bin < num_bins ==> #[trigger] bin_load(sizes, bins, bin) + bin_load(
                weights,
                bins,
                bin,
            ) <= bin_size,
    ensures
        load_of_bins(sizes, bins, num_bins) + load_of_bins(weights, bins, num_bins) <= num_bins
            * bin_size,
    decreases num_bins,
{
    if num_bins > 0 {
        lemma_bins_hold_at_most(sizes, weights, bins, num_bins - 1, bin_size);
        assert(bin_load(sizes, bins, num_bins - 1) + bin_load(weights, bins, num_bins - 1)
            <= bin_size);
        assert((num_bins - 1) * bin_size + bin_size == num_bins * bin_size) by (nonlinear_arith);
    } else {
        assert(num_bins * bin_size == 0) by (nonlinear_arith)
            requires
                num_bins == 0,
        ;
    }
}

/// The forced waste of each size of the ascending `sorted`, where the smallest size has
/// none
pub open spec fn wastes(sorted: Seq<Time>, bin_size: int) -> Seq<int> {
    Seq::new(
        sorted.len(),
        |i: int|
            if i >= 1 {
                forced_waste_at(sorted, bin_size, i)
            } else {
                0
            },
    )
}

/// The forced waste of the sizes before position `count` and the forced waste of the sizes
/// from `count` on are together the forced waste of all but the smallest size.
proof fn lemma_total_waste(sorted: Seq<Time>, bin_size: int, count: int)
    requires
        1 <= count <= sorted.len(),
    ensures
        total(wastes(sorted, bin_size).take(count)) + forced_waste(sorted, bin_size, count)
            == forced_waste(sorted, bin_size, 1),
    decreases count,
{
    let all = wastes(sorted, bin_size);
    if count == 1 {
        assert(all.take(1).drop_last() == Seq::<int>::empty());
        assert(total(all.take(1)) == 0) by {
            assert(total(all.take(1).drop_last()) == 0);
            assert(all.take(1).last() == 0);
        }
    } else {
        lemma_total_waste(sorted, bin_size, count - 1);
        assert(all.take(count).drop_last() == all.take(count - 1));
        assert(all.take(count).last() == forced_waste_at(sorted, bin_size, count - 1));
    }
}

/// The sum of sizes is the sum of the same sizes as integers.
proof fn lemma_total_of_sizes(sizes: Seq<Time>)
    ensures
        total(as_ints(sizes)) == sum(sizes),
    decreases sizes.len(),
{
    if sizes.len() > 0 {
        lemma_total_of_sizes(sizes.drop_last());
        assert(as_ints(sizes).drop_last() == as_ints(sizes.drop_last()));
    }
}

/// In a packing of ascending sizes, the sizes in a bin and their forced waste are together
/// at most the size of the bin: a size that carries forced waste shares its bin with no
/// other such size, and with no more than its forced waste leaves room for.
proof fn lemma_bin_with_waste(
    sorted: Seq<Time>,
    bins: Seq<int>,
    num_bins: int,
    bin_size: int,
    bin: int,
)
    requires
        ascending(sorted),
        no_size_negative(sorted),
        sorted.len() >= 3,
        packs(sorted, bins, num_bins, bin_size),
        0 <= bin < num_bins,
    ensures
        bin_load(as_ints(sorted), bins, bin) + bin_load(wastes(sorted, bin_size), bins, bin)
            <= bin_size,
{
    let sizes = as_ints(sorted);
    let waste = wastes(sorted, bin_size);
    let count = sorted.len() as int;
    assert(sizes.take(count) == sizes);
    assert(waste.take(count) == waste);
    assert(bins.take(count) == bins);
    assert(not_negative(sizes)) by {
        assert forall|i: int| 0 <= i < sizes.len() implies #[trigger] sizes[i] >= 0 by {
            assert(sorted[i] >= 0);
        }
    }
    assert(bin_load(sizes, bins, bin) <= bin_size);
    assert(sorted[0] <= sorted[1] <= sorted[2]);
    assert(sorted[0] >= 0);
    assert forall|j: int| 0 <= j < count && bins[j] == bin implies sorted[j] <= bin_size by {
        lemma_load_at_least(sizes, bins, bin, j, j);
    }
    assert(not_negative(waste)) by {
        assert forall|i: int| 0 <= i < waste.len() implies #[trigger] waste[i] >= 0 by {
            if i >= 1 && bins[i] == bin {
                assert(sorted[i] <= bin_size);
            }
            if i >= 1 && waste[i] < 0 {
                let other = bins[i];
                assert(0 <= other < num_bins);
                assert(bin_load(sizes, bins, other) <= bin_size);
                lemma_load_at_least(sizes, bins, other, i, i);
                assert(sorted[0] <= sorted[i]);
                assert(sorted[1] <= sorted[i]);
            }
        }
    }
    if exists|i: int| 1 <= i < count && bins[i] == bin && waste[i] > 0 {
        let i = choose|i: int| 1 <= i < count && bins[i] == bin && waste[i] > 0;
        assert(sorted[0] <= sorted[i]);
        assert(sorted[1] <= sorted[i]);
        assert forall|j: int|
            0 <= j < count && #[trigger] bins[j] == bin && j != i && j != i implies waste[j]
            == 0 by {
            if waste[j] > 0 {
                if j < i {
                    lemma_wasteful_pair(sorted, bin_size, j, i);
                    lemma_load_at_least(sizes, bins, bin, j, i);
                } else {
                    lemma_wasteful_pair(sorted, bin_size, i, j);
                    lemma_load_at_least(sizes, bins, bin, i, j);
                }
            }
        }
        lemma_load_at_most(waste, bins, bin, count, i, i);
        // No other size than those that the forced waste leaves room for is in the bin
        assert forall|j: int| 0 <= j < count && bins[j] == bin && j != i implies sorted[i]
            + sorted[j] <= bin_size by {
            if j < i {
                lemma_load_at_least(sizes, bins, bin, j, i);
            } else {
                lemma_load_at_least(sizes, bins, bin, i, j);
            }
        }
        if sorted[i] + sorted[0] > bin_size {
            assert forall|j: int|
                0 <= j < count && #[trigger] bins[j] == bin && j != i && j != i implies sizes[j]
                == 0 by {
                assert(sorted[0] <= sorted[j]);
                assert(sorted[i] + sorted[j] <= bin_size);
            }
            lemma_load_at_most(sizes, bins, bin, count, i, i);
        } else if i > 1 && sorted[i] + sorted[1] > bin_size {
            assert forall|j: int|
                0 <= j < count && #[trigger] bins[j] == bin && j != i && j != 0 implies sizes[j]
                == 0 by {
                assert(sorted[1] <= sorted[j]);
                assert(sorted[i] + sorted[j] <= bin_size);
            }
            lemma_load_at_most(sizes, bins, bin, count, i, 0);
        } else {
            assert(i > 2);
            let least = smaller(sorted[2] as int, sorted[0] + sorted[1]);
            assert(sorted[i] + least > bin_size);
            assert(sorted[2] <= sorted[i]);
            if bins[0] == bin && bins[1] == bin {
                lemma_load_at_least_three(sizes, bins, bin, 0, 1, i);
            }
            if bins[0] != bin {
                assert forall|j: int|
                    0 <= j < count && #[trigger] bins[j] == bin && j != i && j != 1 implies sizes[j]
                    == 0 by {
                    assert(sorted[2] <= sorted[j]);
                    assert(sorted[i] + sorted[j] <= bin_size);
                }
                lemma_load_at_most(sizes, bins, bin, count, i, 1);
            } else {
                assert forall|j: int|
                    0 <= j < count && #[trigger] bins[j] == bin && j != i && j != 0 implies sizes[j]
                    == 0 by {
                    assert(sorted[2] <= sorted[j]);
                    assert(sorted[i] + sorted[j] <= bin_size);
                }
                lemma_load_at_most(sizes, bins, bin, count, i, 0);
            }
        }
    } else {
        assert forall|j: int|
            0 <= j < count && #[trigger] bins[j] == bin && j != -1 && j != -1 implies waste[j]
            == 0 by {
            if j >= 1 {
                assert(!(waste[j] > 0));
                assert(waste[j] >= 0);
            }
        }
        lemma_load_at_most(waste, bins, bin, count, -1, -1);
    }
}

/// No packing puts ascending sizes into bins if the test calls the sizes unpackable.
proof fn lemma_unpackable_ascending(
    num_bins: int,
    bin_size: int,
    sorted: Seq<Time>,
    bins: Seq<int>,
)
    requires
        num_bins >= 1,
        ascending(sorted),
        no_size_negative(sorted),
        certainly_unpackable(num_bins, bin_size, sorted),
    ensures
        !packs(sorted, bins, num_bins, bin_size),
{
    let sizes = as_ints(sorted);
    let count = sorted.len() as int;
    lemma_ascending_unique(sorted, sorted);
    assert(not_negative(sizes)) by {
        assert forall|i: int| 0 <= i < sizes.len() implies #[trigger] sizes[i] >= 0 by {
            assert(sorted[i] >= 0);
        }
    }
    if packs(sorted, bins, num_bins, bin_size) {
        lemma_total_of_sizes(sorted);
        if exceeds_bin(sorted, bin_size) {
            let i = choose|i: int| 0 <= i < sorted.len() && sorted[i] > bin_size;
            assert(0 <= bins[i] < num_bins);
            lemma_load_at_least(sizes, bins, bins[i], i, i);
            assert(bin_load(sizes, bins, bins[i]) <= bin_size);
        } else if sum(sorted) > num_bins * bin_size {
            let none = Seq::<int>::empty();
            assert forall|bin: int| 0 <= bin < num_bins implies #[trigger] bin_load(
                sizes,
                bins,
                bin,
            ) + bin_load(none, bins, bin) <= bin_size by {
                assert(bin_load(sizes, bins, bin) <= bin_size);
            }
            lemma_bins_hold_at_most(sizes, none, bins, num_bins, bin_size);
            lemma_load_of_bins(sizes, bins, num_bins);
            lemma_no_load(bins, num_bins);
        } else if count == 3 {
            assert(num_bins == 2);
            assert(0 <= bins[0] < 2 && 0 <= bins[1] < 2 && 0 <= bins[2] < 2);
            assert(sorted[0] <= sorted[1] <= sorted[2]);
            if bins[0] == bins[1] {
                lemma_load_at_least(sizes, bins, bins[0], 0, 1);
                assert(bin_load(sizes, bins, bins[0]) <= bin_size);
            } else if bins[0] == bins[2] {
                lemma_load_at_least(sizes, bins, bins[0], 0, 2);
                assert(bin_load(sizes, bins, bins[0]) <= bin_size);
            } else {
                lemma_load_at_least(sizes, bins, bins[1], 1, 2);
                assert(bin_load(sizes, bins, bins[1]) <= bin_size);
            }
        } else {
            let waste = wastes(sorted, bin_size);
            assert forall|bin: int| 0 <= bin < num_bins implies #[trigger] bin_load(
                sizes,
                bins,
                bin,
            ) + bin_load(waste, bins, bin) <= bin_size by {
                lemma_bin_with_waste(sorted, bins, num_bins, bin_size, bin);
            }
            lemma_bins_hold_at_most(sizes, waste, bins, num_bins, bin_size);
            lemma_load_of_bins(sizes, bins, num_bins);
            lemma_load_of_bins(waste, bins, num_bins);
            lemma_total_waste(sorted, bin_size, count);
            assert(waste.take(count) == waste);
            assert(forced_waste(sorted, bin_size, count) == 0);
        }
    }
}

/// Taking one size out of its bin lowers the load of that bin by the size.
proof fn lemma_load_remove(sizes: Seq<int>, bins: Seq<int>, index: int, bin: int)
    requires
        sizes.len() == bins.len(),
        0 <= index < sizes.len(),
    ensures
        bin_load(sizes, bins, bin) == bin_load(sizes.remove(index), bins.remove(index), bin)
            + if bins[index] == bin {
            sizes[index]
        } else {
            0
        },
    decreases sizes.len(),
{
    if index == sizes.len() - 1 {
        assert(sizes.remove(index) == sizes.drop_last());
        assert(bins.remove(index) == bins.drop_last());
    } else {
        lemma_load_remove(sizes.drop_last(), bins.drop_last(), index, bin);
        assert(sizes.remove(index).drop_last() == sizes.drop_last().remove(index));
        assert(bins.remove(index).drop_last() == bins.drop_last().remove(index));
        assert(sizes.remove(index).last() == sizes.last());
        assert(bins.remove(index).last() == bins.last());
    }
}

/// A packing of sizes gives a packing of the same sizes in another order, with the same
/// load in each bin.
proof fn lemma_packing_of_permutation(
    a: Seq<Time>,
    bins: Seq<int>,
    b: Seq<Time>,
    num_bins: int,
) -> (moved: Seq<int>)
    requires
        a.to_multiset() == b.to_multiset(),
        names_bins(bins, a.len() as int, num_bins),
    ensures
        names_bins(moved, b.len() as int, num_bins),
        forall|bin: int|
            bin_load(as_ints(b), moved, bin) == #[trigger] bin_load(as_ints(a), bins, bin),
    decreases b.len(),
{
    a.to_multiset_ensures();
    b.to_multiset_ensures();
    vstd::seq_lib::to_multiset_len(a);
    vstd::seq_lib::to_multiset_len(b);
    if b.len() == 0 {
        assert(a.len() == 0);
        Seq::empty()
    } else {
        let x = b.last();
        assert(b.contains(x));
        assert(b.to_multiset().count(x) > 0);
        assert(a.contains(x));
        let index = choose|i: int| 0 <= i < a.len() && a[i] == x;
        to_multiset_remove(a, index);
        to_multiset_remove(b, b.len() - 1);
        assert(b.remove(b.len() - 1) == b.drop_last());
        let rest_bins = bins.remove(index);
        assert(names_bins(rest_bins, a.len() - 1, num_bins)) by {
            assert forall|i: int| 0 <= i < rest_bins.len() implies 0 <= #[trigger] rest_bins[i]
                < num_bins by {
                if i < index {
                    assert(rest_bins[i] == bins[i]);
                } else {
                    assert(rest_bins[i] == bins[i + 1]);
                }
            }
        }
        let rest = lemma_packing_of_permutation(
            a.remove(index),
            rest_bins,
            b.drop_last(),
            num_bins,
        );
        let moved = rest.push(bins[index]);
        assert(0 <= bins[index] < num_bins);
        assert(as_ints(a.remove(index)) == as_ints(a).remove(index));
        assert(as_ints(b).drop_last() == as_ints(b.drop_last()));
        assert(moved.drop_last() == rest);
        assert forall|bin: int|
            bin_load(as_ints(b), moved, bin) == #[trigger] bin_load(as_ints(a), bins, bin) by {
            lemma_load_remove(as_ints(a), bins, index, bin);
            assert(bin_load(as_ints(b.drop_last()), rest, bin) == bin_load(
                as_ints(a.remove(index)),
                rest_bins,
                bin,
            ));
        }
        moved
    }
}

/// Sizes that the test calls unpackable do not fit into the bins, if none of them is
/// negative: the answer `true` is a proof.
pub proof fn lemma_unpackable_sizes_do_not_fit(num_bins: int, bin_size: int, sizes: Seq<Time>)
    requires
        num_bins >= 1,
        no_size_negative(sizes),
        certainly_unpackable(num_bins, bin_size, sizes),
    ensures
        !fits(sizes, num_bins, bin_size),
{
    if fits(sizes, num_bins, bin_size) {
        let bins = choose|bins: Seq<int>| packs(sizes, bins, num_bins, bin_size);
        let sorted = in_ascending_order(sizes);
        lemma_in_ascending_order(sizes);
        let moved = lemma_packing_of_permutation(sizes, bins, sorted, num_bins);
        assert(packs(sorted, moved, num_bins, bin_size)) by {
            assert forall|bin: int| 0 <= bin < num_bins implies #[trigger] bin_load(
                as_ints(sorted),
                moved,
                bin,
            ) <= bin_size by {
                assert(bin_load(as_ints(sorted), moved, bin) == bin_load(
                    as_ints(sizes),
                    bins,
                    bin,
                ));
            }
        }
        lemma_unpackable_permutation(num_bins, bin_size, sorted, sizes);
        assert(all_within(sizes, 0, Time::MAX as int));
        lemma_same_bounds(sorted, sizes, 0, Time::MAX as int);
        assert(no_size_negative(sorted));
        lemma_unpackable_ascending(num_bins, bin_size, sorted, moved);
    }
}

} // verus!

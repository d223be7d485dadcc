//! A tree of intervals that finds the intervals that overlap a given interval.

use crate::problem::Time;
use crate::sort::{in_ascending_order, lemma_ascending_unique, sort_times};
use vstd::multiset::Multiset;
use vstd::prelude::*;
use vstd::seq_lib::{lemma_multiset_commutative, to_multiset_build, to_multiset_len};

verus! {

/// The time from the earliest start of a job up to its latest finish
#[derive(Debug, Clone, Copy, PartialEq, Eq, Structural)]
pub struct JobInterval {
    pub job: usize,
    pub start: Time,
    pub end: Time,
}

/// Whether the two intervals have a time in common, where an interval holds its start and
/// does not hold its end
pub open spec fn overlaps(candidate: JobInterval, query: JobInterval) -> bool {
    candidate.start < query.end && candidate.end > query.start
}

/// The intervals of `items` that overlap `query`, in the same order
pub open spec fn overlapping(items: Seq<JobInterval>, query: JobInterval) -> Seq<JobInterval>
    decreases items.len(),
{
    if items.len() == 0 {
        Seq::empty()
    } else if overlaps(items.last(), query) {
        overlapping(items.drop_last(), query).push(items.last())
    } else {
        overlapping(items.drop_last(), query)
    }
}

/// The intervals of two sequences that overlap a query are those of the one, followed by
/// those of the other.
pub proof fn lemma_overlapping_add(a: Seq<JobInterval>, b: Seq<JobInterval>, query: JobInterval)
    ensures
        overlapping(a + b, query) == overlapping(a, query) + overlapping(b, query),
    decreases b.len(),
{
    if b.len() == 0 {
        assert(a + b == a);
    } else {
        lemma_overlapping_add(a, b.drop_last(), query);
        assert((a + b).drop_last() == a + b.drop_last());
        assert((a + b).last() == b.last());
    }
}

/// Where no interval overlaps the query, the overlapping intervals are none.
proof fn lemma_overlapping_none(items: Seq<JobInterval>, query: JobInterval)
    requires
        forall|i: int| 0 <= i < items.len() ==> !overlaps(#[trigger] items[i], query),
    ensures
        overlapping(items, query) == Seq::<JobInterval>::empty(),
    decreases items.len(),
{
    if items.len() > 0 {
        assert(!overlaps(items[items.len() - 1], query));
        lemma_overlapping_none(items.drop_last(), query);
    }
}

/// Sequences with the same intervals agree on where all intervals end and start.
proof fn lemma_same_intervals(a: Seq<JobInterval>, b: Seq<JobInterval>, split_time: Time)
    requires
        a.to_multiset() == b.to_multiset(),
    ensures
        (forall|i: int| 0 <= i < b.len() ==> (#[trigger] b[i]).end <= split_time) ==> (forall|
            i: int,
        | 0 <= i < a.len() ==> (#[trigger] a[i]).end <= split_time),
        (forall|i: int| 0 <= i < b.len() ==> (#[trigger] b[i]).start >= split_time) ==> (forall|
            i: int,
        | 0 <= i < a.len() ==> (#[trigger] a[i]).start >= split_time),
        a.len() == b.len(),
{
    a.to_multiset_ensures();
    b.to_multiset_ensures();
    assert forall|i: int| 0 <= i < a.len() implies b.contains(#[trigger] a[i]) by {
        assert(a.contains(a[i]));
        assert(a.to_multiset().count(a[i]) > 0);
    }
    if forall|i: int| 0 <= i < b.len() ==> (#[trigger] b[i]).end <= split_time {
        assert forall|i: int| 0 <= i < a.len() implies (#[trigger] a[i]).end <= split_time by {
            assert(b.contains(a[i]));
            let j = choose|j: int| 0 <= j < b.len() && b[j] == a[i];
            assert(b[j].end <= split_time);
        }
    }
    if forall|i: int| 0 <= i < b.len() ==> (#[trigger] b[i]).start >= split_time {
        assert forall|i: int| 0 <= i < a.len() implies (#[trigger] a[i]).start >= split_time by {
            assert(b.contains(a[i]));
            let j = choose|j: int| 0 <= j < b.len() && b[j] == a[i];
            assert(b[j].start >= split_time);
        }
    }
}

/// The smallest number of intervals that is divided over subtrees
pub const SPLIT_THRESHOLD: usize = 50;

/// The time in the middle between the start and the end of `interval`, rounded towards 0
pub open spec fn midpoint_of(interval: JobInterval) -> Time {
    if interval.start + interval.end >= 0 {
        ((interval.start + interval.end) / 2) as Time
    } else {
        (-((-(interval.start + interval.end)) / 2)) as Time
    }
}

/// The middle of each interval
pub open spec fn midpoints(items: Seq<JobInterval>) -> Seq<Time> {
    Seq::new(items.len(), |i: int| midpoint_of(items[i]))
}

/// The time at which `items` are divided: the median of the middles of the intervals
pub open spec fn median_midpoint(items: Seq<JobInterval>) -> Time {
    in_ascending_order(midpoints(items))[items.len() as int / 2]
}

/// The intervals of `items` that end at or before `split_time`, in the same order
pub open spec fn ending_by(items: Seq<JobInterval>, split_time: Time) -> Seq<JobInterval>
    decreases items.len(),
{
    if items.len() == 0 {
        Seq::empty()
    } else if items.last().end <= split_time {
        ending_by(items.drop_last(), split_time).push(items.last())
    } else {
        ending_by(items.drop_last(), split_time)
    }
}

/// The intervals of `items` that end after `split_time` and start at or after it, in the
/// same order
pub open spec fn starting_from(items: Seq<JobInterval>, split_time: Time) -> Seq<JobInterval>
    decreases items.len(),
{
    if items.len() == 0 {
        Seq::empty()
    } else if items.last().end > split_time && items.last().start >= split_time {
        starting_from(items.drop_last(), split_time).push(items.last())
    } else {
        starting_from(items.drop_last(), split_time)
    }
}

/// The intervals of `items` that start before `split_time` and end after it, in the same
/// order
pub open spec fn holding(items: Seq<JobInterval>, split_time: Time) -> Seq<JobInterval>
    decreases items.len(),
{
    if items.len() == 0 {
        Seq::empty()
    } else if items.last().end > split_time && items.last().start < split_time {
        holding(items.drop_last(), split_time).push(items.last())
    } else {
        holding(items.drop_last(), split_time)
    }
}

/// Whether `items` are divided over subtrees: they are at least `SPLIT_THRESHOLD`, and
/// neither all of them end by the median of their middles, nor all of them start at or after
/// it
pub open spec fn divided(items: Seq<JobInterval>) -> bool {
    &&& items.len() >= SPLIT_THRESHOLD
    &&& ending_by(items, median_midpoint(items)).len() < items.len()
    &&& starting_from(items, median_midpoint(items)).len() < items.len()
}

/// No part of intervals holds more intervals than the whole.
proof fn lemma_parts_are_no_longer(items: Seq<JobInterval>, split_time: Time)
    ensures
        ending_by(items, split_time).len() <= items.len(),
        starting_from(items, split_time).len() <= items.len(),
        holding(items, split_time).len() <= items.len(),
    decreases items.len(),
{
    if items.len() > 0 {
        lemma_parts_are_no_longer(items.drop_last(), split_time);
    }
}

/// A tree of intervals. A node that was split holds a split time and two subtrees: the
/// intervals that end at or before the split time are in the one, those that start at or
/// after it are in the other, and the node itself keeps the intervals that hold the split
/// time.
pub struct IntervalTree {
    split_time: Time,
    middle: Vec<JobInterval>,
    before: Option<Box<IntervalTree>>,
    after: Option<Box<IntervalTree>>,
}

/// The time in the middle between the start and the end of `interval`
fn midpoint(interval: JobInterval) -> (middle: Time)
    ensures
        middle == midpoint_of(interval),
{
    let sum = interval.start as i128 + interval.end as i128;
    if sum >= 0 {
        (sum / 2) as Time
    } else {
        (-((-sum) / 2)) as Time
    }
}

impl IntervalTree {
    /// The intervals of the tree: those of the node itself, followed by those of its subtrees
    pub closed spec fn contents(&self) -> Seq<JobInterval>
        decreases self,
    {
        self.middle@ + (match self.before {
            Some(before) => before.contents(),
            None => Seq::empty(),
        }) + (match self.after {
            Some(after) => after.contents(),
            None => Seq::empty(),
        })
    }

    /// The intervals of the subtree of the intervals that end by the split time
    spec fn contents_before(&self) -> Seq<JobInterval> {
        match self.before {
            Some(before) => before.contents(),
            None => Seq::empty(),
        }
    }

    /// The intervals of the subtree of the intervals that start at the split time or later
    spec fn contents_after(&self) -> Seq<JobInterval> {
        match self.after {
            Some(after) => after.contents(),
            None => Seq::empty(),
        }
    }

    /// The time at which the intervals of the tree are divided, if the tree is no single node
    pub closed spec fn split_time(&self) -> Time {
        self.split_time
    }

    /// The intervals that the node itself keeps
    pub closed spec fn middle(&self) -> Seq<JobInterval> {
        self.middle@
    }

    /// The subtree of the intervals that end by the split time
    pub closed spec fn before(&self) -> Option<Box<IntervalTree>> {
        self.before
    }

    /// The subtree of the intervals that start at the split time or later
    pub closed spec fn after(&self) -> Option<Box<IntervalTree>> {
        self.after
    }

    /// Whether the tree is the one that `split` makes of `items`: a single node that keeps
    /// them all if they are not divided; else a node that keeps the intervals that hold the
    /// median of the middles, with the tree of the intervals that end by it and the tree of
    /// the intervals that start at or after it.
    pub open spec fn made_of(&self, items: Seq<JobInterval>) -> bool
        decreases items.len(),
    {
        if !divided(items) {
            self.is_leaf() && self.middle() == items
        } else {
            let split_time = median_midpoint(items);
            &&& self.split_time() == split_time
            &&& self.middle() == holding(items, split_time)
            &&& self.before() matches Some(before) && before.made_of(ending_by(items, split_time))
            &&& self.after() matches Some(after) && after.made_of(
                starting_from(items, split_time),
            )
        }
    }

    /// Whether the tree is a single node
    pub closed spec fn is_leaf(&self) -> bool {
        self.before is None && self.after is None
    }

    /// The subtrees hold the intervals on their side of the split time.
    pub closed spec fn wf(&self) -> bool
        decreases self,
    {
        match (self.before, self.after) {
            (Some(before), Some(after)) => {
                &&& before.wf()
                &&& after.wf()
                &&& forall|i: int|
                    0 <= i < before.contents().len() ==> (#[trigger] before.contents()[i]).end
                        <= self.split_time
                &&& forall|i: int|
                    0 <= i < after.contents().len() ==> (#[trigger] after.contents()[i]).start
                        >= self.split_time
            },
            (None, None) => true,
            _ => false,
        }
    }

    /// Creates a tree without intervals.
    pub fn new() -> (tree: Self)
        ensures
            tree.wf(),
            tree.is_leaf(),
            tree.contents() == Seq::<JobInterval>::empty(),
    {
        Self { split_time: 0, middle: Vec::new(), before: None, after: None }
    }

    /// Adds an interval to a tree that was not split.
    pub fn insert(&mut self, interval: JobInterval)
        requires
            old(self).is_leaf(),
        ensures
            final(self).wf(),
            final(self).is_leaf(),
            final(self).contents() == old(self).contents().push(interval),
    {
        self.middle.push(interval);
        assert(self.contents() == old(self).contents().push(interval));
    }

    /// Divides the intervals of a tree that was not split over subtrees, such that a query
    /// need not look at every interval. A tree of fewer than `SPLIT_THRESHOLD` intervals, or
    /// whose intervals would all go to the same subtree, stays as it is.
    #[verifier::rlimit(40)]
    pub fn split(&mut self)
        requires
            old(self).is_leaf(),
        ensures
            final(self).wf(),
            final(self).contents().to_multiset() == old(self).contents().to_multiset(),
            final(self).made_of(old(self).contents()),
        decreases old(self).contents().len(),
    {
        let count = self.middle.len();
        if count < SPLIT_THRESHOLD {
            return ;
        }
        let ghost items = self.middle@;
        assert(self.contents() == items);
        let mut keys: Vec<Time> = Vec::new();
        let mut index: usize = 0;
        while index < count
            invariant
                index <= count,
                count == self.middle@.len(),
                self.middle@ == items,
                keys@ == midpoints(items).take(index as int),
            decreases count - index,
        {
            keys.push(midpoint(self.middle[index]));
            assert(keys@ == midpoints(items).take(index + 1));
            index += 1;
        }
        let ghost unsorted = keys@;
        assert(unsorted == midpoints(items));
        sort_times(&mut keys);
        proof {
            to_multiset_len(keys@);
            to_multiset_len(unsorted);
            lemma_ascending_unique(keys@, unsorted);
        }
        let split_time = keys[count / 2];
        assert(split_time == median_midpoint(items));

        let mut middle: Vec<JobInterval> = Vec::new();
        let mut before_items: Vec<JobInterval> = Vec::new();
        let mut after_items: Vec<JobInterval> = Vec::new();
        index = 0;
        proof {
            let empty = Seq::<JobInterval>::empty();
            assert(items.take(0) == empty);
            to_multiset_len(empty);
            assert(empty.to_multiset() =~= Multiset::<JobInterval>::empty());
            assert(empty.to_multiset().add(empty.to_multiset()).add(empty.to_multiset())
                =~= empty.to_multiset());
        }
        while index < count
            invariant
                index <= count,
                count == items.len(),
                self.middle@ == items,
                middle@.len() + before_items@.len() + after_items@.len() == index,
                middle@.to_multiset().add(before_items@.to_multiset()).add(
                    after_items@.to_multiset(),
                ) == items.take(index as int).to_multiset(),
                forall|i: int|
                    0 <= i < before_items@.len()
                        ==> (#[trigger] before_items@[i]).end <= split_time,
                forall|i: int|
                    0 <= i < after_items@.len() ==> (#[trigger] after_items@[i]).start
                        >= split_time,
                before_items@ == ending_by(items.take(index as int), split_time),
                after_items@ == starting_from(items.take(index as int), split_time),
                middle@ == holding(items.take(index as int), split_time),
            decreases count - index,
        {
            let interval = self.middle[index];
            proof {
                assert(items.take(index + 1) == items.take(index as int).push(interval));
                assert(items.take(index + 1).drop_last() == items.take(index as int));
                to_multiset_build(items.take(index as int), interval);
                to_multiset_build(middle@, interval);
                to_multiset_build(before_items@, interval);
                to_multiset_build(after_items@, interval);
            }
            if interval.end <= split_time {
                before_items.push(interval);
            } else if interval.start >= split_time {
                after_items.push(interval);
            } else {
                middle.push(interval);
            }
            proof {
                assert(middle@.to_multiset().add(before_items@.to_multiset()).add(
                    after_items@.to_multiset(),
                ) =~= items.take(index as int).to_multiset().insert(interval));
            }
            index += 1;
        }
        assert(items.take(count as int) == items);
        proof {
            lemma_parts_are_no_longer(items, split_time);
        }
        if before_items.len() == count || after_items.len() == count {
            return ;
        }
        let mut before = IntervalTree {
            split_time: 0,
            middle: before_items,
            before: None,
            after: None,
        };
        let mut after = IntervalTree {
            split_time: 0,
            middle: after_items,
            before: None,
            after: None,
        };
        let ghost before_contents = before.contents();
        let ghost after_contents = after.contents();
        assert(before_contents == before.middle@);
        assert(after_contents == after.middle@);
        before.split();
        after.split();
        proof {
            lemma_same_intervals(before.contents(), before_contents, split_time);
            lemma_same_intervals(after.contents(), after_contents, split_time);
        }
        self.split_time = split_time;
        self.middle = middle;
        self.before = Some(Box::new(before));
        self.after = Some(Box::new(after));
        proof {
            assert(self.contents() == middle@ + before.contents() + after.contents());
            lemma_multiset_commutative(middle@ + before.contents(), after.contents());
            lemma_multiset_commutative(middle@, before.contents());
        }
    }

    /// Appends to `output` the intervals of the tree that overlap `interval`.
    pub fn query(&self, interval: JobInterval, output: &mut Vec<JobInterval>)
        requires
            self.wf(),
        ensures
            final(output)@ == old(output)@ + overlapping(self.contents(), interval),
        decreases self,
    {
        let ghost start = output@;
        let mut index: usize = 0;
        while index < self.middle.len()
            invariant
                index <= self.middle@.len(),
                output@ == start + overlapping(self.middle@.take(index as int), interval),
            decreases self.middle@.len() - index,
        {
            assert(self.middle@.take(index + 1).drop_last() == self.middle@.take(index as int));
            let candidate = self.middle[index];
            if candidate.start < interval.end && candidate.end > interval.start {
                output.push(candidate);
            }
            index += 1;
        }
        assert(self.middle@.take(self.middle@.len() as int) == self.middle@);
        let ghost own = output@;
        let ghost before_contents = self.contents_before();
        let ghost after_contents = self.contents_after();
        match &self.before {
            Some(before) => {
                if interval.start < self.split_time {
                    before.query(interval, output);
                } else {
                    proof {
                        lemma_overlapping_none(before_contents, interval);
                    }
                }
            },
            None => {},
        }
        assert(output@ == own + overlapping(before_contents, interval));
        let ghost both = output@;
        match &self.after {
            Some(after) => {
                if interval.end > self.split_time {
                    after.query(interval, output);
                } else {
                    proof {
                        lemma_overlapping_none(after_contents, interval);
                    }
                }
            },
            None => {},
        }
        assert(output@ == both + overlapping(after_contents, interval));
        proof {
            lemma_overlapping_add(self.middle@, before_contents, interval);
            lemma_overlapping_add(self.middle@ + before_contents, after_contents, interval);
            assert(output@ =~= start + overlapping(self.contents(), interval));
        }
    }
}

} // verus!

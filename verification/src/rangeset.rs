//! The interval set: offsets kept as sorted, disjoint, non-adjacent ranges.

use crate::coverage::{
    absorbed, insert_all, insert_spec, lemma_insert_all, lemma_insert_covers, lemma_insert_splice,
    lemma_insert_well_formed, lemma_remove_covers, lemma_remove_well_formed, neighbours,
    remove_spec, well_formed,
};
use crate::position::{positioned, with_position, Place};
use crate::range::{covers, holds, hull, merge_range, non_empty, range_difference, Range};
use vstd::prelude::*;
use vstd::slice::slice_subrange;
use vstd::std_specs::iter::IteratorSpec;
use vstd::std_specs::slice::into_iter_elts;

verus! {

/// A set of byte offsets, stored as the ascending ranges that cover it. No
/// two stored ranges overlap or touch: inserting merges such ranges into one.
#[derive(Debug, PartialEq, Eq)]
pub struct RangeSet {
    contents: Vec<Range>,
}

impl View for RangeSet {
    type V = Seq<Range>;

    /// The stored ranges, in ascending order.
    closed spec fn view(&self) -> Seq<Range> {
        self.contents@
    }
}

/// Counts the ranges of `stored` that end below `start`.
fn count_ending_below(stored: &Vec<Range>, start: usize) -> (low: usize)
    requires
        well_formed(stored@),
    ensures
        low <= stored@.len(),
        forall|i: int| 0 <= i < low ==> (#[trigger] stored@[i]).end < start,
        forall|i: int| low <= i < stored@.len() ==> (#[trigger] stored@[i]).end >= start,
{
    let mut low: usize = 0;
    let mut high: usize = stored.len();
    while low < high
        invariant
            well_formed(stored@),
            low <= high <= stored@.len(),
            forall|i: int| 0 <= i < low ==> (#[trigger] stored@[i]).end < start,
            forall|i: int| high <= i < stored@.len() ==> (#[trigger] stored@[i]).end >= start,
        decreases high - low,
    {
        let mid: usize = low + (high - low) / 2;
        if stored[mid].end < start {
            assert forall|i: int| 0 <= i < mid + 1 implies (#[trigger] stored@[i]).end < start by {
                if i < mid {
                    assert(stored@[i].end < stored@[mid as int].start);
                    assert(non_empty(stored@[mid as int]));
                }
            }
            low = mid + 1;
        } else {
            assert forall|i: int| mid <= i < stored@.len() implies (#[trigger] stored@[i]).end
                >= start by {
                if mid < i {
                    assert(stored@[mid as int].end < stored@[i].start);
                    assert(non_empty(stored@[i]));
                }
            }
            high = mid;
        }
    }
    low
}

/// Counts the ranges of `stored` that start at or below `end`.
fn count_starting_up_to(stored: &Vec<Range>, end: usize) -> (high: usize)
    requires
        well_formed(stored@),
    ensures
        high <= stored@.len(),
        forall|i: int| 0 <= i < high ==> (#[trigger] stored@[i]).start <= end,
        forall|i: int| high <= i < stored@.len() ==> (#[trigger] stored@[i]).start > end,
{
    let mut low: usize = 0;
    let mut high: usize = stored.len();
    while low < high
        invariant
            well_formed(stored@),
            low <= high <= stored@.len(),
            forall|i: int| 0 <= i < low ==> (#[trigger] stored@[i]).start <= end,
            forall|i: int| high <= i < stored@.len() ==> (#[trigger] stored@[i]).start > end,
        decreases high - low,
    {
        let mid: usize = low + (high - low) / 2;
        if stored[mid].start <= end {
            assert forall|i: int| 0 <= i < mid + 1 implies (#[trigger] stored@[i]).start
                <= end by {
                if i < mid {
                    assert(stored@[i].end < stored@[mid as int].start);
                    assert(non_empty(stored@[i]));
                }
            }
            low = mid + 1;
        } else {
            assert forall|i: int| mid <= i < stored@.len() implies (#[trigger] stored@[i]).start
                > end by {
                if mid < i {
                    assert(stored@[mid as int].end < stored@[i].start);
                    assert(non_empty(stored@[mid as int]));
                }
            }
            high = mid;
        }
    }
    low
}

/// Grows `range` by the first and the last of the ranges it absorbs. The
/// ranges between those two lie inside the grown range and are passed over.
fn absorb(range: &Range, stored: &Vec<Range>, low: usize, high: usize) -> (grown: Range)
    requires
        well_formed(stored@),
        non_empty(*range),
        neighbours(stored@, *range, low as int, high as int),
    ensures
        grown == absorbed(stored@, *range, low as int, high as int),
        non_empty(grown),
{
    let marked = with_position(slice_subrange(stored.as_slice(), low, high));
    let ghost run = stored@.subrange(low as int, high as int);
    let mut grown: Range = range.start..range.end;
    let mut k: usize = 0;
    while k < marked.len()
        invariant
            well_formed(stored@),
            non_empty(*range),
            neighbours(stored@, *range, low as int, high as int),
            run == stored@.subrange(low as int, high as int),
            marked@ == positioned(run),
            k <= marked@.len(),
            grown == if k == 0 {
                *range
            } else if k < marked@.len() {
                hull(*range, run[0])
            } else {
                hull(hull(*range, run[0]), run.last())
            },
        decreases marked@.len() - k,
    {
        assert(run[k as int] == stored@[low + k]);
        assert(run[0] == stored@[low as int]);
        assert(non_empty(stored@[low + k]) && non_empty(stored@[low as int]));
        if k > 0 {
            assert(stored@[low as int].end < stored@[low + k].start);
        }
        match marked[k].0 {
            Place::Middle => {},
            _ => {
                let joined = merge_range(&grown, &marked[k].1);
                grown = joined.unwrap();
            },
        }
        k += 1;
    }
    grown
}

impl RangeSet {
    #[verifier::type_invariant]
    spec fn canonical(&self) -> bool {
        well_formed(self.contents@)
    }

    /// An empty set.
    pub fn new() -> (set: RangeSet)
        ensures
            set@ == Seq::<Range>::empty(),
    {
        RangeSet { contents: Vec::new() }
    }

    /// Adds the offsets of `range` to the set. Stored ranges that overlap or
    /// touch `range` are merged with it into one range.
    pub fn insert_range(&mut self, range: &Range)
        requires
            non_empty(*range),
        ensures
            final(self)@ == insert_spec(old(self)@, *range),
            well_formed(final(self)@),
            forall|x: int| covers(final(self)@, x) <==> covers(old(self)@, x) || holds(*range, x),
    {
        proof {
            use_type_invariant(&*self);
        }
        let low: usize = count_ending_below(&self.contents, range.start);
        let high: usize = count_starting_up_to(&self.contents, range.end);
        assert(low <= high) by {
            if high < low {
                assert(self.contents@[high as int].end < range.start);
                assert(non_empty(self.contents@[high as int]));
            }
        }
        let grown = absorb(range, &self.contents, low, high);
        let mut stored: Vec<Range> = Vec::new();
        std::mem::swap(&mut self.contents, &mut stored);
        let mut above = stored.split_off(high);
        stored.truncate(low);
        stored.push(grown);
        stored.append(&mut above);
        proof {
            lemma_insert_splice(old(self)@, *range, low as int, high as int);
            lemma_insert_well_formed(old(self)@, *range);
            lemma_insert_covers(old(self)@, *range);
            assert(stored@ == insert_spec(old(self)@, *range));
        }
        self.contents = stored;
    }

    /// Takes the offsets of `removed` out of the set. A stored range that
    /// `removed` covers goes, one that it cuts into is trimmed, and one that
    /// it cuts through is split in two.
    pub fn remove_range(&mut self, removed: &Range)
        requires
            non_empty(*removed),
        ensures
            final(self)@ == remove_spec(old(self)@, *removed),
            well_formed(final(self)@),
            forall|x: int|
                covers(final(self)@, x) <==> covers(old(self)@, x) && !holds(*removed, x),
    {
        proof {
            use_type_invariant(&*self);
            lemma_remove_well_formed(self@, *removed);
            lemma_remove_covers(self@, *removed);
        }
        let mut next: Vec<Range> = Vec::new();
        let mut i: usize = 0;
        while i < self.contents.len()
            invariant
                well_formed(self.contents@),
                non_empty(*removed),
                i <= self.contents@.len(),
                next@ == remove_spec(self.contents@.subrange(0, i as int), *removed),
            decreases self.contents@.len() - i,
        {
            let mut pieces = range_difference(&self.contents[i], removed);
            proof {
                let upto = self.contents@.subrange(0, i + 1);
                assert(upto.drop_last() == self.contents@.subrange(0, i as int));
                assert(upto.last() == self.contents@[i as int]);
            }
            next.append(&mut pieces);
            i += 1;
        }
        assert(self.contents@.subrange(0, i as int) == self.contents@);
        self.contents = next;
    }

    /// The stored ranges, in ascending order. Each call starts anew at the
    /// first range.
    pub fn iter(&self) -> (ranges: std::slice::Iter<'_, Range>)
        ensures
            well_formed(self@),
            IteratorSpec::remaining(&ranges) == self@.as_ref(),
            into_iter_elts(ranges) == self@,
            IteratorSpec::obeys_prophetic_iter_laws(&ranges),
            IteratorSpec::decrease(&ranges) is Some,
    {
        broadcast use vstd::std_specs::slice::axiom_spec_slice_iter;
        proof {
            use_type_invariant(self);
        }
        let ranges = self.contents.iter();
        assert(self.contents@.as_ref().unref() == self.contents@);
        ranges
    }

    /// The number of stored ranges.
    pub fn len(&self) -> (n: usize)
        ensures
            n == self@.len(),
    {
        self.contents.len()
    }

    /// Whether the set holds no offset.
    pub fn is_empty(&self) -> (empty: bool)
        ensures
            empty == (self@.len() == 0),
            empty == (forall|x: int| !covers(self@, x)),
    {
        proof {
            use_type_invariant(self);
            if self@.len() > 0 {
                assert(non_empty(self@[0]));
                assert(holds(self@[0], self@[0].start as int));
                assert(covers(self@, self@[0].start as int));
            }
        }
        self.contents.len() == 0
    }

    /// Empties the set.
    pub fn clear(&mut self)
        ensures
            final(self)@ == Seq::<Range>::empty(),
    {
        self.contents = Vec::new();
    }
}

impl Default for RangeSet {
    /// An empty set.
    fn default() -> (set: RangeSet)
        ensures
            set@ == Seq::<Range>::empty(),
    {
        RangeSet::new()
    }
}

impl vstd::std_specs::convert::FromSpecImpl<Vec<Range>> for RangeSet {
    /// The conversion is specified by the view of its result, on `from`.
    open spec fn obeys_from_spec() -> bool {
        false
    }

    open spec fn from_spec(ranges: Vec<Range>) -> RangeSet {
        arbitrary()
    }
}

impl From<Vec<Range>> for RangeSet {
    /// The set of all offsets that some range of `ranges` holds. Ranges that
    /// hold no offset are passed over.
    fn from(ranges: Vec<Range>) -> (set: RangeSet)
        ensures
            set@ == insert_all(ranges@),
            well_formed(set@),
            forall|x: int| covers(set@, x) <==> covers(ranges@, x),
    {
        let mut set = RangeSet::new();
        let mut i: usize = 0;
        while i < ranges.len()
            invariant
                i <= ranges@.len(),
                set@ == insert_all(ranges@.subrange(0, i as int)),
            decreases ranges@.len() - i,
        {
            proof {
                let upto = ranges@.subrange(0, i + 1);
                assert(upto.drop_last() == ranges@.subrange(0, i as int));
                assert(upto.last() == ranges@[i as int]);
            }
            if ranges[i].start < ranges[i].end {
                set.insert_range(&ranges[i]);
            }
            i += 1;
        }
        proof {
            assert(ranges@.subrange(0, i as int) == ranges@);
            lemma_insert_all(ranges@);
        }
        set
    }
}

impl<'a> IntoIterator for &'a RangeSet {
    type Item = &'a Range;

    type IntoIter = std::slice::Iter<'a, Range>;

    /// The stored ranges, in ascending order.
    fn into_iter(self) -> (ranges: std::slice::Iter<'a, Range>)
        ensures
            well_formed(self@),
            IteratorSpec::remaining(&ranges) == self@.as_ref(),
            into_iter_elts(ranges) == self@,
            IteratorSpec::obeys_prophetic_iter_laws(&ranges),
            IteratorSpec::decrease(&ranges) is Some,
    {
        self.iter()
    }
}

impl IntoIterator for RangeSet {
    type Item = Range;

    type IntoIter = std::vec::IntoIter<Range>;

    /// The stored ranges, in ascending order.
    fn into_iter(self) -> (ranges: std::vec::IntoIter<Range>)
        ensures
            well_formed(self@),
            IteratorSpec::remaining(&ranges) == self@,
            IteratorSpec::obeys_prophetic_iter_laws(&ranges),
            IteratorSpec::decrease(&ranges) is Some,
    {
        proof {
            use_type_invariant(&self);
        }
        self.contents.into_iter()
    }
}

} // verus!

//! Marks each range of a run with its place in the run: first, last, only,
//! or somewhere in between.

use crate::range::Range;
use itertools::{Itertools, Position};
use vstd::prelude::*;

verus! {

/// The place of an item in a run of items.
#[derive(Clone, Copy, Debug, PartialEq, Eq, Structural)]
pub enum Place {
    /// The first of two or more items.
    First,
    /// Neither the first nor the last item.
    Middle,
    /// The last of two or more items.
    Last,
    /// The single item of a run of one.
    Only,
}

/// The place of the item at index `i` in a run of `n` items.
pub open spec fn place_at(i: int, n: int) -> Place {
    if n == 1 {
        Place::Only
    } else if i == 0 {
        Place::First
    } else if i == n - 1 {
        Place::Last
    } else {
        Place::Middle
    }
}

/// Every range of `s`, in order, paired with its place in `s`.
pub open spec fn positioned(s: Seq<Range>) -> Seq<(Place, Range)> {
    Seq::new(s.len(), |i: int| (place_at(i, s.len() as int), s[i]))
}

/// Calls `Itertools::with_position` on the ranges of a slice. The contract
/// claims, without proof, what that adaptor documents: it yields every item
/// in order, tagged `Only` when it is the single item, else `First` at the
/// front, `Last` at the back and `Middle` anywhere between.
#[verifier::external_body]
pub(crate) fn with_position(ranges: &[Range]) -> (marked: Vec<(Place, Range)>)
    ensures
        marked@ == positioned(ranges@),
{
    let mut marked = Vec::new();
    for (position, range) in ranges.iter().with_position() {
        let place = match position {
            Position::First => Place::First,
            Position::Middle => Place::Middle,
            Position::Last => Place::Last,
            Position::Only => Place::Only,
        };
        marked.push((place, range.clone()));
    }
    marked
}

} // verus!

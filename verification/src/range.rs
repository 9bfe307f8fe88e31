//! Half-open ranges of byte offsets: when two of them merge, and what is left
//! of one when another is cut out of it.

use vstd::prelude::*;
use vstd::slice::slice_subrange;

verus! {

/// A half-open interval `[start, end)` of byte offsets into a source text.
pub type Range = std::ops::Range<usize>;

/// The range from `start` up to, not including, `end`.
pub open spec fn span_of(start: usize, end: usize) -> Range {
    std::ops::Range { start, end }
}

/// `r` holds at least one offset.
pub open spec fn non_empty(r: Range) -> bool {
    r.start < r.end
}

/// The offset `x` lies in `r`.
pub open spec fn holds(r: Range, x: int) -> bool {
    r.start <= x < r.end
}

/// The smallest range that holds both `a` and `b`.
pub open spec fn hull(a: Range, b: Range) -> Range {
    span_of(
        if a.start <= b.start { a.start } else { b.start },
        if a.end >= b.end { a.end } else { b.end },
    )
}

/// A gap of at least one offset lies between `a` and `b`.
pub open spec fn apart(a: Range, b: Range) -> bool {
    a.end < b.start || b.end < a.start
}

/// The one range that covers `a` and `b` when they overlap or touch; nothing
/// when a gap separates them.
pub open spec fn merge_spec(a: Range, b: Range) -> Option<Range> {
    if apart(a, b) {
        None
    } else {
        Some(hull(a, b))
    }
}

/// What is left of `a` once `b` is cut out: the part below `b`, then the part
/// above it, each only if it holds an offset.
pub open spec fn difference_spec(a: Range, b: Range) -> Seq<Range> {
    let below = if a.start < b.start {
        seq![span_of(a.start, if a.end <= b.start { a.end } else { b.start })]
    } else {
        Seq::<Range>::empty()
    };
    let above = if b.end < a.end {
        seq![span_of(if a.start >= b.end { a.start } else { b.end }, a.end)]
    } else {
        Seq::<Range>::empty()
    };
    below + above
}

/// Some range of `s` holds the offset `x`.
pub open spec fn covers(s: Seq<Range>, x: int) -> bool {
    exists|i: int| 0 <= i < s.len() && holds(#[trigger] s[i], x)
}

/// `range` lies inside a source of `len` bytes, its ends in order.
pub open spec fn within(range: Range, len: int) -> bool {
    range.start <= range.end <= len
}

/// The bytes of `source` at the offsets of `range`, first offset included,
/// last excluded; nothing where the range does not lie inside the source.
pub fn slice_source<'a>(source: &'a [u8], range: &Range) -> (part: Option<&'a [u8]>)
    ensures
        part is Some <==> within(*range, source@.len() as int),
        part matches Some(bytes) ==> bytes@ == source@.subrange(
            range.start as int,
            range.end as int,
        ),
{
    if range.start <= range.end && range.end <= source.len() {
        Some(slice_subrange(source, range.start, range.end))
    } else {
        None
    }
}

/// Merges two ranges that overlap or touch into the single range covering
/// both; ranges separated by a gap do not merge.
pub fn merge_range(a: &Range, b: &Range) -> (merged: Option<Range>)
    requires
        non_empty(*a),
        non_empty(*b),
    ensures
        merged == merge_spec(*a, *b),
        merged matches Some(m) ==> non_empty(m) && forall|x: int|
            holds(m, x) <==> holds(*a, x) || holds(*b, x),
{
    if a.end < b.start || b.end < a.start {
        None
    } else {
        let start: usize = if a.start <= b.start { a.start } else { b.start };
        let end: usize = if a.end >= b.end { a.end } else { b.end };
        Some(start..end)
    }
}

/// Cuts `b` out of `a`. The result holds zero, one or two ranges in ascending
/// order: `b` may cover `a`, trim one side of it, split it, or miss it.
pub fn range_difference(a: &Range, b: &Range) -> (rest: Vec<Range>)
    requires
        non_empty(*a),
        non_empty(*b),
    ensures
        rest@ == difference_spec(*a, *b),
        forall|i: int| 0 <= i < rest@.len() ==> non_empty(#[trigger] rest@[i]),
        forall|x: int| covers(rest@, x) <==> holds(*a, x) && !holds(*b, x),
{
    let mut rest: Vec<Range> = Vec::new();
    if a.start < b.start {
        let end: usize = if a.end <= b.start { a.end } else { b.start };
        rest.push(a.start..end);
    }
    if b.end < a.end {
        let start: usize = if a.start >= b.end { a.start } else { b.end };
        rest.push(start..a.end);
    }
    proof {
        lemma_difference_covers(*a, *b);
    }
    rest
}

/// The pieces of a difference hold exactly the offsets of `a` that are not in
/// `b`; each piece lies inside `a`, and a gap separates two pieces.
pub proof fn lemma_difference_covers(a: Range, b: Range)
    requires
        non_empty(a),
        non_empty(b),
    ensures
        forall|x: int| covers(difference_spec(a, b), x) <==> holds(a, x) && !holds(b, x),
        forall|i: int|
            0 <= i < difference_spec(a, b).len() ==> {
                let piece = #[trigger] difference_spec(a, b)[i];
                non_empty(piece) && a.start <= piece.start && piece.end <= a.end
            },
        difference_spec(a, b).len() <= 2,
        difference_spec(a, b).len() == 2 ==> difference_spec(a, b)[0].end < difference_spec(
            a,
            b,
        )[1].start,
{
    let d = difference_spec(a, b);
    assert forall|x: int| covers(d, x) <==> holds(a, x) && !holds(b, x) by {
        if holds(a, x) && !holds(b, x) {
            if x < b.start {
                assert(holds(d[0], x));
            } else {
                assert(holds(d[d.len() - 1], x));
            }
        }
    }
}

} // verus!

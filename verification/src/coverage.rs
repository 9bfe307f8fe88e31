//! The mathematics of an interval set: its canonical form, what insertion and
//! removal do to a sequence of ranges, and the laws that tie both to the set
//! of offsets covered.

use crate::range::{
    apart, covers, difference_spec, holds, hull, lemma_difference_covers, non_empty, Range,
};
use vstd::prelude::*;

verus! {

/// The canonical form of an interval set: every range holds an offset, and a
/// gap of at least one offset separates each range from every later one. The
/// ranges are therefore ascending, disjoint and non-adjacent.
pub open spec fn well_formed(s: Seq<Range>) -> bool {
    &&& forall|i: int| 0 <= i < s.len() ==> non_empty(#[trigger] s[i])
    &&& forall|i: int, j: int|
        0 <= i < j < s.len() ==> (#[trigger] s[i]).end < (#[trigger] s[j]).start
}

/// A canonical sequence is strictly ascending, no offset lies in two of its
/// ranges, and no range ends where another starts.
pub proof fn lemma_well_formed_apart(s: Seq<Range>)
    requires
        well_formed(s),
    ensures
        forall|i: int, j: int|
            0 <= i < j < s.len() ==> (#[trigger] s[i]).start < (#[trigger] s[j]).start,
        forall|i: int, j: int, x: int|
            0 <= i < s.len() && 0 <= j < s.len() && i != j ==> !(#[trigger] holds(s[i], x)
                && #[trigger] holds(s[j], x)),
        forall|i: int, j: int|
            0 <= i < s.len() && 0 <= j < s.len() ==> (#[trigger] s[i]).end != (
            #[trigger] s[j]).start,
{
    assert forall|i: int, j: int| 0 <= i < s.len() && 0 <= j < s.len() implies (
    #[trigger] s[i]).end != (#[trigger] s[j]).start by {
        assert(non_empty(s[i]) && non_empty(s[j]));
        if i < j {
            assert(s[i].end < s[j].start);
        } else if j < i {
            assert(s[j].end < s[i].start);
        }
    }
    assert forall|i: int, j: int, x: int|
        0 <= i < s.len() && 0 <= j < s.len() && i != j implies !(#[trigger] holds(s[i], x)
        && #[trigger] holds(s[j], x)) by {
        if i < j {
            assert(s[i].end < s[j].start);
        } else {
            assert(s[j].end < s[i].start);
        }
    }
    assert forall|i: int, j: int| 0 <= i < j < s.len() implies (#[trigger] s[i]).start < (
    #[trigger] s[j]).start by {
        assert(non_empty(s[i]));
        assert(s[i].end < s[j].start);
    }
}

/// The canonical sequence after `r` joins `s`: ranges wholly below `r` stay,
/// every range that overlaps or touches `r` is absorbed into it, and ranges
/// wholly above the grown range stay.
pub open spec fn insert_spec(s: Seq<Range>, r: Range) -> Seq<Range>
    decreases s.len(),
{
    if s.len() == 0 {
        seq![r]
    } else if s[0].end < r.start {
        seq![s[0]] + insert_spec(s.drop_first(), r)
    } else if r.end < s[0].start {
        seq![r] + s
    } else {
        insert_spec(s.drop_first(), hull(s[0], r))
    }
}

/// The sequence after `r` is cut out of every range of `s`.
pub open spec fn remove_spec(s: Seq<Range>, r: Range) -> Seq<Range>
    decreases s.len(),
{
    if s.len() == 0 {
        Seq::<Range>::empty()
    } else {
        remove_spec(s.drop_last(), r) + difference_spec(s.last(), r)
    }
}

/// The canonical sequence after the ranges of `inputs` are inserted one by
/// one into an empty set. A range that holds no offset adds nothing.
pub open spec fn insert_all(inputs: Seq<Range>) -> Seq<Range>
    decreases inputs.len(),
{
    if inputs.len() == 0 {
        Seq::<Range>::empty()
    } else if non_empty(inputs.last()) {
        insert_spec(insert_all(inputs.drop_last()), inputs.last())
    } else {
        insert_all(inputs.drop_last())
    }
}

/// A concatenation covers what either part covers.
pub proof fn lemma_covers_concat(a: Seq<Range>, b: Seq<Range>, x: int)
    ensures
        covers(a + b, x) <==> covers(a, x) || covers(b, x),
{
    let c = a + b;
    if covers(c, x) {
        let i = choose|i: int| 0 <= i < c.len() && holds(#[trigger] c[i], x);
        if i < a.len() {
            assert(holds(a[i], x));
        } else {
            assert(holds(b[i - a.len()], x));
        }
    }
    if covers(a, x) {
        let i = choose|i: int| 0 <= i < a.len() && holds(#[trigger] a[i], x);
        assert(holds(c[i], x));
    }
    if covers(b, x) {
        let i = choose|i: int| 0 <= i < b.len() && holds(#[trigger] b[i], x);
        assert(holds(c[i + a.len()], x));
    }
}

/// A sequence of one range covers what that range holds.
pub proof fn lemma_covers_single(r: Range, x: int)
    ensures
        covers(seq![r], x) <==> holds(r, x),
{
    let s = seq![r];
    if holds(r, x) {
        assert(holds(s[0], x));
    }
}

/// In a canonical sequence no offset lies below the first range, and an
/// offset outside the first range is covered exactly when the rest covers it.
pub proof fn lemma_covers_first(s: Seq<Range>)
    requires
        well_formed(s),
        s.len() > 0,
    ensures
        well_formed(s.drop_first()),
        forall|x: int| covers(s, x) ==> s[0].start <= x,
        forall|x: int| covers(s.drop_first(), x) ==> s[0].end < x,
        forall|x: int| covers(s, x) <==> holds(s[0], x) || covers(s.drop_first(), x),
{
    let t = s.drop_first();
    assert(s =~= seq![s[0]] + t);
    assert forall|x: int| covers(s, x) <==> holds(s[0], x) || covers(t, x) by {
        lemma_covers_concat(seq![s[0]], t, x);
        lemma_covers_single(s[0], x);
    }
    assert forall|x: int| covers(t, x) implies s[0].end < x by {
        let i = choose|i: int| 0 <= i < t.len() && holds(#[trigger] t[i], x);
        assert(t[i] == s[i + 1]);
        assert(s[0].end < s[i + 1].start);
    }
    assert(non_empty(s[0]));
}

/// Two canonical sequences that cover the same offsets are the same sequence.
pub proof fn lemma_canonical(a: Seq<Range>, b: Seq<Range>)
    requires
        well_formed(a),
        well_formed(b),
        forall|x: int| covers(a, x) <==> covers(b, x),
    ensures
        a == b,
    decreases a.len(),
{
    if a.len() == 0 {
        if b.len() > 0 {
            assert(non_empty(b[0]));
            assert(holds(b[0], b[0].start as int));
            assert(covers(b, b[0].start as int));
            assert(covers(a, b[0].start as int));
        }
        assert(a =~= b);
    } else if b.len() == 0 {
        assert(non_empty(a[0]));
        assert(holds(a[0], a[0].start as int));
        assert(covers(a, a[0].start as int));
        assert(covers(b, a[0].start as int));
    } else {
        lemma_covers_first(a);
        lemma_covers_first(b);
        assert(non_empty(a[0]) && non_empty(b[0]));
        assert(holds(a[0], a[0].start as int));
        assert(holds(b[0], b[0].start as int));
        assert(covers(a, a[0].start as int) && covers(b, b[0].start as int));
        assert(a[0].start == b[0].start);
        if a[0].end < b[0].end {
            assert(holds(b[0], a[0].end as int));
            assert(covers(a, a[0].end as int));
            assert(false);
        }
        if b[0].end < a[0].end {
            assert(holds(a[0], b[0].end as int));
            assert(covers(b, b[0].end as int));
            assert(false);
        }
        assert(a[0] == b[0]);
        let ta = a.drop_first();
        let tb = b.drop_first();
        assert forall|x: int| covers(ta, x) <==> covers(tb, x) by {
            if covers(ta, x) {
                assert(covers(a, x));
            }
            if covers(tb, x) {
                assert(covers(b, x));
            }
        }
        lemma_canonical(ta, tb);
        assert(a =~= seq![a[0]] + ta);
        assert(b =~= seq![b[0]] + tb);
    }
}

/// The hull of two ranges with no gap between them holds what either holds.
pub proof fn lemma_hull_holds(a: Range, b: Range)
    requires
        !apart(a, b),
    ensures
        forall|x: int| holds(hull(a, b), x) <==> holds(a, x) || holds(b, x),
{
}

/// Insertion adds the offsets of the new range to the coverage, and nothing
/// else.
pub proof fn lemma_insert_covers(s: Seq<Range>, r: Range)
    ensures
        forall|x: int| covers(insert_spec(s, r), x) <==> covers(s, x) || holds(r, x),
    decreases s.len(),
{
    if s.len() == 0 {
        assert forall|x: int| covers(insert_spec(s, r), x) <==> covers(s, x) || holds(r, x) by {
            lemma_covers_single(r, x);
        }
    } else {
        let t = s.drop_first();
        assert(s =~= seq![s[0]] + t);
        if s[0].end < r.start {
            lemma_insert_covers(t, r);
            assert forall|x: int| covers(insert_spec(s, r), x) <==> covers(s, x) || holds(
                r,
                x,
            ) by {
                lemma_covers_concat(seq![s[0]], t, x);
                lemma_covers_concat(seq![s[0]], insert_spec(t, r), x);
            }
        } else if r.end < s[0].start {
            assert forall|x: int| covers(insert_spec(s, r), x) <==> covers(s, x) || holds(
                r,
                x,
            ) by {
                lemma_covers_concat(seq![r], s, x);
                lemma_covers_single(r, x);
            }
        } else {
            lemma_insert_covers(t, hull(s[0], r));
            lemma_hull_holds(s[0], r);
            assert forall|x: int| covers(insert_spec(s, r), x) <==> covers(s, x) || holds(
                r,
                x,
            ) by {
                lemma_covers_concat(seq![s[0]], t, x);
                lemma_covers_single(s[0], x);
            }
        }
    }
}

/// Insertion into a canonical sequence gives a canonical sequence, which
/// begins at the lower of the two starts.
pub proof fn lemma_insert_well_formed(s: Seq<Range>, r: Range)
    requires
        well_formed(s),
        non_empty(r),
    ensures
        well_formed(insert_spec(s, r)),
        insert_spec(s, r).len() > 0,
        insert_spec(s, r)[0].start == if s.len() > 0 && s[0].start < r.start {
            s[0].start
        } else {
            r.start
        },
    decreases s.len(),
{
    if s.len() == 0 {
    } else {
        let t = s.drop_first();
        lemma_covers_first(s);
        if s[0].end < r.start {
            lemma_insert_well_formed(t, r);
            let u = insert_spec(t, r);
            let v = seq![s[0]] + u;
            assert(s[0].end < u[0].start) by {
                if t.len() > 0 {
                    assert(t[0] == s[1]);
                }
            }
            assert forall|i: int, j: int| 0 <= i < j < v.len() implies (#[trigger] v[i]).end < (
            #[trigger] v[j]).start by {
                if i == 0 {
                    assert(v[j] == u[j - 1]);
                    if j > 1 {
                        assert(u[0].end < u[j - 1].start);
                        assert(non_empty(u[0]));
                    }
                } else {
                    assert(v[i] == u[i - 1] && v[j] == u[j - 1]);
                }
            }
            assert forall|i: int| 0 <= i < v.len() implies non_empty(#[trigger] v[i]) by {
                if i > 0 {
                    assert(v[i] == u[i - 1]);
                }
            }
        } else if r.end < s[0].start {
            let v = seq![r] + s;
            assert forall|i: int, j: int| 0 <= i < j < v.len() implies (#[trigger] v[i]).end < (
            #[trigger] v[j]).start by {
                assert(v[j] == s[j - 1]);
                if i == 0 {
                    if j > 1 {
                        assert(s[0].end < s[j - 1].start);
                        assert(non_empty(s[0]));
                    }
                } else {
                    assert(v[i] == s[i - 1]);
                }
            }
            assert forall|i: int| 0 <= i < v.len() implies non_empty(#[trigger] v[i]) by {
                if i > 0 {
                    assert(v[i] == s[i - 1]);
                }
            }
        } else {
            assert(non_empty(s[0]));
            lemma_insert_well_formed(t, hull(s[0], r));
            if t.len() > 0 {
                assert(t[0] == s[1]);
                assert(s[0].end < s[1].start);
            }
        }
    }
}

/// Inserting a range a second time changes nothing.
pub proof fn lemma_insert_idempotent(s: Seq<Range>, r: Range)
    requires
        well_formed(s),
        non_empty(r),
    ensures
        insert_spec(insert_spec(s, r), r) == insert_spec(s, r),
{
    let once = insert_spec(s, r);
    lemma_insert_well_formed(s, r);
    lemma_insert_well_formed(once, r);
    lemma_insert_covers(s, r);
    lemma_insert_covers(once, r);
    lemma_canonical(insert_spec(once, r), once);
}

/// Whatever ranges are inserted, and in whatever order, the stored sequence
/// is canonical and covers exactly the offsets that some input holds.
pub proof fn lemma_insert_all(inputs: Seq<Range>)
    ensures
        well_formed(insert_all(inputs)),
        forall|x: int| covers(insert_all(inputs), x) <==> covers(inputs, x),
    decreases inputs.len(),
{
    if inputs.len() == 0 {
        assert(forall|x: int| !covers(inputs, x));
    } else {
        let front = inputs.drop_last();
        let r = inputs.last();
        lemma_insert_all(front);
        assert(inputs =~= front + seq![r]);
        if non_empty(r) {
            lemma_insert_well_formed(insert_all(front), r);
            lemma_insert_covers(insert_all(front), r);
        }
        assert forall|x: int| covers(insert_all(inputs), x) <==> covers(inputs, x) by {
            lemma_covers_concat(front, seq![r], x);
            lemma_covers_single(r, x);
        }
    }
}

/// The stored sequence does not depend on the order of insertion: two input
/// sequences that hold the same ranges the same number of times give the same
/// set.
pub proof fn lemma_insert_order_independent(a: Seq<Range>, b: Seq<Range>)
    requires
        a.to_multiset() == b.to_multiset(),
    ensures
        insert_all(a) == insert_all(b),
{
    a.to_multiset_ensures();
    b.to_multiset_ensures();
    assert forall|x: int| covers(a, x) <==> covers(b, x) by {
        if covers(a, x) {
            let i = choose|i: int| 0 <= i < a.len() && holds(#[trigger] a[i], x);
            assert(a.contains(a[i]));
            assert(a.to_multiset().count(a[i]) > 0);
            assert(b.to_multiset().count(a[i]) > 0);
            assert(b.contains(a[i]));
            let j = choose|j: int| 0 <= j < b.len() && b[j] == a[i];
            assert(holds(b[j], x));
        }
        if covers(b, x) {
            let i = choose|i: int| 0 <= i < b.len() && holds(#[trigger] b[i], x);
            assert(b.contains(b[i]));
            assert(b.to_multiset().count(b[i]) > 0);
            assert(a.to_multiset().count(b[i]) > 0);
            assert(a.contains(b[i]));
            let j = choose|j: int| 0 <= j < a.len() && a[j] == b[i];
            assert(holds(a[j], x));
        }
    }
    lemma_insert_all(a);
    lemma_insert_all(b);
    assert forall|x: int| covers(insert_all(a), x) <==> covers(insert_all(b), x) by {
        assert(covers(insert_all(a), x) <==> covers(a, x));
        assert(covers(insert_all(b), x) <==> covers(b, x));
    }
    lemma_canonical(insert_all(a), insert_all(b));
}

/// Removal takes the offsets of the removed range out of the coverage, and
/// nothing else.
pub proof fn lemma_remove_covers(s: Seq<Range>, r: Range)
    requires
        well_formed(s),
        non_empty(r),
    ensures
        forall|x: int| covers(remove_spec(s, r), x) <==> covers(s, x) && !holds(r, x),
    decreases s.len(),
{
    if s.len() == 0 {
        assert(forall|x: int| !covers(s, x));
    } else {
        let front = s.drop_last();
        lemma_remove_covers(front, r);
        assert(s =~= front + seq![s.last()]);
        lemma_difference_covers(s.last(), r);
        assert forall|x: int| covers(remove_spec(s, r), x) <==> covers(s, x) && !holds(r, x) by {
            lemma_covers_concat(front, seq![s.last()], x);
            lemma_covers_single(s.last(), x);
            lemma_covers_concat(remove_spec(front, r), difference_spec(s.last(), r), x);
        }
    }
}

/// Removal from a canonical sequence gives a canonical sequence, none of
/// whose ranges reaches beyond the last range it was cut from.
pub proof fn lemma_remove_well_formed(s: Seq<Range>, r: Range)
    requires
        well_formed(s),
        non_empty(r),
    ensures
        well_formed(remove_spec(s, r)),
        forall|i: int|
            0 <= i < remove_spec(s, r).len() ==> (#[trigger] remove_spec(s, r)[i]).end
                <= s.last().end,
    decreases s.len(),
{
    if s.len() > 0 {
        let front = s.drop_last();
        let last = s.last();
        lemma_remove_well_formed(front, r);
        lemma_difference_covers(last, r);
        let u = remove_spec(front, r);
        let d = difference_spec(last, r);
        let v = u + d;
        assert forall|i: int| 0 <= i < u.len() implies (#[trigger] u[i]).end < last.start by {
            assert(front.last() == s[s.len() - 2]);
            assert(s[s.len() - 2].end < s[s.len() - 1].start);
        }
        assert forall|i: int| 0 <= i < v.len() implies non_empty(#[trigger] v[i]) && v[i].end
            <= last.end by {
            if i >= u.len() {
                assert(v[i] == d[i - u.len()]);
            } else {
                assert(v[i] == u[i]);
            }
        }
        assert forall|i: int, j: int| 0 <= i < j < v.len() implies (#[trigger] v[i]).end < (
        #[trigger] v[j]).start by {
            if j < u.len() {
                assert(v[i] == u[i] && v[j] == u[j]);
            } else if i < u.len() {
                assert(v[i] == u[i] && v[j] == d[j - u.len()]);
            } else {
                assert(v[i] == d[0] && v[j] == d[1]);
            }
        }
    }
}

/// `low` counts the ranges of `s` that end below `r`, and `high` those that
/// start at or below the end of `r`: the ranges from `low` up to `high` are
/// the ones that overlap or touch `r`.
pub open spec fn neighbours(s: Seq<Range>, r: Range, low: int, high: int) -> bool {
    &&& 0 <= low <= high <= s.len()
    &&& forall|i: int| 0 <= i < low ==> (#[trigger] s[i]).end < r.start
    &&& forall|i: int| low <= i < s.len() ==> (#[trigger] s[i]).end >= r.start
    &&& forall|i: int| 0 <= i < high ==> (#[trigger] s[i]).start <= r.end
    &&& forall|i: int| high <= i < s.len() ==> (#[trigger] s[i]).start > r.end
}

/// The range that `r` grows into when it absorbs the ranges of `s` from `low`
/// up to `high`: only the first and the last of them can reach beyond `r`.
pub open spec fn absorbed(s: Seq<Range>, r: Range, low: int, high: int) -> Range {
    if low < high {
        hull(hull(r, s[low]), s[high - 1])
    } else {
        r
    }
}

/// Insertion replaces the neighbours of the new range by the one range that
/// absorbs them, and leaves the ranges on either side as they are.
pub proof fn lemma_insert_splice(s: Seq<Range>, r: Range, low: int, high: int)
    requires
        well_formed(s),
        non_empty(r),
        neighbours(s, r, low, high),
    ensures
        insert_spec(s, r) == s.subrange(0, low) + seq![absorbed(s, r, low, high)] + s.subrange(
            high,
            s.len() as int,
        ),
    decreases s.len(),
{
    let n = s.len() as int;
    let spliced = s.subrange(0, low) + seq![absorbed(s, r, low, high)] + s.subrange(high, n);
    if s.len() == 0 {
        assert(insert_spec(s, r) =~= spliced);
    } else {
        let t = s.drop_first();
        lemma_covers_first(s);
        assert(non_empty(s[0]));
        assert forall|i: int| 0 <= i < t.len() implies #[trigger] t[i] == s[i + 1] by {}
        if s[0].end < r.start {
            assert(low >= 1);
            assert(neighbours(t, r, low - 1, high - 1)) by {
                assert forall|i: int| 0 <= i < low - 1 implies (#[trigger] t[i]).end < r.start by {
                    assert(t[i] == s[i + 1]);
                }
                assert forall|i: int| low - 1 <= i < t.len() implies (#[trigger] t[i]).end
                    >= r.start by {
                    assert(t[i] == s[i + 1]);
                }
                assert forall|i: int| 0 <= i < high - 1 implies (#[trigger] t[i]).start
                    <= r.end by {
                    assert(t[i] == s[i + 1]);
                }
                assert forall|i: int| high - 1 <= i < t.len() implies (#[trigger] t[i]).start
                    > r.end by {
                    assert(t[i] == s[i + 1]);
                }
            }
            lemma_insert_splice(t, r, low - 1, high - 1);
            if low < high {
                assert(t[low - 1] == s[low]);
                assert(t[high - 2] == s[high - 1]);
            }
            assert(absorbed(t, r, low - 1, high - 1) == absorbed(s, r, low, high));
            assert(insert_spec(s, r) =~= spliced);
        } else if r.end < s[0].start {
            assert(high == 0);
            assert(insert_spec(s, r) =~= spliced);
        } else {
            assert(low == 0);
            assert(high >= 1);
            let h = hull(s[0], r);
            assert(neighbours(t, h, 0, high - 1)) by {
                assert forall|i: int| 0 <= i < t.len() implies (#[trigger] t[i]).end
                    >= h.start by {
                    assert(t[i] == s[i + 1]);
                    assert(s[0].end < s[i + 1].start);
                    assert(non_empty(s[i + 1]));
                }
                assert forall|i: int| 0 <= i < high - 1 implies (#[trigger] t[i]).start
                    <= h.end by {
                    assert(t[i] == s[i + 1]);
                }
                assert forall|i: int| high - 1 <= i < t.len() implies (#[trigger] t[i]).start
                    > h.end by {
                    assert(t[i] == s[i + 1]);
                    assert(s[0].end < s[i + 1].start);
                }
            }
            lemma_insert_splice(t, h, 0, high - 1);
            if high > 1 {
                assert(t[0] == s[1]);
                assert(t[high - 2] == s[high - 1]);
                assert(s[0].end < s[1].start);
                assert(s[0].end < s[high - 1].start);
                assert(non_empty(s[high - 1]) && non_empty(s[1]));
            }
            assert(absorbed(t, h, 0, high - 1) == absorbed(s, r, 0, high));
            assert(insert_spec(s, r) =~= spliced);
        }
    }
}

} // verus!

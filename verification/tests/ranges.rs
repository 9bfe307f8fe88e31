use rand::{Rng, SeedableRng};
use todomd::range::{merge_range, slice_source, Range};

#[test]
fn test_merge_ranges() {
    assert_eq!(merge_range(&(1..2), &(0..1)), Some(0..2));
    assert_eq!(merge_range(&(0..5), &(5..10)), Some(0..10));
    assert_eq!(merge_range(&(0..5), &(6..10)), None);
    assert_eq!(merge_range(&(0..5), &(5..10)), Some(0..10));
    assert_eq!(merge_range(&(0..5), &(5..10)), Some(0..10));
    assert_eq!(merge_range(&(430..888), &(602..835)), Some(430..888));
    assert_eq!(
        merge_range(
            &(usize::MAX - 1..usize::MAX),
            &(usize::MAX - 2..usize::MAX - 1)
        ),
        Some(usize::MAX - 2..usize::MAX)
    );
}

#[test]
fn random_merge_ranges() {
    let mut rng = rand_chacha::ChaCha8Rng::seed_from_u64(0);
    for _ in 0..1000 {
        let start1: usize = rng.random_range(0..1000);
        let start2: usize = rng.random_range(0..1000);
        let end1: usize = rng.random_range(0..1000);
        let end2: usize = rng.random_range(0..1000);
        let range1: Range = start1..end1;
        let range2: Range = start2..end2;
        if range1.is_empty() || range2.is_empty() {
            continue;
        }
        let merged = merge_range(&range1, &range2);
        if start1 < start2 {
            if end1 >= start2 {
                if end2 >= end1 {
                    assert_eq!(merged, Some(start1..end2));
                } else {
                    assert_eq!(merged, Some(start1..end1));
                }
            } else {
                assert_eq!(merged, None);
            }
        } else {
            if end2 >= start1 {
                if end1 >= end2 {
                    assert_eq!(merged, Some(start2..end1));
                } else {
                    assert_eq!(merged, Some(start2..end2));
                }
            } else {
                assert_eq!(merged, None);
            }
        }
    }
}

#[test]
fn range_difference() {
    assert_eq!(todomd::range::range_difference(&(1..5), &(0..1)), vec![1..5]);
    assert_eq!(todomd::range::range_difference(&(1..5), &(0..2)), vec![2..5]);
    assert_eq!(todomd::range::range_difference(&(1..5), &(2..3)), vec![1..2, 3..5]);
    assert_eq!(todomd::range::range_difference(&(1..5), &(3..5)), vec![1..3]);
    assert_eq!(todomd::range::range_difference(&(1..5), &(4..5)), vec![1..4]);
    assert_eq!(todomd::range::range_difference(&(1..5), &(5..6)), vec![1..5]);
    assert_eq!(todomd::range::range_difference(&(1..5), &(0..6)), vec![]);
    assert_eq!(todomd::range::range_difference(&(1..5), &(2..4)), vec![1..2, 4..5]);
    assert_eq!(todomd::range::range_difference(&(1..5), &(1..5)), vec![]);
    assert_eq!(todomd::range::range_difference(&(1..5), &(0..5)), vec![]);
    assert_eq!(todomd::range::range_difference(&(1..5), &(0..6)), vec![]);
    assert_eq!(todomd::range::range_difference(&(1..5), &(1..2)), vec![2..5]);
    assert_eq!(todomd::range::range_difference(&(1..5), &(4..5)), vec![1..4]);
    assert_eq!(
        todomd::range::range_difference(&(usize::MAX - 1..usize::MAX), &(0..1)),
        vec![usize::MAX - 1..usize::MAX]
    );
    assert_eq!(todomd::range::range_difference(&(1..2), &(1..2)), vec![]);
    assert_eq!(
        todomd::range::range_difference(&(0..usize::MAX), &(0..usize::MAX)),
        vec![]
    );
}

#[test]
fn merge_is_symmetric() {
    assert_eq!(merge_range(&(0..1), &(1..2)), Some(0..2));
    assert_eq!(merge_range(&(6..10), &(0..5)), None);
    assert_eq!(merge_range(&(602..835), &(430..888)), Some(430..888));
}

#[test]
fn merge_keeps_a_gap_of_one() {
    assert_eq!(merge_range(&(0..4), &(5..9)), None);
    assert_eq!(merge_range(&(5..9), &(0..4)), None);
    assert_eq!(merge_range(&(0..4), &(4..9)), Some(0..9));
    assert_eq!(merge_range(&(0..4), &(3..9)), Some(0..9));
}

#[test]
fn difference_far_apart() {
    assert_eq!(todomd::range::range_difference(&(10..20), &(0..5)), vec![10..20]);
    assert_eq!(todomd::range::range_difference(&(10..20), &(25..30)), vec![10..20]);
    assert_eq!(
        todomd::range::range_difference(&(0..usize::MAX), &(1..usize::MAX - 1)),
        vec![0..1, usize::MAX - 1..usize::MAX]
    );
}

#[test]
fn slice_source_is_half_open() {
    let source = "- [ ] milk".as_bytes();
    assert_eq!(slice_source(source, &(6..10)), Some("milk".as_bytes()));
    assert_eq!(slice_source(source, &(0..1)), Some("-".as_bytes()));
    assert_eq!(slice_source(source, &(0..10)), Some(source));
    assert_eq!(slice_source(source, &(10..10)), Some("".as_bytes()));
}

#[test]
fn slice_source_outside() {
    let source = "abc".as_bytes();
    assert_eq!(slice_source(source, &(2..4)), None);
    assert_eq!(slice_source(source, &(4..5)), None);
    assert_eq!(slice_source(source, &(2..1)), None);
    assert_eq!(slice_source(source, &(0..usize::MAX)), None);
}

use todomd::range::Range;
use todomd::rangeset::RangeSet;

fn stored(set: &RangeSet) -> Vec<Range> {
    set.iter().cloned().collect()
}

fn covered(set: &RangeSet, x: usize) -> bool {
    set.iter().any(|range| range.contains(&x))
}

#[test]
fn test_range_set() {
    assert_eq!(stored(&RangeSet::from(vec![0..1, 1..2])), vec![0..2]);
    assert_eq!(stored(&RangeSet::from(vec![1..2, 0..1])), vec![0..2]);
    assert_eq!(stored(&RangeSet::from(vec![0..1, 2..3])), vec![0..1, 2..3]);
    assert_eq!(stored(&RangeSet::from(vec![])), vec![]);
    assert_eq!(
        stored(&RangeSet::from(vec![5..10, 0..3, 8..15])),
        vec![0..3, 5..15]
    );

    assert_eq!(
        stored(&RangeSet::from(vec![
            usize::MAX - 1..usize::MAX,
            usize::MAX - 2..usize::MAX - 1
        ])),
        vec![usize::MAX - 2..usize::MAX]
    );

    assert_eq!(
        stored(&RangeSet::from(vec![1..3, 5..7, 9..11, 13..15, 6..10])),
        vec![1..3, 5..11, 13..15]
    );

    assert_eq!(
        stored(&RangeSet::from(vec![14..21, 0..5, 10..13, 20..25, 4..11])),
        vec![0..13, 14..25]
    );

    assert_eq!(
        stored(&RangeSet::from(vec![1..4, 3..6, 5..8, 7..10, 9..12])),
        vec![1..12]
    );

    assert_eq!(
        stored(&RangeSet::from(vec![
            100..200,
            300..400,
            500..600,
            150..350,
            450..550
        ])),
        vec![100..400, 450..600]
    );

    assert_eq!(
        stored(&RangeSet::from(vec![
            10..20,
            1..2,
            2..3,
            3..4,
            1..6,
            4..5,
            5..6
        ])),
        vec![1..6, 10..20]
    );
    assert_eq!(
        stored(&RangeSet::from(vec![1000..2000, 3000..4000, 0..5000])),
        vec![0..5000]
    );

    assert_eq!(
        stored(&RangeSet::from(vec![
            1..5,
            10..15,
            20..25,
            2..3,
            12..13,
            22..23
        ])),
        vec![1..5, 10..15, 20..25]
    );

    assert_eq!(
        stored(&RangeSet::from(vec![1..10, 20..30, 40..50, 5..45])),
        vec![1..50]
    );
}

#[test]
fn test_remove_rangeset() {
    let mut ranges = RangeSet::from(vec![1..5, 10..15, 20..25]);
    ranges.remove_range(&(4..22));
    assert_eq!(stored(&ranges), vec![1..4, 22..25]);
}

#[test]
fn insert_merges_overlap() {
    let mut set = RangeSet::new();
    set.insert_range(&(1..4));
    set.insert_range(&(3..6));
    assert_eq!(stored(&set), vec![1..6]);
}

#[test]
fn insert_merges_adjacent() {
    let mut set = RangeSet::new();
    set.insert_range(&(1..4));
    set.insert_range(&(4..6));
    assert_eq!(stored(&set), vec![1..6]);
}

#[test]
fn insert_keeps_gap() {
    let mut set = RangeSet::new();
    set.insert_range(&(1..3));
    set.insert_range(&(5..7));
    assert_eq!(stored(&set), vec![1..3, 5..7]);
}

#[test]
fn insert_before_all() {
    let mut set = RangeSet::from(vec![10..12, 20..22]);
    set.insert_range(&(1..3));
    assert_eq!(stored(&set), vec![1..3, 10..12, 20..22]);
}

#[test]
fn insert_after_all() {
    let mut set = RangeSet::from(vec![10..12, 20..22]);
    set.insert_range(&(30..31));
    assert_eq!(stored(&set), vec![10..12, 20..22, 30..31]);
}

#[test]
fn insert_absorbs_first_middle_and_last() {
    let mut set = RangeSet::from(vec![0..1, 3..5, 7..9, 11..13, 15..17, 20..21]);
    set.insert_range(&(4..16));
    assert_eq!(stored(&set), vec![0..1, 3..17, 20..21]);
}

#[test]
fn insert_absorbs_a_single_neighbour() {
    let mut set = RangeSet::from(vec![0..2, 10..20, 30..32]);
    set.insert_range(&(12..14));
    assert_eq!(stored(&set), vec![0..2, 10..20, 30..32]);
    set.insert_range(&(8..25));
    assert_eq!(stored(&set), vec![0..2, 8..25, 30..32]);
}

#[test]
fn insert_bridges_two_neighbours_exactly() {
    let mut set = RangeSet::from(vec![1..3, 5..7]);
    set.insert_range(&(3..5));
    assert_eq!(stored(&set), vec![1..7]);
}

#[test]
fn insert_one_short_of_touching() {
    let mut set = RangeSet::from(vec![1..3, 7..9]);
    set.insert_range(&(4..6));
    assert_eq!(stored(&set), vec![1..3, 4..6, 7..9]);
}

#[test]
fn insert_twice_is_insert_once() {
    let mut once = RangeSet::from(vec![1..3, 8..12, 20..30]);
    once.insert_range(&(2..9));
    let mut twice = RangeSet::from(vec![1..3, 8..12, 20..30]);
    twice.insert_range(&(2..9));
    twice.insert_range(&(2..9));
    assert_eq!(stored(&once), vec![1..12, 20..30]);
    assert_eq!(once, twice);
}

#[test]
fn insertion_order_does_not_matter() {
    let forward = RangeSet::from(vec![14..21, 0..5, 10..13, 20..25, 4..11]);
    let backward = RangeSet::from(vec![4..11, 20..25, 10..13, 0..5, 14..21]);
    let shuffled = RangeSet::from(vec![10..13, 4..11, 14..21, 0..5, 20..25]);
    assert_eq!(forward, backward);
    assert_eq!(forward, shuffled);
    assert_eq!(stored(&shuffled), vec![0..13, 14..25]);
}

#[test]
fn stored_ranges_cover_the_union_of_the_inputs() {
    let inputs: Vec<Range> = vec![14..21, 0..5, 30..31, 10..13, 20..25, 4..11];
    let set = RangeSet::from(inputs.clone());
    for x in 0..40 {
        let expected = inputs.iter().any(|range| range.contains(&x));
        assert_eq!(covered(&set, x), expected);
    }
    let ranges = stored(&set);
    for pair in ranges.windows(2) {
        assert!(pair[0].end < pair[1].start);
    }
    for range in &ranges {
        assert!(range.start < range.end);
    }
}

#[test]
fn from_passes_over_empty_ranges() {
    let set = RangeSet::from(vec![5..5, 1..3, 9..2, 3..4]);
    assert_eq!(stored(&set), vec![1..4]);
}

#[test]
fn insert_at_the_numeric_maximum() {
    let mut set = RangeSet::new();
    set.insert_range(&(usize::MAX - 1..usize::MAX));
    set.insert_range(&(0..1));
    set.insert_range(&(usize::MAX - 3..usize::MAX - 1));
    assert_eq!(stored(&set), vec![0..1, usize::MAX - 3..usize::MAX]);
    set.insert_range(&(0..usize::MAX));
    assert_eq!(stored(&set), vec![0..usize::MAX]);
}

#[test]
fn remove_at_the_numeric_maximum() {
    let mut set = RangeSet::from(vec![0..usize::MAX]);
    set.remove_range(&(usize::MAX - 2..usize::MAX));
    assert_eq!(stored(&set), vec![0..usize::MAX - 2]);
    set.remove_range(&(0..usize::MAX));
    assert_eq!(stored(&set), vec![]);
    assert!(set.is_empty());
}

#[test]
fn remove_takes_exactly_the_offsets_of_the_range() {
    let before = RangeSet::from(vec![1..5, 10..15, 20..25]);
    let mut after = RangeSet::from(vec![1..5, 10..15, 20..25]);
    let removed: Range = 4..22;
    after.remove_range(&removed);
    for x in 0..30 {
        assert_eq!(
            covered(&after, x),
            covered(&before, x) && !removed.contains(&x)
        );
    }
}

#[test]
fn remove_splits_a_range() {
    let mut set = RangeSet::from(vec![0..10]);
    set.remove_range(&(3..4));
    assert_eq!(stored(&set), vec![0..3, 4..10]);
}

#[test]
fn remove_misses_everything() {
    let mut set = RangeSet::from(vec![2..4, 8..10]);
    set.remove_range(&(4..8));
    assert_eq!(stored(&set), vec![2..4, 8..10]);
    set.remove_range(&(0..2));
    assert_eq!(stored(&set), vec![2..4, 8..10]);
    set.remove_range(&(10..100));
    assert_eq!(stored(&set), vec![2..4, 8..10]);
}

#[test]
fn remove_from_an_empty_set() {
    let mut set = RangeSet::new();
    set.remove_range(&(0..10));
    assert_eq!(stored(&set), vec![]);
}

#[test]
fn len_is_empty_and_clear() {
    let mut set = RangeSet::default();
    assert_eq!(set.len(), 0);
    assert!(set.is_empty());
    set.insert_range(&(1..2));
    set.insert_range(&(5..6));
    assert_eq!(set.len(), 2);
    assert!(!set.is_empty());
    set.insert_range(&(2..5));
    assert_eq!(set.len(), 1);
    set.clear();
    assert_eq!(set.len(), 0);
    assert!(set.is_empty());
    assert_eq!(stored(&set), vec![]);
}

#[test]
fn iter_is_ascending_and_restartable() {
    let set = RangeSet::from(vec![20..25, 1..5, 10..15]);
    let first: Vec<Range> = set.iter().cloned().collect();
    let second: Vec<Range> = set.iter().cloned().collect();
    assert_eq!(first, vec![1..5, 10..15, 20..25]);
    assert_eq!(first, second);
    assert_eq!(set.iter().count(), set.len());
}

#[test]
fn a_set_can_be_walked_by_reference_and_by_value() {
    let set = RangeSet::from(vec![7..9, 1..3]);
    let mut seen: Vec<Range> = Vec::new();
    for range in &set {
        seen.push(range.clone());
    }
    assert_eq!(seen, vec![1..3, 7..9]);
    let owned: Vec<Range> = set.into_iter().collect();
    assert_eq!(owned, vec![1..3, 7..9]);
}

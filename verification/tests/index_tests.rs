use h5stream::index::TimestampIndex;

#[test]
fn build_groups_ties_in_record_order() {
    // Records 1 and 3 share timestamp 5: both stay, in record order.
    let ts = vec![2u64, 5, 9, 5];
    let idx = TimestampIndex::build(&ts, 1);
    assert_eq!(idx.len(), 3);
    assert_eq!(idx.key_at(0), 2);
    assert_eq!(idx.key_at(1), 5);
    assert_eq!(idx.key_at(2), 9);
    assert_eq!(idx.recs_at(0), vec![0u64]);
    assert_eq!(idx.recs_at(1), vec![1u64, 3]);
    assert_eq!(idx.recs_at(2), vec![2u64]);
}

#[test]
fn build_applies_the_scale() {
    let ts = vec![3u64, 1];
    let idx = TimestampIndex::build(&ts, 1_000_000);
    assert_eq!(idx.key_at(0), 1_000_000);
    assert_eq!(idx.key_at(1), 3_000_000);
    assert_eq!(idx.recs_at(0), vec![1u64]);
    assert_eq!(idx.recs_at(1), vec![0u64]);
}

#[test]
fn build_sorts_unsorted_input() {
    let ts = vec![9u64, 2, 5];
    let idx = TimestampIndex::build(&ts, 1);
    assert_eq!(idx.key_at(0), 2);
    assert_eq!(idx.key_at(1), 5);
    assert_eq!(idx.key_at(2), 9);
}

#[test]
fn empty_index() {
    let idx = TimestampIndex::new();
    assert_eq!(idx.len(), 0);
    assert_eq!(idx.first_key(), None);
    assert_eq!(idx.last_key(), None);
    assert_eq!(idx.next_key_at_or_after(0), None);
    assert_eq!(idx.position_at_or_before(u64::MAX), None);
}

#[test]
fn find_and_bounds() {
    let idx = TimestampIndex::build(&vec![2u64, 5, 9], 1);
    assert!(idx.find(5).is_some());
    assert!(idx.find(4).is_none());
    assert_eq!(idx.lower_bound(3), 1);
    assert_eq!(idx.lower_bound(5), 1);
    assert_eq!(idx.lower_bound(10), 3);
    assert_eq!(idx.first_key(), Some(2));
    assert_eq!(idx.last_key(), Some(9));
}

#[test]
fn next_key_at_or_after_queries() {
    let idx = TimestampIndex::build(&vec![2u64, 5, 9], 1);
    assert_eq!(idx.next_key_at_or_after(0), Some(2));
    assert_eq!(idx.next_key_at_or_after(2), Some(2));
    assert_eq!(idx.next_key_at_or_after(3), Some(5));
    assert_eq!(idx.next_key_at_or_after(9), Some(9));
    assert_eq!(idx.next_key_at_or_after(10), None);
}

#[test]
fn position_at_or_before_queries() {
    let idx = TimestampIndex::build(&vec![2u64, 5, 9], 1);
    assert_eq!(idx.position_at_or_before(1), None);
    assert_eq!(idx.position_at_or_before(2), Some(0));
    assert_eq!(idx.position_at_or_before(3), Some(0));
    assert_eq!(idx.position_at_or_before(7), Some(1));
    assert_eq!(idx.position_at_or_before(9), Some(2));
    assert_eq!(idx.position_at_or_before(u64::MAX), Some(2));
}

#[test]
fn duplicate_preserves_contents() {
    let idx = TimestampIndex::build(&vec![7u64, 7, 1], 10);
    let copy = idx.duplicate();
    assert_eq!(copy.len(), idx.len());
    for i in 0..idx.len() {
        assert_eq!(copy.key_at(i), idx.key_at(i));
        assert_eq!(copy.recs_at(i), idx.recs_at(i));
    }
}

use h5stream::catalog::DecodeKind;
use h5stream::index::TimestampIndex;
use h5stream::loader::Topic;
use h5stream::loader::TIMESTAMP_SCALE;
use h5stream::loader::create_iter;
use h5stream::loader::get_backfill;
use h5stream::loader::time_range;
use h5stream::merge::MergeIterator;
use h5stream::merge::MessageRef;

fn topic(name: &str, raw_timestamps: Vec<u64>) -> Topic {
    let count = raw_timestamps.len() as u64;
    Topic {
        name: name.to_string(),
        decode: DecodeKind::IntegerRaw,
        dataset: 0,
        as_image: false,
        message_count: count,
        index: TimestampIndex::build(&raw_timestamps, 1),
    }
}

fn drain(mut it: MergeIterator) -> Vec<MessageRef> {
    let mut out = Vec::new();
    while let Some(m) = it.next() {
        out.push(m);
    }
    // Once exhausted, the iterator stays exhausted.
    assert!(it.next().is_none());
    out
}

fn mref(channel_id: u16, timestamp: u64, record_index: u64) -> MessageRef {
    MessageRef { channel_id, timestamp, record_index }
}

#[test]
fn merges_channels_in_time_then_channel_then_record_order() {
    // Channel 0 has records at 1, 3, 3, 5; channel 1 at 2, 3.  The tie at
    // instant 3 plays channel 0's two records first, in record order.
    let topics = vec![topic("/a", vec![1, 3, 3, 5]), topic("/b", vec![2, 3])];
    let it = create_iter(&topics, &vec![0, 1], None, None);
    let out = drain(it);
    assert_eq!(
        out,
        vec![
            mref(0, 1, 0),
            mref(1, 2, 0),
            mref(0, 3, 1),
            mref(0, 3, 2),
            mref(1, 3, 1),
            mref(0, 5, 3),
        ]
    );
}

#[test]
fn co_timestamped_records_all_play_every_run() {
    // Three records share instant 4: exactly three messages at 4, in
    // decode order, on every run.
    let topics = vec![topic("/a", vec![4, 4, 4, 9])];
    for _ in 0..3 {
        let it = create_iter(&topics, &vec![0], None, None);
        let out = drain(it);
        assert_eq!(
            out,
            vec![mref(0, 4, 0), mref(0, 4, 1), mref(0, 4, 2), mref(0, 9, 3)]
        );
    }
}

#[test]
fn range_bounds_are_inclusive_start_exclusive_end() {
    let topics = vec![topic("/a", vec![1, 2, 3, 4, 5])];
    let it = create_iter(&topics, &vec![0], Some(2), Some(4));
    let out = drain(it);
    assert_eq!(out, vec![mref(0, 2, 1), mref(0, 3, 2)]);
}

#[test]
fn channel_subset_restricts_output() {
    let topics = vec![topic("/a", vec![1]), topic("/b", vec![2]), topic("/c", vec![3])];
    let it = create_iter(&topics, &vec![2, 0], None, None);
    let out = drain(it);
    assert_eq!(out, vec![mref(0, 1, 0), mref(2, 3, 0)]);
}

#[test]
fn range_split_is_invisible() {
    // Playing [0, 5000) and then [5000, 20000) yields exactly the
    // messages of playing [0, 20000) in one call, even across scan
    // windows (keys lie more than one window apart).
    let topics = vec![
        topic("/a", vec![0, 1500, 4999, 5000, 12000]),
        topic("/b", vec![700, 5000, 19999]),
    ];
    let whole = drain(create_iter(&topics, &vec![0, 1], Some(0), Some(20000)));
    let mut stitched = drain(create_iter(&topics, &vec![0, 1], Some(0), Some(5000)));
    stitched.extend(drain(create_iter(&topics, &vec![0, 1], Some(5000), Some(20000))));
    assert_eq!(whole, stitched);
}

#[test]
fn replay_is_deterministic() {
    let topics = vec![topic("/a", vec![3, 1, 4, 1, 5]), topic("/b", vec![9, 2, 6])];
    let first = drain(create_iter(&topics, &vec![0, 1], Some(1), Some(7)));
    let second = drain(create_iter(&topics, &vec![0, 1], Some(1), Some(7)));
    assert_eq!(first, second);
}

#[test]
fn empty_selection_is_empty() {
    let topics = vec![topic("/a", vec![1, 2])];
    let out = drain(create_iter(&topics, &vec![], None, None));
    assert_eq!(out, Vec::new());
}

#[test]
fn empty_range_is_empty() {
    let topics = vec![topic("/a", vec![1, 2])];
    let out = drain(create_iter(&topics, &vec![0], Some(7), Some(7)));
    assert_eq!(out, Vec::new());
}

#[test]
fn abort_ends_the_iteration() {
    let topics = vec![topic("/a", vec![1, 2, 3])];
    let mut it = create_iter(&topics, &vec![0], None, None);
    assert_eq!(it.next(), Some(mref(0, 1, 0)));
    it.abort();
    assert_eq!(it.next(), None);
    assert_eq!(it.next(), None);
}

#[test]
fn backfill_picks_most_recent_at_or_before() {
    // Index keys {2, 5, 9}: backfill at 7 returns the records at 5, at 3
    // those at 2, and at 1 nothing.
    let topics = vec![topic("/a", vec![2, 5, 9])];
    assert_eq!(get_backfill(&topics, &vec![0], 7), vec![mref(0, 5, 1)]);
    assert_eq!(get_backfill(&topics, &vec![0], 3), vec![mref(0, 2, 0)]);
    assert_eq!(get_backfill(&topics, &vec![0], 1), Vec::new());
}

#[test]
fn backfill_boundary_is_inclusive() {
    let topics = vec![topic("/a", vec![2, 5, 9])];
    assert_eq!(get_backfill(&topics, &vec![0], 5), vec![mref(0, 5, 1)]);
}

#[test]
fn backfill_returns_every_co_timestamped_record() {
    let topics = vec![topic("/a", vec![2, 5, 5, 9])];
    assert_eq!(
        get_backfill(&topics, &vec![0], 6),
        vec![mref(0, 5, 1), mref(0, 5, 2)]
    );
}

#[test]
fn backfill_is_independent_of_cursors() {
    let topics = vec![topic("/a", vec![2, 5, 9])];
    let mut it = create_iter(&topics, &vec![0], None, None);
    assert_eq!(it.next(), Some(mref(0, 2, 0)));
    assert_eq!(get_backfill(&topics, &vec![0], 9), vec![mref(0, 9, 2)]);
    // The open cursor is unaffected by the backfill query.
    assert_eq!(it.next(), Some(mref(0, 5, 1)));
}

#[test]
fn backfill_covers_multiple_channels_in_request_order() {
    let topics = vec![topic("/a", vec![2, 8]), topic("/b", vec![4])];
    assert_eq!(
        get_backfill(&topics, &vec![1, 0], 6),
        vec![mref(1, 4, 0), mref(0, 2, 0)]
    );
}

#[test]
fn time_range_spans_all_channels() {
    let topics = vec![topic("/a", vec![5, 30]), topic("/b", vec![2, 12]), topic("/c", vec![])];
    assert_eq!(time_range(&topics), Some((2, 30)));
    let empty: Vec<Topic> = Vec::new();
    assert_eq!(time_range(&empty), None);
    let only_empty = vec![topic("/a", vec![])];
    assert_eq!(time_range(&only_empty), None);
}

#[test]
fn topic_build_scales_and_counts() {
    let t = Topic::build(
        "/a".to_string(),
        DecodeKind::IntegerRaw,
        0,
        false,
        &vec![3, 1, 3],
    );
    assert_eq!(t.message_count, 3);
    assert_eq!(t.index.len(), 2);
    assert_eq!(t.index.key_at(0), 1 * TIMESTAMP_SCALE);
    assert_eq!(t.index.key_at(1), 3 * TIMESTAMP_SCALE);
    assert_eq!(t.index.recs_at(1), vec![0u64, 2]);
}

#[test]
fn messages_at_returns_the_instants_records() {
    let t = topic("/a", vec![2, 5, 5, 9]);
    let at5 = t.messages_at(3, 5).unwrap();
    assert_eq!(at5, vec![mref(3, 5, 1), mref(3, 5, 2)]);
    assert!(t.messages_at(3, 4).is_none());
}

#[test]
fn keys_far_beyond_the_first_window_are_found() {
    // The first scan window is empty; the cursor jumps to the first key.
    let topics = vec![topic("/a", vec![5000, 5001])];
    let out = drain(create_iter(&topics, &vec![0], None, None));
    assert_eq!(out, vec![mref(0, 5000, 0), mref(0, 5001, 1)]);
}

#[test]
fn keys_on_window_boundaries() {
    let topics = vec![topic("/a", vec![0, 1023, 1024, 2047, 2048])];
    let out = drain(create_iter(&topics, &vec![0], None, None));
    assert_eq!(
        out,
        vec![
            mref(0, 0, 0),
            mref(0, 1023, 1),
            mref(0, 1024, 2),
            mref(0, 2047, 3),
            mref(0, 2048, 4),
        ]
    );
}

#[test]
fn greatest_possible_instant_plays() {
    let topics = vec![topic("/a", vec![u64::MAX, 7])];
    let out = drain(create_iter(&topics, &vec![0], None, None));
    assert_eq!(out, vec![mref(0, 7, 1), mref(0, u64::MAX, 0)]);
}

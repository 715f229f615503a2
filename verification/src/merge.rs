//! Chronological merge of the per-channel timestamp indexes.
//!
//! Given a channel subset and a time range, the merge iterator emits one
//! message reference per record, in globally non-decreasing timestamp
//! order; records sharing a timestamp come out in channel order, then in
//! record order.  Internally the iterator scans bounded time windows to
//! cap memory, but the emitted sequence is exactly [`stream`], which knows
//! nothing of windows.

use vstd::prelude::*;

use crate::index::IndexView;
use crate::index::TimestampIndex;
use crate::index::has_key;
use crate::index::index_next_key;
use crate::index::index_wf;
use crate::index::lemma_has_key_iff_lookup;
use crate::index::lemma_next_key_from_pos;
use crate::index::lemma_next_key_props;
use crate::index::spec_lookup;

verus! {

/// A reference to one record of one channel at one instant: everything
/// the host needs to materialize the message.  The payload itself is
/// decoded by the array-file engine, outside this crate.
#[derive(Debug, Clone, Copy, PartialEq, Eq, Structural)]
pub struct MessageRef {
    /// The host-assigned channel id.
    pub channel_id: u16,
    /// The record's timestamp; used as both log and publish time.
    pub timestamp: u64,
    /// The record's position within its dataset's leading dimension.
    pub record_index: u64,
}

/// The channels an iterator draws from: each with its host-visible id and
/// the view of its timestamp index.
pub type TopicsView = Seq<(u16, IndexView)>;

/// The view of a selected topic list.
pub open spec fn topics_view(ts: Seq<(u16, TimestampIndex)>) -> TopicsView {
    ts.map(|i: int, p: (u16, TimestampIndex)| (p.0, p.1@))
}

/// Every selected topic has a well-formed index.
pub open spec fn topics_wf(tv: TopicsView) -> bool {
    forall|j: int| 0 <= j < tv.len() ==> index_wf((#[trigger] tv[j]).1)
}

/// Whether any selected topic has key `k`.
pub open spec fn topic_has_key(tv: TopicsView, k: u64) -> bool {
    exists|j: int| 0 <= j < tv.len() && has_key((#[trigger] tv[j]).1, k)
}

/// The messages of channel `ch` at instant `t` for records `recs`, in
/// record order.
pub open spec fn msgs_at(ch: u16, t: u64, recs: Seq<u64>) -> Seq<MessageRef> {
    Seq::new(
        recs.len(),
        |i: int| MessageRef { channel_id: ch, timestamp: t, record_index: recs[i] },
    )
}

/// The messages of the first `j` topics at instant `t`, in channel order,
/// then record order.
pub open spec fn group_upto(tv: TopicsView, j: int, t: u64) -> Seq<MessageRef>
    decreases j,
{
    if j <= 0 {
        Seq::empty()
    } else {
        group_upto(tv, j - 1, t) + msgs_at(tv[j - 1].0, t, spec_lookup(tv[j - 1].1, t))
    }
}

/// All messages at instant `t`, across all selected topics.
pub open spec fn group_at(tv: TopicsView, t: u64) -> Seq<MessageRef> {
    group_upto(tv, tv.len() as int, t)
}

/// The smaller of two optional keys, treating absence as infinite.
pub open spec fn opt_min(a: Option<u64>, b: Option<u64>) -> Option<u64> {
    match (a, b) {
        (None, x) => x,
        (x, None) => x,
        (Some(x), Some(y)) => if x <= y {
            Some(x)
        } else {
            Some(y)
        },
    }
}

/// The least key at or after `t` among the first `j` topics.
pub open spec fn next_key_upto(tv: TopicsView, j: int, t: u64) -> Option<u64>
    decreases j,
{
    if j <= 0 {
        None
    } else {
        opt_min(next_key_upto(tv, j - 1, t), index_next_key(tv[j - 1].1, t))
    }
}

/// The least key at or after `t` among all selected topics.
pub open spec fn next_key(tv: TopicsView, t: u64) -> Option<u64> {
    next_key_upto(tv, tv.len() as int, t)
}

/// Whether instant `k` lies below the exclusive end bound.
pub open spec fn in_range(k: u64, e: Option<u64>) -> bool {
    match e {
        Some(e) => k < e,
        None => true,
    }
}

/// The number of index entries with key at least `t`.
pub open spec fn count_geq(v: IndexView, t: u64) -> nat
    decreases v.len(),
{
    if v.len() == 0 {
        0
    } else {
        count_geq(v.drop_first(), t) + if v[0].0 >= t {
            1nat
        } else {
            0nat
        }
    }
}

/// The number of index entries with key at least `t`, over the first `j`
/// topics.
pub open spec fn total_geq(tv: TopicsView, j: int, t: u64) -> nat
    decreases j,
{
    if j <= 0 {
        0
    } else {
        total_geq(tv, j - 1, t) + count_geq(tv[j - 1].1, t)
    }
}

/// Raising the threshold cannot raise the count.
proof fn lemma_count_geq_mono(v: IndexView, t1: u64, t2: u64)
    requires
        t1 <= t2,
    ensures
        count_geq(v, t2) <= count_geq(v, t1),
    decreases v.len(),
{
    if v.len() > 0 {
        lemma_count_geq_mono(v.drop_first(), t1, t2);
    }
}

/// An index holding key `k >= t` has strictly more entries at or after
/// `t` than at or after `k + 1`.
proof fn lemma_count_geq_strict(v: IndexView, t: u64, k: u64)
    requires
        has_key(v, k),
        t <= k,
        k < u64::MAX,
    ensures
        count_geq(v, (k + 1) as u64) < count_geq(v, t),
    decreases v.len(),
{
    if v[0].0 == k {
        lemma_count_geq_mono(v.drop_first(), t, (k + 1) as u64);
    } else {
        let q = choose|i: int| 0 <= i < v.len() && (#[trigger] v[i]).0 == k;
        assert(q > 0);
        assert(v.drop_first()[q - 1] == v[q]);
        assert(has_key(v.drop_first(), k));
        lemma_count_geq_strict(v.drop_first(), t, k);
    }
}

/// Raising the threshold cannot raise the total, over any topic prefix.
proof fn lemma_total_geq_mono(tv: TopicsView, j: int, t1: u64, t2: u64)
    requires
        t1 <= t2,
    ensures
        total_geq(tv, j, t2) <= total_geq(tv, j, t1),
    decreases j,
{
    if j > 0 {
        lemma_total_geq_mono(tv, j - 1, t1, t2);
        lemma_count_geq_mono(tv[j - 1].1, t1, t2);
    }
}

/// If some topic holds key `k >= t`, the total number of entries at or
/// after `t` strictly exceeds the total at or after `k + 1`.
proof fn lemma_total_geq_strict(tv: TopicsView, t: u64, k: u64)
    requires
        topic_has_key(tv, k),
        t <= k,
        k < u64::MAX,
    ensures
        total_geq(tv, tv.len() as int, (k + 1) as u64) < total_geq(tv, tv.len() as int, t),
{
    let w = choose|j: int| 0 <= j < tv.len() && has_key((#[trigger] tv[j]).1, k);
    lemma_total_geq_strict_upto(tv, tv.len() as int, t, k, w);
}

/// Strict decrease of the total over a prefix containing the witness
/// topic `w`.
proof fn lemma_total_geq_strict_upto(tv: TopicsView, j: int, t: u64, k: u64, w: int)
    requires
        0 <= w < j <= tv.len(),
        has_key(tv[w].1, k),
        t <= k,
        k < u64::MAX,
    ensures
        total_geq(tv, j, (k + 1) as u64) < total_geq(tv, j, t),
    decreases j,
{
    if w == j - 1 {
        lemma_total_geq_mono(tv, j - 1, t, (k + 1) as u64);
        lemma_count_geq_strict(tv[j - 1].1, t, k);
    } else {
        lemma_total_geq_strict_upto(tv, j - 1, t, k, w);
        lemma_count_geq_mono(tv[j - 1].1, t, (k + 1) as u64);
    }
}

/// A key returned by `next_key_upto` is at or after `t` and belongs to
/// one of the first `j` topics.
proof fn lemma_next_key_upto_exists(tv: TopicsView, j: int, t: u64)
    requires
        j <= tv.len(),
    ensures
        next_key_upto(tv, j, t) matches Some(k) ==> k >= t && exists|w: int|
            0 <= w < j && has_key((#[trigger] tv[w]).1, k),
    decreases j,
{
    if j > 0 {
        lemma_next_key_upto_exists(tv, j - 1, t);
        lemma_index_next_key_exists(tv[j - 1].1, t);
        match next_key_upto(tv, j, t) {
            Some(k) => {
                if index_next_key(tv[j - 1].1, t) == Some(k) && opt_min(
                    next_key_upto(tv, j - 1, t),
                    index_next_key(tv[j - 1].1, t),
                ) == Some(k) {
                    if next_key_upto(tv, j - 1, t) matches Some(k0) && k0 == k {
                    } else {
                        assert(has_key(tv[j - 1].1, k));
                    }
                }
            },
            None => {},
        }
    }
}

/// A key returned by `index_next_key` is at or after `t` and present in
/// the index.  Needs no sortedness.
proof fn lemma_index_next_key_exists(v: IndexView, t: u64)
    ensures
        index_next_key(v, t) matches Some(k) ==> k >= t && has_key(v, k),
    decreases v.len(),
{
    if v.len() > 0 {
        if v[0].0 >= t {
        } else {
            lemma_index_next_key_exists(v.drop_first(), t);
            match index_next_key(v.drop_first(), t) {
                Some(k) => {
                    let q = choose|i: int|
                        0 <= i < v.drop_first().len() && (#[trigger] v.drop_first()[i]).0 == k;
                    assert(v[q + 1] == v.drop_first()[q]);
                },
                None => {},
            }
        }
    }
}

/// A key returned by `next_key` is at or after `t` and belongs to some
/// selected topic.
pub proof fn lemma_next_key_exists(tv: TopicsView, t: u64)
    ensures
        next_key(tv, t) matches Some(k) ==> k >= t && topic_has_key(tv, k),
{
    lemma_next_key_upto_exists(tv, tv.len() as int, t);
}

/// All messages drawn from the selected topics between `t` (inclusive)
/// and the end bound (exclusive), in ascending instant order; within one
/// instant, in channel order, then record order.
pub open spec fn stream(tv: TopicsView, t: u64, e: Option<u64>) -> Seq<MessageRef>
    decreases total_geq(tv, tv.len() as int, t),
    via stream_decreases
{
    match next_key(tv, t) {
        None => Seq::empty(),
        Some(k) => if !in_range(k, e) {
            Seq::empty()
        } else if k == u64::MAX {
            group_at(tv, k)
        } else {
            group_at(tv, k) + stream(tv, (k + 1) as u64, e)
        },
    }
}

#[via_fn]
proof fn stream_decreases(tv: TopicsView, t: u64, e: Option<u64>) {
    lemma_next_key_exists(tv, t);
    match next_key(tv, t) {
        Some(k) => {
            if in_range(k, e) && k != u64::MAX {
                lemma_total_geq_strict(tv, t, k);
            }
        },
        None => {},
    }
}

} // verus!

use vstd::prelude::*;

verus! {

/// On a well-formed index holding key `k`, the least key at or after `k`
/// is `k` itself.
proof fn lemma_index_next_key_at_key(v: IndexView, k: u64)
    requires
        index_wf(v),
        has_key(v, k),
    ensures
        index_next_key(v, k) == Some(k),
{
    let p = choose|i: int| 0 <= i < v.len() && (#[trigger] v[i]).0 == k;
    assert forall|i: int| 0 <= i < p implies (#[trigger] v[i]).0 < k by {
        assert(v[i].0 < v[p].0);
    }
    lemma_next_key_from_pos(v, k, p);
}

/// If some selected topic holds key `k`, the least key at or after `k`
/// over the selection is `k` itself.
proof fn lemma_next_key_at_key(tv: TopicsView, k: u64)
    requires
        topics_wf(tv),
        topic_has_key(tv, k),
    ensures
        next_key(tv, k) == Some(k),
{
    let w = choose|j: int| 0 <= j < tv.len() && has_key((#[trigger] tv[j]).1, k);
    lemma_next_key_upto_at_key(tv, tv.len() as int, k, w);
}

/// Helper for `lemma_next_key_at_key`, over a topic prefix containing the
/// witness.
proof fn lemma_next_key_upto_at_key(tv: TopicsView, j: int, k: u64, w: int)
    requires
        topics_wf(tv),
        0 <= w < j <= tv.len(),
        has_key(tv[w].1, k),
    ensures
        next_key_upto(tv, j, k) == Some(k),
    decreases j,
{
    lemma_index_next_key_exists(tv[j - 1].1, k);
    if w == j - 1 {
        lemma_index_next_key_at_key(tv[j - 1].1, k);
        lemma_next_key_upto_exists(tv, j - 1, k);
    } else {
        lemma_next_key_upto_at_key(tv, j - 1, k, w);
    }
}

/// Jumping the scan cursor to the next key leaves the stream unchanged:
/// there is nothing between `t` and that key.
proof fn lemma_stream_jump(tv: TopicsView, t: u64, k: u64, e: Option<u64>)
    requires
        topics_wf(tv),
        next_key(tv, t) == Some(k),
    ensures
        stream(tv, t, e) == stream(tv, k, e),
{
    lemma_next_key_exists(tv, t);
    lemma_next_key_at_key(tv, k);
}

/// An instant held by some selected topic contributes at least one
/// message to its group.
proof fn lemma_group_nonempty(tv: TopicsView, k: u64)
    requires
        topics_wf(tv),
        topic_has_key(tv, k),
    ensures
        group_at(tv, k).len() >= 1,
{
    let w = choose|j: int| 0 <= j < tv.len() && has_key((#[trigger] tv[j]).1, k);
    lemma_group_upto_nonempty(tv, tv.len() as int, k, w);
}

/// Helper for `lemma_group_nonempty`, over a topic prefix containing the
/// witness.
proof fn lemma_group_upto_nonempty(tv: TopicsView, j: int, k: u64, w: int)
    requires
        topics_wf(tv),
        0 <= w < j <= tv.len(),
        has_key(tv[w].1, k),
    ensures
        group_upto(tv, j, k).len() >= 1,
    decreases j,
{
    if w == j - 1 {
        lemma_has_key_iff_lookup(tv[j - 1].1, k);
    } else {
        lemma_group_upto_nonempty(tv, j - 1, k, w);
    }
}

/// The least key at or after `t` over a selected topic list, found by
/// asking each topic's index.
fn topics_next_key(topics: &Vec<(u16, TimestampIndex)>, t: u64) -> (r: Option<u64>)
    requires
        topics_wf(topics_view(topics@)),
    ensures
        r == next_key(topics_view(topics@), t),
{
    let ghost tv = topics_view(topics@);
    let mut acc: Option<u64> = None;
    let mut j: usize = 0;
    while j < topics.len()
        invariant
            j <= topics@.len(),
            tv == topics_view(topics@),
            topics_wf(tv),
            acc == next_key_upto(tv, j as int, t),
        decreases topics@.len() - j,
    {
        proof {
            assert(tv[j as int].1 == topics@[j as int].1@);
            assert(index_wf(tv[j as int].1));
        }
        let own = topics[j].1.next_key_at_or_after(t);
        acc = match (acc, own) {
            (None, x) => x,
            (Some(a), None) => Some(a),
            (Some(a), Some(b)) => if a <= b {
                Some(a)
            } else {
                Some(b)
            },
        };
        j += 1;
    }
    acc
}

/// How far the scan window reaches: `1024` instants per scan, so that one
/// scan holds at most the messages of one window in memory.
pub const SCAN_WINDOW: u64 = 1024;

/// The chronological merge iterator over a channel subset and a time
/// range.  Created by the loader; pulled by the host one message
/// reference at a time.
pub struct MergeIterator {
    topics: Vec<(u16, TimestampIndex)>,
    start: u64,
    end: Option<u64>,
    window: u64,
    current: u64,
    queue: Vec<MessageRef>,
    cursor: usize,
    complete: bool,
    aborted: bool,
    emitted: Ghost<Seq<MessageRef>>,
}

impl MergeIterator {
    /// The selected channels and their index views.
    pub closed spec fn tv(self) -> TopicsView {
        topics_view(self.topics@)
    }

    /// The inclusive start of the requested range.
    pub closed spec fn start_spec(self) -> u64 {
        self.start
    }

    /// The exclusive end of the requested range, if bounded.
    pub closed spec fn end_spec(self) -> Option<u64> {
        self.end
    }

    /// Everything emitted so far, in order.
    pub closed spec fn emitted_view(self) -> Seq<MessageRef> {
        self.emitted@
    }

    /// Whether the iterator was aborted by the host after a decode
    /// failure.
    pub closed spec fn aborted_spec(self) -> bool {
        self.aborted
    }

    /// The whole message sequence this iterator is to produce.
    pub open spec fn full(self) -> Seq<MessageRef> {
        stream(self.tv(), self.start_spec(), self.end_spec())
    }

    /// Messages scanned but not yet emitted, in emission order.
    closed spec fn pending(self) -> Seq<MessageRef> {
        self.queue@.skip(self.cursor as int)
    }

    /// Messages not yet scanned.
    closed spec fn remaining(self) -> Seq<MessageRef> {
        if self.complete {
            Seq::empty()
        } else {
            stream(self.tv(), self.current, self.end)
        }
    }

    /// The iterator invariant: the selection is well-formed, and unless
    /// the host aborted it, what was emitted, what is pending and what
    /// remains to scan together are exactly the full sequence.
    pub closed spec fn wf(self) -> bool {
        &&& topics_wf(self.tv())
        &&& self.window >= 1
        &&& self.cursor <= self.queue@.len()
        &&& !self.aborted ==> self.emitted@ + self.pending() + self.remaining() == self.full()
    }

    /// Progress measure for the scan loop: complete beats standing on a
    /// key, which beats standing between keys.
    closed spec fn phase(self) -> int {
        if self.complete {
            0
        } else if topic_has_key(self.tv(), self.current) {
            1
        } else {
            2
        }
    }

    /// A fresh iterator over the given selection and range.  `topics`
    /// pairs each host-visible channel id with that channel's timestamp
    /// index; `start` defaults to zero in the loader.
    pub fn new(topics: Vec<(u16, TimestampIndex)>, start: u64, end: Option<u64>) -> (r: Self)
        requires
            topics_wf(topics_view(topics@)),
        ensures
            r.wf(),
            r.tv() == topics_view(topics@),
            r.start_spec() == start,
            r.end_spec() == end,
            r.emitted_view() == Seq::<MessageRef>::empty(),
            !r.aborted_spec(),
    {
        let r = MergeIterator {
            topics,
            start,
            end,
            window: SCAN_WINDOW,
            current: start,
            queue: Vec::new(),
            cursor: 0,
            complete: false,
            aborted: false,
            emitted: Ghost(Seq::empty()),
        };
        proof {
            assert(r.pending() =~= Seq::<MessageRef>::empty());
            assert(r.emitted@ + r.pending() + r.remaining() =~= r.full());
        }
        r
    }

    /// Terminate the iterator without emitting anything further, as the
    /// host does when materializing a record fails: a decode failure ends
    /// the whole iteration rather than skipping a record.
    pub fn abort(&mut self)
        requires
            old(self).wf(),
        ensures
            final(self).wf(),
            final(self).aborted_spec(),
            final(self).tv() == old(self).tv(),
            final(self).emitted_view() == old(self).emitted_view(),
    {
        self.aborted = true;
    }

    /// Scan forward from the current instant: collect every message in
    /// the next window into the queue, and either land the cursor on the
    /// next key past the window or learn that nothing remains.
    fn scan(&mut self)
        requires
            old(self).wf(),
            !old(self).aborted,
            !old(self).complete,
            old(self).pending().len() == 0,
        ensures
            final(self).wf(),
            final(self).topics == old(self).topics,
            final(self).start == old(self).start,
            final(self).end == old(self).end,
            final(self).window == old(self).window,
            final(self).emitted == old(self).emitted,
            !final(self).aborted,
            final(self).pending().len() > 0 || final(self).complete || (topic_has_key(
                final(self).tv(),
                final(self).current,
            ) && !topic_has_key(old(self).tv(), old(self).current)),
    {
        let ghost tv = topics_view(self.topics@);
        let cur0 = self.current;
        match self.end {
            Some(e) => {
                if cur0 >= e {
                    self.complete = true;
                    proof {
                        assert(stream(tv, cur0, Some(e)) =~= Seq::empty()) by {
                            lemma_next_key_exists(tv, cur0);
                        }
                        assert(final(self).pending() =~= old(self).pending());
                    }
                    return ;
                }
            },
            None => {},
        }
        let top: u64 = {
            let w = cur0.saturating_add(self.window - 1);
            match self.end {
                Some(e) => if e - 1 < w {
                    e - 1
                } else {
                    w
                },
                None => w,
            }
        };
        let mut q: Vec<MessageRef> = Vec::new();
        let mut t: u64 = cur0;
        let mut stop: Option<Option<u64>> = None;
        while stop.is_none()
            invariant
                *self == *old(self),
                tv == topics_view(self.topics@),
                topics_wf(tv),
                cur0 == self.current,
                cur0 <= t,
                cur0 <= top,
                (match self.end {
                    Some(e) => top as int <= e as int - 1,
                    None => true,
                }),
                t as int <= top as int + 1,
                (match stop {
                    None => stream(tv, cur0, self.end) == q@ + stream(tv, t, self.end) && (
                    q@.len() == 0 ==> t == cur0),
                    Some(None) => stream(tv, cur0, self.end) == q@,
                    Some(Some(k)) => {
                        &&& stream(tv, cur0, self.end) == q@ + stream(tv, k, self.end)
                        &&& topic_has_key(tv, k)
                        &&& (q@.len() == 0 ==> !topic_has_key(tv, cur0))
                    },
                }),
            decreases (if stop is None {
                1int
            } else {
                0int
            }), top as int + 1 - t as int,
        {
            let nk = topics_next_key(&self.topics, t);
            proof {
                lemma_next_key_exists(tv, t);
            }
            match nk {
                None => {
                    proof {
                        assert(stream(tv, t, self.end) =~= Seq::empty());
                        assert(stream(tv, cur0, self.end) =~= q@);
                    }
                    stop = Some(None);
                },
                Some(k) => {
                    if k > top {
                        proof {
                            lemma_stream_jump(tv, t, k, self.end);
                            if q@.len() == 0 {
                                if topic_has_key(tv, cur0) {
                                    lemma_next_key_at_key(tv, cur0);
                                }
                            }
                        }
                        stop = Some(Some(k));
                    } else {
                        let ghost q0 = q@;
                        let mut j: usize = 0;
                        while j < self.topics.len()
                            invariant
                                j <= self.topics@.len(),
                                tv == topics_view(self.topics@),
                                topics_wf(tv),
                                q@ == q0 + group_upto(tv, j as int, k),
                            decreases self.topics@.len() - j,
                        {
                            let entry = &self.topics[j];
                            let ghost qj = q@;
                            proof {
                                assert(tv[j as int].1 == self.topics@[j as int].1@);
                                assert(index_wf(tv[j as int].1));
                            }
                            match entry.1.find(k) {
                                Some(pos) => {
                                    let recs = entry.1.recs_at(pos);
                                    let ghost ms = msgs_at(
                                        tv[j as int].0,
                                        k,
                                        spec_lookup(tv[j as int].1, k),
                                    );
                                    let mut r: usize = 0;
                                    proof {
                                        assert(recs@ == spec_lookup(tv[j as int].1, k));
                                        assert(q@ =~= qj + ms.take(0));
                                    }
                                    while r < recs.len()
                                        invariant
                                            r <= recs@.len(),
                                            recs@ == spec_lookup(tv[j as int].1, k),
                                            ms == msgs_at(
                                                tv[j as int].0,
                                                k,
                                                spec_lookup(tv[j as int].1, k),
                                            ),
                                            0 <= j < self.topics@.len(),
                                            tv == topics_view(self.topics@),
                                            entry == &self.topics@[j as int],
                                            q@ == qj + ms.take(r as int),
                                        decreases recs@.len() - r,
                                    {
                                        let rec = recs[r];
                                        q.push(
                                            MessageRef {
                                                channel_id: entry.0,
                                                timestamp: k,
                                                record_index: rec,
                                            },
                                        );
                                        proof {
                                            assert(ms[r as int] == (MessageRef {
                                                channel_id: tv[j as int].0,
                                                timestamp: k,
                                                record_index: recs@[r as int],
                                            }));
                                            assert(q@ =~= qj + ms.take(r + 1));
                                        }
                                        r += 1;
                                    }
                                    proof {
                                        assert(ms.take(recs@.len() as int) =~= ms);
                                        assert(q@ =~= q0 + group_upto(tv, j + 1, k));
                                    }
                                },
                                None => {
                                    proof {
                                        assert(spec_lookup(tv[j as int].1, k) =~= Seq::<
                                            u64,
                                        >::empty());
                                        assert(msgs_at(
                                            tv[j as int].0,
                                            k,
                                            spec_lookup(tv[j as int].1, k),
                                        ).len() == 0);
                                        assert(q@ =~= q0 + group_upto(tv, j + 1, k));
                                    }
                                },
                            }
                            j += 1;
                        }
                        proof {
                            assert(q@ == q0 + group_at(tv, k));
                            lemma_group_nonempty(tv, k);
                            assert(q@.len() > 0);
                        }
                        if k == u64::MAX {
                            proof {
                                assert(self.end is None) by {
                                    match self.end {
                                        Some(e) => {
                                            assert(k as int <= e as int - 1);
                                        },
                                        None => {},
                                    }
                                }
                                assert(stream(tv, t, self.end) == group_at(tv, k));
                                assert(stream(tv, cur0, self.end) =~= q@);
                            }
                            stop = Some(None);
                        } else {
                            proof {
                                assert(in_range(k, self.end));
                                assert(stream(tv, t, self.end) == group_at(tv, k) + stream(
                                    tv,
                                    (k + 1) as u64,
                                    self.end,
                                ));
                                assert(q0 + (group_at(tv, k) + stream(tv, (k + 1) as u64, self.end))
                                    =~= (q0 + group_at(tv, k)) + stream(
                                    tv,
                                    (k + 1) as u64,
                                    self.end,
                                ));
                            }
                            t = k + 1;
                        }
                    }
                },
            }
        }
        let outcome: Option<u64> = match stop {
            Some(x) => x,
            None => None,
        };
        self.queue = q;
        self.cursor = 0;
        match outcome {
            None => {
                self.complete = true;
            },
            Some(k) => {
                self.current = k;
            },
        }
        proof {
            assert(final(self).pending() =~= q@);
            assert(old(self).pending() =~= Seq::<MessageRef>::empty());
            assert(old(self).emitted@ + old(self).pending() + old(self).remaining() == old(
                self,
            ).full());
            assert(old(self).remaining() == stream(tv, cur0, self.end));
            assert(final(self).emitted@ + final(self).pending() + final(self).remaining()
                =~= old(self).full());
        }
    }

    /// The next message reference in chronological order, or `None` once
    /// the range is exhausted.  Each call emits exactly the next element
    /// of the full sequence; after the last element, every call returns
    /// `None`.
    pub fn next(&mut self) -> (r: Option<MessageRef>)
        requires
            old(self).wf(),
        ensures
            final(self).wf(),
            final(self).tv() == old(self).tv(),
            final(self).start_spec() == old(self).start_spec(),
            final(self).end_spec() == old(self).end_spec(),
            final(self).aborted_spec() == old(self).aborted_spec(),
            old(self).aborted_spec() ==> r is None && final(self).emitted_view() == old(
                self,
            ).emitted_view(),
            !old(self).aborted_spec() ==> match r {
                Some(m) => {
                    &&& final(self).emitted_view() == old(self).emitted_view() + seq![m]
                    &&& old(self).emitted_view().len() < old(self).full().len()
                    &&& m == old(self).full()[old(self).emitted_view().len() as int]
                },
                None => {
                    &&& final(self).emitted_view() == old(self).emitted_view()
                    &&& old(self).emitted_view() == old(self).full()
                },
            },
    {
        if self.aborted {
            return None;
        }
        loop
            invariant_except_break
                self.wf(),
                !self.aborted,
                self.topics == old(self).topics,
                self.start == old(self).start,
                self.end == old(self).end,
                self.window == old(self).window,
                self.emitted == old(self).emitted,
            ensures
                self.wf(),
                !self.aborted,
                self.topics == old(self).topics,
                self.start == old(self).start,
                self.end == old(self).end,
                self.window == old(self).window,
                self.emitted == old(self).emitted,
                self.cursor < self.queue@.len() || self.complete,
            decreases self.phase(),
        {
            if self.cursor < self.queue.len() || self.complete {
                break ;
            }
            proof {
                assert(self.pending().len() == 0);
            }
            self.scan();
            if self.cursor < self.queue.len() {
                break ;
            }
        }
        if self.cursor < self.queue.len() {
            let ghost pre = *self;
            let m = self.queue[self.cursor];
            let ghost n = pre.emitted@.len();
            proof {
                assert(pre.pending().len() > 0);
                assert(pre.pending()[0] == m);
                assert(pre.full() == pre.emitted@ + pre.pending() + pre.remaining());
                assert(pre.full()[n as int] == m);
                assert(n < pre.full().len());
            }
            self.cursor = self.cursor + 1;
            self.emitted = Ghost(self.emitted@ + seq![m]);
            proof {
                assert(final(self).pending() =~= pre.pending().skip(1));
                assert(pre.pending() =~= seq![m] + final(self).pending());
                assert(final(self).emitted@ + final(self).pending() + final(self).remaining()
                    =~= pre.emitted@ + pre.pending() + pre.remaining());
            }
            Some(m)
        } else {
            proof {
                assert(self.complete);
                assert(self.pending().len() == 0);
                assert(self.emitted@ =~= self.full());
            }
            None
        }
    }
}

} // verus!

verus! {

/// Every message of a group at instant `t` carries timestamp `t`.
proof fn lemma_group_upto_times(tv: TopicsView, j: int, t: u64)
    ensures
        forall|i: int|
            0 <= i < group_upto(tv, j, t).len() ==> (#[trigger] group_upto(tv, j, t)[i]).timestamp
                == t,
    decreases j,
{
    if j > 0 {
        lemma_group_upto_times(tv, j - 1, t);
        let pre = group_upto(tv, j - 1, t);
        let ms = msgs_at(tv[j - 1].0, t, spec_lookup(tv[j - 1].1, t));
        assert forall|i: int|
            0 <= i < group_upto(tv, j, t).len() implies (#[trigger] group_upto(tv, j, t)[i]).timestamp
            == t by {
            if i < pre.len() {
                assert(group_upto(tv, j, t)[i] == pre[i]);
            } else {
                assert(group_upto(tv, j, t)[i] == ms[i - pre.len()]);
            }
        }
    }
}

/// The stream from `t` is bounded below by `t`, bounded above by the end
/// bound, and non-decreasing in timestamp: playback never goes backwards.
pub proof fn lemma_stream_ordered(tv: TopicsView, t: u64, e: Option<u64>)
    requires
        topics_wf(tv),
    ensures
        forall|i: int|
            0 <= i < stream(tv, t, e).len() ==> t <= (#[trigger] stream(tv, t, e)[i]).timestamp
                && in_range(stream(tv, t, e)[i].timestamp, e),
        forall|i: int, j: int|
            0 <= i <= j < stream(tv, t, e).len() ==> (#[trigger] stream(tv, t, e)[i]).timestamp <= (
            #[trigger] stream(tv, t, e)[j]).timestamp,
    decreases total_geq(tv, tv.len() as int, t),
{
    lemma_next_key_exists(tv, t);
    match next_key(tv, t) {
        None => {},
        Some(k) => {
            if !in_range(k, e) {
            } else {
                lemma_group_upto_times(tv, tv.len() as int, k);
                let g = group_at(tv, k);
                if k == u64::MAX {
                    assert forall|i: int|
                        0 <= i < stream(tv, t, e).len() implies t <= (#[trigger] stream(
                        tv,
                        t,
                        e,
                    )[i]).timestamp && in_range(stream(tv, t, e)[i].timestamp, e) by {
                        assert(stream(tv, t, e)[i] == g[i]);
                    }
                    assert forall|i: int, j: int|
                        0 <= i <= j < stream(tv, t, e).len() implies (#[trigger] stream(
                        tv,
                        t,
                        e,
                    )[i]).timestamp <= (#[trigger] stream(tv, t, e)[j]).timestamp by {
                        assert(stream(tv, t, e)[i] == g[i]);
                        assert(stream(tv, t, e)[j] == g[j]);
                    }
                } else {
                    lemma_total_geq_strict(tv, t, k);
                    lemma_stream_ordered(tv, (k + 1) as u64, e);
                    let rest = stream(tv, (k + 1) as u64, e);
                    assert forall|i: int|
                        0 <= i < stream(tv, t, e).len() implies t <= (#[trigger] stream(
                        tv,
                        t,
                        e,
                    )[i]).timestamp && in_range(stream(tv, t, e)[i].timestamp, e) by {
                        if i < g.len() {
                            assert(stream(tv, t, e)[i] == g[i]);
                        } else {
                            assert(stream(tv, t, e)[i] == rest[i - g.len()]);
                        }
                    }
                    assert forall|i: int, j: int|
                        0 <= i <= j < stream(tv, t, e).len() implies (#[trigger] stream(
                        tv,
                        t,
                        e,
                    )[i]).timestamp <= (#[trigger] stream(tv, t, e)[j]).timestamp by {
                        if i < g.len() {
                            assert(stream(tv, t, e)[i] == g[i]);
                        } else {
                            assert(stream(tv, t, e)[i] == rest[i - g.len()]);
                        }
                        if j < g.len() {
                            assert(stream(tv, t, e)[j] == g[j]);
                        } else {
                            assert(stream(tv, t, e)[j] == rest[j - g.len()]);
                        }
                    }
                }
            }
        },
    }
}

/// What an iterator has emitted is always a prefix of its full sequence.
pub proof fn lemma_emitted_is_prefix(it: MergeIterator)
    requires
        it.wf(),
        !it.aborted_spec(),
    ensures
        it.emitted_view().len() <= it.full().len(),
        it.emitted_view() == it.full().take(it.emitted_view().len() as int),
{
    assert(it.full().take(it.emitted_view().len() as int) =~= it.emitted_view());
}

/// Determinism of playback: two iterators over the same selection and
/// range that have emitted the same number of messages have emitted the
/// same messages.  Re-creating an iterator with identical parameters
/// replays an identical sequence; the bounded scan window never shows.
pub proof fn lemma_replay_deterministic(a: MergeIterator, b: MergeIterator)
    requires
        a.wf(),
        b.wf(),
        !a.aborted_spec(),
        !b.aborted_spec(),
        a.tv() == b.tv(),
        a.start_spec() == b.start_spec(),
        a.end_spec() == b.end_spec(),
        a.emitted_view().len() == b.emitted_view().len(),
    ensures
        a.emitted_view() == b.emitted_view(),
{
    lemma_emitted_is_prefix(a);
    lemma_emitted_is_prefix(b);
}

} // verus!

verus! {

/// If an index's least key at or after `s` is at or past `m >= s`, moving
/// the threshold up to `m` does not change it.
proof fn lemma_index_next_key_raise(v: IndexView, s: u64, m: u64)
    requires
        s <= m,
        match index_next_key(v, s) {
            Some(kj) => kj >= m,
            None => true,
        },
    ensures
        index_next_key(v, m) == index_next_key(v, s),
    decreases v.len(),
{
    if v.len() == 0 {
    } else if v[0].0 >= s {
    } else {
        lemma_index_next_key_raise(v.drop_first(), s, m);
    }
}

/// The least key over a topic prefix bounds every topic's own least key
/// from below; if there is none, no topic has one.
proof fn lemma_next_key_upto_lb(tv: TopicsView, j: int, t: u64)
    requires
        j <= tv.len(),
    ensures
        match next_key_upto(tv, j, t) {
            Some(k) => forall|w: int|
                0 <= w < j ==> match index_next_key((#[trigger] tv[w]).1, t) {
                    Some(kw) => kw >= k,
                    None => true,
                },
            None => forall|w: int| 0 <= w < j ==> index_next_key((#[trigger] tv[w]).1, t) is None,
        },
    decreases j,
{
    if j > 0 {
        lemma_next_key_upto_lb(tv, j - 1, t);
    }
}

/// Raising the scan threshold to `m` changes nothing when the least key
/// at or after `s` already lies at or past `m`.
proof fn lemma_next_key_raise(tv: TopicsView, s: u64, m: u64)
    requires
        s <= m,
        match next_key(tv, s) {
            Some(k) => k >= m,
            None => true,
        },
    ensures
        next_key(tv, m) == next_key(tv, s),
{
    lemma_next_key_upto_lb(tv, tv.len() as int, s);
    lemma_next_key_upto_raise(tv, tv.len() as int, s, m);
}

/// Helper for `lemma_next_key_raise`, over a topic prefix.
proof fn lemma_next_key_upto_raise(tv: TopicsView, j: int, s: u64, m: u64)
    requires
        j <= tv.len(),
        s <= m,
        forall|w: int|
            0 <= w < j ==> match index_next_key((#[trigger] tv[w]).1, s) {
                Some(kw) => kw >= m,
                None => true,
            },
    ensures
        next_key_upto(tv, j, m) == next_key_upto(tv, j, s),
    decreases j,
{
    if j > 0 {
        lemma_next_key_upto_raise(tv, j - 1, s, m);
        lemma_index_next_key_raise(tv[j - 1].1, s, m);
    }
}

/// Splitting the requested range splits the stream: playing `[s, m)` and
/// then `[m, e)` yields exactly the messages of playing `[s, e)` in one
/// go.  Iterating a range in restricted slices is indistinguishable from
/// iterating it whole.
pub proof fn lemma_stream_split(tv: TopicsView, s: u64, m: u64, e: Option<u64>)
    requires
        topics_wf(tv),
        s <= m,
        match e {
            Some(x) => m <= x,
            None => true,
        },
    ensures
        stream(tv, s, e) == stream(tv, s, Some(m)) + stream(tv, m, e),
    decreases total_geq(tv, tv.len() as int, s),
{
    lemma_next_key_exists(tv, s);
    match next_key(tv, s) {
        None => {
            lemma_next_key_raise(tv, s, m);
            assert(stream(tv, s, e) =~= stream(tv, s, Some(m)) + stream(tv, m, e));
        },
        Some(k) => {
            if k < m {
                lemma_total_geq_strict(tv, s, k);
                lemma_stream_split(tv, (k + 1) as u64, m, e);
                assert(group_at(tv, k) + (stream(tv, (k + 1) as u64, Some(m)) + stream(tv, m, e))
                    =~= (group_at(tv, k) + stream(tv, (k + 1) as u64, Some(m))) + stream(
                    tv,
                    m,
                    e,
                ));
            } else {
                lemma_next_key_raise(tv, s, m);
                assert(stream(tv, s, Some(m)) =~= Seq::<MessageRef>::empty());
                assert(stream(tv, m, e) == stream(tv, s, e));
                assert(stream(tv, s, e) =~= stream(tv, s, Some(m)) + stream(tv, m, e));
            }
        },
    }
}

/// The membership test for one channel's messages at one instant.
pub open spec fn chan_at(c: u16, t0: u64) -> spec_fn(MessageRef) -> bool {
    |m: MessageRef| m.channel_id == c && m.timestamp == t0
}

/// Filtering a concatenation filters each part.
proof fn lemma_filter_concat<A>(a: Seq<A>, b: Seq<A>, pred: spec_fn(A) -> bool)
    ensures
        (a + b).filter(pred) == a.filter(pred) + b.filter(pred),
    decreases b.len(),
{
    if b.len() == 0 {
        assert(a + b =~= a);
        lemma_filter_rejects_all(b, pred);
    } else {
        lemma_filter_concat(a, b.drop_last(), pred);
        assert(a + b =~= (a + b.drop_last()).push(b.last()));
        (a + b.drop_last()).lemma_filter_push(b.last(), pred);
        b.drop_last().lemma_filter_push(b.last(), pred);
        assert(b.drop_last().push(b.last()) =~= b);
        if pred(b.last()) {
            assert(a.filter(pred) + b.drop_last().filter(pred).push(b.last()) =~= a.filter(pred)
                + b.drop_last().filter(pred) + seq![b.last()]);
            assert(a.filter(pred) + b.filter(pred) =~= a.filter(pred) + b.drop_last().filter(pred)
                + seq![b.last()]);
        }
    }
}

/// A filter that rejects every element yields the empty sequence.
proof fn lemma_filter_rejects_all<A>(s: Seq<A>, pred: spec_fn(A) -> bool)
    requires
        forall|c: int| 0 <= c < s.len() ==> !pred(#[trigger] s[c]),
    ensures
        s.filter(pred) == Seq::<A>::empty(),
    decreases s.len(),
{
    if s.len() > 0 {
        assert(forall|c: int|
            0 <= c < s.drop_last().len() ==> !pred(#[trigger] s.drop_last()[c]));
        lemma_filter_rejects_all(s.drop_last(), pred);
        s.drop_last().lemma_filter_push(s.last(), pred);
        assert(s.drop_last().push(s.last()) =~= s);
    }
}

/// A filter that accepts every element yields the sequence itself.
proof fn lemma_filter_accepts_all<A>(s: Seq<A>, pred: spec_fn(A) -> bool)
    requires
        forall|c: int| 0 <= c < s.len() ==> pred(#[trigger] s[c]),
    ensures
        s.filter(pred) == s,
    decreases s.len(),
{
    if s.len() > 0 {
        assert(forall|c: int|
            0 <= c < s.drop_last().len() ==> pred(#[trigger] s.drop_last()[c]));
        lemma_filter_accepts_all(s.drop_last(), pred);
        s.drop_last().lemma_filter_push(s.last(), pred);
        assert(s.drop_last().push(s.last()) =~= s);
        assert(s.drop_last().filter(pred).push(s.last()) =~= s);
    }
}

/// Within the group at instant `t0`, the messages of channel `tv[j]` are
/// exactly that channel's records at `t0`, provided channel ids are
/// distinct.
proof fn lemma_group_filter_channel(tv: TopicsView, jj: int, t0: u64, j: int)
    requires
        0 <= j < tv.len(),
        jj <= tv.len(),
        forall|a: int, b: int|
            0 <= a < b < tv.len() ==> (#[trigger] tv[a]).0 != (#[trigger] tv[b]).0,
    ensures
        group_upto(tv, jj, t0).filter(chan_at(tv[j].0, t0)) == (if j < jj {
            msgs_at(tv[j].0, t0, spec_lookup(tv[j].1, t0))
        } else {
            Seq::<MessageRef>::empty()
        }),
    decreases jj,
{
    let pred = chan_at(tv[j].0, t0);
    if jj <= 0 {
        lemma_filter_rejects_all(group_upto(tv, jj, t0), pred);
    } else {
        lemma_group_filter_channel(tv, jj - 1, t0, j);
        let ms = msgs_at(tv[jj - 1].0, t0, spec_lookup(tv[jj - 1].1, t0));
        lemma_filter_concat(group_upto(tv, jj - 1, t0), ms, pred);
        if jj - 1 == j {
            lemma_filter_accepts_all(ms, pred);
            assert(group_upto(tv, jj - 1, t0).filter(pred) + ms =~= ms);
        } else {
            assert(tv[jj - 1].0 != tv[j].0);
            assert(forall|c: int| 0 <= c < ms.len() ==> !pred(#[trigger] ms[c]));
            lemma_filter_rejects_all(ms, pred);
            if j < jj - 1 {
                assert(group_upto(tv, jj, t0).filter(pred) =~= msgs_at(
                    tv[j].0,
                    t0,
                    spec_lookup(tv[j].1, t0),
                ));
            } else {
                assert(group_upto(tv, jj, t0).filter(pred) =~= Seq::<MessageRef>::empty());
            }
        }
    }
}

/// The least key over the topics at or after `s` is at most any key `t0`
/// held by a selected topic at or past `s`.
proof fn lemma_next_key_le_key(tv: TopicsView, s: u64, t0: u64, j: int)
    requires
        topics_wf(tv),
        0 <= j < tv.len(),
        has_key(tv[j].1, t0),
        s <= t0,
    ensures
        next_key(tv, s) matches Some(k) && k <= t0,
{
    lemma_next_key_props(tv[j].1, s);
    match index_next_key(tv[j].1, s) {
        Some(kj) => {
            let p = choose|i: int| 0 <= i < tv[j].1.len() && (#[trigger] tv[j].1[i]).0 == t0;
            assert(kj <= t0);
            lemma_next_key_upto_le(tv, tv.len() as int, s, j);
        },
        None => {
            let p = choose|i: int| 0 <= i < tv[j].1.len() && (#[trigger] tv[j].1[i]).0 == t0;
            assert(false);
        },
    }
}

/// If topic `w` has a least key at or after `s`, the selection-wide least
/// key exists and is no larger.
proof fn lemma_next_key_upto_le(tv: TopicsView, j: int, s: u64, w: int)
    requires
        0 <= w < j <= tv.len(),
        index_next_key(tv[w].1, s) is Some,
    ensures
        next_key_upto(tv, j, s) matches Some(k) && k <= index_next_key(tv[w].1, s)->0,
    decreases j,
{
    if w == j - 1 {
    } else {
        lemma_next_key_upto_le(tv, j - 1, s, w);
    }
}

/// Co-timestamped records all play, in decode order: if channel `tv[j]`
/// holds records `recs` at instant `t0` inside the played range, the
/// stream contains exactly one message per record of that channel at that
/// instant, in record order.
pub proof fn lemma_co_timestamped(tv: TopicsView, s: u64, e: Option<u64>, j: int, t0: u64)
    requires
        topics_wf(tv),
        0 <= j < tv.len(),
        forall|a: int, b: int|
            0 <= a < b < tv.len() ==> (#[trigger] tv[a]).0 != (#[trigger] tv[b]).0,
        has_key(tv[j].1, t0),
        s <= t0,
        in_range(t0, e),
    ensures
        stream(tv, s, e).filter(chan_at(tv[j].0, t0)) == msgs_at(
            tv[j].0,
            t0,
            spec_lookup(tv[j].1, t0),
        ),
    decreases total_geq(tv, tv.len() as int, s),
{
    let pred = chan_at(tv[j].0, t0);
    lemma_next_key_le_key(tv, s, t0, j);
    let k = next_key(tv, s)->0;
    lemma_next_key_exists(tv, s);
    assert(in_range(k, e));
    let g = group_at(tv, k);
    lemma_group_upto_times(tv, tv.len() as int, k);
    if k == t0 {
        lemma_group_filter_channel(tv, tv.len() as int, t0, j);
        if k == u64::MAX {
        } else {
            let rest = stream(tv, (k + 1) as u64, e);
            lemma_stream_ordered(tv, (k + 1) as u64, e);
            assert(forall|c: int| 0 <= c < rest.len() ==> !pred(#[trigger] rest[c]));
            lemma_filter_rejects_all(rest, pred);
            lemma_filter_concat(g, rest, pred);
            assert(g.filter(pred) + rest.filter(pred) =~= g.filter(pred));
        }
    } else {
        assert(k < t0);
        assert(forall|c: int| 0 <= c < g.len() ==> !pred(#[trigger] g[c]));
        lemma_filter_rejects_all(g, pred);
        lemma_total_geq_strict(tv, s, k);
        lemma_co_timestamped(tv, (k + 1) as u64, e, j, t0);
        let rest = stream(tv, (k + 1) as u64, e);
        lemma_filter_concat(g, rest, pred);
        assert(g.filter(pred) + rest.filter(pred) =~= rest.filter(pred));
    }
}

} // verus!

verus! {

/// What a live iterator has emitted so far is non-decreasing in
/// timestamp, and every emitted instant lies inside the requested range.
pub proof fn lemma_emitted_ordered(it: MergeIterator)
    requires
        it.wf(),
        !it.aborted_spec(),
    ensures
        forall|i: int, j: int|
            0 <= i <= j < it.emitted_view().len() ==> (#[trigger] it.emitted_view()[i]).timestamp
                <= (#[trigger] it.emitted_view()[j]).timestamp,
        forall|i: int|
            0 <= i < it.emitted_view().len() ==> it.start_spec() <= (
            #[trigger] it.emitted_view()[i]).timestamp && in_range(
                it.emitted_view()[i].timestamp,
                it.end_spec(),
            ),
{
    lemma_emitted_is_prefix(it);
    lemma_stream_ordered(it.tv(), it.start_spec(), it.end_spec());
    assert forall|i: int|
        0 <= i < it.emitted_view().len() implies it.start_spec() <= (
    #[trigger] it.emitted_view()[i]).timestamp && in_range(
        it.emitted_view()[i].timestamp,
        it.end_spec(),
    ) by {
        assert(it.emitted_view()[i] == it.full()[i]);
    }
    assert forall|i: int, j: int|
        0 <= i <= j < it.emitted_view().len() implies (#[trigger] it.emitted_view()[i]).timestamp
        <= (#[trigger] it.emitted_view()[j]).timestamp by {
        assert(it.emitted_view()[i] == it.full()[i]);
        assert(it.emitted_view()[j] == it.full()[j]);
    }
}

} // verus!

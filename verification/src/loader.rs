//! Loader-side assembly: topics, iterator creation, backfill, time range.
//!
//! The host discovers datasets through the array-file engine, plans the
//! catalog with [`crate::catalog::plan_channels`], reads each channel's
//! companion timestamp array, and assembles the topics here.  Iterator
//! creation and backfill queries then work on the immutable topics alone,
//! so cursors never disturb one another.

use vstd::prelude::*;

use crate::catalog::DecodeKind;
use crate::index::TimestampIndex;
use crate::index::has_key;
use crate::index::index_wf;
use crate::index::key_at_or_before;
use crate::index::lemma_lookup_at_key;
use crate::index::recs_of;
use crate::index::spec_lookup;
use crate::merge::MergeIterator;
use crate::merge::MessageRef;
use crate::merge::msgs_at;
use crate::merge::topics_view;
use crate::merge::topics_wf;

verus! {

/// Nanoseconds per raw timestamp unit: the companion arrays carry
/// millisecond-scale values, converted once at index build time.
pub const TIMESTAMP_SCALE: u64 = 1000000;

/// One playable channel: its topic name, decoder, source dataset, and the
/// timestamp index built once at initialization.  Its channel id is its
/// position in the loader's topic list.
pub struct Topic {
    /// The dataset's name; the host appends an image suffix when
    /// `as_image` is set.
    pub name: String,
    /// How the channel's records are decoded.
    pub decode: DecodeKind,
    /// The position of the source dataset in the discovery list.
    pub dataset: usize,
    /// Whether this channel is the image rendering of its dataset.
    pub as_image: bool,
    /// One message per record of the leading dimension.
    pub message_count: u64,
    /// The channel's timestamp index.
    pub index: TimestampIndex,
}

/// Every topic's index is well-formed.
pub open spec fn loader_topics_wf(ts: Seq<Topic>) -> bool {
    forall|i: int| 0 <= i < ts.len() ==> index_wf((#[trigger] ts[i]).index@)
}

impl Topic {
    /// Build one topic from its channel plan entry and its companion
    /// timestamp array, scaling each raw timestamp to nanoseconds.
    pub fn build(
        name: String,
        decode: DecodeKind,
        dataset: usize,
        as_image: bool,
        timestamps: &Vec<u64>,
    ) -> (r: Topic)
        requires
            forall|i: int|
                0 <= i < timestamps@.len() ==> (#[trigger] timestamps@[i]) * TIMESTAMP_SCALE
                    <= u64::MAX,
            timestamps@.len() < usize::MAX,
        ensures
            index_wf(r.index@),
            forall|k: u64| #[trigger] spec_lookup(r.index@, k) == recs_of(
                timestamps@,
                TIMESTAMP_SCALE,
                k,
            ),
            forall|k: u64| #[trigger] has_key(r.index@, k) <==> recs_of(
                timestamps@,
                TIMESTAMP_SCALE,
                k,
            ).len() > 0,
            r.message_count == timestamps@.len(),
            r.name == name,
            r.decode == decode,
            r.dataset == dataset,
            r.as_image == as_image,
    {
        let index = TimestampIndex::build(timestamps, TIMESTAMP_SCALE);
        let message_count = timestamps.len() as u64;
        Topic { name, decode, dataset, as_image, message_count, index }
    }

    /// The messages of this topic at exactly `timestamp`, in record
    /// order, or `None` if the instant is not in the index.
    pub fn messages_at(&self, channel_id: u16, timestamp: u64) -> (r: Option<Vec<MessageRef>>)
        requires
            index_wf(self.index@),
        ensures
            match r {
                Some(v) => has_key(self.index@, timestamp) && v@ == msgs_at(
                    channel_id,
                    timestamp,
                    spec_lookup(self.index@, timestamp),
                ),
                None => !has_key(self.index@, timestamp),
            },
    {
        match self.index.find(timestamp) {
            Some(p) => {
                let recs = self.index.recs_at(p);
                let mut out: Vec<MessageRef> = Vec::new();
                let ghost ms = msgs_at(channel_id, timestamp, spec_lookup(self.index@, timestamp));
                let mut r: usize = 0;
                proof {
                    assert(out@ =~= ms.take(0));
                }
                while r < recs.len()
                    invariant
                        r <= recs@.len(),
                        recs@ == spec_lookup(self.index@, timestamp),
                        ms == msgs_at(channel_id, timestamp, spec_lookup(self.index@, timestamp)),
                        out@ == ms.take(r as int),
                    decreases recs@.len() - r,
                {
                    let rec = recs[r];
                    out.push(
                        MessageRef { channel_id, timestamp, record_index: rec },
                    );
                    proof {
                        assert(out@ =~= ms.take(r + 1));
                    }
                    r += 1;
                }
                proof {
                    assert(out@ =~= ms);
                }
                Some(out)
            },
            None => None,
        }
    }
}

/// The selection an iterator plays: each requested channel id paired with
/// the view of its topic's index.
pub open spec fn selection_view(ts: Seq<Topic>, chans: Seq<u16>) -> Seq<(u16, crate::index::IndexView)> {
    Seq::new(chans.len(), |c: int| (chans[c], ts[chans[c] as int].index@))
}

/// Create a streaming cursor over the requested channels and range.  The
/// cursor owns copies of the selected indexes: it is independent of every
/// other cursor and of later backfill queries.
pub fn create_iter(
    topics: &Vec<Topic>,
    channels: &Vec<u16>,
    start_time: Option<u64>,
    end_time: Option<u64>,
) -> (r: MergeIterator)
    requires
        loader_topics_wf(topics@),
        forall|c: int| 0 <= c < channels@.len() ==> (#[trigger] channels@[c]) < topics@.len(),
    ensures
        r.wf(),
        !r.aborted_spec(),
        r.emitted_view() == Seq::<MessageRef>::empty(),
        r.tv() == selection_view(topics@, channels@),
        r.start_spec() == (match start_time {
            Some(s) => s,
            None => 0u64,
        }),
        r.end_spec() == end_time,
{
    let mut sel: Vec<(u16, TimestampIndex)> = Vec::new();
    let mut c: usize = 0;
    while c < channels.len()
        invariant
            c <= channels@.len(),
            sel@.len() == c,
            loader_topics_wf(topics@),
            forall|i: int| 0 <= i < channels@.len() ==> (#[trigger] channels@[i]) < topics@.len(),
            topics_view(sel@) =~= selection_view(topics@, channels@).take(c as int),
        decreases channels@.len() - c,
    {
        let id = channels[c];
        let dup = topics[id as usize].index.duplicate();
        let ghost sel0 = sel@;
        sel.push((id, dup));
        proof {
            let sv = selection_view(topics@, channels@);
            assert forall|i: int|
                0 <= i < sel@.len() implies #[trigger] topics_view(sel@)[i] == sv.take(c + 1)[i] by {
                if i < c {
                    assert(sel@[i] == sel0[i]);
                    assert(topics_view(sel0)[i] == sv.take(c as int)[i]);
                } else {
                    assert(sel@[i] == (id, dup));
                    assert(sv[i] == (channels@[i], topics@[channels@[i] as int].index@));
                }
            }
            assert(topics_view(sel@) =~= sv.take(c + 1));
        }
        c += 1;
    }
    proof {
        assert(selection_view(topics@, channels@).take(channels@.len() as int) =~= selection_view(
            topics@,
            channels@,
        ));
        assert(topics_wf(topics_view(sel@)));
    }
    let start = match start_time {
        Some(s) => s,
        None => 0,
    };
    MergeIterator::new(sel, start, end_time)
}

/// The backfill result for one channel: the records at the greatest
/// indexed instant at or before the target time, stamped with that
/// instant, or nothing if the channel has no data at or before it.
pub open spec fn backfill_one(ts: Seq<Topic>, c: u16, t: u64) -> Seq<MessageRef> {
    match key_at_or_before(ts[c as int].index@, t) {
        Some(k) => msgs_at(c, k, spec_lookup(ts[c as int].index@, k)),
        None => Seq::empty(),
    }
}

/// The backfill result over a channel list, in request order.
pub open spec fn backfill_model(ts: Seq<Topic>, chans: Seq<u16>, t: u64) -> Seq<MessageRef>
    decreases chans.len(),
{
    if chans.len() == 0 {
        Seq::empty()
    } else {
        backfill_model(ts, chans.drop_last(), t) + backfill_one(ts, chans.last(), t)
    }
}

/// For each requested channel, the most recent records at or before
/// `time`, stamped with their own instant.  Channels with no data at or
/// before `time` contribute nothing; the query touches no cursor state.
pub fn get_backfill(topics: &Vec<Topic>, channels: &Vec<u16>, time: u64) -> (r: Vec<MessageRef>)
    requires
        loader_topics_wf(topics@),
        forall|c: int| 0 <= c < channels@.len() ==> (#[trigger] channels@[c]) < topics@.len(),
    ensures
        r@ == backfill_model(topics@, channels@, time),
{
    let mut out: Vec<MessageRef> = Vec::new();
    let mut c: usize = 0;
    while c < channels.len()
        invariant
            c <= channels@.len(),
            loader_topics_wf(topics@),
            forall|i: int| 0 <= i < channels@.len() ==> (#[trigger] channels@[i]) < topics@.len(),
            out@ == backfill_model(topics@, channels@.take(c as int), time),
        decreases channels@.len() - c,
    {
        let id = channels[c];
        let topic = &topics[id as usize];
        let ghost pre = out@;
        match topic.index.position_at_or_before(time) {
            Some(p) => {
                let k = topic.index.key_at(p);
                let recs = topic.index.recs_at(p);
                proof {
                    lemma_lookup_at_key(topic.index@, p as int);
                }
                let ghost ms = msgs_at(id, k, spec_lookup(topic.index@, k));
                let mut r: usize = 0;
                proof {
                    assert(out@ =~= pre + ms.take(0));
                }
                while r < recs.len()
                    invariant
                        r <= recs@.len(),
                        recs@ == spec_lookup(topic.index@, k),
                        ms == msgs_at(id, k, spec_lookup(topic.index@, k)),
                        out@ == pre + ms.take(r as int),
                    decreases recs@.len() - r,
                {
                    let rec = recs[r];
                    out.push(MessageRef { channel_id: id, timestamp: k, record_index: rec });
                    proof {
                        assert(out@ =~= pre + ms.take(r + 1));
                    }
                    r += 1;
                }
                proof {
                    assert(ms.take(recs@.len() as int) =~= ms);
                    assert(backfill_one(topics@, id, time) == ms);
                }
            },
            None => {
                proof {
                    assert(backfill_one(topics@, id, time) =~= Seq::<MessageRef>::empty());
                    assert(out@ =~= pre + backfill_one(topics@, id, time));
                }
            },
        }
        proof {
            assert(channels@.take(c + 1).drop_last() =~= channels@.take(c as int));
            assert(channels@.take(c + 1).last() == channels@[c as int]);
            assert(out@ =~= backfill_model(topics@, channels@.take(c + 1), time));
        }
        c += 1;
    }
    proof {
        assert(channels@.take(channels@.len() as int) =~= channels@);
    }
    out
}

/// The bounds of one topic's index: its least and greatest key, if any.
pub open spec fn topic_bounds(t: Topic) -> Option<(u64, u64)> {
    if t.index@.len() > 0 {
        Some((t.index@[0].0, t.index@[t.index@.len() - 1].0))
    } else {
        None
    }
}

/// Two optional ranges combined: the smallest start and the largest end.
pub open spec fn merge_bounds(a: Option<(u64, u64)>, b: Option<(u64, u64)>) -> Option<(u64, u64)> {
    match (a, b) {
        (None, x) => x,
        (x, None) => x,
        (Some((lo1, hi1)), Some((lo2, hi2))) => Some(
            (
                if lo1 <= lo2 {
                    lo1
                } else {
                    lo2
                },
                if hi1 >= hi2 {
                    hi1
                } else {
                    hi2
                },
            ),
        ),
    }
}

/// The playable range over the first `n` topics.
pub open spec fn spec_time_range(ts: Seq<Topic>, n: int) -> Option<(u64, u64)>
    decreases n,
{
    if n <= 0 {
        None
    } else {
        merge_bounds(spec_time_range(ts, n - 1), topic_bounds(ts[n - 1]))
    }
}

/// The playable time range of the whole file: the least and greatest
/// indexed instant across all channels, or `None` if no channel has any
/// record.
pub fn time_range(topics: &Vec<Topic>) -> (r: Option<(u64, u64)>)
    ensures
        r == spec_time_range(topics@, topics@.len() as int),
{
    let mut acc: Option<(u64, u64)> = None;
    let mut i: usize = 0;
    while i < topics.len()
        invariant
            i <= topics@.len(),
            acc == spec_time_range(topics@, i as int),
        decreases topics@.len() - i,
    {
        let t = &topics[i];
        let own: Option<(u64, u64)> = match (t.index.first_key(), t.index.last_key()) {
            (Some(lo), Some(hi)) => Some((lo, hi)),
            _ => None,
        };
        acc = match (acc, own) {
            (None, x) => x,
            (x, None) => x,
            (Some((lo1, hi1)), Some((lo2, hi2))) => Some(
                (
                    if lo1 <= lo2 {
                        lo1
                    } else {
                        lo2
                    },
                    if hi1 >= hi2 {
                        hi1
                    } else {
                        hi2
                    },
                ),
            ),
        };
        i += 1;
    }
    acc
}

} // verus!

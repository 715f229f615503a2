//! Per-channel timestamp index.
//!
//! Each playable dataset carries a companion timestamp array with one entry
//! per record.  [`TimestampIndex::build`] reads that array once, applies the
//! unit conversion, and produces an ordered mapping from each timestamp to
//! the records that share it.  Keys are strictly increasing; ties between
//! records are preserved in record order, never deduplicated.

use vstd::prelude::*;

use crate::records::RecBuf;
use crate::records::rec_list;

verus! {

/// The mathematical shape of a timestamp index: key/record-list pairs in
/// iteration order.
pub type IndexView = Seq<(u64, Seq<u64>)>;

/// Well-formedness of an index view: keys strictly increasing, and every
/// key mapped to at least one record.
pub open spec fn index_wf(v: IndexView) -> bool {
    &&& forall|i: int, j: int| 0 <= i < j < v.len() ==> (#[trigger] v[i]).0 < (#[trigger] v[j]).0
    &&& forall|i: int| 0 <= i < v.len() ==> (#[trigger] v[i]).1.len() >= 1
}

/// Whether `k` is a key of the index.
pub open spec fn has_key(v: IndexView, k: u64) -> bool {
    exists|i: int| 0 <= i < v.len() && (#[trigger] v[i]).0 == k
}

/// The records stored under key `k`, or the empty sequence if `k` is not a
/// key.  Scans in order; with strictly increasing keys the first match is
/// the only one.
pub open spec fn spec_lookup(v: IndexView, k: u64) -> Seq<u64>
    decreases v.len(),
{
    if v.len() == 0 {
        Seq::empty()
    } else if v[0].0 == k {
        v[0].1
    } else {
        spec_lookup(v.drop_first(), k)
    }
}

/// The least key of the index that is at least `t`, if any.
pub open spec fn index_next_key(v: IndexView, t: u64) -> Option<u64>
    decreases v.len(),
{
    if v.len() == 0 {
        None
    } else if v[0].0 >= t {
        Some(v[0].0)
    } else {
        index_next_key(v.drop_first(), t)
    }
}

/// The greatest key of the index that is at most `t`, if any.
pub open spec fn key_at_or_before(v: IndexView, t: u64) -> Option<u64>
    decreases v.len(),
{
    if v.len() == 0 {
        None
    } else if v.last().0 <= t {
        Some(v.last().0)
    } else {
        key_at_or_before(v.drop_last(), t)
    }
}

/// The records of the timestamp array `ts`, scaled by `scale`, that land on
/// key `k`: every position `i` with `ts[i] * scale == k`, in ascending
/// order.
pub open spec fn recs_of(ts: Seq<u64>, scale: u64, k: u64) -> Seq<u64>
    decreases ts.len(),
{
    if ts.len() == 0 {
        Seq::empty()
    } else if ts.last() * scale == k {
        recs_of(ts.drop_last(), scale, k).push((ts.len() - 1) as u64)
    } else {
        recs_of(ts.drop_last(), scale, k)
    }
}

/// One key of the index together with its records.
struct IndexEntry {
    ts: u64,
    recs: RecBuf,
}

/// An ordered mapping from timestamp to the records sharing it, built once
/// per channel at initialization and immutable afterwards.
pub struct TimestampIndex {
    entries: Vec<IndexEntry>,
}

impl View for TimestampIndex {
    type V = IndexView;

    closed spec fn view(&self) -> IndexView {
        self.entries@.map(|i: int, e: IndexEntry| (e.ts, rec_list(e.recs)))
    }
}

/// If `v[p]` holds key `k` and keys are strictly increasing, the lookup of
/// `k` returns exactly that entry's records.
pub proof fn lemma_lookup_at_key(v: IndexView, p: int)
    requires
        index_wf(v),
        0 <= p < v.len(),
    ensures
        spec_lookup(v, v[p].0) == v[p].1,
    decreases v.len(),
{
    if p == 0 {
    } else {
        assert(v[0].0 < v[p].0);
        lemma_wf_drop_first(v);
        lemma_lookup_at_key(v.drop_first(), p - 1);
        assert(v.drop_first()[p - 1] == v[p]);
    }
}

/// If `k` is no key of `v`, the lookup of `k` is empty.
pub proof fn lemma_lookup_absent(v: IndexView, k: u64)
    requires
        forall|i: int| 0 <= i < v.len() ==> (#[trigger] v[i]).0 != k,
    ensures
        spec_lookup(v, k) == Seq::<u64>::empty(),
    decreases v.len(),
{
    if v.len() > 0 {
        assert(forall|i: int|
            0 <= i < v.drop_first().len() ==> (#[trigger] v.drop_first()[i]).0 != k);
        lemma_lookup_absent(v.drop_first(), k);
    }
}

/// A key is present exactly when its lookup is non-empty.
pub proof fn lemma_has_key_iff_lookup(v: IndexView, k: u64)
    requires
        index_wf(v),
    ensures
        has_key(v, k) <==> spec_lookup(v, k).len() > 0,
{
    if has_key(v, k) {
        let p = choose|i: int| 0 <= i < v.len() && (#[trigger] v[i]).0 == k;
        lemma_lookup_at_key(v, p);
    } else {
        assert(forall|i: int| 0 <= i < v.len() ==> (#[trigger] v[i]).0 != k);
        lemma_lookup_absent(v, k);
    }
}

/// Dropping the first entry keeps an index well-formed.
pub proof fn lemma_wf_drop_first(v: IndexView)
    requires
        index_wf(v),
        v.len() > 0,
    ensures
        index_wf(v.drop_first()),
{
    assert forall|i: int, j: int|
        0 <= i < j < v.drop_first().len() implies (#[trigger] v.drop_first()[i]).0 < (
    #[trigger] v.drop_first()[j]).0 by {
        assert(v.drop_first()[i] == v[i + 1]);
        assert(v.drop_first()[j] == v[j + 1]);
    }
    assert forall|i: int| 0 <= i < v.drop_first().len() implies (#[trigger] v.drop_first()[i]).1.len()
        >= 1 by {
        assert(v.drop_first()[i] == v[i + 1]);
    }
}

/// What `index_next_key` returns, characterized by the split position `p`:
/// every key before `p` is below `t`, and `p` is in range exactly when some
/// key is at least `t`.
pub proof fn lemma_next_key_from_pos(v: IndexView, t: u64, p: int)
    requires
        index_wf(v),
        0 <= p <= v.len(),
        forall|i: int| 0 <= i < p ==> (#[trigger] v[i]).0 < t,
        p < v.len() ==> v[p].0 >= t,
    ensures
        index_next_key(v, t) == (if p < v.len() {
            Some(v[p].0)
        } else {
            None::<u64>
        }),
    decreases v.len(),
{
    if v.len() == 0 {
    } else if v[0].0 >= t {
        assert(p == 0);
    } else {
        lemma_wf_drop_first(v);
        assert(forall|i: int|
            0 <= i < p - 1 ==> (#[trigger] v.drop_first()[i]).0 == v[i + 1].0 && v[i + 1].0 < t);
        if p - 1 < v.drop_first().len() {
            assert(v.drop_first()[p - 1] == v[p]);
        }
        lemma_next_key_from_pos(v.drop_first(), t, p - 1);
        if p < v.len() {
            assert(v.drop_first()[p - 1] == v[p]);
        }
    }
}

/// Properties of `index_next_key` on a well-formed index: the result is
/// the least key at or after `t`, and absence means no key is at or after
/// `t`.
pub proof fn lemma_next_key_props(v: IndexView, t: u64)
    requires
        index_wf(v),
    ensures
        match index_next_key(v, t) {
            Some(k) => {
                &&& k >= t
                &&& has_key(v, k)
                &&& forall|i: int| 0 <= i < v.len() && (#[trigger] v[i]).0 >= t ==> v[i].0 >= k
            },
            None => forall|i: int| 0 <= i < v.len() ==> (#[trigger] v[i]).0 < t,
        },
    decreases v.len(),
{
    if v.len() == 0 {
    } else if v[0].0 >= t {
        assert(forall|i: int| 0 < i < v.len() ==> (#[trigger] v[i]).0 > v[0].0);
    } else {
        lemma_wf_drop_first(v);
        lemma_next_key_props(v.drop_first(), t);
        match index_next_key(v.drop_first(), t) {
            Some(k) => {
                let q = choose|i: int|
                    0 <= i < v.drop_first().len() && (#[trigger] v.drop_first()[i]).0 == k;
                assert(v[q + 1] == v.drop_first()[q]);
                assert forall|i: int|
                    0 <= i < v.len() && (#[trigger] v[i]).0 >= t implies v[i].0 >= k by {
                    assert(i > 0);
                    assert(v.drop_first()[i - 1] == v[i]);
                }
            },
            None => {
                assert forall|i: int| 0 <= i < v.len() implies (#[trigger] v[i]).0 < t by {
                    if i > 0 {
                        assert(v.drop_first()[i - 1] == v[i]);
                    }
                }
            },
        }
    }
}

/// What `key_at_or_before` returns, characterized by a candidate position:
/// if `v[q]` is at most `t` and everything after `q` is above `t`, the
/// result is `v[q]`'s key.
pub proof fn lemma_key_at_or_before_from_pos(v: IndexView, t: u64, q: int)
    requires
        index_wf(v),
        0 <= q < v.len(),
        v[q].0 <= t,
        forall|i: int| q < i < v.len() ==> (#[trigger] v[i]).0 > t,
    ensures
        key_at_or_before(v, t) == Some(v[q].0),
    decreases v.len(),
{
    if q == v.len() - 1 {
    } else {
        assert(v.last().0 > t);
        assert(v.drop_last()[q] == v[q]);
        assert(forall|i: int|
            q < i < v.drop_last().len() ==> (#[trigger] v.drop_last()[i]).0 == v[i].0 && v[i].0
                > t);
        lemma_wf_drop_last(v);
        lemma_key_at_or_before_from_pos(v.drop_last(), t, q);
    }
}

/// If every key is above `t`, there is no key at or before `t`.
pub proof fn lemma_key_at_or_before_none(v: IndexView, t: u64)
    requires
        forall|i: int| 0 <= i < v.len() ==> (#[trigger] v[i]).0 > t,
    ensures
        key_at_or_before(v, t) == None::<u64>,
    decreases v.len(),
{
    if v.len() > 0 {
        assert(forall|i: int|
            0 <= i < v.drop_last().len() ==> (#[trigger] v.drop_last()[i]).0 == v[i].0 && v[i].0
                > t);
        lemma_key_at_or_before_none(v.drop_last(), t);
    }
}

/// Dropping the last entry keeps an index well-formed.
pub proof fn lemma_wf_drop_last(v: IndexView)
    requires
        index_wf(v),
        v.len() > 0,
    ensures
        index_wf(v.drop_last()),
{
    assert(forall|i: int|
        0 <= i < v.drop_last().len() ==> v.drop_last()[i] == (#[trigger] v[i]));
}

impl TimestampIndex {
    /// An index with no keys.
    pub fn new() -> (r: Self)
        ensures
            r@ == Seq::<(u64, Seq<u64>)>::empty(),
            index_wf(r@),
    {
        let r = TimestampIndex { entries: Vec::new() };
        proof {
            assert(r@ =~= Seq::<(u64, Seq<u64>)>::empty());
        }
        r
    }

    /// The number of distinct keys.
    pub fn len(&self) -> (n: usize)
        ensures
            n == self@.len(),
    {
        self.entries.len()
    }

    /// The key at position `i` in ascending key order.
    pub fn key_at(&self, i: usize) -> (k: u64)
        requires
            i < self@.len(),
        ensures
            k == self@[i as int].0,
    {
        self.entries[i].ts
    }

    /// The records at position `i`, copied out in order.
    pub fn recs_at(&self, i: usize) -> (r: Vec<u64>)
        requires
            i < self@.len(),
        ensures
            r@ == self@[i as int].1,
    {
        let e = &self.entries[i];
        let n = e.recs.len();
        let mut out: Vec<u64> = Vec::new();
        let mut j: usize = 0;
        while j < n
            invariant
                j <= n,
                n == rec_list(e.recs).len(),
                out@ == rec_list(e.recs).take(j as int),
            decreases n - j,
        {
            let x = e.recs.get(j);
            out.push(x);
            proof {
                assert(out@ =~= rec_list(e.recs).take(j + 1));
            }
            j += 1;
        }
        proof {
            assert(out@ =~= rec_list(e.recs));
        }
        out
    }

    /// The first position whose key is at least `ts`, found by binary
    /// search; `self@.len()` if every key is below `ts`.
    pub fn lower_bound(&self, ts: u64) -> (p: usize)
        requires
            index_wf(self@),
        ensures
            p <= self@.len(),
            forall|i: int| 0 <= i < p ==> (#[trigger] self@[i]).0 < ts,
            p < self@.len() ==> self@[p as int].0 >= ts,
    {
        let mut lo: usize = 0;
        let mut hi: usize = self.entries.len();
        while lo < hi
            invariant
                lo <= hi <= self@.len(),
                index_wf(self@),
                forall|i: int| 0 <= i < lo ==> (#[trigger] self@[i]).0 < ts,
                forall|i: int| hi <= i < self@.len() ==> (#[trigger] self@[i]).0 >= ts,
            decreases hi - lo,
        {
            let mid = lo + (hi - lo) / 2;
            if self.entries[mid].ts < ts {
                proof {
                    assert forall|i: int| 0 <= i < mid + 1 implies (#[trigger] self@[i]).0
                        < ts by {
                        if i < mid {
                            assert(self@[i].0 < self@[mid as int].0);
                        }
                    }
                }
                lo = mid + 1;
            } else {
                proof {
                    assert forall|i: int| mid <= i < self@.len() implies (#[trigger] self@[i]).0
                        >= ts by {
                        if i > mid {
                            assert(self@[mid as int].0 < self@[i].0);
                        }
                    }
                }
                hi = mid;
            }
        }
        lo
    }

    /// The position of key `ts`, if present.
    pub fn find(&self, ts: u64) -> (r: Option<usize>)
        requires
            index_wf(self@),
        ensures
            match r {
                Some(p) => p < self@.len() && self@[p as int].0 == ts && self@[p as int].1
                    == spec_lookup(self@, ts),
                None => !has_key(self@, ts) && spec_lookup(self@, ts) == Seq::<u64>::empty(),
            },
    {
        let p = self.lower_bound(ts);
        if p < self.entries.len() && self.entries[p].ts == ts {
            proof {
                lemma_lookup_at_key(self@, p as int);
            }
            Some(p)
        } else {
            proof {
                assert forall|i: int| 0 <= i < self@.len() implies (#[trigger] self@[i]).0
                    != ts by {
                    if i >= p && p < self@.len() {
                        if i > p {
                            assert(self@[p as int].0 < self@[i].0);
                        }
                    }
                }
                lemma_lookup_absent(self@, ts);
            }
            None
        }
    }

    /// The least key at or after `t`, if any.
    pub fn next_key_at_or_after(&self, t: u64) -> (r: Option<u64>)
        requires
            index_wf(self@),
        ensures
            r == index_next_key(self@, t),
    {
        let p = self.lower_bound(t);
        if p < self.entries.len() {
            let k = self.entries[p].ts;
            proof {
                lemma_next_key_from_pos(self@, t, p as int);
            }
            Some(k)
        } else {
            proof {
                lemma_next_key_from_pos(self@, t, p as int);
            }
            None
        }
    }

    /// The position of the greatest key at or before `t`, if any.
    pub fn position_at_or_before(&self, t: u64) -> (r: Option<usize>)
        requires
            index_wf(self@),
        ensures
            match r {
                Some(p) => p < self@.len() && key_at_or_before(self@, t) == Some(
                    self@[p as int].0,
                ) && self@[p as int].0 <= t,
                None => key_at_or_before(self@, t) == None::<u64>,
            },
    {
        let p = self.lower_bound(t);
        if p < self.entries.len() && self.entries[p].ts == t {
            proof {
                assert forall|i: int| p < i < self@.len() implies (#[trigger] self@[i]).0 > t by {
                    assert(self@[p as int].0 < self@[i].0);
                }
                lemma_key_at_or_before_from_pos(self@, t, p as int);
            }
            Some(p)
        } else if p > 0 {
            proof {
                assert forall|i: int| p - 1 < i < self@.len() implies (#[trigger] self@[i]).0
                    > t by {
                    if i > p {
                        assert(self@[p as int].0 < self@[i].0);
                    }
                }
                lemma_key_at_or_before_from_pos(self@, t, p as int - 1);
            }
            Some(p - 1)
        } else {
            proof {
                lemma_key_at_or_before_none(self@, t);
            }
            None
        }
    }

    /// The least key of the index, if any.
    pub fn first_key(&self) -> (r: Option<u64>)
        ensures
            r == (if self@.len() > 0 {
                Some(self@[0].0)
            } else {
                None::<u64>
            }),
    {
        if self.entries.len() > 0 {
            Some(self.entries[0].ts)
        } else {
            None
        }
    }

    /// The greatest key of the index, if any.
    pub fn last_key(&self) -> (r: Option<u64>)
        ensures
            r == (if self@.len() > 0 {
                Some(self@[self@.len() - 1].0)
            } else {
                None::<u64>
            }),
    {
        if self.entries.len() > 0 {
            Some(self.entries[self.entries.len() - 1].ts)
        } else {
            None
        }
    }

    /// An index with the same keys and records.
    pub fn duplicate(&self) -> (r: Self)
        ensures
            r@ == self@,
    {
        let mut entries: Vec<IndexEntry> = Vec::new();
        let mut i: usize = 0;
        while i < self.entries.len()
            invariant
                i <= self.entries@.len(),
                entries@.len() == i,
                forall|j: int|
                    0 <= j < i ==> (#[trigger] entries@[j]).ts == self.entries@[j].ts && rec_list(
                        entries@[j].recs,
                    ) == rec_list(self.entries@[j].recs),
            decreases self.entries@.len() - i,
        {
            let e = &self.entries[i];
            let copy = IndexEntry { ts: e.ts, recs: e.recs.dup() };
            entries.push(copy);
            i += 1;
        }
        let r = TimestampIndex { entries };
        proof {
            assert(r@ =~= self@);
        }
        r
    }

    /// Add `rec` under key `ts`, appending to the key's records if the key
    /// exists and creating the key otherwise.
    #[verifier::rlimit(50)]
    fn insert_record(&mut self, ts: u64, rec: u64)
        requires
            index_wf(old(self)@),
            spec_lookup(old(self)@, ts).len() < usize::MAX,
        ensures
            index_wf(final(self)@),
            spec_lookup(final(self)@, ts) == spec_lookup(old(self)@, ts).push(rec),
            forall|k: u64| k != ts ==> spec_lookup(final(self)@, k) == spec_lookup(old(self)@, k),
            forall|k: u64| has_key(final(self)@, k) <==> (has_key(old(self)@, k) || k == ts),
            final(self)@.len() <= old(self)@.len() + 1,
    {
        let p = self.lower_bound(ts);
        if p < self.entries.len() && self.entries[p].ts == ts {
            proof {
                lemma_lookup_at_key(self@, p as int);
            }
            let ghost v0 = self@;
            let mut e = self.entries.remove(p);
            e.recs.push(rec);
            self.entries.insert(p, e);
            proof {
                let v1 = self@;
                assert(v1 =~= v0.update(p as int, (ts, v0[p as int].1.push(rec))));
                Self::lemma_update_effect(v0, p as int, ts, rec);
                let w = v0.update(p as int, (ts, v0[p as int].1.push(rec)));
                assert forall|k: u64| #[trigger] has_key(v1, k) <==> (has_key(v0, k) || k
                    == ts) by {
                    assert(has_key(w, k) <==> (has_key(v0, k) || k == ts));
                }
                assert forall|k: u64|
                    k != ts implies #[trigger] spec_lookup(v1, k) == spec_lookup(v0, k) by {
                    assert(spec_lookup(w, k) == spec_lookup(v0, k));
                }
            }
        } else {
            proof {
                assert forall|i: int| 0 <= i < self@.len() implies (#[trigger] self@[i]).0
                    != ts by {
                    if i >= p {
                        if p < self@.len() && i > p {
                            assert(self@[p as int].0 < self@[i].0);
                        }
                    }
                }
                lemma_lookup_absent(self@, ts);
            }
            let ghost v0 = self@;
            let mut recs = RecBuf::new();
            recs.push(rec);
            let e = IndexEntry { ts, recs };
            self.entries.insert(p, e);
            proof {
                let v1 = self@;
                assert(v1 =~= v0.insert(p as int, (ts, seq![rec])));
                Self::lemma_insert_effect(v0, p as int, ts, rec);
                let w = v0.insert(p as int, (ts, seq![rec]));
                assert forall|k: u64| #[trigger] has_key(v1, k) <==> (has_key(v0, k) || k
                    == ts) by {
                    assert(has_key(w, k) <==> (has_key(v0, k) || k == ts));
                }
                assert forall|k: u64|
                    k != ts implies #[trigger] spec_lookup(v1, k) == spec_lookup(v0, k) by {
                    assert(spec_lookup(w, k) == spec_lookup(v0, k));
                }
            }
        }
    }

    /// Effect of updating the records of an existing key on lookups and
    /// key membership.
    proof fn lemma_update_effect(v0: IndexView, p: int, ts: u64, rec: u64)
        requires
            index_wf(v0),
            0 <= p < v0.len(),
            v0[p].0 == ts,
        ensures
            index_wf(v0.update(p, (ts, v0[p].1.push(rec)))),
            spec_lookup(v0.update(p, (ts, v0[p].1.push(rec))), ts) == spec_lookup(v0, ts).push(
                rec,
            ),
            forall|k: u64|
                k != ts ==> spec_lookup(v0.update(p, (ts, v0[p].1.push(rec))), k) == spec_lookup(
                    v0,
                    k,
                ),
            forall|k: u64|
                has_key(v0.update(p, (ts, v0[p].1.push(rec))), k) <==> (has_key(v0, k) || k == ts),
    {
        let v1 = v0.update(p, (ts, v0[p].1.push(rec)));
        assert(forall|i: int| 0 <= i < v1.len() ==> (#[trigger] v1[i]).0 == v0[i].0);
        assert(index_wf(v1));
        lemma_lookup_at_key(v0, p);
        lemma_lookup_at_key(v1, p);
        assert forall|k: u64| k != ts implies spec_lookup(v1, k) == spec_lookup(v0, k) by {
            if has_key(v0, k) {
                let q = choose|i: int| 0 <= i < v0.len() && (#[trigger] v0[i]).0 == k;
                assert(q != p);
                lemma_lookup_at_key(v0, q);
                lemma_lookup_at_key(v1, q);
                assert(v1[q] == v0[q]);
            } else {
                assert(forall|i: int| 0 <= i < v0.len() ==> (#[trigger] v0[i]).0 != k);
                assert(forall|i: int| 0 <= i < v1.len() ==> (#[trigger] v1[i]).0 != k);
                lemma_lookup_absent(v0, k);
                lemma_lookup_absent(v1, k);
            }
        }
        assert forall|k: u64| has_key(v1, k) <==> (has_key(v0, k) || k == ts) by {
            if has_key(v0, k) {
                let q = choose|i: int| 0 <= i < v0.len() && (#[trigger] v0[i]).0 == k;
                assert(v1[q].0 == k);
            }
            if has_key(v1, k) {
                let q = choose|i: int| 0 <= i < v1.len() && (#[trigger] v1[i]).0 == k;
                assert(v0[q].0 == k);
            }
            if k == ts {
                assert(v1[p].0 == k);
            }
        }
    }

    /// Effect of inserting a fresh key on lookups and key membership.
    proof fn lemma_insert_effect(v0: IndexView, p: int, ts: u64, rec: u64)
        requires
            index_wf(v0),
            0 <= p <= v0.len(),
            forall|i: int| 0 <= i < p ==> (#[trigger] v0[i]).0 < ts,
            forall|i: int| p <= i < v0.len() ==> (#[trigger] v0[i]).0 > ts,
        ensures
            index_wf(v0.insert(p, (ts, seq![rec]))),
            spec_lookup(v0.insert(p, (ts, seq![rec])), ts) == spec_lookup(v0, ts).push(rec),
            forall|k: u64|
                k != ts ==> spec_lookup(v0.insert(p, (ts, seq![rec])), k) == spec_lookup(v0, k),
            forall|k: u64|
                has_key(v0.insert(p, (ts, seq![rec])), k) <==> (has_key(v0, k) || k == ts),
    {
        let v1 = v0.insert(p, (ts, seq![rec]));
        assert(v1.len() == v0.len() + 1);
        assert(forall|i: int| 0 <= i < p ==> #[trigger] v1[i] == v0[i]);
        assert(v1[p] == (ts, seq![rec]));
        assert(forall|i: int| p < i < v1.len() ==> #[trigger] v1[i] == v0[i - 1]);
        assert forall|i: int, j: int| 0 <= i < j < v1.len() implies (#[trigger] v1[i]).0 < (
        #[trigger] v1[j]).0 by {}
        assert(index_wf(v1));
        lemma_lookup_at_key(v1, p);
        assert(forall|i: int| 0 <= i < v0.len() ==> (#[trigger] v0[i]).0 != ts);
        lemma_lookup_absent(v0, ts);
        assert(spec_lookup(v1, ts) =~= spec_lookup(v0, ts).push(rec));
        assert forall|k: u64| k != ts implies spec_lookup(v1, k) == spec_lookup(v0, k) by {
            if has_key(v0, k) {
                let q = choose|i: int| 0 <= i < v0.len() && (#[trigger] v0[i]).0 == k;
                lemma_lookup_at_key(v0, q);
                if q < p {
                    lemma_lookup_at_key(v1, q);
                } else {
                    lemma_lookup_at_key(v1, q + 1);
                }
            } else {
                assert(forall|i: int| 0 <= i < v0.len() ==> (#[trigger] v0[i]).0 != k);
                assert forall|i: int| 0 <= i < v1.len() implies (#[trigger] v1[i]).0 != k by {
                    if i < p {
                        assert(v1[i] == v0[i]);
                    } else if i > p {
                        assert(v1[i] == v0[i - 1]);
                    }
                }
                lemma_lookup_absent(v0, k);
                lemma_lookup_absent(v1, k);
            }
        }
        assert forall|k: u64| has_key(v1, k) <==> (has_key(v0, k) || k == ts) by {
            if has_key(v0, k) {
                let q = choose|i: int| 0 <= i < v0.len() && (#[trigger] v0[i]).0 == k;
                if q < p {
                    assert(v1[q].0 == k);
                } else {
                    assert(v1[q + 1].0 == k);
                }
            }
            if has_key(v1, k) && k != ts {
                let q = choose|i: int| 0 <= i < v1.len() && (#[trigger] v1[i]).0 == k;
                if q < p {
                    assert(v0[q].0 == k);
                } else {
                    assert(q != p);
                    assert(v0[q - 1].0 == k);
                }
            }
            if k == ts {
                assert(v1[p].0 == k);
            }
        }
    }

    /// Build the index for one channel: read the whole timestamp array
    /// once, scale each entry to the common time unit, and append each
    /// record under its scaled timestamp, preserving ties in record order.
    pub fn build(timestamps: &Vec<u64>, scale: u64) -> (r: Self)
        requires
            forall|i: int|
                0 <= i < timestamps@.len() ==> (#[trigger] timestamps@[i]) * scale <= u64::MAX,
            timestamps@.len() < usize::MAX,
        ensures
            index_wf(r@),
            forall|k: u64| #[trigger] spec_lookup(r@, k) == recs_of(timestamps@, scale, k),
            forall|k: u64| #[trigger] has_key(r@, k) <==> recs_of(timestamps@, scale, k).len() > 0,
    {
        let mut r = TimestampIndex::new();
        proof {
            assert forall|k: u64| #[trigger] spec_lookup(r@, k) == recs_of(
                timestamps@.take(0),
                scale,
                k,
            ) by {
                assert(timestamps@.take(0).len() == 0);
            }
        }
        let mut i: usize = 0;
        while i < timestamps.len()
            invariant
                i <= timestamps@.len(),
                timestamps@.len() < usize::MAX,
                index_wf(r@),
                r@.len() <= i,
                forall|j: int|
                    0 <= j < timestamps@.len() ==> (#[trigger] timestamps@[j]) * scale <= u64::MAX,
                forall|k: u64| #[trigger] spec_lookup(r@, k) == recs_of(
                    timestamps@.take(i as int),
                    scale,
                    k,
                ),
                forall|k: u64| #[trigger] has_key(r@, k) <==> has_key_model(
                    timestamps@.take(i as int),
                    scale,
                    k,
                ),
            decreases timestamps@.len() - i,
        {
            let t = timestamps[i];
            let key = t * scale;
            proof {
                lemma_recs_of_len(timestamps@.take(i as int), scale, key);
            }
            r.insert_record(key, i as u64);
            proof {
                let pre = timestamps@.take(i as int);
                let post = timestamps@.take(i + 1);
                assert(post.drop_last() =~= pre);
                assert(post.last() == timestamps@[i as int]);
                assert forall|k: u64| #[trigger] spec_lookup(r@, k) == recs_of(post, scale, k) by {
                    if k == key {
                        assert(recs_of(post, scale, k) == recs_of(pre, scale, k).push(
                            (post.len() - 1) as u64,
                        ));
                    } else {
                        assert(recs_of(post, scale, k) == recs_of(pre, scale, k));
                    }
                }
                assert forall|k: u64| #[trigger] has_key(r@, k) <==> has_key_model(
                    post,
                    scale,
                    k,
                ) by {
                    if k == key {
                        assert(has_key_model(post, scale, k)) by {
                            assert(post[post.len() - 1] * scale == k);
                        }
                    } else {
                        assert(has_key_model(post, scale, k) == has_key_model(pre, scale, k)) by {
                            if has_key_model(pre, scale, k) {
                                let q = choose|j: int|
                                    0 <= j < pre.len() && (#[trigger] pre[j]) * scale == k;
                                assert(post[q] * scale == k);
                            }
                            if has_key_model(post, scale, k) {
                                let q = choose|j: int|
                                    0 <= j < post.len() && (#[trigger] post[j]) * scale == k;
                                assert(q < pre.len());
                                assert(pre[q] * scale == k);
                            }
                        }
                    }
                }
            }
            i += 1;
        }
        proof {
            assert(timestamps@.take(timestamps@.len() as int) =~= timestamps@);
            assert forall|k: u64| #[trigger] has_key(r@, k) <==> recs_of(
                timestamps@,
                scale,
                k,
            ).len() > 0 by {
                lemma_recs_of_nonempty(timestamps@, scale, k);
            }
        }
        r
    }
}

/// Whether some entry of the scaled timestamp array lands on key `k`.
pub open spec fn has_key_model(ts: Seq<u64>, scale: u64, k: u64) -> bool {
    exists|i: int| 0 <= i < ts.len() && (#[trigger] ts[i]) * scale == k
}

/// `recs_of` is bounded by the array length.
pub proof fn lemma_recs_of_len(ts: Seq<u64>, scale: u64, k: u64)
    ensures
        recs_of(ts, scale, k).len() <= ts.len(),
    decreases ts.len(),
{
    if ts.len() > 0 {
        lemma_recs_of_len(ts.drop_last(), scale, k);
    }
}

/// `recs_of` is non-empty exactly when some entry lands on `k`.
pub proof fn lemma_recs_of_nonempty(ts: Seq<u64>, scale: u64, k: u64)
    ensures
        recs_of(ts, scale, k).len() > 0 <==> has_key_model(ts, scale, k),
    decreases ts.len(),
{
    if ts.len() > 0 {
        lemma_recs_of_nonempty(ts.drop_last(), scale, k);
        if ts.last() * scale == k {
        } else {
            if has_key_model(ts, scale, k) {
                let q = choose|i: int| 0 <= i < ts.len() && (#[trigger] ts[i]) * scale == k;
                assert(q < ts.len() - 1);
                assert(ts.drop_last()[q] * scale == k);
            }
            if has_key_model(ts.drop_last(), scale, k) {
                let q = choose|i: int|
                    0 <= i < ts.drop_last().len() && (#[trigger] ts.drop_last()[i]) * scale == k;
                assert(ts[q] * scale == k);
            }
        }
    }
}

} // verus!

//! The replay visitor: decides which records are still live while a log is
//! walked newest to oldest, and gathers per-segment statistics.
use vstd::prelude::*;
use crate::bytes::copy_bytes;
use crate::keymap::KeyMap;
use crate::record::{LogMethod, LogRecord, Segment, RecordView, first_of, live_of, replay_order,
    within_cutoff, newest_first_in, lemma_first_of_push};

verus! {

/// Replay statistics of one cold segment: how many records it holds and how
/// many of them carry a key that no newer record had decided.
#[derive(Clone, Copy, PartialEq, Eq, Structural, Debug)]
pub struct SegmentStat {
    pub segment: u64,
    pub entries: u64,
    pub live_keys: u64,
}

/// Adds one, saturating at the largest `u64`.
pub open spec fn inc(x: u64) -> u64 {
    if x < u64::MAX {
        (x + 1) as u64
    } else {
        x
    }
}

/// Counts one record of `seg`: on the head entry when it is `seg`'s, else on a new head.
pub open spec fn bump(stats: Seq<SegmentStat>, seg: u64, fresh: bool) -> Seq<SegmentStat> {
    if stats.len() > 0 && stats.last().segment == seg {
        let h = stats.last();
        stats.update(
            stats.len() - 1,
            SegmentStat {
                segment: seg,
                entries: inc(h.entries),
                live_keys: if fresh {
                    inc(h.live_keys)
                } else {
                    h.live_keys
                },
            },
        )
    } else {
        stats.push(SegmentStat { segment: seg, entries: 1, live_keys: if fresh { 1 } else { 0 } })
    }
}

/// Makes sure the head entry belongs to `seg`, without counting anything.
pub open spec fn open_head(stats: Seq<SegmentStat>, seg: u64) -> Seq<SegmentStat> {
    if stats.len() > 0 && stats.last().segment == seg {
        stats
    } else {
        stats.push(SegmentStat { segment: seg, entries: 0, live_keys: 0 })
    }
}

/// The replay visitor. Statistics are listed in the order segments were met,
/// which during a replay is newest segment first; the last entry is the head.
pub struct PairLoader {
    live: KeyMap<Vec<u8>>,
    tombstones: KeyMap<()>,
    seen: KeyMap<()>,
    building: bool,
    counting: bool,
    writable: Option<u64>,
    statistics: Vec<SegmentStat>,
    visited: Ghost<Seq<RecordView>>,
}

impl PairLoader {
    pub closed spec fn live_view(&self) -> Map<Seq<u8>, Seq<u8>> {
        self.live@
    }

    pub closed spec fn tomb_view(&self) -> Map<Seq<u8>, ()> {
        self.tombstones@
    }

    pub closed spec fn seen_view(&self) -> Map<Seq<u8>, ()> {
        self.seen@
    }

    pub closed spec fn stats(&self) -> Seq<SegmentStat> {
        self.statistics@
    }

    /// Whether appended records are materialised into the live map.
    pub closed spec fn is_building(&self) -> bool {
        self.building
    }

    /// Whether statistics are being recorded.
    pub closed spec fn is_counting(&self) -> bool {
        self.counting
    }

    /// The writable head segment, once one was met.
    pub closed spec fn writable_segment(&self) -> Option<u64> {
        self.writable
    }

    /// Every record offered so far through `observe`, in visiting order.
    pub closed spec fn visited(&self) -> Seq<RecordView> {
        self.visited@
    }

    pub closed spec fn wf(&self) -> bool {
        self.live.wf() && self.tombstones.wf() && self.seen.wf()
    }

    /// The maps agree with the records visited: a key is a tombstone when its
    /// deciding record removes it, seen when it appends it, and while building
    /// the live map is exactly what the visited records establish.
    pub closed spec fn consistent(&self) -> bool {
        &&& self.wf()
        &&& forall|k: Seq<u8>| #[trigger] self.tombstones@.contains_key(k) <==> (first_of(self.visited@, k) is Some
            && !first_of(self.visited@, k).unwrap().0)
        &&& forall|k: Seq<u8>| #[trigger] self.seen@.contains_key(k) <==> (first_of(self.visited@, k) is Some
            && first_of(self.visited@, k).unwrap().0)
        &&& self.building ==> self.live@ == live_of(self.visited@)
    }

    /// Whether a record of `seg` switches statistics on.
    pub open spec fn starts_counting(&self, seg: u64) -> bool {
        !self.is_counting() && self.writable_segment() is Some && self.writable_segment().unwrap() != seg
    }

    /// A fresh visitor; `building` says whether live values are materialised.
    pub fn new(building: bool) -> (r: Self)
        ensures
            r.consistent(),
            r.visited() == Seq::<RecordView>::empty(),
            r.is_building() == building,
            !r.is_counting(),
            r.writable_segment() is None,
            r.stats() == Seq::<SegmentStat>::empty(),
            r.live_view() == Map::<Seq<u8>, Seq<u8>>::empty(),
    {
        let r = PairLoader {
            live: KeyMap::new(),
            tombstones: KeyMap::new(),
            seen: KeyMap::new(),
            building,
            counting: false,
            writable: None,
            statistics: Vec::new(),
            visited: Ghost(Seq::empty()),
        };
        proof {
            assert(live_of(Seq::<RecordView>::empty()) =~= Map::empty());
        }
        r
    }

    /// The live map materialised so far.
    pub fn live_map(&self) -> (r: &KeyMap<Vec<u8>>)
        ensures
            r@ == self.live_view(),
            self.wf() ==> r.wf(),
    {
        &self.live
    }

    /// The statistics gathered so far.
    pub fn statistics(&self) -> (r: &Vec<SegmentStat>)
        ensures
            r@ == self.stats(),
    {
        &self.statistics
    }

    fn bump_stats(&mut self, seg: u64, fresh: bool)
        ensures
            final(self).stats() == bump(old(self).stats(), seg, fresh),
            final(self).live == old(self).live,
            final(self).tombstones == old(self).tombstones,
            final(self).seen == old(self).seen,
            final(self).building == old(self).building,
            final(self).counting == old(self).counting,
            final(self).writable == old(self).writable,
            final(self).visited == old(self).visited,
    {
        let n = self.statistics.len();
        if n > 0 && self.statistics[n - 1].segment == seg {
            let h = self.statistics[n - 1];
            let entries = if h.entries < u64::MAX { h.entries + 1 } else { h.entries };
            let live_keys = if fresh && h.live_keys < u64::MAX {
                h.live_keys + 1
            } else {
                h.live_keys
            };
            self.statistics.set(n - 1, SegmentStat { segment: seg, entries, live_keys });
        } else {
            self.statistics.push(SegmentStat { segment: seg, entries: 1, live_keys: if fresh { 1 } else { 0 } });
        }
    }

    fn open_stats(&mut self, seg: u64)
        ensures
            final(self).stats() == open_head(old(self).stats(), seg),
            final(self).live == old(self).live,
            final(self).tombstones == old(self).tombstones,
            final(self).seen == old(self).seen,
            final(self).building == old(self).building,
            final(self).counting == old(self).counting,
            final(self).writable == old(self).writable,
            final(self).visited == old(self).visited,
    {
        let n = self.statistics.len();
        if !(n > 0 && self.statistics[n - 1].segment == seg) {
            self.statistics.push(SegmentStat { segment: seg, entries: 0, live_keys: 0 });
        }
    }

    /// Whether a record of `key` met in segment `seg` still needs loading: it
    /// does unless a newer record already removed or appended the key. The
    /// first segment met is taken as the writable head and is not counted; the
    /// first other segment switches statistics on.
    pub fn is_require(&mut self, seg: u64, key: &Vec<u8>) -> (r: bool)
        requires
            old(self).wf(),
        ensures
            final(self).wf(),
            r == (!old(self).tomb_view().contains_key(key@) && !old(self).seen_view().contains_key(key@)),
            final(self).live_view() == old(self).live_view(),
            final(self).tomb_view() == old(self).tomb_view(),
            final(self).seen_view() == old(self).seen_view(),
            final(self).visited() == old(self).visited(),
            final(self).is_building() == old(self).is_building(),
            final(self).consistent() == old(self).consistent(),
            final(self).is_counting() == (old(self).is_counting() || old(self).starts_counting(seg)),
            final(self).writable_segment() == if !old(self).is_counting() && old(self).writable_segment() is None {
                Some(seg)
            } else {
                old(self).writable_segment()
            },
            final(self).stats() == if old(self).is_counting() || old(self).starts_counting(seg) {
                if r {
                    open_head(old(self).stats(), seg)
                } else {
                    bump(old(self).stats(), seg, !old(self).seen_view().contains_key(key@))
                }
            } else {
                old(self).stats()
            },
    {
        let removed = self.tombstones.contains_key(key);
        let fresh = !self.seen.contains_key(key);
        let r = !removed && fresh;
        let count = if self.counting {
            true
        } else {
            match self.writable {
                None => {
                    self.writable = Some(seg);
                    false
                },
                Some(w) => if w != seg {
                    self.counting = true;
                    true
                } else {
                    false
                },
            }
        };
        if count {
            if r {
                self.open_stats(seg);
            } else {
                self.bump_stats(seg, fresh);
            }
        }
        r
    }

    /// Takes in a record that `is_require` accepted: an append is materialised
    /// (while building) and marks its key seen; a remove makes its key a tombstone.
    pub fn load(&mut self, seg: u64, method: LogMethod, key: &Vec<u8>, value: &Vec<u8>)
        requires
            old(self).wf(),
        ensures
            final(self).wf(),
            final(self).visited() == old(self).visited(),
            final(self).is_building() == old(self).is_building(),
            final(self).is_counting() == old(self).is_counting(),
            final(self).writable_segment() == old(self).writable_segment(),
            final(self).stats() == if old(self).is_counting() {
                bump(old(self).stats(), seg, !old(self).seen_view().contains_key(key@))
            } else {
                old(self).stats()
            },
            method == LogMethod::Append ==> {
                &&& final(self).seen_view() == old(self).seen_view().insert(key@, ())
                &&& final(self).tomb_view() == old(self).tomb_view()
                &&& final(self).live_view() == if old(self).is_building() {
                    old(self).live_view().insert(key@, value@)
                } else {
                    old(self).live_view()
                }
            },
            method == LogMethod::Remove ==> {
                &&& final(self).seen_view() == old(self).seen_view()
                &&& final(self).tomb_view() == old(self).tomb_view().insert(key@, ())
                &&& final(self).live_view() == old(self).live_view()
            },
    {
        if self.counting {
            let fresh = !self.seen.contains_key(key);
            self.bump_stats(seg, fresh);
        }
        match method {
            LogMethod::Append => {
                if self.building {
                    self.live.upsert(copy_bytes(key), copy_bytes(value));
                }
                self.seen.upsert(copy_bytes(key), ());
            },
            LogMethod::Remove => {
                self.tombstones.upsert(copy_bytes(key), ());
            },
        }
    }

    /// Offers one record of segment `seg`: asks `is_require`, and loads it when required.
    pub fn observe(&mut self, seg: u64, rec: &LogRecord)
        requires
            old(self).consistent(),
        ensures
            final(self).consistent(),
            final(self).visited() == old(self).visited().push(rec@),
            final(self).is_building() == old(self).is_building(),
    {
        let ghost v0 = self.visited@;
        let ghost t0 = self.tombstones@;
        let ghost s0 = self.seen@;
        let ghost l0 = self.live@;
        let req = self.is_require(seg, &rec.key);
        if req {
            self.load(seg, rec.method, &rec.key, &rec.value);
        }
        self.visited = Ghost(v0.push(rec@));
        proof {
            let v1 = self.visited@;
            assert forall|k: Seq<u8>| #[trigger] first_of(v1, k) == (match first_of(v0, k) {
                Some(r) => Some(r),
                None => if rec@.1 == k {
                    Some(rec@)
                } else {
                    None
                },
            }) by {
                lemma_first_of_push(v0, rec@, k);
            }
            assert forall|k: Seq<u8>| #[trigger] self.tombstones@.contains_key(k) <==> (first_of(v1, k) is Some
                && !first_of(v1, k).unwrap().0) by {
                assert(first_of(v1, k) == (match first_of(v0, k) {
                    Some(r) => Some(r),
                    None => if rec@.1 == k { Some(rec@) } else { None },
                }));
                assert(t0.contains_key(k) <==> (first_of(v0, k) is Some && !first_of(v0, k).unwrap().0));
                assert(s0.contains_key(k) <==> (first_of(v0, k) is Some && first_of(v0, k).unwrap().0));
            }
            assert forall|k: Seq<u8>| #[trigger] self.seen@.contains_key(k) <==> (first_of(v1, k) is Some
                && first_of(v1, k).unwrap().0) by {
                assert(first_of(v1, k) == (match first_of(v0, k) {
                    Some(r) => Some(r),
                    None => if rec@.1 == k { Some(rec@) } else { None },
                }));
                assert(t0.contains_key(k) <==> (first_of(v0, k) is Some && !first_of(v0, k).unwrap().0));
                assert(s0.contains_key(k) <==> (first_of(v0, k) is Some && first_of(v0, k).unwrap().0));
            }
            if self.building {
                assert forall|k: Seq<u8>| #[trigger] self.live@.contains_key(k) == live_of(v1).contains_key(k)
                    && (self.live@.contains_key(k) ==> self.live@[k] == live_of(v1)[k]) by {
                    assert(first_of(v1, k) == (match first_of(v0, k) {
                        Some(r) => Some(r),
                        None => if rec@.1 == k { Some(rec@) } else { None },
                    }));
                    assert(t0.contains_key(k) <==> (first_of(v0, k) is Some && !first_of(v0, k).unwrap().0));
                    assert(s0.contains_key(k) <==> (first_of(v0, k) is Some && first_of(v0, k).unwrap().0));
                    assert(l0.contains_key(k) == live_of(v0).contains_key(k));
                }
                assert(self.live@ =~= live_of(v1));
            }
        }
    }

    /// Replays `segs` (listed oldest first) newest to oldest, skipping the
    /// segments above `cutoff`.
    pub fn replay(&mut self, segs: &Vec<Segment>, cutoff: Option<u64>)
        requires
            old(self).consistent(),
        ensures
            final(self).consistent(),
            final(self).visited() == old(self).visited() + replay_order(segs@, cutoff),
            final(self).is_building() == old(self).is_building(),
    {
        let ghost v0 = self.visited@;
        let mut j: usize = segs.len();
        proof {
            assert(segs@.subrange(j as int, segs@.len() as int) =~= Seq::<Segment>::empty());
            assert(v0 + replay_order(Seq::<Segment>::empty(), cutoff) =~= v0);
        }
        while j > 0
            invariant
                j <= segs.len(),
                self.consistent(),
                self.is_building() == old(self).is_building(),
                self.visited() == v0 + replay_order(segs@.subrange(j as int, segs@.len() as int), cutoff),
            decreases j,
        {
            let seg = &segs[j - 1];
            let ghost before = self.visited();
            if seg.id <= cutoff.unwrap_or(u64::MAX) {
                let mut r: usize = seg.records.len();
                while r > 0
                    invariant
                        r <= seg.records.len(),
                        self.consistent(),
                        self.is_building() == old(self).is_building(),
                        self.visited() == before + newest_first_in(*seg).subrange(0, seg.records.len() - r),
                    decreases r,
                {
                    self.observe(seg.id, &seg.records[r - 1]);
                    r = r - 1;
                    proof {
                        assert(newest_first_in(*seg).subrange(0, seg.records.len() - r) =~=
                            newest_first_in(*seg).subrange(0, seg.records.len() - r - 1).push(seg.records@[r as int]@));
                        assert(before + newest_first_in(*seg).subrange(0, seg.records.len() - r) =~=
                            (before + newest_first_in(*seg).subrange(0, seg.records.len() - r - 1)).push(seg.records@[r as int]@));
                    }
                }
                proof {
                    assert(newest_first_in(*seg).subrange(0, seg.records.len() as int) =~= newest_first_in(*seg));
                    assert(within_cutoff(seg.id, cutoff));
                }
            } else {
                proof {
                    assert(!within_cutoff(seg.id, cutoff));
                    assert(before + Seq::<RecordView>::empty() =~= before);
                }
            }
            j = j - 1;
            proof {
                let tail = segs@.subrange(j as int, segs@.len() as int);
                assert(tail.drop_first() =~= segs@.subrange(j + 1, segs@.len() as int));
                assert(tail[0] == *seg);
                assert(v0 + replay_order(tail, cutoff) =~= before + (if within_cutoff(seg.id, cutoff) {
                    newest_first_in(*seg)
                } else {
                    Seq::empty()
                }));
            }
        }
        proof {
            assert(segs@.subrange(0, segs@.len() as int) =~= segs@);
        }
    }

    /// While building, a consistent loader's live map is what the visited records establish.
    pub proof fn lemma_live_when_building(&self)
        requires
            self.consistent(),
            self.is_building(),
        ensures
            self.live_view() == live_of(self.visited()),
            self.wf(),
    {
    }

    /// A consistent loader's tombstones are the keys whose deciding record
    /// removes them, and its seen keys those whose deciding record appends them.
    pub proof fn lemma_decided_sets(&self)
        requires
            self.consistent(),
        ensures
            forall|k: Seq<u8>| #[trigger] self.tomb_view().contains_key(k) <==> (first_of(self.visited(), k) is Some
                && !first_of(self.visited(), k).unwrap().0),
            forall|k: Seq<u8>| #[trigger] self.seen_view().contains_key(k) <==> (first_of(self.visited(), k) is Some
                && first_of(self.visited(), k).unwrap().0),
    {
    }
}

} // verus!

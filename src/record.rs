//! Log records, segments, and what replaying them means.
use vstd::prelude::*;

verus! {

/// What a log record does to its key.
#[derive(Clone, Copy, PartialEq, Eq, Structural, Debug)]
pub enum LogMethod {
    Append,
    Remove,
}

/// One record of a table's log. A `Remove` record carries an empty value.
#[derive(Debug)]
pub struct LogRecord {
    pub method: LogMethod,
    pub key: Vec<u8>,
    pub value: Vec<u8>,
}

/// The abstract record: whether it appends, its key, its value.
pub type RecordView = (bool, Seq<u8>, Seq<u8>);

impl View for LogRecord {
    type V = RecordView;

    open spec fn view(&self) -> RecordView {
        (self.method == LogMethod::Append, self.key@, self.value@)
    }
}

/// One segment file of a log: its index and its records, oldest first.
#[derive(Debug)]
pub struct Segment {
    pub id: u64,
    pub records: Vec<LogRecord>,
}

/// Whether segment `id` lies inside an optional cutoff (segments above it are hidden).
pub open spec fn within_cutoff(id: u64, cutoff: Option<u64>) -> bool {
    match cutoff {
        Some(c) => id <= c,
        None => true,
    }
}

/// The records of one segment, newest first.
pub open spec fn newest_first_in(seg: Segment) -> Seq<RecordView> {
    Seq::new(seg.records@.len(), |t: int| seg.records@[seg.records@.len() - 1 - t]@)
}

/// The records of a list of segments (listed oldest first) that a replay with
/// `cutoff` visits, in the order it visits them: newest segment first, and
/// newest record first within a segment.
pub open spec fn replay_order(segs: Seq<Segment>, cutoff: Option<u64>) -> Seq<RecordView>
    decreases segs.len(),
{
    if segs.len() == 0 {
        Seq::empty()
    } else {
        replay_order(segs.drop_first(), cutoff) + if within_cutoff(segs[0].id, cutoff) {
            newest_first_in(segs[0])
        } else {
            Seq::empty()
        }
    }
}

/// The first record for key `k` in visiting order: the one that decides `k`.
pub open spec fn first_of(s: Seq<RecordView>, k: Seq<u8>) -> Option<RecordView>
    decreases s.len(),
{
    if s.len() == 0 {
        None
    } else {
        match first_of(s.drop_last(), k) {
            Some(r) => Some(r),
            None => if s.last().1 == k {
                Some(s.last())
            } else {
                None
            },
        }
    }
}

/// The live contents that a replay of `s` establishes: every key whose first
/// record appends, with that record's value.
pub open spec fn live_of(s: Seq<RecordView>) -> Map<Seq<u8>, Seq<u8>> {
    Map::new(
        |k: Seq<u8>| first_of(s, k) is Some && first_of(s, k).unwrap().0,
        |k: Seq<u8>| first_of(s, k).unwrap().2,
    )
}

/// Visiting one more record changes the deciding record of its key only if
/// that key was still undecided.
pub proof fn lemma_first_of_push(s: Seq<RecordView>, x: RecordView, k: Seq<u8>)
    ensures
        first_of(s.push(x), k) == (match first_of(s, k) {
            Some(r) => Some(r),
            None => if x.1 == k {
                Some(x)
            } else {
                None
            },
        }),
{
    assert(s.push(x).drop_last() =~= s);
}

/// A decided key stays decided the same way whatever is visited after it.
pub proof fn lemma_first_of_append(s: Seq<RecordView>, t: Seq<RecordView>, k: Seq<u8>)
    requires
        first_of(s, k) is Some,
    ensures
        first_of(s + t, k) == first_of(s, k),
    decreases t.len(),
{
    if t.len() > 0 {
        lemma_first_of_append(s, t.drop_last(), k);
        assert((s + t).drop_last() =~= s + t.drop_last());
    } else {
        assert(s + t =~= s);
    }
}

/// A key that no record of `t` carries is undecided by `t`.
pub proof fn lemma_first_of_none(t: Seq<RecordView>, k: Seq<u8>)
    requires
        forall|i: int| 0 <= i < t.len() ==> (#[trigger] t[i]).1 != k,
    ensures
        first_of(t, k) is None,
    decreases t.len(),
{
    if t.len() > 0 {
        lemma_first_of_none(t.drop_last(), k);
        assert(t.last() == t[t.len() - 1]);
    }
}

/// The first record that carries `k` decides `k`.
pub proof fn lemma_first_of_is_first(t: Seq<RecordView>, k: Seq<u8>, i: int)
    requires
        0 <= i < t.len(),
        t[i].1 == k,
        forall|j: int| 0 <= j < i ==> (#[trigger] t[j]).1 != k,
    ensures
        first_of(t, k) == Some(t[i]),
    decreases t.len(),
{
    if i == t.len() - 1 {
        assert forall|j: int| 0 <= j < t.drop_last().len() implies (#[trigger] t.drop_last()[j]).1 != k by {
            assert(t.drop_last()[j] == t[j]);
        }
        lemma_first_of_none(t.drop_last(), k);
    } else {
        assert forall|j: int| 0 <= j < i implies (#[trigger] t.drop_last()[j]).1 != k by {
            assert(t.drop_last()[j] == t[j]);
        }
        lemma_first_of_is_first(t.drop_last(), k, i);
    }
}

/// Behind a prefix that leaves `k` undecided, `k` is decided as without it.
pub proof fn lemma_first_of_undecided_prefix(a: Seq<RecordView>, c: Seq<RecordView>, k: Seq<u8>)
    requires
        first_of(a, k) is None,
    ensures
        first_of(a + c, k) == first_of(c, k),
    decreases c.len(),
{
    if c.len() == 0 {
        assert(a + c =~= a);
    } else {
        lemma_first_of_undecided_prefix(a, c.drop_last(), k);
        assert((a + c).drop_last() =~= a + c.drop_last());
        assert((a + c).last() == c.last());
    }
}

} // verus!

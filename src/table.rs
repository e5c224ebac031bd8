//! A table's live view and its snapshot transactions.
use vstd::prelude::*;
use crate::bytes::{copy_bytes, lex_lt};
use crate::keymap::{KeyMap, sorted_keys};
use crate::loader::SegmentStat;
use crate::error::{DbError, TxState};
use crate::record::{LogMethod, LogRecord, RecordView};

verus! {

/// A committed value together with the table version of the commit that
/// wrote it. Two entries with the same stamp are the same write.
pub struct Stamped {
    pub bytes: Vec<u8>,
    pub stamp: u64,
}

impl View for Stamped {
    type V = (Seq<u8>, u64);

    open spec fn view(&self) -> (Seq<u8>, u64) {
        (self.bytes@, self.stamp)
    }
}

/// A journal entry: the key was read, or written (`None` deletes it).
#[derive(Debug)]
pub enum RwLog {
    Read,
    Write(Option<Vec<u8>>),
}

/// `None` for a read; `Some(w)` for a write of `w`.
pub type RwView = Option<Option<Seq<u8>>>;

impl View for RwLog {
    type V = RwView;

    open spec fn view(&self) -> RwView {
        match self {
            RwLog::Read => None,
            RwLog::Write(None) => Some(None),
            RwLog::Write(Some(v)) => Some(Some(v@)),
        }
    }
}

/// The byte contents of a map of stamped values.
pub open spec fn contents_of(m: Map<Seq<u8>, (Seq<u8>, u64)>) -> Map<Seq<u8>, Seq<u8>> {
    Map::new(|k: Seq<u8>| m.contains_key(k), |k: Seq<u8>| m[k].0)
}

/// Whether `k` is absent from both maps, or present in both from the same write.
pub open spec fn same_entry(a: Map<Seq<u8>, (Seq<u8>, u64)>, b: Map<Seq<u8>, (Seq<u8>, u64)>, k: Seq<u8>) -> bool {
    a.contains_key(k) == b.contains_key(k) && (a.contains_key(k) ==> a[k].1 == b[k].1)
}

/// A map of stamped values after the writes of a journal, stamped `s`.
pub open spec fn apply_writes(
    m: Map<Seq<u8>, (Seq<u8>, u64)>,
    j: Map<Seq<u8>, RwView>,
    s: u64,
) -> Map<Seq<u8>, (Seq<u8>, u64)> {
    Map::new(
        |k: Seq<u8>| if j.contains_key(k) && j[k] is Some {
            j[k].unwrap() is Some
        } else {
            m.contains_key(k)
        },
        |k: Seq<u8>| if j.contains_key(k) && j[k] is Some {
            (j[k].unwrap().unwrap(), s)
        } else {
            m[k]
        },
    )
}

/// Whether `k` lies on the iterated side of an optional start key.
pub open spec fn in_range(k: Seq<u8>, start: Option<Seq<u8>>, descending: bool) -> bool {
    match start {
        None => true,
        Some(s) => if descending {
            !lex_lt(s, k)
        } else {
            !lex_lt(k, s)
        },
    }
}

/// `r` lists exactly the entries of `m` in range, ascending by key, or
/// descending when `descending`.
pub open spec fn ordered_listing(
    r: Seq<(Seq<u8>, Seq<u8>)>,
    m: Map<Seq<u8>, Seq<u8>>,
    start: Option<Seq<u8>>,
    descending: bool,
) -> bool {
    &&& forall|i: int, j: int| 0 <= i < j < r.len() ==> if descending {
        lex_lt((#[trigger] r[j]).0, (#[trigger] r[i]).0)
    } else {
        lex_lt(r[i].0, r[j].0)
    }
    &&& forall|i: int| 0 <= i < r.len() ==> {
        &&& m.contains_key((#[trigger] r[i]).0)
        &&& m[r[i].0] == r[i].1
        &&& in_range(r[i].0, start, descending)
    }
    &&& forall|k: Seq<u8>| #[trigger] m.contains_key(k) && in_range(k, start, descending) ==> exists|i: int|
        0 <= i < r.len() && r[i].0 == k
}

/// `r` lists exactly the keys of `m` in range, ascending, or descending when `descending`.
pub open spec fn ordered_keys(r: Seq<Seq<u8>>, m: Map<Seq<u8>, Seq<u8>>, start: Option<Seq<u8>>, descending: bool) -> bool {
    &&& forall|i: int, j: int| 0 <= i < j < r.len() ==> if descending {
        lex_lt(#[trigger] r[j], #[trigger] r[i])
    } else {
        lex_lt(r[i], r[j])
    }
    &&& forall|i: int| 0 <= i < r.len() ==> m.contains_key(#[trigger] r[i]) && in_range(r[i], start, descending)
    &&& forall|k: Seq<u8>| #[trigger] m.contains_key(k) && in_range(k, start, descending) ==> exists|i: int|
        0 <= i < r.len() && r[i] == k
}

/// Copies a map of stamped values.
pub fn copy_root(m: &KeyMap<Stamped>) -> (r: KeyMap<Stamped>)
    requires
        m.wf(),
    ensures
        r.wf(),
        r@ == m@,
{
    let mut r: KeyMap<Stamped> = KeyMap::new();
    let n = m.len();
    let mut i: usize = 0;
    proof {
        m.lemma_entries();
    }
    while i < n
        invariant
            m.wf(),
            r.wf(),
            n == m.key_seq().len(),
            i <= n,
            r@ == Map::new(
                |k: Seq<u8>| exists|j: int| 0 <= j < i && m.key_seq()[j] == k,
                |k: Seq<u8>| m@[k],
            ),
        decreases n - i,
    {
        let k = m.key_at(i);
        let v = m.val_at(i);
        let ghost before = r@;
        r.upsert(copy_bytes(k), Stamped { bytes: copy_bytes(&v.bytes), stamp: v.stamp });
        proof {
            m.lemma_entries();
            assert(m@.contains_key(m.key_seq()[i as int]));
            assert(m@[m.key_seq()[i as int]] == m.val_seq()[i as int]);
            assert(r@ == before.insert(m.key_seq()[i as int], m@[m.key_seq()[i as int]]));
            assert(r@ =~= Map::new(
                |k: Seq<u8>| exists|j: int| 0 <= j < i + 1 && m.key_seq()[j] == k,
                |k: Seq<u8>| m@[k],
            )) by {
                assert forall|q: Seq<u8>| (exists|j: int| 0 <= j < i + 1 && m.key_seq()[j] == q) implies
                    before.insert(m.key_seq()[i as int], m@[m.key_seq()[i as int]]).contains_key(q) by {
                    let j = choose|j: int| 0 <= j < i + 1 && m.key_seq()[j] == q;
                    if j < i {
                        assert(before.contains_key(q));
                    }
                }
                assert forall|q: Seq<u8>| #[trigger] r@.contains_key(q) implies
                    (exists|j: int| 0 <= j < i + 1 && m.key_seq()[j] == q) by {
                    if q != m.key_seq()[i as int] {
                        assert(before.contains_key(q));
                        let j = choose|j: int| 0 <= j < i && m.key_seq()[j] == q;
                        assert(0 <= j < i + 1 && m.key_seq()[j] == q);
                    }
                }
            }
        }
        i = i + 1;
    }
    proof {
        m.lemma_entries();
        assert(r@ =~= m@);
    }
    r
}

/// Lists the entries of `m` in range, in key order, as byte pairs.
pub fn list_entries(m: &KeyMap<Stamped>, start: Option<&Vec<u8>>, descending: bool) -> (r: Vec<(Vec<u8>, Vec<u8>)>)
    requires
        m.wf(),
    ensures
        ordered_listing(
            Seq::new(r@.len(), |i: int| (r@[i].0@, r@[i].1@)),
            contents_of(m@),
            match start { Some(s) => Some(s@), None => None },
            descending,
        ),
{
    proof {
        m.lemma_entries();
    }
    let ghost ks = m.key_seq();
    let ghost st: Option<Seq<u8>> = match start { Some(s) => Some(s@), None => None };
    let ghost cm = contents_of(m@);
    let n = m.len();
    // The stored positions that are in range form one run [lo, hi).
    let (lo, hi) = match start {
        None => (0usize, n),
        Some(s) => {
            let (found, p) = m.position(s);
            if descending {
                (0usize, if found { p + 1 } else { p })
            } else {
                (p, n)
            }
        },
    };
    proof {
        assert forall|j: int| 0 <= j < n implies (in_range(#[trigger] ks[j], st, descending) <==> lo <= j < hi) by {
            if let Some(s) = start {
                if descending {
                    if j < hi {
                        if ks[j] != s@ {
                            assert(lex_lt(ks[j], s@));
                            crate::bytes::lemma_lex_asymmetric(ks[j], s@);
                        } else {
                            crate::bytes::lemma_lex_irreflexive(s@);
                        }
                    } else {
                        assert(!lex_lt(ks[j], s@));
                        crate::bytes::lemma_lex_total(ks[j], s@);
                    }
                }
            }
        }
    }
    let mut out: Vec<(Vec<u8>, Vec<u8>)> = Vec::new();
    let mut t: usize = 0;
    while t < hi - lo
        invariant
            m.wf(),
            ks == m.key_seq(),
            n == ks.len(),
            lo <= hi <= n,
            t <= hi - lo,
            out@.len() == t,
            forall|i: int| 0 <= i < t ==> {
                let j = if descending { hi - 1 - i } else { lo + i };
                &&& (#[trigger] out@[i]).0@ == ks[j]
                &&& out@[i].1@ == m.val_seq()[j].0
            },
        decreases hi - lo - t,
    {
        let j = if descending { hi - 1 - t } else { lo + t };
        let k = copy_bytes(m.key_at(j));
        let v = copy_bytes(&m.val_at(j).bytes);
        out.push((k, v));
        t = t + 1;
    }
    proof {
        let r = Seq::new(out@.len(), |i: int| (out@[i].0@, out@[i].1@));
        assert forall|i: int, j: int| 0 <= i < j < r.len() implies (if descending {
            lex_lt((#[trigger] r[j]).0, (#[trigger] r[i]).0)
        } else {
            lex_lt(r[i].0, r[j].0)
        }) by {
            if descending {
                assert(r[j].0 == ks[hi - 1 - j] && r[i].0 == ks[hi - 1 - i]);
            } else {
                assert(r[j].0 == ks[lo + j] && r[i].0 == ks[lo + i]);
            }
        }
        assert forall|i: int| 0 <= i < r.len() implies {
            &&& cm.contains_key((#[trigger] r[i]).0)
            &&& cm[r[i].0] == r[i].1
            &&& in_range(r[i].0, st, descending)
        } by {
            let j = if descending { hi - 1 - i } else { lo + i };
            assert(r[i].0 == ks[j]);
            assert(m@.contains_key(ks[j]));
        }
        assert forall|k: Seq<u8>| #[trigger] cm.contains_key(k) && in_range(k, st, descending) implies exists|i: int|
            0 <= i < r.len() && r[i].0 == k by {
            assert(m@.contains_key(k));
            let j = choose|j: int| 0 <= j < ks.len() && ks[j] == k;
            let i = if descending { hi - 1 - j } else { j - lo };
            assert(r[i].0 == k);
        }
    }
    out
}

/// Folds the writes of `journal` into `root`, stamping them `stamp`.
fn fold_writes(root: &mut KeyMap<Stamped>, journal: &KeyMap<RwLog>, stamp: u64)
    requires
        old(root).wf(),
        journal.wf(),
    ensures
        final(root).wf(),
        final(root)@ == apply_writes(old(root)@, journal@, stamp),
{
    let ghost jv = journal@;
    let ghost r0 = root@;
    let newver = stamp;
    let ghost ks = journal.key_seq();
    proof {
        journal.lemma_entries();
    }
    let n = journal.len();
    let mut i: usize = 0;
    while i < n
        invariant
            journal.wf(),
            journal@ == jv,
            ks == journal.key_seq(),
            n == ks.len(),
            i <= n,
            root.wf(),
            r0 == old(root)@,
            root@ == apply_writes(r0, Map::new(
                |k: Seq<u8>| exists|x: int| 0 <= x < i && ks[x] == k,
                |k: Seq<u8>| jv[k],
            ), newver),
        decreases n - i,
    {
        let ghost before = root@;
        let ghost pre = Map::new(|k: Seq<u8>| exists|x: int| 0 <= x < i && ks[x] == k, |k: Seq<u8>| jv[k]);
        let ghost post = Map::new(|k: Seq<u8>| exists|x: int| 0 <= x < i + 1 && ks[x] == k, |k: Seq<u8>| jv[k]);
        let k = journal.key_at(i);
        proof {
            journal.lemma_entries();
            assert(jv.contains_key(ks[i as int]));
            assert(!pre.contains_key(k@)) by {
                if pre.contains_key(k@) {
                    let x = choose|x: int| 0 <= x < i && ks[x] == k@;
                    assert(lex_lt(ks[x], ks[i as int]));
                    crate::bytes::lemma_lex_irreflexive(k@);
                }
            }
            assert(post.contains_key(k@));
            assert forall|q: Seq<u8>| q != k@ implies (#[trigger] post.contains_key(q) == pre.contains_key(q)) by {
                if post.contains_key(q) {
                    let x = choose|x: int| 0 <= x < i + 1 && ks[x] == q;
                    assert(x != i);
                }
            }
        }
        match journal.val_at(i) {
            RwLog::Read => {
                proof {
                    assert(root@ =~= apply_writes(r0, post, newver));
                }
            },
            RwLog::Write(Some(v)) => {
                root.upsert(copy_bytes(k), Stamped { bytes: copy_bytes(v), stamp: newver });
                proof {
                    assert(root@ =~= apply_writes(r0, post, newver));
                }
            },
            RwLog::Write(None) => {
                root.remove(k);
                proof {
                    assert(root@ =~= apply_writes(r0, post, newver));
                }
            },
        }
        i = i + 1;
    }
    proof {
        journal.lemma_entries();
        let all = Map::new(|k: Seq<u8>| exists|x: int| 0 <= x < n && ks[x] == k, |k: Seq<u8>| jv[k]);
        assert(all =~= jv) by {
            assert forall|q: Seq<u8>| #[trigger] jv.contains_key(q) implies all.contains_key(q) by {
                let x = choose|x: int| 0 <= x < ks.len() && ks[x] == q;
            }
        }
    }
    }

/// The appends among the writes of `journal`, in key order.
#[verifier::rlimit(60)]
fn append_records(journal: &KeyMap<RwLog>) -> (out: Vec<LogRecord>)
    requires
        journal.wf(),
    ensures
        forall|x: int| 0 <= x < out@.len() ==> {
            let rec = (#[trigger] out@[x])@;
            &&& rec.0
            &&& journal@.contains_key(rec.1)
            &&& journal@[rec.1] == Some(Some(rec.2))
        },
        forall|a: int, b: int| 0 <= a < b < out@.len() ==> lex_lt((#[trigger] out@[a])@.1, (#[trigger] out@[b])@.1),
        forall|y: int| 0 <= y < journal.key_seq().len() && journal@[#[trigger] journal.key_seq()[y]] is Some
            && journal@[journal.key_seq()[y]].unwrap() is Some ==> exists|x: int|
            0 <= x < out@.len() && out@[x]@.1 == journal.key_seq()[y],
{
    let ghost jv = journal@;
    let ghost ks = journal.key_seq();
    proof {
        journal.lemma_entries();
        assert forall|y: int| 0 <= y < ks.len() implies jv.contains_key(#[trigger] ks[y]) && jv[ks[y]] == journal.val_seq()[y] by {
            assert(journal@.contains_key(journal.key_seq()[y]));
        }
    }
    let n = journal.len();
    let mut out: Vec<LogRecord> = Vec::new();
    let mut i: usize = 0;
    while i < n
        invariant
            journal.wf(),
            journal@ == jv,
            ks == journal.key_seq(),
            n == ks.len(),
            i <= n,
            sorted_keys(ks),
            forall|y: int| 0 <= y < n ==> jv.contains_key(#[trigger] ks[y]) && jv[ks[y]] == journal.val_seq()[y],
            forall|x: int| 0 <= x < out@.len() ==> {
                let rec = (#[trigger] out@[x])@;
                &&& rec.0
                &&& jv.contains_key(rec.1)
                &&& jv[rec.1] == Some(Some(rec.2))
                &&& exists|y: int| 0 <= y < i && ks[y] == rec.1
            },
            forall|a: int, b: int| 0 <= a < b < out@.len() ==> lex_lt((#[trigger] out@[a])@.1, (#[trigger] out@[b])@.1),
            forall|y: int| 0 <= y < i && jv[#[trigger] ks[y]] is Some && jv[ks[y]].unwrap() is Some ==> exists|x: int|
                0 <= x < out@.len() && out@[x]@.1 == ks[y],
        decreases n - i,
    {
        proof {
            assert(jv.contains_key(ks[i as int]));
        }
        match journal.val_at(i) {
            RwLog::Write(Some(v)) => {
                let ghost o0 = out@;
                let k = journal.key_at(i);
                out.push(LogRecord { method: LogMethod::Append, key: copy_bytes(k), value: copy_bytes(v) });
                proof {
                    assert forall|a: int, b: int| 0 <= a < b < out@.len() implies lex_lt((#[trigger] out@[a])@.1, (#[trigger] out@[b])@.1) by {
                        if b == out@.len() - 1 {
                            assert(out@[a] == o0[a]);
                            let y = choose|y: int| 0 <= y < i && ks[y] == o0[a]@.1;
                            assert(lex_lt(ks[y], ks[i as int]));
                        } else {
                            assert(out@[a] == o0[a] && out@[b] == o0[b]);
                        }
                    }
                    assert forall|x: int| 0 <= x < out@.len() implies {
                        let rec = (#[trigger] out@[x])@;
                        &&& rec.0
                        &&& jv.contains_key(rec.1)
                        &&& jv[rec.1] == Some(Some(rec.2))
                        &&& exists|y: int| 0 <= y < i + 1 && ks[y] == rec.1
                    } by {
                        if x < o0.len() {
                            assert(out@[x] == o0[x]);
                            let y = choose|y: int| 0 <= y < i && ks[y] == o0[x]@.1;
                            assert(0 <= y < i + 1 && ks[y] == o0[x]@.1);
                        } else {
                            assert(ks[i as int] == out@[x]@.1);
                        }
                    }
                    assert forall|y: int| 0 <= y < i + 1 && jv[#[trigger] ks[y]] is Some && jv[ks[y]].unwrap() is Some implies exists|x: int|
                        0 <= x < out@.len() && out@[x]@.1 == ks[y] by {
                        if y < i {
                            let x = choose|x: int| 0 <= x < o0.len() && o0[x]@.1 == ks[y];
                            assert(out@[x] == o0[x]);
                        } else {
                            assert(out@[o0.len() as int]@.1 == ks[y]);
                        }
                    }
                }
            },
            _ => {
                proof {
                    assert forall|x: int| 0 <= x < out@.len() implies {
                        let rec = (#[trigger] out@[x])@;
                        exists|y: int| 0 <= y < i + 1 && ks[y] == rec.1
                    } by {
                        let y = choose|y: int| 0 <= y < i && ks[y] == out@[x]@.1;
                        assert(0 <= y < i + 1 && ks[y] == out@[x]@.1);
                    }
                }
            },
        }
        i = i + 1;
    }
    out
}

/// Adds the removes among the writes of `journal`, in key order, after the appends in `out`.
#[verifier::rlimit(60)]
fn push_remove_records(journal: &KeyMap<RwLog>, out: &mut Vec<LogRecord>)
    requires
        journal.wf(),
        forall|x: int| 0 <= x < old(out)@.len() ==> {
            let rec = (#[trigger] old(out)@[x])@;
            &&& rec.0
            &&& journal@.contains_key(rec.1)
            &&& journal@[rec.1] == Some(Some(rec.2))
        },
        forall|a: int, b: int| 0 <= a < b < old(out)@.len() ==> lex_lt((#[trigger] old(out)@[a])@.1, (#[trigger] old(out)@[b])@.1),
        forall|y: int| 0 <= y < journal.key_seq().len() && journal@[#[trigger] journal.key_seq()[y]] is Some
            && journal@[journal.key_seq()[y]].unwrap() is Some ==> exists|x: int|
            0 <= x < old(out)@.len() && old(out)@[x]@.1 == journal.key_seq()[y],
    ensures
        forall|x: int| 0 <= x < final(out)@.len() ==> {
            let rec = (#[trigger] final(out)@[x])@;
            &&& rec.0 == (x < old(out)@.len())
            &&& journal@.contains_key(rec.1)
            &&& rec.0 ==> journal@[rec.1] == Some(Some(rec.2))
            &&& !rec.0 ==> journal@[rec.1] == Some(None::<Seq<u8>>) && rec.2 == Seq::<u8>::empty()
        },
        forall|a: int, b: int| 0 <= a < b < final(out)@.len() ==> ((#[trigger] final(out)@[a])@.0 && !(#[trigger] final(out)@[b])@.0)
            || (final(out)@[a]@.0 == final(out)@[b]@.0 && lex_lt(final(out)@[a]@.1, final(out)@[b]@.1)),
        forall|y: int| 0 <= y < journal.key_seq().len() && journal@[#[trigger] journal.key_seq()[y]] is Some ==> exists|x: int|
            0 <= x < final(out)@.len() && final(out)@[x]@.1 == journal.key_seq()[y],
{
    let ghost jv = journal@;
    let ghost ks = journal.key_seq();
    proof {
        journal.lemma_entries();
        assert forall|y: int| 0 <= y < ks.len() implies jv.contains_key(#[trigger] ks[y]) && jv[ks[y]] == journal.val_seq()[y] by {
            assert(journal@.contains_key(journal.key_seq()[y]));
        }
    }
    let n = journal.len();
    let napp = out.len();
    let mut i: usize = 0;
    while i < n
        invariant
            journal.wf(),
            journal@ == jv,
            ks == journal.key_seq(),
            n == ks.len(),
            i <= n,
            sorted_keys(ks),
            forall|y: int| 0 <= y < n ==> jv.contains_key(#[trigger] ks[y]) && jv[ks[y]] == journal.val_seq()[y],
            napp == old(out)@.len(),
            napp <= out@.len(),
            forall|x: int| 0 <= x < out@.len() ==> {
                let rec = (#[trigger] out@[x])@;
                &&& rec.0 == (x < napp)
                &&& jv.contains_key(rec.1)
                &&& rec.0 ==> jv[rec.1] == Some(Some(rec.2))
                &&& !rec.0 ==> jv[rec.1] == Some(None::<Seq<u8>>) && rec.2 == Seq::<u8>::empty()
                &&& !rec.0 ==> exists|y: int| 0 <= y < i && ks[y] == rec.1
            },
            forall|a: int, b: int| 0 <= a < b < out@.len() ==> ((#[trigger] out@[a])@.0 && !(#[trigger] out@[b])@.0)
                || (out@[a]@.0 == out@[b]@.0 && lex_lt(out@[a]@.1, out@[b]@.1)),
            forall|y: int| 0 <= y < n && jv[#[trigger] ks[y]] is Some && jv[ks[y]].unwrap() is Some ==> exists|x: int|
                0 <= x < out@.len() && out@[x]@.1 == ks[y],
            forall|y: int| 0 <= y < i && jv[#[trigger] ks[y]] == Some(None::<Seq<u8>>) ==> exists|x: int|
                0 <= x < out@.len() && out@[x]@.1 == ks[y],
        decreases n - i,
    {
        proof {
            assert(jv.contains_key(ks[i as int]));
        }
        match journal.val_at(i) {
            RwLog::Write(None) => {
                let ghost o0 = out@;
                let k = journal.key_at(i);
                out.push(LogRecord { method: LogMethod::Remove, key: copy_bytes(k), value: Vec::new() });
                proof {
                    assert forall|a: int, b: int| 0 <= a < b < out@.len() implies ((#[trigger] out@[a])@.0 && !(#[trigger] out@[b])@.0)
                        || (out@[a]@.0 == out@[b]@.0 && lex_lt(out@[a]@.1, out@[b]@.1)) by {
                        if b == out@.len() - 1 {
                            assert(out@[a] == o0[a]);
                            if !o0[a]@.0 {
                                let y = choose|y: int| 0 <= y < i && ks[y] == o0[a]@.1;
                                assert(lex_lt(ks[y], ks[i as int]));
                            }
                        } else {
                            assert(out@[a] == o0[a] && out@[b] == o0[b]);
                        }
                    }
                    assert forall|x: int| 0 <= x < out@.len() implies {
                        let rec = (#[trigger] out@[x])@;
                        &&& rec.0 == (x < napp)
                        &&& jv.contains_key(rec.1)
                        &&& rec.0 ==> jv[rec.1] == Some(Some(rec.2))
                        &&& !rec.0 ==> jv[rec.1] == Some(None::<Seq<u8>>) && rec.2 == Seq::<u8>::empty()
                        &&& !rec.0 ==> exists|y: int| 0 <= y < i + 1 && ks[y] == rec.1
                    } by {
                        if x < o0.len() {
                            assert(out@[x] == o0[x]);
                            if !o0[x]@.0 {
                                let y = choose|y: int| 0 <= y < i && ks[y] == o0[x]@.1;
                                assert(0 <= y < i + 1 && ks[y] == o0[x]@.1);
                            }
                        } else {
                            assert(ks[i as int] == out@[x]@.1);
                            assert(out@[x]@.2 =~= Seq::<u8>::empty());
                        }
                    }
                    assert forall|y: int| 0 <= y < n && jv[#[trigger] ks[y]] is Some && jv[ks[y]].unwrap() is Some implies exists|x: int|
                        0 <= x < out@.len() && out@[x]@.1 == ks[y] by {
                        let x = choose|x: int| 0 <= x < o0.len() && o0[x]@.1 == ks[y];
                        assert(out@[x] == o0[x]);
                    }
                    assert forall|y: int| 0 <= y < i + 1 && jv[#[trigger] ks[y]] == Some(None::<Seq<u8>>) implies exists|x: int|
                        0 <= x < out@.len() && out@[x]@.1 == ks[y] by {
                        if y < i {
                            let x = choose|x: int| 0 <= x < o0.len() && o0[x]@.1 == ks[y];
                            assert(out@[x] == o0[x]);
                        } else {
                            assert(out@[o0.len() as int]@.1 == ks[y]);
                        }
                    }
                }
            },
            _ => {
                proof {
                    assert forall|x: int| 0 <= x < out@.len() implies {
                        let rec = (#[trigger] out@[x])@;
                        !rec.0 ==> exists|y: int| 0 <= y < i + 1 && ks[y] == rec.1
                    } by {
                        if !out@[x]@.0 {
                            let y = choose|y: int| 0 <= y < i && ks[y] == out@[x]@.1;
                            assert(0 <= y < i + 1 && ks[y] == out@[x]@.1);
                        }
                    }
                }
            },
        }
        i = i + 1;
    }
    proof {
        assert forall|y: int| 0 <= y < n && jv[#[trigger] ks[y]] is Some implies exists|x: int|
            0 <= x < out@.len() && out@[x]@.1 == ks[y] by {
            if jv[ks[y]].unwrap() is Some {
            } else {
                assert(jv[ks[y]] == Some(None::<Seq<u8>>));
            }
        }
    }
}

/// The writes of `journal` as log records: appends first, then removes, each in key order.
fn batch_records(journal: &KeyMap<RwLog>) -> (out: Vec<LogRecord>)
    requires
        journal.wf(),
    ensures
        write_batch(Seq::new(out@.len(), |i: int| out@[i]@), journal@),
{
    let ghost jv = journal@;
    let ghost ks = journal.key_seq();
    let mut out = append_records(journal);
    push_remove_records(journal, &mut out);
    proof {
        journal.lemma_entries();
        let rv = Seq::new(out@.len(), |x: int| out@[x]@);
        assert forall|k: Seq<u8>| #[trigger] jv.contains_key(k) && jv[k] is Some implies exists|x: int|
            0 <= x < rv.len() && rv[x].1 == k by {
            let y = choose|y: int| 0 <= y < ks.len() && ks[y] == k;
            let x = choose|x: int| 0 <= x < out@.len() && out@[x]@.1 == ks[y];
            assert(rv[x].1 == k);
        }
        assert forall|x: int| 0 <= x < rv.len() implies {
            &&& jv.contains_key((#[trigger] rv[x]).1)
            &&& jv[rv[x].1] is Some
            &&& rv[x].0 == (jv[rv[x].1].unwrap() is Some)
            &&& rv[x].0 ==> rv[x].2 == jv[rv[x].1].unwrap().unwrap()
            &&& !rv[x].0 ==> rv[x].2 == Seq::<u8>::empty()
        } by {
            assert(rv[x] == out@[x]@);
        }
        assert forall|a: int, b: int| 0 <= a < b < rv.len() implies ((#[trigger] rv[a]).0 && !(#[trigger] rv[b]).0) || (rv[a].0 == rv[b].0
            && lex_lt(rv[a].1, rv[b].1)) by {
            assert(rv[a] == out@[a]@ && rv[b] == out@[b]@);
        }
    }
    out
}

/// A transaction that prepared and awaits commit or rollback, with its journal.
pub struct PreparedTxn {
    pub id: u128,
    pub journal: KeyMap<RwLog>,
}

/// One table's live view: the committed map, its version, and the journals
/// of the transactions that prepared on it.
pub struct LogFileTab {
    name: Vec<u8>,
    root: KeyMap<Stamped>,
    version: u64,
    prepared: Vec<PreparedTxn>,
    prepared_map: Ghost<Map<u128, Map<Seq<u8>, RwView>>>,
    statistics: Vec<SegmentStat>,
    history: Ghost<Map<u64, Map<Seq<u8>, (Seq<u8>, u64)>>>,
}

/// Whether a transaction's entry collides with another prepared entry for the
/// same key: it does when the other transaction writes the key.
pub open spec fn rw_clash(ours: RwView, theirs: RwView) -> bool {
    theirs is Some
}

/// The writes of a journal, reads left out.
pub open spec fn writes_of(j: Map<Seq<u8>, RwView>) -> Map<Seq<u8>, Option<Seq<u8>>> {
    Map::new(|k: Seq<u8>| j.contains_key(k) && j[k] is Some, |k: Seq<u8>| j[k].unwrap())
}

/// Whether some other prepared transaction holds an entry for `k` that clashes with `ours`.
pub open spec fn clashes_with_prepared(p: Map<u128, Map<Seq<u8>, RwView>>, id: u128, k: Seq<u8>, ours: RwView) -> bool {
    exists|other: u128| #[trigger] p.contains_key(other) && other != id && p[other].contains_key(k) && rw_clash(ours, p[other][k])
}

/// The writes of journal `j` as log records: every write once, the appends
/// first, each group in ascending key order.
pub open spec fn write_batch(r: Seq<RecordView>, j: Map<Seq<u8>, RwView>) -> bool {
    &&& forall|i: int| 0 <= i < r.len() ==> {
        &&& j.contains_key((#[trigger] r[i]).1)
        &&& j[r[i].1] is Some
        &&& r[i].0 == (j[r[i].1].unwrap() is Some)
        &&& r[i].0 ==> r[i].2 == j[r[i].1].unwrap().unwrap()
        &&& !r[i].0 ==> r[i].2 == Seq::<u8>::empty()
    }
    &&& forall|k: Seq<u8>| #[trigger] j.contains_key(k) && j[k] is Some ==> exists|i: int| 0 <= i < r.len() && r[i].1 == k
    &&& forall|a: int, b: int| 0 <= a < b < r.len() ==> ((#[trigger] r[a]).0 && !(#[trigger] r[b]).0) || (r[a].0 == r[b].0
        && lex_lt(r[a].1, r[b].1))
}

impl LogFileTab {
    /// The committed entries with their stamps.
    pub closed spec fn entries(&self) -> Map<Seq<u8>, (Seq<u8>, u64)> {
        self.root@
    }

    /// The committed contents.
    pub open spec fn contents(&self) -> Map<Seq<u8>, Seq<u8>> {
        contents_of(self.entries())
    }

    /// The number of commits installed since the table was opened.
    pub closed spec fn ver(&self) -> u64 {
        self.version
    }

    /// The journals of the prepared transactions, by transaction id.
    pub closed spec fn prepared_view(&self) -> Map<u128, Map<Seq<u8>, RwView>> {
        self.prepared_map@
    }

    /// Every version the table went through, with its entries.
    pub closed spec fn history(&self) -> Map<u64, Map<Seq<u8>, (Seq<u8>, u64)>> {
        self.history@
    }

    pub closed spec fn name_view(&self) -> Seq<u8> {
        self.name@
    }

    pub closed spec fn stats(&self) -> Seq<SegmentStat> {
        self.statistics@
    }

    pub closed spec fn wf(&self) -> bool {
        &&& self.root.wf()
        &&& forall|i: int| 0 <= i < self.prepared@.len() ==> {
            &&& (#[trigger] self.prepared@[i]).journal.wf()
            &&& self.prepared_map@.contains_key(self.prepared@[i].id)
            &&& self.prepared_map@[self.prepared@[i].id] == self.prepared@[i].journal@
        }
        &&& forall|i: int, j: int| 0 <= i < j < self.prepared@.len() ==> (#[trigger] self.prepared@[i]).id
            != (#[trigger] self.prepared@[j]).id
        &&& forall|id: u128| #[trigger] self.prepared_map@.contains_key(id) ==> exists|i: int|
            0 <= i < self.prepared@.len() && self.prepared@[i].id == id
        &&& self.history@.contains_key(self.version)
        &&& self.history@[self.version] == self.root@
        &&& forall|v: u64| #[trigger] self.history@.contains_key(v) ==> v <= self.version
    }

    /// Every version recorded in `old` is recorded here with the same entries.
    pub open spec fn extends(&self, old: &LogFileTab) -> bool {
        forall|v: u64| #[trigger] old.history().contains_key(v) ==> self.history().contains_key(v)
            && self.history()[v] == old.history()[v]
    }

    /// A table named `name` whose committed contents are `live`, every entry
    /// stamped with version zero, with the replay statistics `stats`.
    pub fn from_live(name: Vec<u8>, live: &KeyMap<Vec<u8>>, stats: Vec<SegmentStat>) -> (r: LogFileTab)
        requires
            live.wf(),
        ensures
            r.wf(),
            r.contents() == live@,
            r.ver() == 0,
            r.prepared_view() == Map::<u128, Map<Seq<u8>, RwView>>::empty(),
            r.name_view() == name@,
            r.stats() == stats@,
    {
        let mut root: KeyMap<Stamped> = KeyMap::new();
        let n = live.len();
        let mut i: usize = 0;
        proof {
            live.lemma_entries();
        }
        while i < n
            invariant
                live.wf(),
                root.wf(),
                n == live.key_seq().len(),
                i <= n,
                contents_of(root@) == Map::new(
                    |k: Seq<u8>| exists|j: int| 0 <= j < i && live.key_seq()[j] == k,
                    |k: Seq<u8>| live@[k],
                ),
            decreases n - i,
        {
            let k = live.key_at(i);
            let v = live.val_at(i);
            let ghost before = contents_of(root@);
            root.upsert(copy_bytes(k), Stamped { bytes: copy_bytes(v), stamp: 0 });
            proof {
                live.lemma_entries();
                let kk = live.key_seq()[i as int];
                assert(live@.contains_key(kk));
                assert(contents_of(root@) =~= before.insert(kk, live@[kk]));
                assert(contents_of(root@) =~= Map::new(
                    |k: Seq<u8>| exists|j: int| 0 <= j < i + 1 && live.key_seq()[j] == k,
                    |k: Seq<u8>| live@[k],
                )) by {
                    assert forall|q: Seq<u8>| (exists|j: int| 0 <= j < i + 1 && live.key_seq()[j] == q) implies
                        contents_of(root@).contains_key(q) by {
                        let j = choose|j: int| 0 <= j < i + 1 && live.key_seq()[j] == q;
                        if j < i {
                            assert(before.contains_key(q));
                        }
                    }
                    assert forall|q: Seq<u8>| #[trigger] contents_of(root@).contains_key(q) implies
                        (exists|j: int| 0 <= j < i + 1 && live.key_seq()[j] == q) by {
                        if q != kk {
                            assert(before.contains_key(q));
                            let j = choose|j: int| 0 <= j < i && live.key_seq()[j] == q;
                            assert(0 <= j < i + 1 && live.key_seq()[j] == q);
                        }
                    }
                }
            }
            i = i + 1;
        }
        proof {
            live.lemma_entries();
            assert(contents_of(root@) =~= live@);
        }
        let ghost h = Map::<u64, Map<Seq<u8>, (Seq<u8>, u64)>>::empty().insert(0, root@);
        LogFileTab {
            name,
            root,
            version: 0,
            prepared: Vec::new(),
            prepared_map: Ghost(Map::empty()),
            statistics: stats,
            history: Ghost(h),
        }
    }

    /// The number of committed entries.
    pub fn size(&self) -> (r: usize)
        requires
            self.wf(),
        ensures
            r == self.contents().len(),
    {
        proof {
            assert(self.contents().dom() =~= self.entries().dom());
        }
        self.root.len()
    }

    /// The number of commits installed since the table was opened.
    pub fn version(&self) -> (r: u64)
        ensures
            r == self.ver(),
    {
        self.version
    }

    /// The table's name.
    pub fn name(&self) -> (r: &Vec<u8>)
        ensures
            r@ == self.name_view(),
    {
        &self.name
    }

    /// Replaces the replay statistics, after a compaction rescanned the log.
    pub fn set_statistics(&mut self, stats: Vec<SegmentStat>)
        requires
            old(self).wf(),
        ensures
            final(self).wf(),
            final(self).stats() == stats@,
            final(self).entries() == old(self).entries(),
            final(self).ver() == old(self).ver(),
            final(self).prepared_view() == old(self).prepared_view(),
            final(self).history() == old(self).history(),
            final(self).name_view() == old(self).name_view(),
    {
        let ghost ps = self.prepared@;
        let ghost pm = self.prepared_map@;
        proof {
            assert(forall|id: u128| #[trigger] pm.contains_key(id) ==> exists|i: int|
                0 <= i < ps.len() && ps[i].id == id);
        }
        self.statistics = stats;
        proof {
            assert(self.prepared@ == ps && self.prepared_map@ == pm);
        }
    }

    /// The replay statistics of the table's own cold segments.
    pub fn statistics(&self) -> (r: &Vec<SegmentStat>)
        ensures
            r@ == self.stats(),
    {
        &self.statistics
    }

    /// Lists the committed entries in range, in key order.
    pub fn iter(&self, start: Option<&Vec<u8>>, descending: bool) -> (r: Vec<(Vec<u8>, Vec<u8>)>)
        requires
            self.wf(),
        ensures
            ordered_listing(
                Seq::new(r@.len(), |i: int| (r@[i].0@, r@[i].1@)),
                self.contents(),
                match start { Some(s) => Some(s@), None => None },
                descending,
            ),
    {
        list_entries(&self.root, start, descending)
    }

    /// Begins a transaction on the current committed map.
    pub fn transaction(&self, id: u128, writable: bool) -> (r: FileMemTxn)
        requires
            self.wf(),
        ensures
            r.wf(),
            r.begun_on(self),
            r.txn_id() == id,
            r.is_writable() == writable,
            r.snapshot_entries() == self.entries(),
            r.snapshot_ver() == self.ver(),
            r.working_contents() == self.contents(),
            r.journal_view() == Map::<Seq<u8>, RwView>::empty(),
            r.writes_view() == Map::<Seq<u8>, RwView>::empty(),
            r.state() == TxState::Active,
    {
        proof {
            assert(apply_writes(self.root@, Map::<Seq<u8>, RwView>::empty(), 0) =~= self.root@);
        }
        FileMemTxn {
            id,
            writable,
            snapshot: copy_root(&self.root),
            snapshot_version: self.version,
            working: copy_root(&self.root),
            journal: KeyMap::new(),
            writes: Ghost(Map::empty()),
            state: TxState::Active,
        }
    }

    fn find_prepared(&self, id: u128) -> (r: Option<usize>)
        requires
            self.wf(),
        ensures
            r is Some ==> r.unwrap() < self.prepared@.len() && self.prepared@[r.unwrap() as int].id == id,
            r is None ==> !self.prepared_view().contains_key(id),
    {
        let mut i: usize = 0;
        while i < self.prepared.len()
            invariant
                self.wf(),
                i <= self.prepared@.len(),
                forall|j: int| 0 <= j < i ==> (#[trigger] self.prepared@[j]).id != id,
            decreases self.prepared.len() - i,
        {
            if self.prepared[i].id == id {
                return Some(i);
            }
            i = i + 1;
        }
        None
    }
}

impl LogFileTab {
    /// Removes the prepared journal of transaction `id` from the prepare set.
    fn take_prepared(&mut self, id: u128) -> (r: Option<KeyMap<RwLog>>)
        requires
            old(self).wf(),
        ensures
            final(self).wf(),
            r is Some == old(self).prepared_view().contains_key(id),
            r is Some ==> r.unwrap().wf() && r.unwrap()@ == old(self).prepared_view()[id],
            final(self).prepared_view() == old(self).prepared_view().remove(id),
            final(self).root == old(self).root,
            final(self).version == old(self).version,
            final(self).history == old(self).history,
            final(self).name == old(self).name,
            final(self).statistics == old(self).statistics,
    {
        match self.find_prepared(id) {
            None => {
                proof {
                    assert(self.prepared_map@.remove(id) =~= self.prepared_map@);
                }
                None
            },
            Some(q) => {
                let ghost pm = self.prepared_map@;
                let ghost old_prepared = self.prepared@;
                let e = self.prepared.remove(q);
                self.prepared_map = Ghost(pm.remove(id));
                proof {
                    assert(old_prepared[q as int] == e);
                    assert forall|a: int| 0 <= a < self.prepared@.len() implies {
                        &&& (#[trigger] self.prepared@[a]).journal.wf()
                        &&& self.prepared_map@.contains_key(self.prepared@[a].id)
                        &&& self.prepared_map@[self.prepared@[a].id] == self.prepared@[a].journal@
                    } by {
                        if a < q {
                            assert(self.prepared@[a] == old_prepared[a]);
                            assert(old_prepared[a].id != old_prepared[q as int].id);
                        } else {
                            assert(self.prepared@[a] == old_prepared[a + 1]);
                            assert(old_prepared[a + 1].id != old_prepared[q as int].id);
                        }
                    }
                    assert forall|a: int, b: int| 0 <= a < b < self.prepared@.len() implies (#[trigger] self.prepared@[a]).id
                        != (#[trigger] self.prepared@[b]).id by {
                        let a2 = if a < q { a } else { a + 1 };
                        let b2 = if b < q { b } else { b + 1 };
                        assert(self.prepared@[a] == old_prepared[a2]);
                        assert(self.prepared@[b] == old_prepared[b2]);
                        assert(old_prepared[a2].id != old_prepared[b2].id);
                    }
                    assert forall|x: u128| #[trigger] self.prepared_map@.contains_key(x) implies exists|a: int|
                        0 <= a < self.prepared@.len() && self.prepared@[a].id == x by {
                        let a = choose|a: int| 0 <= a < old_prepared.len() && old_prepared[a].id == x;
                        assert(a != q);
                        if a < q {
                            assert(self.prepared@[a].id == x);
                        } else {
                            assert(self.prepared@[a - 1].id == x);
                        }
                    }
                }
                Some(e.journal)
            },
        }
    }
}

/// A snapshot transaction on one table: reads and writes go to a working copy
/// of the map taken at begin, and are recorded in a journal.
pub struct FileMemTxn {
    id: u128,
    writable: bool,
    snapshot: KeyMap<Stamped>,
    snapshot_version: u64,
    working: KeyMap<Stamped>,
    journal: KeyMap<RwLog>,
    writes: Ghost<Map<Seq<u8>, RwView>>,
    state: TxState,
}

/// The journal after a read of `k`: a writable transaction journals a key it had not journaled.
pub open spec fn mark_read(j: Map<Seq<u8>, RwView>, k: Seq<u8>, writable: bool) -> Map<Seq<u8>, RwView> {
    if writable && !j.contains_key(k) {
        j.insert(k, None)
    } else {
        j
    }
}

/// The journal after reads of the keys `ks`, in order.
pub open spec fn mark_reads(j: Map<Seq<u8>, RwView>, ks: Seq<Seq<u8>>, writable: bool) -> Map<Seq<u8>, RwView>
    decreases ks.len(),
{
    if ks.len() == 0 {
        j
    } else {
        mark_reads(mark_read(j, ks[0], writable), ks.drop_first(), writable)
    }
}

/// A write of a batch: a value to store, or `None` to delete.
pub type WriteView = (Seq<u8>, Option<Seq<u8>>);

/// The contents after the writes `s`, in order.
pub open spec fn write_contents(m: Map<Seq<u8>, Seq<u8>>, s: Seq<WriteView>) -> Map<Seq<u8>, Seq<u8>>
    decreases s.len(),
{
    if s.len() == 0 {
        m
    } else {
        write_contents(
            match s[0].1 {
                Some(v) => m.insert(s[0].0, v),
                None => m.remove(s[0].0),
            },
            s.drop_first(),
        )
    }
}

/// The journal after the writes `s`, in order.
pub open spec fn write_journal(j: Map<Seq<u8>, RwView>, s: Seq<WriteView>) -> Map<Seq<u8>, RwView>
    decreases s.len(),
{
    if s.len() == 0 {
        j
    } else {
        write_journal(j.insert(s[0].0, Some(s[0].1)), s.drop_first())
    }
}

/// Whether `k` conflicts for transaction `txn` on table `tab`: `txn` journaled
/// it, and another prepared transaction holds a clashing entry, or the table
/// moved since the snapshot and the entry of `k` is no longer the same write.
pub open spec fn conflicts(tab: &LogFileTab, txn: &FileMemTxn, k: Seq<u8>) -> bool {
    &&& txn.journal_view().contains_key(k)
    &&& clashes_with_prepared(tab.prepared_view(), txn.txn_id(), k, txn.journal_view()[k]) || (tab.ver()
        != txn.snapshot_ver() && !same_entry(tab.entries(), txn.snapshot_entries(), k))
}

impl FileMemTxn {
    pub closed spec fn txn_id(&self) -> u128 {
        self.id
    }

    pub closed spec fn is_writable(&self) -> bool {
        self.writable
    }

    /// The committed entries the transaction started from.
    pub closed spec fn snapshot_entries(&self) -> Map<Seq<u8>, (Seq<u8>, u64)> {
        self.snapshot@
    }

    /// The table version the transaction started from.
    pub closed spec fn snapshot_ver(&self) -> u64 {
        self.snapshot_version
    }

    /// What the transaction reads: the snapshot with its own writes.
    pub closed spec fn working_contents(&self) -> Map<Seq<u8>, Seq<u8>> {
        contents_of(self.working@)
    }

    pub closed spec fn journal_view(&self) -> Map<Seq<u8>, RwView> {
        self.journal@
    }

    pub closed spec fn state(&self) -> TxState {
        self.state
    }

    /// Every write the transaction made since it began, prepared or not.
    pub closed spec fn writes_view(&self) -> Map<Seq<u8>, RwView> {
        self.writes@
    }

    /// The working map is always the snapshot with the transaction's writes.
    pub closed spec fn wf(&self) -> bool {
        &&& self.snapshot.wf() && self.working.wf() && self.journal.wf()
        &&& contents_of(self.working@) == contents_of(apply_writes(self.snapshot@, self.writes@, 0))
        &&& forall|k: Seq<u8>| #[trigger] self.writes@.contains_key(k) ==> self.writes@[k] is Some
    }

    /// What the transaction sees is its snapshot with its writes.
    pub proof fn lemma_working(&self)
        requires
            self.wf(),
        ensures
            self.working_contents() == contents_of(apply_writes(self.snapshot_entries(), self.writes_view(), 0)),
            writes_of(self.writes_view()) == Map::new(
                |k: Seq<u8>| self.writes_view().contains_key(k),
                |k: Seq<u8>| self.writes_view()[k].unwrap(),
            ),
    {
        assert(writes_of(self.writes@) =~= Map::new(
            |k: Seq<u8>| self.writes@.contains_key(k),
            |k: Seq<u8>| self.writes@[k].unwrap(),
        ));
    }

    /// Whether the transaction's snapshot is a version that `tab` went through.
    pub open spec fn begun_on(&self, tab: &LogFileTab) -> bool {
        tab.history().contains_key(self.snapshot_ver()) && tab.history()[self.snapshot_ver()] == self.snapshot_entries()
    }

    /// The state of the transaction.
    pub fn get_state(&self) -> (r: TxState)
        ensures
            r == self.state(),
    {
        self.state
    }

    /// Reads `key`. A writable transaction journals the read unless the key is journaled already.
    pub fn get(&mut self, key: &Vec<u8>) -> (r: Option<Vec<u8>>)
        requires
            old(self).wf(),
        ensures
            final(self).wf(),
            r is Some == old(self).working_contents().contains_key(key@),
            r is Some ==> r.unwrap()@ == old(self).working_contents()[key@],
            final(self).journal_view() == if old(self).is_writable() && !old(self).journal_view().contains_key(key@) {
                old(self).journal_view().insert(key@, None)
            } else {
                old(self).journal_view()
            },
            final(self).working_contents() == old(self).working_contents(),
            final(self).writes_view() == old(self).writes_view(),
            final(self).snapshot_entries() == old(self).snapshot_entries(),
            final(self).snapshot_ver() == old(self).snapshot_ver(),
            final(self).txn_id() == old(self).txn_id(),
            final(self).is_writable() == old(self).is_writable(),
            final(self).state() == old(self).state(),
    {
        if self.writable && !self.journal.contains_key(key) {
            self.journal.upsert(copy_bytes(key), RwLog::Read);
        }
        match self.working.get(key) {
            Some(v) => Some(copy_bytes(&v.bytes)),
            None => None,
        }
    }

    /// Writes `value` under `key`.
    pub fn upsert(&mut self, key: Vec<u8>, value: Vec<u8>)
        requires
            old(self).wf(),
        ensures
            final(self).wf(),
            final(self).working_contents() == old(self).working_contents().insert(key@, value@),
            final(self).journal_view() == old(self).journal_view().insert(key@, Some(Some(value@))),
            final(self).writes_view() == old(self).writes_view().insert(key@, Some(Some(value@))),
            final(self).snapshot_entries() == old(self).snapshot_entries(),
            final(self).snapshot_ver() == old(self).snapshot_ver(),
            final(self).txn_id() == old(self).txn_id(),
            final(self).is_writable() == old(self).is_writable(),
            final(self).state() == old(self).state(),
    {
        let ghost w0 = self.working@;
        let k2 = copy_bytes(&key);
        let v2 = copy_bytes(&value);
        let ghost wr = self.writes@;
        self.working.upsert(key, Stamped { bytes: value, stamp: self.snapshot_version });
        self.journal.upsert(k2, RwLog::Write(Some(v2)));
        self.writes = Ghost(wr.insert(key@, Some(Some(value@))));
        proof {
            assert(contents_of(self.working@) =~= contents_of(w0).insert(key@, value@));
            assert(contents_of(apply_writes(self.snapshot@, self.writes@, 0)) =~= contents_of(
                apply_writes(self.snapshot@, wr, 0),
            ).insert(key@, value@));
        }
    }

    /// Deletes `key`.
    pub fn delete(&mut self, key: &Vec<u8>)
        requires
            old(self).wf(),
        ensures
            final(self).wf(),
            final(self).working_contents() == old(self).working_contents().remove(key@),
            final(self).journal_view() == old(self).journal_view().insert(key@, Some(None)),
            final(self).writes_view() == old(self).writes_view().insert(key@, Some(None)),
            final(self).snapshot_entries() == old(self).snapshot_entries(),
            final(self).snapshot_ver() == old(self).snapshot_ver(),
            final(self).txn_id() == old(self).txn_id(),
            final(self).is_writable() == old(self).is_writable(),
            final(self).state() == old(self).state(),
    {
        let ghost w0 = self.working@;
        let ghost wr = self.writes@;
        self.working.remove(key);
        self.journal.upsert(copy_bytes(key), RwLog::Write(None));
        self.writes = Ghost(wr.insert(key@, Some(None)));
        proof {
            assert(contents_of(self.working@) =~= contents_of(w0).remove(key@));
            assert(contents_of(apply_writes(self.snapshot@, self.writes@, 0)) =~= contents_of(
                apply_writes(self.snapshot@, wr, 0),
            ).remove(key@));
        }
    }

    /// The number of entries the transaction sees.
    pub fn tab_size(&self) -> (r: usize)
        requires
            self.wf(),
        ensures
            r == self.working_contents().len(),
    {
        proof {
            assert(self.working_contents().dom() =~= self.working@.dom());
        }
        self.working.len()
    }

    /// Lists the entries the transaction sees in range, in key order.
    pub fn iter(&self, start: Option<&Vec<u8>>, descending: bool) -> (r: Vec<(Vec<u8>, Vec<u8>)>)
        requires
            self.wf(),
        ensures
            ordered_listing(
                Seq::new(r@.len(), |i: int| (r@[i].0@, r@[i].1@)),
                self.working_contents(),
                match start { Some(s) => Some(s@), None => None },
                descending,
            ),
    {
        list_entries(&self.working, start, descending)
    }

    /// Reads each of `keys` in order, as `get` does.
    pub fn query(&mut self, keys: &Vec<Vec<u8>>) -> (r: Vec<Option<Vec<u8>>>)
        requires
            old(self).wf(),
        ensures
            final(self).wf(),
            r@.len() == keys@.len(),
            forall|i: int| 0 <= i < keys@.len() ==> {
                &&& (#[trigger] r@[i]) is Some == old(self).working_contents().contains_key(keys@[i]@)
                &&& r@[i] is Some ==> r@[i].unwrap()@ == old(self).working_contents()[keys@[i]@]
            },
            final(self).journal_view() == mark_reads(
                old(self).journal_view(),
                Seq::new(keys@.len(), |i: int| keys@[i]@),
                old(self).is_writable(),
            ),
            final(self).working_contents() == old(self).working_contents(),
            final(self).snapshot_entries() == old(self).snapshot_entries(),
            final(self).snapshot_ver() == old(self).snapshot_ver(),
            final(self).txn_id() == old(self).txn_id(),
            final(self).is_writable() == old(self).is_writable(),
            final(self).state() == old(self).state(),
    {
        let ghost all = Seq::new(keys@.len(), |i: int| keys@[i]@);
        let ghost w = self.writable;
        let mut out: Vec<Option<Vec<u8>>> = Vec::new();
        let mut i: usize = 0;
        proof {
            assert(all.subrange(0, all.len() as int) =~= all);
        }
        while i < keys.len()
            invariant
                self.wf(),
                i <= keys@.len(),
                out@.len() == i,
                all == Seq::new(keys@.len(), |i: int| keys@[i]@),
                w == self.is_writable(),
                w == old(self).is_writable(),
                mark_reads(old(self).journal_view(), all, w) == mark_reads(self.journal_view(), all.subrange(i as int, all.len() as int), w),
                self.working_contents() == old(self).working_contents(),
                self.snapshot_entries() == old(self).snapshot_entries(),
                self.snapshot_ver() == old(self).snapshot_ver(),
                self.txn_id() == old(self).txn_id(),
                self.state() == old(self).state(),
                forall|j: int| 0 <= j < i ==> {
                    &&& (#[trigger] out@[j]) is Some == old(self).working_contents().contains_key(keys@[j]@)
                    &&& out@[j] is Some ==> out@[j].unwrap()@ == old(self).working_contents()[keys@[j]@]
                },
            decreases keys.len() - i,
        {
            let ghost rest = all.subrange(i as int, all.len() as int);
            proof {
                assert(rest[0] == keys@[i as int]@);
                assert(rest.drop_first() =~= all.subrange(i + 1, all.len() as int));
            }
            let v = self.get(&keys[i]);
            out.push(v);
            i = i + 1;
        }
        proof {
            assert(all.subrange(i as int, all.len() as int) =~= Seq::<Seq<u8>>::empty());
        }
        out
    }

    /// Applies the writes in order: a value is upserted, `None` deletes.
    pub fn modify(&mut self, writes: &Vec<(Vec<u8>, Option<Vec<u8>>)>)
        requires
            old(self).wf(),
        ensures
            final(self).wf(),
            final(self).working_contents() == write_contents(
                old(self).working_contents(),
                Seq::new(writes@.len(), |i: int| (writes@[i].0@, match writes@[i].1 { Some(v) => Some(v@), None => None })),
            ),
            final(self).journal_view() == write_journal(
                old(self).journal_view(),
                Seq::new(writes@.len(), |i: int| (writes@[i].0@, match writes@[i].1 { Some(v) => Some(v@), None => None })),
            ),
            final(self).snapshot_entries() == old(self).snapshot_entries(),
            final(self).snapshot_ver() == old(self).snapshot_ver(),
            final(self).txn_id() == old(self).txn_id(),
            final(self).is_writable() == old(self).is_writable(),
            final(self).state() == old(self).state(),
    {
        let ghost all = Seq::new(writes@.len(), |i: int| (writes@[i].0@, match writes@[i].1 { Some(v) => Some(v@), None => None }));
        let mut i: usize = 0;
        proof {
            assert(all.subrange(0, all.len() as int) =~= all);
        }
        while i < writes.len()
            invariant
                self.wf(),
                i <= writes@.len(),
                all == Seq::new(writes@.len(), |i: int| (writes@[i].0@, match writes@[i].1 { Some(v) => Some(v@), None => None })),
                write_contents(old(self).working_contents(), all) == write_contents(self.working_contents(), all.subrange(i as int, all.len() as int)),
                write_journal(old(self).journal_view(), all) == write_journal(self.journal_view(), all.subrange(i as int, all.len() as int)),
                self.snapshot_entries() == old(self).snapshot_entries(),
                self.snapshot_ver() == old(self).snapshot_ver(),
                self.txn_id() == old(self).txn_id(),
                self.is_writable() == old(self).is_writable(),
                self.state() == old(self).state(),
            decreases writes.len() - i,
        {
            let ghost rest = all.subrange(i as int, all.len() as int);
            proof {
                assert(rest[0] == all[i as int]);
                assert(rest.drop_first() =~= all.subrange(i + 1, all.len() as int));
            }
            let k = copy_bytes(&writes[i].0);
            match &writes[i].1 {
                Some(v) => self.upsert(k, copy_bytes(v)),
                None => self.delete(&k),
            }
            i = i + 1;
        }
        proof {
            assert(all.subrange(i as int, all.len() as int) =~= Seq::<WriteView>::empty());
        }
    }

    /// Lists the keys the transaction sees in range, in key order.
    pub fn key_iter(&self, start: Option<&Vec<u8>>, descending: bool) -> (r: Vec<Vec<u8>>)
        requires
            self.wf(),
        ensures
            ordered_keys(
                Seq::new(r@.len(), |i: int| r@[i]@),
                self.working_contents(),
                match start { Some(s) => Some(s@), None => None },
                descending,
            ),
    {
        let entries = list_entries(&self.working, start, descending);
        let ghost l = Seq::new(entries@.len(), |i: int| (entries@[i].0@, entries@[i].1@));
        let mut out: Vec<Vec<u8>> = Vec::new();
        let mut i: usize = 0;
        while i < entries.len()
            invariant
                i <= entries@.len(),
                out@.len() == i,
                l == Seq::new(entries@.len(), |i: int| (entries@[i].0@, entries@[i].1@)),
                forall|j: int| 0 <= j < i ==> (#[trigger] out@[j])@ == l[j].0,
            decreases entries.len() - i,
        {
            out.push(copy_bytes(&entries[i].0));
            i = i + 1;
        }
        proof {
            let r = Seq::new(out@.len(), |i: int| out@[i]@);
            assert forall|i: int, j: int| 0 <= i < j < r.len() implies (if descending {
                lex_lt(#[trigger] r[j], #[trigger] r[i])
            } else {
                lex_lt(r[i], r[j])
            }) by {
                assert(r[i] == l[i].0 && r[j] == l[j].0);
            }
            assert forall|k: Seq<u8>| #[trigger] self.working_contents().contains_key(k) && in_range(
                k,
                match start { Some(s) => Some(s@), None => None },
                descending,
            ) implies exists|i: int| 0 <= i < r.len() && r[i] == k by {
                let i = choose|i: int| 0 <= i < l.len() && l[i].0 == k;
                assert(r[i] == k);
            }
            assert forall|i: int| 0 <= i < r.len() implies self.working_contents().contains_key(#[trigger] r[i]) && in_range(
                r[i],
                match start { Some(s) => Some(s@), None => None },
                descending,
            ) by {
                assert(r[i] == l[i].0);
            }
        }
        out
    }

    /// Index iterators are not offered.
    pub fn index(&self) -> (r: Result<Vec<(Vec<u8>, Vec<u8>)>, DbError>)
        ensures
            r == Err::<Vec<(Vec<u8>, Vec<u8>)>, DbError>(DbError::NotImplemented),
    {
        Err(DbError::NotImplemented)
    }

    /// Prepares the transaction on `tab`: fails with a conflict on the first
    /// journaled key that conflicts; otherwise moves the journal into the
    /// table's prepare set.
    pub fn prepare_inner(&mut self, tab: &mut LogFileTab) -> (r: Result<(), DbError>)
        requires
            old(self).wf(),
            old(tab).wf(),
        ensures
            final(self).wf(),
            final(tab).wf(),
            final(tab).extends(old(tab)),
            r is Ok <==> !exists|k: Seq<u8>| #[trigger] conflicts(old(tab), old(self), k),
            r is Err ==> {
                &&& r->Err_0 is PrepareConflict
                &&& conflicts(old(tab), old(self), r->Err_0->PrepareConflict_key@)
                &&& final(self).journal_view() == old(self).journal_view()
                &&& final(tab).prepared_view() == old(tab).prepared_view()
                &&& final(self).state() == TxState::PreparedFail
            },
            r is Ok ==> {
                &&& final(tab).prepared_view() == old(tab).prepared_view().insert(old(self).txn_id(), old(self).journal_view())
                &&& final(self).journal_view() == Map::<Seq<u8>, RwView>::empty()
                &&& final(self).state() == TxState::PreparedOk
            },
            final(tab).entries() == old(tab).entries(),
            final(tab).ver() == old(tab).ver(),
            final(tab).history() == old(tab).history(),
            final(tab).name_view() == old(tab).name_view(),
            final(tab).stats() == old(tab).stats(),
            final(self).working_contents() == old(self).working_contents(),
            final(self).writes_view() == old(self).writes_view(),
            final(self).snapshot_entries() == old(self).snapshot_entries(),
            final(self).snapshot_ver() == old(self).snapshot_ver(),
            final(self).txn_id() == old(self).txn_id(),
            final(self).is_writable() == old(self).is_writable(),
    {
        proof {
            self.journal.lemma_entries();
        }
        let ghost ks = self.journal.key_seq();
        let n = self.journal.len();
        let moved = tab.version != self.snapshot_version;
        let mut i: usize = 0;
        while i < n
            invariant
                self.wf(),
                tab.wf(),
                *self == *old(self),
                *tab == *old(tab),
                n == ks.len(),
                ks == self.journal.key_seq(),
                moved == (tab.version != self.snapshot_version),
                i <= n,
                forall|j: int| 0 <= j < i ==> !conflicts(tab, self, #[trigger] ks[j]),
            decreases n - i,
        {
            let k = self.journal.key_at(i);
            let ours = self.journal.val_at(i);
            let our_write = match ours {
                RwLog::Read => false,
                RwLog::Write(_) => true,
            };
            proof {
                self.journal.lemma_entries();
                assert(self.journal@.contains_key(ks[i as int]));
            }
            let mut p: usize = 0;
            while p < tab.prepared.len()
                invariant
                    self.wf(),
                    tab.wf(),
                    *self == *old(self),
                    *tab == *old(tab),
                    ks == self.journal.key_seq(),
                    i < n,
                    n == ks.len(),
                    k@ == ks[i as int],
                    self.journal@.contains_key(k@),
                    our_write == (self.journal@[k@] is Some),
                    p <= tab.prepared@.len(),
                    forall|q: int| 0 <= q < p ==> {
                        let e = #[trigger] tab.prepared@[q];
                        e.id == self.id || !e.journal@.contains_key(k@) || !rw_clash(self.journal@[k@], e.journal@[k@])
                    },
                decreases tab.prepared.len() - p,
            {
                let e = &tab.prepared[p];
                if e.id != self.id {
                    match e.journal.get(k) {
                        Some(theirs) => {
                            let their_write = match theirs {
                                RwLog::Read => false,
                                RwLog::Write(_) => true,
                            };
                            if their_write {
                                proof {
                                    assert(tab.prepared_view().contains_key(e.id));
                                    assert(conflicts(tab, self, k@));
                                    assert(conflicts(old(tab), old(self), k@));
                                }
                                self.state = TxState::PreparedFail;
                                return Err(DbError::PrepareConflict { key: copy_bytes(k) });
                            }
                        },
                        None => {},
                    }
                }
                p = p + 1;
            }
            proof {
                assert(!clashes_with_prepared(tab.prepared_view(), self.id, k@, self.journal@[k@])) by {
                    if clashes_with_prepared(tab.prepared_view(), self.id, k@, self.journal@[k@]) {
                        let other = choose|other: u128| #[trigger] tab.prepared_view().contains_key(other) && other != self.id
                            && tab.prepared_view()[other].contains_key(k@) && rw_clash(self.journal@[k@], tab.prepared_view()[other][k@]);
                        let q = choose|q: int| 0 <= q < tab.prepared@.len() && tab.prepared@[q].id == other;
                        assert(tab.prepared@[q].journal@ == tab.prepared_view()[other]);
                    }
                }
            }
            if moved {
                let now = tab.root.get(k);
                let then = self.snapshot.get(k);
                let same = match (now, then) {
                    (None, None) => true,
                    (Some(a), Some(b)) => a.stamp == b.stamp,
                    _ => false,
                };
                if !same {
                    proof {
                        assert(conflicts(old(tab), old(self), k@));
                    }
                    self.state = TxState::PreparedFail;
                    return Err(DbError::PrepareConflict { key: copy_bytes(k) });
                }
            }
            i = i + 1;
        }
        proof {
            assert forall|k: Seq<u8>| !#[trigger] conflicts(old(tab), old(self), k) by {
                if self.journal@.contains_key(k) {
                    self.journal.lemma_entries();
                    let j = choose|j: int| 0 <= j < ks.len() && ks[j] == k;
                    assert(!conflicts(tab, self, ks[j]));
                }
            }
        }
        let mut journal: KeyMap<RwLog> = KeyMap::new();
        std::mem::swap(&mut journal, &mut self.journal);
        let ghost jv = journal@;
        let ghost pm = tab.prepared_map@;
        let ghost old_prepared = tab.prepared@;
        match tab.find_prepared(self.id) {
            Some(q) => {
                tab.prepared.set(q, PreparedTxn { id: self.id, journal });
                tab.prepared_map = Ghost(pm.insert(self.id, jv));
                proof {
                    assert forall|a: int| 0 <= a < tab.prepared@.len() implies {
                        &&& (#[trigger] tab.prepared@[a]).journal.wf()
                        &&& tab.prepared_map@.contains_key(tab.prepared@[a].id)
                        &&& tab.prepared_map@[tab.prepared@[a].id] == tab.prepared@[a].journal@
                    } by {
                        if a != q {
                            assert(tab.prepared@[a] == old_prepared[a]);
                            assert(old_prepared[a].id != old_prepared[q as int].id);
                        }
                    }
                    assert forall|a: int, b: int| 0 <= a < b < tab.prepared@.len() implies (#[trigger] tab.prepared@[a]).id
                        != (#[trigger] tab.prepared@[b]).id by {
                        assert(old_prepared[a].id != old_prepared[b].id);
                    }
                    assert forall|id: u128| #[trigger] tab.prepared_map@.contains_key(id) implies exists|a: int|
                        0 <= a < tab.prepared@.len() && tab.prepared@[a].id == id by {
                        if id != self.id {
                            let a = choose|a: int| 0 <= a < old_prepared.len() && old_prepared[a].id == id;
                            assert(tab.prepared@[a].id == id);
                        } else {
                            assert(tab.prepared@[q as int].id == id);
                        }
                    }
                }
            },
            None => {
                tab.prepared.push(PreparedTxn { id: self.id, journal });
                tab.prepared_map = Ghost(pm.insert(self.id, jv));
                proof {
                    let last = tab.prepared@.len() - 1;
                    assert forall|a: int| 0 <= a < tab.prepared@.len() implies {
                        &&& (#[trigger] tab.prepared@[a]).journal.wf()
                        &&& tab.prepared_map@.contains_key(tab.prepared@[a].id)
                        &&& tab.prepared_map@[tab.prepared@[a].id] == tab.prepared@[a].journal@
                    } by {
                        if a != last {
                            assert(tab.prepared@[a] == old_prepared[a]);
                            assert(pm.contains_key(old_prepared[a].id));
                        }
                    }
                    assert forall|a: int, b: int| 0 <= a < b < tab.prepared@.len() implies (#[trigger] tab.prepared@[a]).id
                        != (#[trigger] tab.prepared@[b]).id by {
                        if b == last {
                            assert(pm.contains_key(old_prepared[a].id));
                        } else {
                            assert(old_prepared[a].id != old_prepared[b].id);
                        }
                    }
                    assert forall|id: u128| #[trigger] tab.prepared_map@.contains_key(id) implies exists|a: int|
                        0 <= a < tab.prepared@.len() && tab.prepared@[a].id == id by {
                        if id != self.id {
                            let a = choose|a: int| 0 <= a < old_prepared.len() && old_prepared[a].id == id;
                            assert(tab.prepared@[a].id == id);
                        } else {
                            assert(tab.prepared@[last].id == id);
                        }
                    }
                }
            },
        }
        self.state = TxState::PreparedOk;
        Ok(())
    }

    /// Commits the prepared journal into `tab`: its writes are folded into the
    /// committed map under a new version, and returned as the log records to
    /// append, appends first.
    pub fn commit_inner(&mut self, tab: &mut LogFileTab) -> (r: Result<Vec<LogRecord>, DbError>)
        requires
            old(self).wf(),
            old(tab).wf(),
            old(tab).ver() < u64::MAX,
        ensures
            final(self).wf(),
            final(tab).wf(),
            final(tab).extends(old(tab)),
            final(tab).name_view() == old(tab).name_view(),
            final(tab).stats() == old(tab).stats(),
            final(self).txn_id() == old(self).txn_id(),
            !old(tab).prepared_view().contains_key(old(self).txn_id()) ==> {
                &&& r == Err::<Vec<LogRecord>, DbError>(DbError::PrepareMissing)
                &&& final(tab).entries() == old(tab).entries()
                &&& final(tab).ver() == old(tab).ver()
                &&& final(tab).prepared_view() == old(tab).prepared_view()
                &&& final(self).state() == TxState::CommitFailed
            },
            old(tab).prepared_view().contains_key(old(self).txn_id()) ==> {
                let j = old(tab).prepared_view()[old(self).txn_id()];
                &&& r is Ok
                &&& final(tab).entries() == apply_writes(old(tab).entries(), j, (old(tab).ver() + 1) as u64)
                &&& final(tab).ver() == old(tab).ver() + 1
                &&& final(tab).prepared_view() == old(tab).prepared_view().remove(old(self).txn_id())
                &&& write_batch(Seq::new(r->Ok_0@.len(), |i: int| r->Ok_0@[i]@), j)
                &&& final(self).state() == TxState::Committing
                &&& (old(tab).ver() == old(self).snapshot_ver() && old(self).begun_on(old(tab)) && writes_of(j)
                    == writes_of(old(self).writes_view())) ==> final(tab).contents() == old(self).working_contents()
            },
            final(self).working_contents() == old(self).working_contents(),
            final(self).writes_view() == old(self).writes_view(),
    {
        let journal = match tab.take_prepared(self.id) {
            None => {
                self.state = TxState::CommitFailed;
                return Err(DbError::PrepareMissing);
            },
            Some(j) => j,
        };
        let newver = tab.version + 1;
        let ghost h = tab.history@;
        let ghost ps = tab.prepared@;
        let ghost pm = tab.prepared_map@;
        proof {
            assert(forall|id: u128| #[trigger] pm.contains_key(id) ==> exists|i: int|
                0 <= i < ps.len() && ps[i].id == id);
        }
        let ghost r0 = tab.root@;
        let ghost jv = journal@;
        fold_writes(&mut tab.root, &journal, newver);
        proof {
            if old(tab).ver() == old(self).snapshot_ver() && old(self).begun_on(old(tab)) && writes_of(jv)
                == writes_of(self.writes@) {
                assert(r0 == self.snapshot@);
                let a = contents_of(tab.root@);
                let b = contents_of(apply_writes(self.snapshot@, self.writes@, 0));
                assert forall|k: Seq<u8>| #![trigger a.contains_key(k)] #![trigger b.contains_key(k)] a.contains_key(k)
                    == b.contains_key(k) && (a.contains_key(k) ==> a[k] == b[k]) by {
                    assert(writes_of(jv).contains_key(k) == writes_of(self.writes@).contains_key(k));
                    if writes_of(jv).contains_key(k) {
                        assert(writes_of(jv)[k] == writes_of(self.writes@)[k]);
                    }
                }
                assert(a =~= b);
            }
        }
        tab.version = newver;
        tab.history = Ghost(h.insert(newver, tab.root@));
        proof {
            assert forall|v: u64| #[trigger] tab.history@.contains_key(v) implies v <= tab.version by {
                if v != newver {
                    assert(h.contains_key(v));
                }
            }
            assert(tab.prepared@ == ps && tab.prepared_map@ == pm);
            assert forall|v: u64| #[trigger] h.contains_key(v) implies tab.history@.contains_key(v)
                && tab.history@[v] == h[v] by {
                assert(v <= newver - 1);
            }
        }
        let out = batch_records(&journal);
        self.state = TxState::Committing;
        Ok(out)
    }

    /// Records whether the records a commit returned became durable: only then
    /// is the transaction committed.
    pub fn finish_commit(&mut self, durable: bool)
        requires
            old(self).wf(),
        ensures
            final(self).wf(),
            final(self).state() == if durable { TxState::Committed } else { TxState::CommitFailed },
            final(self).txn_id() == old(self).txn_id(),
            final(self).journal_view() == old(self).journal_view(),
            final(self).working_contents() == old(self).working_contents(),
            final(self).writes_view() == old(self).writes_view(),
    {
        self.state = if durable { TxState::Committed } else { TxState::CommitFailed };
    }

    /// Rolls the transaction back: drops its prepared journal from `tab`, if
    /// any, and its own journal.
    pub fn rollback_inner(&mut self, tab: &mut LogFileTab) -> (r: Result<(), DbError>)
        requires
            old(self).wf(),
            old(tab).wf(),
        ensures
            r is Ok,
            final(self).wf(),
            final(tab).wf(),
            final(tab).prepared_view() == old(tab).prepared_view().remove(old(self).txn_id()),
            final(tab).entries() == old(tab).entries(),
            final(tab).ver() == old(tab).ver(),
            final(tab).history() == old(tab).history(),
            final(tab).name_view() == old(tab).name_view(),
            final(tab).stats() == old(tab).stats(),
            final(self).journal_view() == Map::<Seq<u8>, RwView>::empty(),
            final(self).txn_id() == old(self).txn_id(),
            final(self).state() == TxState::Rollbacked,
            final(self).writes_view() == old(self).writes_view(),
    {
        let _ = tab.take_prepared(self.id);
        self.journal = KeyMap::new();
        self.state = TxState::Rollbacked;
        Ok(())
    }
}

/// A transaction that journaled `k` cannot prepare when the entry of `k` in
/// the table is no longer the write its snapshot saw: whatever committed in
/// between, the key conflicts.
pub proof fn lemma_snapshot_isolation(tab: &LogFileTab, txn: &FileMemTxn, k: Seq<u8>)
    requires
        tab.wf(),
        txn.begun_on(tab),
        txn.journal_view().contains_key(k),
        !same_entry(tab.entries(), txn.snapshot_entries(), k),
    ensures
        conflicts(tab, txn, k),
{
}

} // verus!

//! The meta-table: every table's schema, fork parent, cutoff segment and fork count.
use vstd::prelude::*;
use crate::bytes::copy_bytes;
use crate::error::DbError;
use crate::keymap::KeyMap;

verus! {

/// What the meta-table records of one table.
#[derive(Debug)]
pub struct TableMetaInfo {
    pub schema: Vec<u8>,
    pub parent: Option<Vec<u8>>,
    pub parent_segment_id: Option<u64>,
    pub ref_count: u64,
}

/// Schema, parent, the parent's cutoff segment, and the number of forks.
pub type MetaView = (Seq<u8>, Option<Seq<u8>>, Option<u64>, u64);

impl View for TableMetaInfo {
    type V = MetaView;

    open spec fn view(&self) -> MetaView {
        (
            self.schema@,
            match self.parent {
                Some(p) => Some(p@),
                None => None,
            },
            self.parent_segment_id,
            self.ref_count,
        )
    }
}

fn copy_meta(m: &TableMetaInfo) -> (r: TableMetaInfo)
    ensures
        r@ == m@,
{
    TableMetaInfo {
        schema: copy_bytes(&m.schema),
        parent: match &m.parent {
            Some(p) => Some(copy_bytes(p)),
            None => None,
        },
        parent_segment_id: m.parent_segment_id,
        ref_count: m.ref_count,
    }
}

/// Whether `f` is the highest cutoff that a fork of `name` records in `m`
/// (`None` when no fork of `name` records one).
pub open spec fn is_fork_floor(m: Map<Seq<u8>, MetaView>, name: Seq<u8>, f: Option<u64>) -> bool {
    &&& f is None <==> !exists|k: Seq<u8>| #[trigger] m.contains_key(k) && m[k].1 == Some(name) && m[k].2 is Some
    &&& f is Some ==> exists|k: Seq<u8>| #[trigger] m.contains_key(k) && m[k].1 == Some(name) && m[k].2 == f
    &&& f is Some ==> forall|k: Seq<u8>| #[trigger] m.contains_key(k) && m[k].1 == Some(name) && m[k].2 is Some
        ==> m[k].2.unwrap() <= f.unwrap()
}

/// A change of the meta-table to persist: the entry now recorded under
/// `name`, or `None` when the entry was removed.
#[derive(Debug)]
pub struct MetaChange {
    pub name: Vec<u8>,
    pub entry: Option<TableMetaInfo>,
}

/// The name and the entry now recorded.
pub type ChangeView = (Seq<u8>, Option<MetaView>);

impl View for MetaChange {
    type V = ChangeView;

    open spec fn view(&self) -> ChangeView {
        (
            self.name@,
            match self.entry {
                Some(e) => Some(e@),
                None => None,
            },
        )
    }
}

/// Whether the entry of `k` differs between `a` and `b`.
pub open spec fn changed(a: Map<Seq<u8>, MetaView>, b: Map<Seq<u8>, MetaView>, k: Seq<u8>) -> bool {
    a.contains_key(k) != b.contains_key(k) || (a.contains_key(k) && a[k] != b[k])
}

/// `r` records, for each name it lists, what `m` holds under it.
pub open spec fn records_state(r: Seq<ChangeView>, m: Map<Seq<u8>, MetaView>) -> bool {
    forall|i: int| 0 <= i < r.len() ==> {
        &&& m.contains_key((#[trigger] r[i]).0) == (r[i].1 is Some)
        &&& r[i].1 is Some ==> r[i].1.unwrap() == m[r[i].0]
    }
}

/// `r` lists every name whose entry differs between `a` and `b`, with what `b` holds:
/// writing `r` to the meta log carries it from `a` to `b`.
pub open spec fn persists(r: Seq<ChangeView>, a: Map<Seq<u8>, MetaView>, b: Map<Seq<u8>, MetaView>) -> bool {
    &&& records_state(r, b)
    &&& forall|k: Seq<u8>| #[trigger] changed(a, b, k) ==> exists|i: int| 0 <= i < r.len() && r[i].0 == k
}

/// The registry holding the entries of `s`, a later entry for a name replacing an earlier one.
pub open spec fn entries_map(s: Seq<(Seq<u8>, MetaView)>) -> Map<Seq<u8>, MetaView>
    decreases s.len(),
{
    if s.len() == 0 {
        Map::empty()
    } else {
        entries_map(s.drop_last()).insert(s.last().0, s.last().1)
    }
}

/// The meta-table, keyed by table name.
pub struct ForkRegistry {
    tabs: KeyMap<TableMetaInfo>,
}

/// The registry after `child` was forked from `parent` at segment `seg`.
pub open spec fn forked(m: Map<Seq<u8>, MetaView>, parent: Seq<u8>, child: Seq<u8>, schema: Seq<u8>, seg: u64) -> Map<
    Seq<u8>,
    MetaView,
> {
    let p = m[parent];
    m.insert(parent, (p.0, p.1, p.2, (p.3 + 1) as u64)).insert(child, (schema, Some(parent), Some(seg), 0))
}

/// The registry after `name` was dropped: its parent, if recorded, has one fork less.
pub open spec fn dropped(m: Map<Seq<u8>, MetaView>, name: Seq<u8>) -> Map<Seq<u8>, MetaView> {
    let rest = m.remove(name);
    match m[name].1 {
        Some(p) => if rest.contains_key(p) {
            let pm = rest[p];
            rest.insert(p, (pm.0, pm.1, pm.2, if pm.3 > 0 { (pm.3 - 1) as u64 } else { 0 }))
        } else {
            rest
        },
        None => rest,
    }
}

impl View for ForkRegistry {
    type V = Map<Seq<u8>, MetaView>;

    closed spec fn view(&self) -> Map<Seq<u8>, MetaView> {
        self.tabs@
    }
}

impl ForkRegistry {
    pub closed spec fn wf(&self) -> bool {
        self.tabs.wf()
    }

    /// An empty registry.
    pub fn new() -> (r: Self)
        ensures
            r.wf(),
            r@ == Map::<Seq<u8>, MetaView>::empty(),
    {
        ForkRegistry { tabs: KeyMap::new() }
    }

    /// A registry from meta entries read back from the meta log, in log order.
    pub fn from_entries(entries: Vec<(Vec<u8>, TableMetaInfo)>) -> (r: Self)
        ensures
            r.wf(),
            r@ == entries_map(Seq::new(entries@.len(), |i: int| (entries@[i].0@, entries@[i].1@))),
    {
        let ghost all = Seq::new(entries@.len(), |i: int| (entries@[i].0@, entries@[i].1@));
        let mut tabs: KeyMap<TableMetaInfo> = KeyMap::new();
        let mut i: usize = 0;
        proof {
            assert(all.subrange(0, 0) =~= Seq::<(Seq<u8>, MetaView)>::empty());
        }
        while i < entries.len()
            invariant
                tabs.wf(),
                i <= entries@.len(),
                all == Seq::new(entries@.len(), |i: int| (entries@[i].0@, entries@[i].1@)),
                tabs@ == entries_map(all.subrange(0, i as int)),
            decreases entries.len() - i,
        {
            let (k, m) = (&entries[i].0, &entries[i].1);
            tabs.upsert(copy_bytes(k), copy_meta(m));
            proof {
                assert(all.subrange(0, i + 1).drop_last() =~= all.subrange(0, i as int));
            }
            i = i + 1;
        }
        proof {
            assert(all.subrange(0, all.len() as int) =~= all);
        }
        ForkRegistry { tabs }
    }

    /// The entries now recorded under each of `names`, ready to persist.
    pub fn meta_records(&self, names: &Vec<Vec<u8>>) -> (r: Vec<MetaChange>)
        requires
            self.wf(),
        ensures
            r@.len() == names@.len(),
            forall|i: int| 0 <= i < r@.len() ==> (#[trigger] r@[i])@.0 == names@[i]@,
            records_state(Seq::new(r@.len(), |i: int| r@[i]@), self@),
    {
        let mut out: Vec<MetaChange> = Vec::new();
        let mut i: usize = 0;
        while i < names.len()
            invariant
                self.wf(),
                i <= names@.len(),
                out@.len() == i,
                forall|j: int| 0 <= j < i ==> (#[trigger] out@[j])@.0 == names@[j]@,
                forall|j: int| 0 <= j < i ==> {
                    &&& self@.contains_key((#[trigger] out@[j])@.0) == (out@[j]@.1 is Some)
                    &&& out@[j]@.1 is Some ==> out@[j]@.1.unwrap() == self@[out@[j]@.0]
                },
            decreases names.len() - i,
        {
            let entry = match self.tabs.get(&names[i]) {
                Some(m) => Some(copy_meta(m)),
                None => None,
            };
            out.push(MetaChange { name: copy_bytes(&names[i]), entry });
            i = i + 1;
        }
        proof {
            let rv = Seq::new(out@.len(), |i: int| out@[i]@);
            assert forall|i: int| 0 <= i < rv.len() implies {
                &&& self@.contains_key((#[trigger] rv[i]).0) == (rv[i].1 is Some)
                &&& rv[i].1 is Some ==> rv[i].1.unwrap() == self@[rv[i].0]
            } by {
                assert(rv[i] == out@[i]@);
            }
        }
        out
    }

    /// The names whose entries the change `a` would touch: the table, and
    /// for a drop the parent it records.
    pub fn touched_names(&self, a: &(Vec<u8>, Option<Vec<u8>>)) -> (r: Vec<Vec<u8>>)
        requires
            self.wf(),
        ensures
            forall|m2: Map<Seq<u8>, MetaView>| #[trigger] alter_step(self@, alter_view(a)) == Some(m2) ==> forall|k: Seq<u8>|
                #[trigger] changed(self@, m2, k) ==> exists|i: int| 0 <= i < r@.len() && r@[i]@ == k,
    {
        let mut r: Vec<Vec<u8>> = Vec::new();
        r.push(copy_bytes(&a.0));
        if a.1.is_none() {
            match self.tabs.get(&a.0) {
                Some(m) => match &m.parent {
                    Some(p) => r.push(copy_bytes(p)),
                    None => {},
                },
                None => {},
            }
        }
        proof {
            assert forall|m2: Map<Seq<u8>, MetaView>| #[trigger] alter_step(self@, alter_view(a)) == Some(m2) implies forall|k: Seq<u8>|
                #[trigger] changed(self@, m2, k) ==> exists|i: int| 0 <= i < r@.len() && r@[i]@ == k by {
                assert forall|k: Seq<u8>| #[trigger] changed(self@, m2, k) implies exists|i: int| 0 <= i < r@.len() && r@[i]@ == k by {
                    if k != a.0@ {
                        assert(r@[1]@ == k);
                    } else {
                        assert(r@[0]@ == k);
                    }
                }
            }
        }
        r
    }

    /// The number of tables.
    pub fn len(&self) -> (r: usize)
        requires
            self.wf(),
        ensures
            r == self@.len(),
    {
        self.tabs.len()
    }

    /// What the registry records of `name`.
    pub fn tab_info(&self, name: &Vec<u8>) -> (r: Option<&TableMetaInfo>)
        requires
            self.wf(),
        ensures
            r is Some == self@.contains_key(name@),
            r is Some ==> r.unwrap()@ == self@[name@],
    {
        self.tabs.get(name)
    }

    /// The table names in ascending order.
    pub fn list(&self) -> (r: Vec<Vec<u8>>)
        requires
            self.wf(),
        ensures
            r@.len() == self@.len(),
            forall|i: int| 0 <= i < r@.len() ==> self@.contains_key(#[trigger] r@[i]@),
            forall|k: Seq<u8>| #[trigger] self@.contains_key(k) ==> exists|i: int| 0 <= i < r@.len() && r@[i]@ == k,
    {
        proof {
            self.tabs.lemma_entries();
        }
        let n = self.tabs.len();
        let mut r: Vec<Vec<u8>> = Vec::new();
        let mut i: usize = 0;
        while i < n
            invariant
                self.wf(),
                n == self.tabs.key_seq().len(),
                i <= n,
                r@.len() == i,
                forall|j: int| 0 <= j < i ==> (#[trigger] r@[j])@ == self.tabs.key_seq()[j],
            decreases n - i,
        {
            r.push(copy_bytes(self.tabs.key_at(i)));
            i = i + 1;
        }
        proof {
            self.tabs.lemma_entries();
            assert forall|i: int| 0 <= i < r@.len() implies self@.contains_key(#[trigger] r@[i]@) by {
                assert(r@[i]@ == self.tabs.key_seq()[i]);
            }
            assert forall|k: Seq<u8>| #[trigger] self@.contains_key(k) implies exists|i: int| 0 <= i < r@.len() && r@[i]@ == k by {
                let j = choose|j: int| 0 <= j < n && self.tabs.key_seq()[j] == k;
                assert(r@[j]@ == k);
            }
        }
        r
    }

    /// The highest cutoff segment that a fork of `name` records, if any fork
    /// records one: compaction must leave that segment and older ones alone.
    pub fn fork_floor(&self, name: &Vec<u8>) -> (r: Option<u64>)
        requires
            self.wf(),
        ensures
            is_fork_floor(self@, name@, r),
    {
        proof {
            self.tabs.lemma_entries();
        }
        let ghost ks = self.tabs.key_seq();
        let ghost vs = self.tabs.val_seq();
        let ghost nm = name@;
        let n = self.tabs.len();
        let mut best: Option<u64> = None;
        let mut i: usize = 0;
        while i < n
            invariant
                self.wf(),
                n == ks.len(),
                ks == self.tabs.key_seq(),
                vs == self.tabs.val_seq(),
                nm == name@,
                i <= n,
                forall|j: int| 0 <= j < ks.len() ==> self@.contains_key(#[trigger] ks[j]) && self@[ks[j]] == vs[j],
                best is None <==> !exists|j: int| 0 <= j < i && (#[trigger] vs[j]).1 == Some(nm) && vs[j].2 is Some,
                best is Some ==> exists|j: int| 0 <= j < i && (#[trigger] vs[j]).1 == Some(nm) && vs[j].2 == best,
                best is Some ==> forall|j: int| 0 <= j < i && (#[trigger] vs[j]).1 == Some(nm) && vs[j].2 is Some
                    ==> vs[j].2.unwrap() <= best.unwrap(),
            decreases n - i,
        {
            let m = self.tabs.val_at(i);
            let child_of = match &m.parent {
                Some(p) => crate::bytes::compare_bytes(p, name) == 0,
                None => false,
            };
            if child_of {
                if let Some(c) = m.parent_segment_id {
                    let higher = match best {
                        None => true,
                        Some(b) => c > b,
                    };
                    if higher {
                        best = Some(c);
                    }
                }
            }
            proof {
                assert(vs[i as int] == m@);
            }
            i = i + 1;
        }
        proof {
            assert forall|k: Seq<u8>| #[trigger] self@.contains_key(k) implies exists|j: int| 0 <= j < ks.len() && ks[j] == k
                && self@[k] == vs[j] by {
                let j = choose|j: int| 0 <= j < ks.len() && ks[j] == k;
            }
            if best is Some {
                let j = choose|j: int| 0 <= j < n && (#[trigger] vs[j]).1 == Some(nm) && vs[j].2 == best;
                assert(self@.contains_key(ks[j]));
            } else {
                assert forall|k: Seq<u8>| !(#[trigger] self@.contains_key(k) && self@[k].1 == Some(nm) && self@[k].2 is Some) by {
                    if self@.contains_key(k) {
                        let j = choose|j: int| 0 <= j < ks.len() && ks[j] == k && self@[k] == vs[j];
                    }
                }
            }
            if best is Some {
                assert forall|k: Seq<u8>| #[trigger] self@.contains_key(k) && self@[k].1 == Some(nm) && self@[k].2 is Some
                    implies self@[k].2.unwrap() <= best.unwrap() by {
                    let j = choose|j: int| 0 <= j < ks.len() && ks[j] == k && self@[k] == vs[j];
                }
            }
            if exists|k: Seq<u8>| #[trigger] self@.contains_key(k) && self@[k].1 == Some(nm) && self@[k].2 is Some {
                let k = choose|k: Seq<u8>| #[trigger] self@.contains_key(k) && self@[k].1 == Some(nm) && self@[k].2 is Some;
                let j = choose|j: int| 0 <= j < ks.len() && ks[j] == k && self@[k] == vs[j];
                assert(vs[j].1 == Some(nm) && vs[j].2 is Some);
            }
        }
        best
    }

    /// Records a new table with no parent.
    pub fn create(&mut self, name: Vec<u8>, schema: Vec<u8>) -> (r: Result<(), DbError>)
        requires
            old(self).wf(),
        ensures
            final(self).wf(),
            old(self)@.contains_key(name@) ==> r == Err::<(), DbError>(DbError::DuplicateTable { name })
                && final(self)@ == old(self)@,
            !old(self)@.contains_key(name@) ==> r is Ok && final(self)@ == old(self)@.insert(
                name@,
                (schema@, None, None, 0),
            ),
    {
        if self.tabs.contains_key(&name) {
            return Err(DbError::DuplicateTable { name });
        }
        self.tabs.upsert(name, TableMetaInfo { schema, parent: None, parent_segment_id: None, ref_count: 0 });
        Ok(())
    }

    /// Checks that `child` may be forked: fails when it exists already.
    pub fn fork_check(&self, child: &Vec<u8>) -> (r: Result<(), DbError>)
        requires
            self.wf(),
        ensures
            r is Ok == !self@.contains_key(child@),
            r is Err ==> r->Err_0 is DuplicateTable && r->Err_0->DuplicateTable_name@ == child@,
    {
        if self.tabs.contains_key(child) {
            return Err(DbError::DuplicateTable { name: copy_bytes(child) });
        }
        Ok(())
    }

    /// Records `child` as a fork of `parent` at the parent's closed segment
    /// `seg`, and counts one more fork on `parent`; returns the two meta
    /// entries to persist.
    pub fn fork(&mut self, parent: &Vec<u8>, child: Vec<u8>, schema: Vec<u8>, seg: u64) -> (r: Result<Vec<MetaChange>, DbError>)
        requires
            old(self).wf(),
            old(self)@.contains_key(parent@) ==> old(self)@[parent@].3 < u64::MAX,
        ensures
            final(self).wf(),
            old(self)@.contains_key(child@) ==> r is Err && r->Err_0 is DuplicateTable && r->Err_0->DuplicateTable_name
                == child && final(self)@ == old(self)@,
            !old(self)@.contains_key(child@) && !old(self)@.contains_key(parent@) ==> r is Err
                && r->Err_0 is TableNotFound && r->Err_0->TableNotFound_name@ == parent@ && final(self)@ == old(self)@,
            !old(self)@.contains_key(child@) && old(self)@.contains_key(parent@) ==> r is Ok && final(self)@ == forked(
                old(self)@,
                parent@,
                child@,
                schema@,
                seg,
            ) && persists(Seq::new(r->Ok_0@.len(), |i: int| r->Ok_0@[i]@), old(self)@, final(self)@),
    {
        if self.tabs.contains_key(&child) {
            return Err(DbError::DuplicateTable { name: child });
        }
        let pm = match self.tabs.get(parent) {
            None => {
                return Err(DbError::TableNotFound { name: copy_bytes(parent) });
            },
            Some(p) => copy_meta(p),
        };
        let ghost m0 = self.tabs@;
        self.tabs.upsert(
            copy_bytes(parent),
            TableMetaInfo {
                schema: pm.schema,
                parent: pm.parent,
                parent_segment_id: pm.parent_segment_id,
                ref_count: pm.ref_count + 1,
            },
        );
        let cm = TableMetaInfo {
            schema,
            parent: Some(copy_bytes(parent)),
            parent_segment_id: Some(seg),
            ref_count: 0,
        };
        let ghost cv = cm@;
        let names = vec![copy_bytes(parent), copy_bytes(&child)];
        self.tabs.upsert(child, cm);
        proof {
            assert(self.tabs@ =~= forked(m0, parent@, child@, schema@, seg));
        }
        let recs = self.meta_records(&names);
        proof {
            let rv = Seq::new(recs@.len(), |j: int| recs@[j]@);
            assert forall|k: Seq<u8>| #[trigger] changed(m0, self@, k) implies exists|j: int| 0 <= j < rv.len() && rv[j].0 == k by {
                if k == parent@ {
                    assert(rv[0].0 == k);
                } else {
                    assert(rv[1].0 == k);
                }
            }
        }
        Ok(recs)
    }

    /// Drops `name`: refused while it has forks; otherwise removes it, and its
    /// parent, if recorded, counts one fork less.
    pub fn drop_tab(&mut self, name: &Vec<u8>) -> (r: Result<(), DbError>)
        requires
            old(self).wf(),
        ensures
            final(self).wf(),
            !old(self)@.contains_key(name@) ==> r is Err && r->Err_0 is TableNotFound
                && r->Err_0->TableNotFound_name@ == name@ && final(self)@ == old(self)@,
            old(self)@.contains_key(name@) && old(self)@[name@].3 > 0 ==> r is Err && r->Err_0 is TableInUse
                && r->Err_0->TableInUse_name@ == name@ && r->Err_0->TableInUse_ref_count == old(self)@[name@].3
                && final(self)@ == old(self)@,
            old(self)@.contains_key(name@) && old(self)@[name@].3 == 0 ==> r is Ok && final(self)@ == dropped(
                old(self)@,
                name@,
            ),
    {
        let meta = match self.tabs.get(name) {
            None => {
                return Err(DbError::TableNotFound { name: copy_bytes(name) });
            },
            Some(m) => copy_meta(m),
        };
        if meta.ref_count > 0 {
            return Err(DbError::TableInUse { name: copy_bytes(name), ref_count: meta.ref_count });
        }
        let ghost m0 = self.tabs@;
        self.tabs.remove(name);
        let ghost rest = self.tabs@;
        match meta.parent {
            Some(p) => {
                match self.tabs.get(&p) {
                    Some(pm) => {
                        let pm = copy_meta(pm);
                        let rc = if pm.ref_count > 0 { pm.ref_count - 1 } else { 0 };
                        self.tabs.upsert(
                            p,
                            TableMetaInfo {
                                schema: pm.schema,
                                parent: pm.parent,
                                parent_segment_id: pm.parent_segment_id,
                                ref_count: rc,
                            },
                        );
                        proof {
                            assert(self.tabs@ =~= dropped(m0, name@));
                        }
                    },
                    None => {
                        proof {
                            assert(self.tabs@ =~= dropped(m0, name@));
                        }
                    },
                }
            },
            None => {
                proof {
                    assert(self.tabs@ =~= dropped(m0, name@));
                }
            },
        }
        Ok(())
    }
}

/// One schema change: `Some(schema)` creates the table, `None` drops it.
pub type AlterView = (Seq<u8>, Option<Seq<u8>>);

/// One change applied to the registry `m`, or `None` when it is refused.
pub open spec fn alter_step(m: Map<Seq<u8>, MetaView>, a: AlterView) -> Option<Map<Seq<u8>, MetaView>> {
    match a.1 {
        Some(schema) => if m.contains_key(a.0) {
            None
        } else {
            Some(m.insert(a.0, (schema, None, None, 0)))
        },
        None => if !m.contains_key(a.0) || m[a.0].3 > 0 {
            None
        } else {
            Some(dropped(m, a.0))
        },
    }
}

/// The registry after the changes `s` in order, stopping at the first one
/// refused, and whether all were applied.
pub open spec fn apply_alters(m: Map<Seq<u8>, MetaView>, s: Seq<AlterView>) -> (Map<Seq<u8>, MetaView>, bool)
    decreases s.len(),
{
    if s.len() == 0 {
        (m, true)
    } else {
        match alter_step(m, s[0]) {
            None => (m, false),
            Some(m2) => apply_alters(m2, s.drop_first()),
        }
    }
}

/// The view of one collected change.
pub open spec fn alter_view(a: &(Vec<u8>, Option<Vec<u8>>)) -> AlterView {
    (a.0@, match a.1 {
        Some(s) => Some(s@),
        None => None,
    })
}

/// The first change of `s` that is refused when applied in order from `m`,
/// with the registry it met.
pub open spec fn refusal(m: Map<Seq<u8>, MetaView>, s: Seq<AlterView>) -> Option<(Map<Seq<u8>, MetaView>, AlterView)>
    decreases s.len(),
{
    if s.len() == 0 {
        None
    } else {
        match alter_step(m, s[0]) {
            None => Some((m, s[0])),
            Some(m2) => refusal(m2, s.drop_first()),
        }
    }
}

/// The error that refusing change `a` on registry `m` gives: a create of an
/// existing table, a drop of an absent one, a drop of one with forks.
pub open spec fn refusal_error(e: DbError, m: Map<Seq<u8>, MetaView>, a: AlterView) -> bool {
    match a.1 {
        Some(_) => e is DuplicateTable && e->DuplicateTable_name@ == a.0,
        None => if !m.contains_key(a.0) {
            e is TableNotFound && e->TableNotFound_name@ == a.0
        } else {
            e is TableInUse && e->TableInUse_name@ == a.0 && e->TableInUse_ref_count == m[a.0].3
        },
    }
}

/// A transaction on the meta-table: schema changes collected, then applied together.
pub struct LogFileMetaTxn {
    alters: Vec<(Vec<u8>, Option<Vec<u8>>)>,
}

impl LogFileMetaTxn {
    /// The collected changes, in the order they were made.
    pub closed spec fn alters_view(&self) -> Seq<AlterView> {
        Seq::new(
            self.alters@.len(),
            |i: int| (self.alters@[i].0@, match self.alters@[i].1 {
                Some(s) => Some(s@),
                None => None,
            }),
        )
    }

    /// A meta transaction with no changes.
    pub fn new() -> (r: Self)
        ensures
            r.alters_view() == Seq::<AlterView>::empty(),
    {
        let r = LogFileMetaTxn { alters: Vec::new() };
        proof {
            assert(r.alters_view() =~= Seq::<AlterView>::empty());
        }
        r
    }

    /// Records a change: `Some(schema)` creates `tab_name`, `None` drops it.
    pub fn alter(&mut self, tab_name: Vec<u8>, meta: Option<Vec<u8>>) -> (r: Result<(), DbError>)
        ensures
            r is Ok,
            final(self).alters_view() == old(self).alters_view().push(
                (tab_name@, match meta {
                    Some(s) => Some(s@),
                    None => None,
                }),
            ),
    {
        let ghost before = self.alters_view();
        self.alters.push((tab_name, meta));
        proof {
            assert(self.alters_view() =~= before.push(self.alters_view().last()));
        }
        Ok(())
    }

    /// Forgets the collected changes.
    pub fn rollback(&mut self) -> (r: Result<(), DbError>)
        ensures
            r is Ok,
            final(self).alters_view() == Seq::<AlterView>::empty(),
    {
        self.alters = Vec::new();
        proof {
            assert(self.alters_view() =~= Seq::<AlterView>::empty());
        }
        Ok(())
    }

    /// Applies the changes to `reg` in order; stops at the first one refused
    /// (a create of an existing table, a drop of an absent table or of one
    /// with forks) and returns its error, together with the meta entries to
    /// persist for the changes applied.
    pub fn commit(&self, reg: &mut ForkRegistry) -> (r: (Result<(), DbError>, Vec<MetaChange>))
        requires
            old(reg).wf(),
        ensures
            final(reg).wf(),
            (final(reg)@, r.0 is Ok) == apply_alters(old(reg)@, self.alters_view()),
            r.0 is Err <==> refusal(old(reg)@, self.alters_view()) is Some,
            r.0 is Err ==> refusal_error(
                r.0->Err_0,
                refusal(old(reg)@, self.alters_view()).unwrap().0,
                refusal(old(reg)@, self.alters_view()).unwrap().1,
            ),
            persists(Seq::new(r.1@.len(), |i: int| r.1@[i]@), old(reg)@, final(reg)@),
    {
        let ghost all = self.alters_view();
        let ghost m0 = reg@;
        let mut names: Vec<Vec<u8>> = Vec::new();
        let mut i: usize = 0;
        proof {
            assert(all.subrange(0, all.len() as int) =~= all);
        }
        while i < self.alters.len()
            invariant
                reg.wf(),
                i <= self.alters@.len(),
                all == self.alters_view(),
                m0 == old(reg)@,
                apply_alters(m0, all) == apply_alters(reg@, all.subrange(i as int, all.len() as int)),
                refusal(m0, all) == refusal(reg@, all.subrange(i as int, all.len() as int)),
                forall|k: Seq<u8>| #[trigger] changed(m0, reg@, k) ==> exists|j: int| 0 <= j < names@.len() && names@[j]@ == k,
            decreases self.alters.len() - i,
        {
            let ghost rest = all.subrange(i as int, all.len() as int);
            let ghost before = reg@;
            let ghost n0 = names@;
            proof {
                assert(rest[0] == all[i as int]);
                assert(rest[0] == alter_view(&self.alters@[i as int]));
                assert(rest.drop_first() =~= all.subrange(i + 1, all.len() as int));
            }
            let touched = reg.touched_names(&self.alters[i]);
            let name = &self.alters[i].0;
            let res = match &self.alters[i].1 {
                Some(schema) => reg.create(copy_bytes(name), copy_bytes(schema)),
                None => reg.drop_tab(name),
            };
            if res.is_err() {
                proof {
                    assert(reg@ == before);
                    assert(alter_step(before, rest[0]) is None);
                }
                let recs = reg.meta_records(&names);
                proof {
                    let rv = Seq::new(recs@.len(), |j: int| recs@[j]@);
                    assert forall|k: Seq<u8>| #[trigger] changed(m0, reg@, k) implies exists|j: int| 0 <= j < rv.len() && rv[j].0 == k by {
                        let j = choose|j: int| 0 <= j < names@.len() && names@[j]@ == k;
                        assert(rv[j].0 == k);
                    }
                }
                return (res, recs);
            }
            proof {
                assert(alter_step(before, rest[0]) == Some(reg@));
            }
            let mut t: usize = 0;
            while t < touched.len()
                invariant
                    t <= touched@.len(),
                    names@.len() == n0.len() + t,
                    forall|j: int| 0 <= j < n0.len() ==> #[trigger] names@[j] == n0[j],
                    forall|j: int| 0 <= j < t ==> #[trigger] names@[n0.len() + j]@ == touched@[j]@,
                decreases touched.len() - t,
            {
                names.push(copy_bytes(&touched[t]));
                t = t + 1;
            }
            proof {
                assert forall|k: Seq<u8>| #[trigger] changed(m0, reg@, k) implies exists|j: int| 0 <= j < names@.len() && names@[j]@ == k by {
                    if changed(m0, before, k) {
                        let j = choose|j: int| 0 <= j < n0.len() && n0[j]@ == k;
                        assert(names@[j] == n0[j]);
                    } else {
                        assert(changed(before, reg@, k));
                        let j = choose|j: int| 0 <= j < touched@.len() && touched@[j]@ == k;
                        assert(names@[n0.len() + j]@ == k);
                    }
                }
            }
            i = i + 1;
        }
        proof {
            assert(all.subrange(i as int, all.len() as int) =~= Seq::<AlterView>::empty());
        }
        let recs = reg.meta_records(&names);
        proof {
            let rv = Seq::new(recs@.len(), |j: int| recs@[j]@);
            assert forall|k: Seq<u8>| #[trigger] changed(m0, reg@, k) implies exists|j: int| 0 <= j < rv.len() && rv[j].0 == k by {
                let j = choose|j: int| 0 <= j < names@.len() && names@[j]@ == k;
                assert(rv[j].0 == k);
            }
        }
        (Ok(()), recs)
    }
}

} // verus!

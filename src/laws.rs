//! Properties that relate several operations of the engine.
use vstd::prelude::*;
use crate::record::{RecordView, Segment, first_of, live_of, replay_order, within_cutoff, newest_first_in,
    lemma_first_of_append, lemma_first_of_none, lemma_first_of_is_first, lemma_first_of_undecided_prefix};
use crate::registry::{MetaView, dropped, forked};
use crate::opener::chain_from;
use crate::table::{apply_writes, contents_of, write_batch, RwView};
use crate::bytes::{lex_lt, lemma_lex_irreflexive};

verus! {

/// Replaying a log a second time into the same loader changes nothing: every
/// key is already decided by the first pass.
pub proof fn lemma_replay_idempotent(s: Seq<RecordView>)
    ensures
        live_of(s + s) == live_of(s),
{
    assert forall|k: Seq<u8>| #[trigger] first_of(s + s, k) == first_of(s, k) by {
        if first_of(s, k) is Some {
            lemma_first_of_append(s, s, k);
        } else {
            lemma_first_of_undecided_prefix(s, s, k);
        }
    }
    assert(live_of(s + s) =~= live_of(s));
}

/// Two fresh replays of the same segments establish the same live map.
pub proof fn lemma_replay_deterministic(segs: Seq<Segment>, cutoff: Option<u64>, a: Seq<RecordView>, b: Seq<RecordView>)
    requires
        a == replay_order(segs, cutoff),
        b == replay_order(segs, cutoff),
    ensures
        live_of(a) == live_of(b),
{
}

/// Segments above a cutoff add nothing to a replay with that cutoff: what a
/// parent writes after a fork, into segments past the child's cutoff, stays
/// invisible to the child.
pub proof fn lemma_fork_independence(segs: Seq<Segment>, later: Seq<Segment>, c: u64)
    requires
        forall|i: int| 0 <= i < later.len() ==> (#[trigger] later[i]).id > c,
    ensures
        replay_order(segs + later, Some(c)) == replay_order(segs, Some(c)),
    decreases segs.len(),
{
    if segs.len() == 0 {
        assert(segs + later =~= later);
        lemma_hidden_segments(later, c);
    } else {
        assert((segs + later).drop_first() =~= segs.drop_first() + later);
        assert((segs + later)[0] == segs[0]);
        lemma_fork_independence(segs.drop_first(), later, c);
    }
}

proof fn lemma_hidden_segments(later: Seq<Segment>, c: u64)
    requires
        forall|i: int| 0 <= i < later.len() ==> (#[trigger] later[i]).id > c,
    ensures
        replay_order(later, Some(c)) == Seq::<RecordView>::empty(),
    decreases later.len(),
{
    if later.len() > 0 {
        assert forall|i: int| 0 <= i < later.drop_first().len() implies (#[trigger] later.drop_first()[i]).id > c by {
            assert(later.drop_first()[i] == later[i + 1]);
        }
        lemma_hidden_segments(later.drop_first(), c);
        assert(!within_cutoff(later[0].id, Some(c)));
        assert(Seq::<RecordView>::empty() + Seq::<RecordView>::empty() =~= Seq::<RecordView>::empty());
    }
}

/// Dropping records that newer records already decide leaves the live
/// contents as they were: a compaction may remove such records.
pub proof fn lemma_shadowed_records_removable(newer: Seq<RecordView>, shadowed: Seq<RecordView>, older: Seq<RecordView>)
    requires
        forall|i: int| 0 <= i < shadowed.len() ==> first_of(newer, (#[trigger] shadowed[i]).1) is Some,
    ensures
        live_of(newer + shadowed + older) == live_of(newer + older),
{
    assert forall|k: Seq<u8>| #[trigger] first_of(newer + shadowed + older, k) == first_of(newer + older, k) by {
        if first_of(newer, k) is Some {
            lemma_first_of_append(newer, shadowed + older, k);
            assert(newer + shadowed + older =~= newer + (shadowed + older));
            lemma_first_of_append(newer, older, k);
        } else {
            assert forall|i: int| 0 <= i < shadowed.len() implies (#[trigger] shadowed[i]).1 != k by {}
            lemma_first_of_none(shadowed, k);
            lemma_first_of_undecided_prefix(newer, shadowed, k);
            lemma_first_of_undecided_prefix(newer + shadowed, older, k);
            lemma_first_of_undecided_prefix(newer, older, k);
        }
    }
    assert(live_of(newer + shadowed + older) =~= live_of(newer + older));
}

/// Dropping one record that an earlier-visited record already decides leaves
/// the live contents as they were; a rewrite that keeps only the deciding
/// records of a segment is a series of such drops.
pub proof fn lemma_shadowed_record_removable(s: Seq<RecordView>, p: int)
    requires
        0 <= p < s.len(),
        first_of(s.subrange(0, p), s[p].1) is Some,
    ensures
        live_of(s.remove(p)) == live_of(s),
{
    let newer = s.subrange(0, p);
    let one = seq![s[p]];
    let older = s.subrange(p + 1, s.len() as int);
    assert(s =~= newer + one + older);
    assert(s.remove(p) =~= newer + older);
    lemma_shadowed_records_removable(newer, one, older);
}

/// A table whose log replays to its committed contents still does after a
/// commit appends its batch: replaying the log with the batch (visited
/// newest record first) gives the committed map the commit installed.
pub proof fn lemma_commit_durable(
    log: Seq<RecordView>,
    entries: Map<Seq<u8>, (Seq<u8>, u64)>,
    j: Map<Seq<u8>, RwView>,
    batch: Seq<RecordView>,
    stamp: u64,
)
    requires
        live_of(log) == contents_of(entries),
        write_batch(batch, j),
    ensures
        live_of(batch.reverse() + log) == contents_of(apply_writes(entries, j, stamp)),
{
    let rb = batch.reverse();
    let l = live_of(rb + log);
    let c = contents_of(apply_writes(entries, j, stamp));
    assert forall|k: Seq<u8>| #![trigger l.contains_key(k)] #![trigger c.contains_key(k)] l.contains_key(k) == c.contains_key(k)
        && (l.contains_key(k) ==> l[k] == c[k]) by {
        if j.contains_key(k) && j[k] is Some {
            let i = choose|i: int| 0 <= i < batch.len() && batch[i].1 == k;
            let ri = batch.len() - 1 - i;
            assert(rb[ri] == batch[i]);
            assert forall|x: int| 0 <= x < ri implies (#[trigger] rb[x]).1 != k by {
                let bx = batch.len() - 1 - x;
                assert(rb[x] == batch[bx]);
                assert(bx > i);
                if batch[i].0 == batch[bx].0 {
                    assert(lex_lt(batch[i].1, batch[bx].1));
                    lemma_lex_irreflexive(k);
                }
            }
            lemma_first_of_is_first(rb, k, ri);
            lemma_first_of_append(rb, log, k);
            assert(first_of(rb + log, k) == Some(batch[i]));
            assert(batch[i].0 == (j[k].unwrap() is Some));
            assert(apply_writes(entries, j, stamp).contains_key(k) == (j[k].unwrap() is Some));
            if batch[i].0 {
                assert(batch[i].2 == j[k].unwrap().unwrap());
                assert(live_of(rb + log)[k] == batch[i].2);
                assert(apply_writes(entries, j, stamp)[k].0 == j[k].unwrap().unwrap());
            }
        } else {
            assert forall|x: int| 0 <= x < rb.len() implies (#[trigger] rb[x]).1 != k by {
                assert(rb[x] == batch[batch.len() - 1 - x]);
            }
            lemma_first_of_none(rb, k);
            lemma_first_of_undecided_prefix(rb, log, k);
            assert(first_of(rb + log, k) == first_of(log, k));
            assert(live_of(log).contains_key(k) == contents_of(entries).contains_key(k));
            assert(apply_writes(entries, j, stamp).contains_key(k) == entries.contains_key(k));
            if live_of(log).contains_key(k) {
                assert(live_of(log)[k] == contents_of(entries)[k]);
                assert(live_of(rb + log)[k] == live_of(log)[k]);
                assert(apply_writes(entries, j, stamp)[k] == entries[k]);
            }
        }
    }
    assert(l =~= c);
}

/// Dropping a child takes exactly one fork off a parent that counts forks.
pub proof fn lemma_drop_releases_parent(m: Map<Seq<u8>, MetaView>, child: Seq<u8>, parent: Seq<u8>)
    requires
        m.contains_key(child),
        m[child].1 == Some(parent),
        parent != child,
        m.contains_key(parent),
        m[parent].3 > 0,
    ensures
        dropped(m, child).contains_key(parent),
        dropped(m, child)[parent].3 == m[parent].3 - 1,
        !dropped(m, child).contains_key(child),
{
}

/// Forking `child` off `parent` leaves the fork chain of every other table as
/// it was: no table reads the child's log, so what the child writes stays
/// invisible to the parent and to every other table.
pub proof fn lemma_fork_leaves_other_chains(
    m: Map<Seq<u8>, MetaView>,
    parent: Seq<u8>,
    child: Seq<u8>,
    schema: Seq<u8>,
    seg: u64,
    name: Seq<u8>,
    cutoff: Option<u64>,
    fuel: nat,
)
    requires
        !m.contains_key(child),
        m.contains_key(parent),
        name != child,
        forall|k: Seq<u8>| #[trigger] m.contains_key(k) && m[k].1 is Some ==> m[k].1.unwrap() != child,
    ensures
        chain_from(forked(m, parent, child, schema, seg), name, cutoff, fuel) == chain_from(m, name, cutoff, fuel),
    decreases fuel,
{
    let f = forked(m, parent, child, schema, seg);
    assert(f.contains_key(name) == m.contains_key(name));
    if m.contains_key(name) {
        assert(f[name].1 == m[name].1 && f[name].2 == m[name].2);
        if fuel > 0 && m[name].1 is Some {
            lemma_fork_leaves_other_chains(m, parent, child, schema, seg, m[name].1.unwrap(), m[name].2, (fuel - 1) as nat);
        }
    }
}

/// A segment added as the newest one is visited first.
pub proof fn lemma_newest_segment_first(segs: Seq<Segment>, x: Segment, cutoff: Option<u64>)
    requires
        within_cutoff(x.id, cutoff),
    ensures
        replay_order(segs.push(x), cutoff) == newest_first_in(x) + replay_order(segs, cutoff),
    decreases segs.len(),
{
    if segs.len() == 0 {
        assert(segs.push(x).drop_first() =~= Seq::<Segment>::empty());
        assert(segs.push(x)[0] == x);
        assert(replay_order(Seq::<Segment>::empty(), cutoff) == Seq::<RecordView>::empty());
        assert(segs =~= Seq::<Segment>::empty());
        assert(replay_order(segs.push(x), cutoff) == replay_order(Seq::<Segment>::empty(), cutoff) + newest_first_in(x));
        assert(replay_order(segs.push(x), cutoff) =~= newest_first_in(x) + replay_order(segs, cutoff));
    } else {
        assert(segs.push(x).drop_first() =~= segs.drop_first().push(x));
        lemma_newest_segment_first(segs.drop_first(), x, cutoff);
        assert(replay_order(segs.push(x), cutoff) =~= newest_first_in(x) + replay_order(segs, cutoff));
    }
}

/// Reopening after a commit: when a table's segments replay to its committed
/// entries and the commit's records become a new newest segment, the
/// segments replay to the entries the commit installed.
pub proof fn lemma_reopen_after_commit(
    segs: Seq<Segment>,
    x: Segment,
    entries: Map<Seq<u8>, (Seq<u8>, u64)>,
    j: Map<Seq<u8>, RwView>,
    stamp: u64,
)
    requires
        live_of(replay_order(segs, None)) == contents_of(entries),
        write_batch(Seq::new(x.records@.len(), |i: int| x.records@[i]@), j),
    ensures
        live_of(replay_order(segs.push(x), None)) == contents_of(apply_writes(entries, j, stamp)),
{
    let batch = Seq::new(x.records@.len(), |i: int| x.records@[i]@);
    lemma_newest_segment_first(segs, x, None);
    assert(newest_first_in(x) =~= batch.reverse());
    lemma_commit_durable(replay_order(segs, None), entries, j, batch, stamp);
}

} // verus!

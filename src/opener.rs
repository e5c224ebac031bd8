//! Opening a table: the fork chain, and the replay of every table on it.
use vstd::prelude::*;
use crate::bytes::copy_bytes;
use crate::loader::{PairLoader, SegmentStat};
use crate::record::{Segment, RecordView, replay_order, live_of};
use crate::registry::{ForkRegistry, MetaView};
use crate::table::LogFileTab;

verus! {

/// One table of a fork chain as read from disk: its segments (oldest first)
/// and the cutoff that applies to them.
pub struct ChainLevel {
    pub segments: Vec<Segment>,
    pub cutoff: Option<u64>,
}

/// The records a replay of a fork chain visits: the leaf's first, then each ancestor's.
pub open spec fn chain_order(levels: Seq<ChainLevel>) -> Seq<RecordView>
    decreases levels.len(),
{
    if levels.len() == 0 {
        Seq::empty()
    } else {
        chain_order(levels.drop_last()) + replay_order(levels.last().segments@, levels.last().cutoff)
    }
}

/// The fork chain of `name`: the table itself with no cutoff, then each
/// ancestor with the cutoff its child recorded, following at most `fuel` links.
pub open spec fn chain_from(m: Map<Seq<u8>, MetaView>, name: Seq<u8>, cutoff: Option<u64>, fuel: nat) -> Seq<
    (Seq<u8>, Option<u64>),
>
    decreases fuel,
{
    seq![(name, cutoff)] + if fuel > 0 && m.contains_key(name) && m[name].1 is Some {
        chain_from(m, m[name].1.unwrap(), m[name].2, (fuel - 1) as nat)
    } else {
        Seq::empty()
    }
}

/// Walks the parent links of `name`: the table, then its ancestors, each with
/// the cutoff segment to load it up to. The walk follows at most as many
/// links as there are tables, so a cycle cannot keep it going.
pub fn fork_chain(reg: &ForkRegistry, name: &Vec<u8>) -> (r: Vec<(Vec<u8>, Option<u64>)>)
    requires
        reg.wf(),
    ensures
        Seq::new(r@.len(), |i: int| (r@[i].0@, r@[i].1)) == chain_from(reg@, name@, None, reg@.len()),
{
    let total = reg.len();
    let mut out: Vec<(Vec<u8>, Option<u64>)> = Vec::new();
    let mut cur = copy_bytes(name);
    let mut cut: Option<u64> = None;
    let mut fuel: usize = total;
    loop
        invariant
            reg.wf(),
            total == reg@.len(),
            Seq::new(out@.len(), |i: int| (out@[i].0@, out@[i].1)) + chain_from(reg@, cur@, cut, fuel as nat)
                == chain_from(reg@, name@, None, total as nat),
        decreases fuel,
    {
        let ghost before = Seq::new(out@.len(), |i: int| (out@[i].0@, out@[i].1));
        let ghost cv = cur@;
        let ghost cc = cut;
        let next = if fuel > 0 {
            match reg.tab_info(&cur) {
                Some(m) => match &m.parent {
                    Some(p) => Some((copy_bytes(p), m.parent_segment_id)),
                    None => None,
                },
                None => None,
            }
        } else {
            None
        };
        out.push((cur, cut));
        let ghost after = Seq::new(out@.len(), |i: int| (out@[i].0@, out@[i].1));
        proof {
            assert(after =~= before.push((cv, cc)));
        }
        match next {
            None => {
                proof {
                    assert(chain_from(reg@, cv, cc, fuel as nat) =~= seq![(cv, cc)]);
                    assert(after =~= before + seq![(cv, cc)]);
                    assert(after =~= chain_from(reg@, name@, None, total as nat));
                    assert(total == reg@.len());
                }
                return out;
            },
            Some((p, c)) => {
                proof {
                    assert(chain_from(reg@, cv, cc, fuel as nat) =~= seq![(cv, cc)] + chain_from(reg@, p@, c, (fuel - 1) as nat));
                    assert(after + chain_from(reg@, p@, c, (fuel - 1) as nat) =~= before + chain_from(reg@, cv, cc, fuel as nat));
                }
                cur = p;
                cut = c;
                fuel = fuel - 1;
            },
        }
    }
}

/// Opens table `name` from its fork chain, leaf first: every level is
/// replayed into one loader, so keys the leaf decided hide the ancestors'
/// records. The table's statistics are those of the leaf's own segments.
pub fn open_table(name: Vec<u8>, levels: &Vec<ChainLevel>) -> (r: LogFileTab)
    ensures
        r.wf(),
        r.contents() == live_of(chain_order(levels@)),
        r.ver() == 0,
        r.name_view() == name@,
{
    let mut loader = PairLoader::new(true);
    let mut stats: Vec<SegmentStat> = Vec::new();
    let mut i: usize = 0;
    while i < levels.len()
        invariant
            i <= levels@.len(),
            loader.consistent(),
            loader.is_building(),
            loader.visited() == chain_order(levels@.subrange(0, i as int)),
        decreases levels.len() - i,
    {
        let ghost v0 = loader.visited();
        loader.replay(&levels[i].segments, levels[i].cutoff);
        proof {
            let pre = levels@.subrange(0, i + 1);
            assert(pre.drop_last() =~= levels@.subrange(0, i as int));
            assert(pre.last() == levels@[i as int]);
        }
        if i == 0 {
            stats = copy_stats(loader.statistics());
        }
        i = i + 1;
    }
    proof {
        assert(levels@.subrange(0, levels@.len() as int) =~= levels@);
        loader.lemma_live_when_building();
    }
    LogFileTab::from_live(name, loader.live_map(), stats)
}

fn copy_stats(s: &Vec<SegmentStat>) -> (r: Vec<SegmentStat>)
    ensures
        r@ == s@,
{
    let mut r: Vec<SegmentStat> = Vec::new();
    let mut i: usize = 0;
    while i < s.len()
        invariant
            i <= s@.len(),
            r@ == s@.subrange(0, i as int),
        decreases s.len() - i,
    {
        r.push(s[i]);
        i = i + 1;
        proof {
            assert(r@ =~= s@.subrange(0, i as int));
        }
    }
    proof {
        assert(r@ =~= s@);
    }
    r
}

} // verus!

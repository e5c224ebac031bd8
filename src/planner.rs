//! Choosing the cold segments that compaction removes or rewrites.
use vstd::prelude::*;
use crate::loader::SegmentStat;
use crate::registry::{ForkRegistry, is_fork_floor};

verus! {

/// Whether a segment's reuse ratio `entries / live_keys` is below 1.5.
pub open spec fn efficient(s: SegmentStat) -> bool {
    2 * (s.entries as int) < 3 * (s.live_keys as int)
}

/// The plan for statistics listed newest segment first: segments without
/// live keys are removed; segments whose reuse ratio reaches 1.5 are
/// rewritten; the scan stops at the first efficient segment, or at the
/// first segment that a fork still reads (`floor`: the highest cutoff any
/// child records), since older segments are read through fork cutoffs.
pub open spec fn plan_spec(stats: Seq<SegmentStat>, floor: Option<u64>) -> (Seq<u64>, Seq<u64>)
    decreases stats.len(),
{
    if stats.len() == 0 {
        (Seq::empty(), Seq::empty())
    } else {
        let s = stats[0];
        let rest = plan_spec(stats.drop_first(), floor);
        if floor is Some && s.segment <= floor.unwrap() {
            (Seq::empty(), Seq::empty())
        } else if s.live_keys == 0 {
            (seq![s.segment] + rest.0, rest.1)
        } else if efficient(s) {
            (Seq::empty(), Seq::empty())
        } else {
            (rest.0, seq![s.segment] + rest.1)
        }
    }
}

/// Plans a compaction from replay statistics (newest segment first): the
/// segments to remove, and the segments to rewrite.
pub fn plan_collect(stats: &Vec<SegmentStat>, floor: Option<u64>) -> (r: (Vec<u64>, Vec<u64>))
    ensures
        (r.0@, r.1@) == plan_spec(stats@, floor),
{
    let mut remove: Vec<u64> = Vec::new();
    let mut rewrite: Vec<u64> = Vec::new();
    let mut i: usize = 0;
    proof {
        assert(stats@.subrange(0, stats@.len() as int) =~= stats@);
        assert(remove@ + plan_spec(stats@, floor).0 =~= plan_spec(stats@, floor).0);
        assert(rewrite@ + plan_spec(stats@, floor).1 =~= plan_spec(stats@, floor).1);
    }
    while i < stats.len()
        invariant
            i <= stats@.len(),
            plan_spec(stats@, floor) == (
                remove@ + plan_spec(stats@.subrange(i as int, stats@.len() as int), floor).0,
                rewrite@ + plan_spec(stats@.subrange(i as int, stats@.len() as int), floor).1,
            ),
        decreases stats.len() - i,
    {
        let s = stats[i];
        let ghost tail = stats@.subrange(i as int, stats@.len() as int);
        let ghost rest = plan_spec(tail.drop_first(), floor);
        proof {
            assert(tail.drop_first() =~= stats@.subrange(i + 1, stats@.len() as int));
            assert(tail[0] == s);
        }
        let protected = match floor {
            Some(f) => s.segment <= f,
            None => false,
        };
        if protected || (s.live_keys != 0 && (s.entries as u128) * 2 < (s.live_keys as u128) * 3) {
            proof {
                assert(remove@ + Seq::<u64>::empty() =~= remove@);
                assert(rewrite@ + Seq::<u64>::empty() =~= rewrite@);
            }
            return (remove, rewrite);
        }
        if s.live_keys == 0 {
            remove.push(s.segment);
        } else {
            rewrite.push(s.segment);
        }
        proof {
            assert(plan_spec(stats@, floor).0 =~= remove@ + rest.0);
            assert(plan_spec(stats@, floor).1 =~= rewrite@ + rest.1);
        }
        i = i + 1;
    }
    proof {
        assert(stats@.subrange(i as int, stats@.len() as int) =~= Seq::<SegmentStat>::empty());
        assert(remove@ + Seq::<u64>::empty() =~= remove@);
        assert(rewrite@ + Seq::<u64>::empty() =~= rewrite@);
    }
    (remove, rewrite)
}

/// Plans the compaction of table `name` from its replay statistics (newest
/// segment first), leaving alone every segment that a fork of `name` still
/// reads through its cutoff.
pub fn plan_table(reg: &ForkRegistry, name: &Vec<u8>, stats: &Vec<SegmentStat>) -> (r: (Vec<u64>, Vec<u64>))
    requires
        reg.wf(),
    ensures
        exists|f: Option<u64>| is_fork_floor(reg@, name@, f) && (r.0@, r.1@) == plan_spec(stats@, f),
{
    let floor = reg.fork_floor(name);
    plan_collect(stats, floor)
}

/// The fork floor is determined by the registry: at most one value meets it.
pub proof fn lemma_fork_floor_unique(m: vstd::map::Map<Seq<u8>, crate::registry::MetaView>, name: Seq<u8>, f: Option<u64>, g: Option<u64>)
    requires
        is_fork_floor(m, name, f),
        is_fork_floor(m, name, g),
    ensures
        f == g,
{
    if f is Some && g is Some {
        let kf = choose|k: Seq<u8>| #[trigger] m.contains_key(k) && m[k].1 == Some(name) && m[k].2 == f;
        let kg = choose|k: Seq<u8>| #[trigger] m.contains_key(k) && m[k].1 == Some(name) && m[k].2 == g;
        assert(m[kf].2.unwrap() <= g.unwrap());
        assert(m[kg].2.unwrap() <= f.unwrap());
    }
}

} // verus!

use log_file_db::{
    plan_table, LogFileMetaTxn, MetaChange, TableMetaInfo,
    fork_chain, open_table, plan_collect, ChainLevel, DbError, ForkRegistry, LogFileDB, LogFileTab, LogMethod,
    LogRecord, PairLoader, Segment, SegmentStat, TxState,
};

fn b(s: &str) -> Vec<u8> {
    s.as_bytes().to_vec()
}

fn pair(k: &str, v: &str) -> (Vec<u8>, Vec<u8>) {
    (b(k), b(v))
}

fn append(k: &str, v: &str) -> LogRecord {
    LogRecord { method: LogMethod::Append, key: b(k), value: b(v) }
}

fn remove(k: &str) -> LogRecord {
    LogRecord { method: LogMethod::Remove, key: b(k), value: Vec::new() }
}

fn empty_table(name: &str) -> LogFileTab {
    open_table(b(name), &Vec::new())
}

fn commit_writes(tab: &mut LogFileTab, id: u128, writes: &[(&str, Option<&str>)]) -> Vec<LogRecord> {
    let mut txn = tab.transaction(id, true);
    for (k, v) in writes {
        match v {
            Some(v) => txn.upsert(b(k), b(v)),
            None => txn.delete(&b(k)),
        }
    }
    txn.prepare_inner(tab).unwrap();
    let recs = txn.commit_inner(tab).unwrap();
    assert_eq!(txn.get_state(), TxState::Committing);
    txn.finish_commit(true);
    assert_eq!(txn.get_state(), TxState::Committed);
    recs
}

fn reopen(name: &str, levels: Vec<(Vec<Segment>, Option<u64>)>) -> LogFileTab {
    let levels: Vec<ChainLevel> = levels.into_iter().map(|(segments, cutoff)| ChainLevel { segments, cutoff }).collect();
    open_table(b(name), &levels)
}

#[test]
fn basic_upsert_survives_reopen() {
    let mut reg = ForkRegistry::new();
    reg.create(b("t"), b("schema")).unwrap();
    let mut tab = empty_table("t");
    let recs = commit_writes(&mut tab, 1, &[("k1", Some("v1"))]);
    assert_eq!(tab.iter(None, false), vec![pair("k1", "v1")]);
    let reopened = reopen("t", vec![(vec![Segment { id: 0, records: recs }], None)]);
    assert_eq!(reopened.iter(None, false), vec![pair("k1", "v1")]);
    assert_eq!(reopened.size(), 1);
}

#[test]
fn concurrent_writers_conflict() {
    let mut tab = empty_table("t");
    let mut t1 = tab.transaction(1, true);
    let mut t2 = tab.transaction(2, true);
    t1.upsert(b("k"), b("A"));
    t2.upsert(b("k"), b("B"));
    assert!(t1.prepare_inner(&mut tab).is_ok());
    assert!(t1.commit_inner(&mut tab).is_ok());
    match t2.prepare_inner(&mut tab) {
        Err(DbError::PrepareConflict { key }) => assert_eq!(key, b("k")),
        other => panic!("expected a conflict, got {:?}", other),
    }
    assert_eq!(t2.get_state(), TxState::PreparedFail);
    assert_eq!(tab.iter(None, false), vec![pair("k", "A")]);
}

#[test]
fn prepared_writer_blocks_reader() {
    let mut tab = empty_table("t");
    let mut t1 = tab.transaction(1, true);
    let mut t2 = tab.transaction(2, true);
    t1.upsert(b("k"), b("A"));
    assert_eq!(t2.get(&b("k")), None);
    assert!(t1.prepare_inner(&mut tab).is_ok());
    assert!(matches!(t2.prepare_inner(&mut tab), Err(DbError::PrepareConflict { .. })));
    assert!(t1.rollback_inner(&mut tab).is_ok());
    assert!(t2.prepare_inner(&mut tab).is_ok());
}

#[test]
fn read_only_readers_do_not_conflict() {
    let mut tab = empty_table("t");
    commit_writes(&mut tab, 9, &[("k", Some("v"))]);
    let mut t1 = tab.transaction(1, true);
    let mut t2 = tab.transaction(2, true);
    assert_eq!(t1.get(&b("k")), Some(b("v")));
    assert_eq!(t2.get(&b("k")), Some(b("v")));
    assert!(t1.prepare_inner(&mut tab).is_ok());
    assert!(t2.prepare_inner(&mut tab).is_ok());
}

#[test]
fn commit_without_prepare_is_refused() {
    let mut tab = empty_table("t");
    let mut txn = tab.transaction(1, true);
    txn.upsert(b("k"), b("v"));
    assert!(matches!(txn.commit_inner(&mut tab), Err(DbError::PrepareMissing)));
    assert_eq!(txn.get_state(), TxState::CommitFailed);
    assert_eq!(tab.size(), 0);
}

#[test]
fn commit_batch_lists_appends_then_removes() {
    let mut tab = empty_table("t");
    commit_writes(&mut tab, 1, &[("a", Some("1")), ("b", Some("2"))]);
    let recs = commit_writes(&mut tab, 2, &[("b", None), ("z", Some("9")), ("c", Some("3")), ("a", None)]);
    let got: Vec<(LogMethod, Vec<u8>, Vec<u8>)> = recs.into_iter().map(|r| (r.method, r.key, r.value)).collect();
    assert_eq!(
        got,
        vec![
            (LogMethod::Append, b("c"), b("3")),
            (LogMethod::Append, b("z"), b("9")),
            (LogMethod::Remove, b("a"), Vec::new()),
            (LogMethod::Remove, b("b"), Vec::new()),
        ]
    );
    assert_eq!(tab.iter(None, false), vec![pair("c", "3"), pair("z", "9")]);
}

#[test]
fn fork_and_diverge() {
    let mut reg = ForkRegistry::new();
    reg.create(b("parent"), b("s")).unwrap();
    let mut parent = empty_table("parent");
    let before = commit_writes(&mut parent, 1, &[("k1", Some("v1")), ("k2", Some("v2"))]);
    // The split closes segment 0 of the parent; the child reads it and nothing later.
    assert!(reg.fork_check(&b("child")).is_ok());
    reg.fork(&b("parent"), b("child"), b("s"), 0).unwrap();
    let chain = fork_chain(&reg, &b("child"));
    assert_eq!(chain, vec![(b("child"), None), (b("parent"), Some(0))]);
    let parent_seg0 = Segment { id: 0, records: before };
    let child_at_fork = reopen("child", vec![(Vec::new(), None), (vec![Segment { id: 0, records: parent_seg0.records.iter().map(|r| LogRecord { method: r.method, key: r.key.clone(), value: r.value.clone() }).collect() }], Some(0))]);
    assert_eq!(child_at_fork.iter(None, false), parent.iter(None, false));

    let after = commit_writes(&mut parent, 2, &[("k1", Some("v1'"))]);
    let mut child = child_at_fork;
    let child_recs = commit_writes(&mut child, 3, &[("k3", Some("v3"))]);
    assert_eq!(parent.iter(None, false), vec![pair("k1", "v1'"), pair("k2", "v2")]);
    assert_eq!(child.iter(None, false), vec![pair("k1", "v1"), pair("k2", "v2"), pair("k3", "v3")]);

    let parent_segs = || {
        vec![
            Segment { id: 0, records: parent_seg0.records.iter().map(|r| LogRecord { method: r.method, key: r.key.clone(), value: r.value.clone() }).collect() },
            Segment { id: 1, records: after.iter().map(|r| LogRecord { method: r.method, key: r.key.clone(), value: r.value.clone() }).collect() },
        ]
    };
    let reopened_parent = reopen("parent", vec![(parent_segs(), None)]);
    assert_eq!(reopened_parent.iter(None, false), vec![pair("k1", "v1'"), pair("k2", "v2")]);
    let reopened_child = reopen("child", vec![(vec![Segment { id: 0, records: child_recs }], None), (parent_segs(), Some(0))]);
    assert_eq!(reopened_child.iter(None, false), vec![pair("k1", "v1"), pair("k2", "v2"), pair("k3", "v3")]);
}

#[test]
fn drop_gated_by_ref_count() {
    let mut reg = ForkRegistry::new();
    reg.create(b("parent"), b("s")).unwrap();
    reg.fork(&b("parent"), b("child"), b("s"), 0).unwrap();
    assert_eq!(reg.tab_info(&b("parent")).unwrap().ref_count, 1);
    match reg.drop_tab(&b("parent")) {
        Err(DbError::TableInUse { name, ref_count }) => {
            assert_eq!(name, b("parent"));
            assert_eq!(ref_count, 1);
        },
        other => panic!("expected TableInUse, got {:?}", other),
    }
    assert!(reg.drop_tab(&b("child")).is_ok());
    assert_eq!(reg.tab_info(&b("parent")).unwrap().ref_count, 0);
    assert!(reg.drop_tab(&b("parent")).is_ok());
    assert_eq!(reg.len(), 0);
}

#[test]
fn registry_errors() {
    let mut reg = ForkRegistry::new();
    reg.create(b("t"), b("s")).unwrap();
    assert!(matches!(reg.create(b("t"), b("s")), Err(DbError::DuplicateTable { .. })));
    assert!(matches!(reg.fork(&b("t"), b("t"), b("s"), 3), Err(DbError::DuplicateTable { .. })));
    assert!(matches!(reg.fork_check(&b("t")), Err(DbError::DuplicateTable { .. })));
    assert!(matches!(reg.fork(&b("nope"), b("x"), b("s"), 3), Err(DbError::TableNotFound { .. })));
    assert!(matches!(reg.drop_tab(&b("nope")), Err(DbError::TableNotFound { .. })));
    assert_eq!(LogFileDB::new(reg).list(), vec![b("t")]);
}

fn numbered(i: u32) -> String {
    format!("key{:04}", i)
}

#[test]
fn compaction_plan_picks_overwrite_heavy_segments() {
    let seg0: Vec<LogRecord> = (0..1000).map(|i| append(&numbered(i), "first")).collect();
    let seg1: Vec<LogRecord> = (0..1000).map(|i| append(&numbered(0), &format!("over{}", i))).collect();
    let head = vec![append("head", "h")];
    let segs = vec![
        Segment { id: 0, records: seg0 },
        Segment { id: 1, records: seg1 },
        Segment { id: 2, records: head },
    ];
    let mut loader = PairLoader::new(true);
    loader.replay(&segs, None);
    assert_eq!(
        loader.statistics().clone(),
        vec![
            SegmentStat { segment: 1, entries: 1000, live_keys: 1 },
            SegmentStat { segment: 0, entries: 1000, live_keys: 999 },
        ]
    );
    let (rm, rw) = plan_collect(loader.statistics(), None);
    assert_eq!(rm, Vec::<u64>::new());
    assert_eq!(rw, vec![1]);

    let before = open_table(b("t"), &vec![ChainLevel { segments: segs, cutoff: None }]).iter(None, false);
    // Rewriting segment 1 keeps only its live record: the newest overwrite of key 0.
    let seg0: Vec<LogRecord> = (0..1000).map(|i| append(&numbered(i), "first")).collect();
    let compacted = vec![
        Segment { id: 0, records: seg0 },
        Segment { id: 1, records: vec![append(&numbered(0), "over999")] },
        Segment { id: 2, records: vec![append("head", "h")] },
    ];
    let after = open_table(b("t"), &vec![ChainLevel { segments: compacted, cutoff: None }]).iter(None, false);
    assert_eq!(before.len(), 1001);
    assert_eq!(before, after);
}

#[test]
fn compaction_plan_rules() {
    let st = |segment: u64, entries: u64, live_keys: u64| SegmentStat { segment, entries, live_keys };
    let stats = vec![st(5, 10, 0), st(4, 30, 20), st(3, 29, 20), st(2, 10, 0)];
    assert_eq!(plan_collect(&stats, None), (vec![5], vec![4]));
    let stats = vec![st(5, 10, 0), st(4, 300, 2), st(3, 10, 0)];
    assert_eq!(plan_collect(&stats, None), (vec![5, 3], vec![4]));
    assert_eq!(plan_collect(&stats, Some(4)), (vec![5], vec![]));
    assert_eq!(plan_collect(&Vec::new(), None), (vec![], vec![]));
}

#[test]
fn uncommitted_record_absent_after_restart() {
    let mut tab = empty_table("t");
    let durable = commit_writes(&mut tab, 1, &[("a", Some("1"))]);
    let mut txn = tab.transaction(2, true);
    txn.upsert(b("b"), b("2"));
    txn.prepare_inner(&mut tab).unwrap();
    let pending = txn.commit_inner(&mut tab).unwrap();
    assert_eq!(txn.get_state(), TxState::Committing);
    txn.finish_commit(false);
    assert_eq!(txn.get_state(), TxState::CommitFailed);
    // The process stops before the pending records are durable.
    let lost = reopen("t", vec![(vec![Segment { id: 0, records: durable }], None)]);
    assert_eq!(lost.iter(None, false), vec![pair("a", "1")]);
    let kept = reopen("t", vec![(vec![Segment { id: 0, records: vec![append("a", "1")] }, Segment { id: 1, records: pending }], None)]);
    assert_eq!(kept.iter(None, false), vec![pair("a", "1"), pair("b", "2")]);
}

#[test]
fn replay_first_observation_wins() {
    let segs = vec![
        Segment { id: 0, records: vec![append("a", "old"), append("b", "1"), append("c", "1")] },
        Segment { id: 1, records: vec![remove("b"), append("a", "new"), append("d", "x"), remove("d")] },
    ];
    let tab = reopen("t", vec![(segs, None)]);
    assert_eq!(tab.iter(None, false), vec![pair("a", "new"), pair("c", "1")]);
}

#[test]
fn replay_twice_gives_same_live_map() {
    let segs = vec![
        Segment { id: 0, records: vec![append("a", "1"), append("b", "1")] },
        Segment { id: 1, records: vec![remove("a"), append("b", "2")] },
    ];
    let mut once = PairLoader::new(true);
    once.replay(&segs, None);
    let mut twice = PairLoader::new(true);
    twice.replay(&segs, None);
    twice.replay(&segs, None);
    let m1 = once.live_map();
    let m2 = twice.live_map();
    assert_eq!(m1.len(), 1);
    assert_eq!(m2.len(), 1);
    assert_eq!(m1.get(&b("b")), Some(&b("2")));
    assert_eq!(m2.get(&b("b")), Some(&b("2")));
    assert_eq!(m2.get(&b("a")), None);
}

#[test]
fn cutoff_hides_later_segments() {
    let segs = vec![
        Segment { id: 0, records: vec![append("a", "1")] },
        Segment { id: 1, records: vec![append("a", "2"), append("b", "2")] },
    ];
    let tab = reopen("t", vec![(segs, Some(0))]);
    assert_eq!(tab.iter(None, false), vec![pair("a", "1")]);
}

#[test]
fn iteration_order_and_start_key() {
    let mut tab = empty_table("t");
    commit_writes(&mut tab, 1, &[("b", Some("2")), ("a", Some("1")), ("ab", Some("3")), ("c", Some("4"))]);
    assert_eq!(tab.iter(None, false), vec![pair("a", "1"), pair("ab", "3"), pair("b", "2"), pair("c", "4")]);
    assert_eq!(tab.iter(None, true), vec![pair("c", "4"), pair("b", "2"), pair("ab", "3"), pair("a", "1")]);
    assert_eq!(tab.iter(Some(&b("ab")), false), vec![pair("ab", "3"), pair("b", "2"), pair("c", "4")]);
    assert_eq!(tab.iter(Some(&b("abc")), true), vec![pair("ab", "3"), pair("a", "1")]);
    assert_eq!(tab.iter(Some(&b("d")), false), Vec::<(Vec<u8>, Vec<u8>)>::new());
    let txn = tab.transaction(2, false);
    assert_eq!(txn.iter(None, true), tab.iter(None, true));
    assert_eq!(txn.tab_size(), 4);
}

#[test]
fn snapshot_is_stable_under_later_commits() {
    let mut tab = empty_table("t");
    commit_writes(&mut tab, 1, &[("a", Some("1"))]);
    let mut reader = tab.transaction(2, false);
    commit_writes(&mut tab, 3, &[("a", Some("2")), ("b", Some("2"))]);
    assert_eq!(reader.get(&b("a")), Some(b("1")));
    assert_eq!(reader.iter(None, false), vec![pair("a", "1")]);
    assert_eq!(tab.iter(None, false), vec![pair("a", "2"), pair("b", "2")]);
}

#[test]
fn read_then_changed_key_conflicts() {
    let mut tab = empty_table("t");
    commit_writes(&mut tab, 1, &[("a", Some("1"))]);
    let mut t = tab.transaction(2, true);
    assert_eq!(t.get(&b("a")), Some(b("1")));
    t.upsert(b("x"), b("y"));
    commit_writes(&mut tab, 3, &[("a", Some("2"))]);
    assert!(matches!(t.prepare_inner(&mut tab), Err(DbError::PrepareConflict { key }) if key == b("a")));
}

#[test]
fn untouched_keys_commit_after_root_moved() {
    let mut tab = empty_table("t");
    let mut t = tab.transaction(2, true);
    t.upsert(b("x"), b("y"));
    commit_writes(&mut tab, 3, &[("a", Some("2"))]);
    assert!(t.prepare_inner(&mut tab).is_ok());
    assert!(t.commit_inner(&mut tab).is_ok());
    assert_eq!(tab.iter(None, false), vec![pair("a", "2"), pair("x", "y")]);
}

#[test]
fn index_not_implemented_and_timeout() {
    let tab = empty_table("t");
    let txn = tab.transaction(1, false);
    assert!(matches!(txn.index(), Err(DbError::NotImplemented)));
    assert_eq!(LogFileDB::new(ForkRegistry::new()).timeout(), 100);
}

#[test]
fn loader_statistics_skip_writable_head() {
    let mut loader = PairLoader::new(true);
    assert!(loader.is_require(7, &b("k")));
    loader.load(7, LogMethod::Append, &b("k"), &b("v"));
    assert!(!loader.is_require(7, &b("k")));
    assert!(loader.statistics().is_empty());
    assert!(!loader.is_require(6, &b("k")));
    assert_eq!(loader.statistics().clone(), vec![SegmentStat { segment: 6, entries: 1, live_keys: 0 }]);
    assert!(loader.is_require(6, &b("j")));
    loader.load(6, LogMethod::Remove, &b("j"), &Vec::new());
    assert_eq!(loader.statistics().clone(), vec![SegmentStat { segment: 6, entries: 2, live_keys: 1 }]);
    assert!(!loader.is_require(6, &b("j")));
}

#[test]
fn batch_query_and_modify() {
    let mut tab = empty_table("t");
    commit_writes(&mut tab, 1, &[("a", Some("1")), ("b", Some("2"))]);
    let mut txn = tab.transaction(2, true);
    txn.modify(&vec![(b("c"), Some(b("3"))), (b("a"), None), (b("c"), Some(b("4")))]);
    assert_eq!(txn.query(&vec![b("a"), b("b"), b("c")]), vec![None, Some(b("2")), Some(b("4"))]);
    assert_eq!(txn.key_iter(None, false), vec![b("b"), b("c")]);
    assert_eq!(txn.key_iter(Some(&b("bz")), true), vec![b("b")]);
    txn.prepare_inner(&mut tab).unwrap();
    let recs = txn.commit_inner(&mut tab).unwrap();
    assert_eq!(recs.len(), 2);
    assert_eq!(tab.iter(None, false), vec![pair("b", "2"), pair("c", "4")]);
}

#[test]
fn meta_transaction_applies_in_order() {
    let mut reg = ForkRegistry::new();
    let mut meta = log_file_db::LogFileMetaTxn::new();
    meta.alter(b("hello"), Some(b("s"))).unwrap();
    meta.alter(b("hello_fork"), Some(b("s"))).unwrap();
    assert!(meta.commit(&mut reg).0.is_ok());
    assert_eq!(reg.len(), 2);

    let mut again = log_file_db::LogFileMetaTxn::new();
    again.alter(b("other"), Some(b("s"))).unwrap();
    again.alter(b("hello"), Some(b("s"))).unwrap();
    assert!(matches!(again.commit(&mut reg).0, Err(DbError::DuplicateTable { name }) if name == b("hello")));
    assert_eq!(reg.len(), 3);

    let mut dropper = log_file_db::LogFileMetaTxn::new();
    dropper.alter(b("hello_fork"), None).unwrap();
    dropper.alter(b("missing"), None).unwrap();
    assert!(matches!(dropper.commit(&mut reg).0, Err(DbError::TableNotFound { .. })));
    assert!(reg.tab_info(&b("hello_fork")).is_none());

    let mut undone = log_file_db::LogFileMetaTxn::new();
    undone.alter(b("x"), Some(b("s"))).unwrap();
    undone.rollback().unwrap();
    assert!(undone.commit(&mut reg).0.is_ok());
    assert!(reg.tab_info(&b("x")).is_none());
}

#[test]
fn fork_chain_follows_parents() {
    let mut reg = ForkRegistry::new();
    reg.create(b("hello"), b("s")).unwrap();
    reg.fork(&b("hello"), b("hello_fork"), b("s"), 4).unwrap();
    reg.fork(&b("hello_fork"), b("hello_fork2"), b("s"), 7).unwrap();
    assert_eq!(
        fork_chain(&reg, &b("hello_fork2")),
        vec![(b("hello_fork2"), None), (b("hello_fork"), Some(7)), (b("hello"), Some(4))]
    );
    assert_eq!(fork_chain(&reg, &b("hello")), vec![(b("hello"), None)]);
    assert_eq!(fork_chain(&reg, &b("unknown")), vec![(b("unknown"), None)]);
    let info = reg.tab_info(&b("hello_fork2")).unwrap();
    assert_eq!(info.parent, Some(b("hello_fork")));
    assert_eq!(info.parent_segment_id, Some(7));
}

#[test]
fn fork_floor_protects_cutoff_segments() {
    let mut reg = ForkRegistry::new();
    reg.create(b("p"), b("s")).unwrap();
    assert_eq!(reg.fork_floor(&b("p")), None);
    reg.fork(&b("p"), b("c1"), b("s"), 3).unwrap();
    reg.fork(&b("p"), b("c2"), b("s"), 9).unwrap();
    reg.fork(&b("c1"), b("g"), b("s"), 20).unwrap();
    assert_eq!(reg.fork_floor(&b("p")), Some(9));
    assert_eq!(reg.fork_floor(&b("c1")), Some(20));
    let st = |segment: u64, entries: u64, live_keys: u64| SegmentStat { segment, entries, live_keys };
    let stats = vec![st(11, 40, 2), st(10, 0, 0), st(9, 40, 2), st(8, 40, 2)];
    assert_eq!(plan_collect(&stats, reg.fork_floor(&b("p"))), (vec![10], vec![11]));
}

fn change_view(c: &MetaChange) -> (Vec<u8>, Option<(u64, Option<Vec<u8>>, Option<u64>)>) {
    (c.name.clone(), c.entry.as_ref().map(|e| (e.ref_count, e.parent.clone(), e.parent_segment_id)))
}

#[test]
fn meta_commit_reports_entries_to_persist() {
    let mut reg = ForkRegistry::new();
    let mut meta = LogFileMetaTxn::new();
    meta.alter(b("p"), Some(b("s"))).unwrap();
    let (r, recs) = meta.commit(&mut reg);
    assert!(r.is_ok());
    assert_eq!(recs.iter().map(change_view).collect::<Vec<_>>(), vec![(b("p"), Some((0, None, None)))]);

    let recs = reg.fork(&b("p"), b("c"), b("s"), 5).unwrap();
    assert_eq!(
        recs.iter().map(change_view).collect::<Vec<_>>(),
        vec![(b("p"), Some((1, None, None))), (b("c"), Some((0, Some(b("p")), Some(5))))]
    );

    let mut in_use = LogFileMetaTxn::new();
    in_use.alter(b("p"), None).unwrap();
    let (r, recs) = in_use.commit(&mut reg);
    match r {
        Err(DbError::TableInUse { name, ref_count }) => {
            assert_eq!(name, b("p"));
            assert_eq!(ref_count, 1);
        },
        other => panic!("expected TableInUse, got {:?}", other),
    }
    assert!(recs.is_empty());

    let mut drop_child = LogFileMetaTxn::new();
    drop_child.alter(b("c"), None).unwrap();
    let (r, recs) = drop_child.commit(&mut reg);
    assert!(r.is_ok());
    assert_eq!(recs.iter().map(change_view).collect::<Vec<_>>(), vec![(b("c"), None), (b("p"), Some((0, None, None)))]);
}

#[test]
fn registry_from_entries_keeps_last() {
    let meta = |rc: u64| TableMetaInfo { schema: b("s"), parent: None, parent_segment_id: None, ref_count: rc };
    let reg = ForkRegistry::from_entries(vec![(b("a"), meta(0)), (b("b"), meta(2)), (b("a"), meta(1))]);
    assert_eq!(reg.len(), 2);
    assert_eq!(reg.tab_info(&b("a")).unwrap().ref_count, 1);
    assert_eq!(reg.tab_info(&b("b")).unwrap().ref_count, 2);
}

#[test]
fn plan_table_respects_fork_cutoffs() {
    let mut reg = ForkRegistry::new();
    reg.create(b("p"), b("s")).unwrap();
    let st = |segment: u64, entries: u64, live_keys: u64| SegmentStat { segment, entries, live_keys };
    let stats = vec![st(6, 40, 2), st(5, 40, 2), st(4, 0, 0)];
    assert_eq!(plan_table(&reg, &b("p"), &stats), (vec![4], vec![6, 5]));
    reg.fork(&b("p"), b("c"), b("s"), 5).unwrap();
    assert_eq!(plan_table(&reg, &b("p"), &stats), (vec![], vec![6]));
}

#[test]
fn write_against_prepared_read_does_not_conflict() {
    let mut tab = empty_table("t");
    commit_writes(&mut tab, 1, &[("k", Some("v"))]);
    let mut reader = tab.transaction(2, true);
    let mut writer = tab.transaction(3, true);
    assert_eq!(reader.get(&b("k")), Some(b("v")));
    writer.upsert(b("k"), b("w"));
    assert!(reader.prepare_inner(&mut tab).is_ok());
    assert!(writer.prepare_inner(&mut tab).is_ok());
}

use pdc::storage::oplog::{
    local_origin, record_local_ops, set_local_origin, OpLog, Operation, SyncEntry, ALL_REPOS,
    OP_DELETE, OP_UPSERT,
};
use pdc::storage::propagation::{build_each, propagate};

fn entry(key: &[u8], operation: Operation, payload: &[u8], version: u64) -> SyncEntry {
    SyncEntry { key: key.to_vec(), operation, version, payload: payload.to_vec() }
}

#[test]
fn test_oplog_append_and_load_since() {
    let mut st = OpLog::new();
    assert_eq!(st.oplog_max_seq(), 0);
    assert!(st.load_ops_since(0, 0, 10).is_empty());
    let entries = vec![
        entry(b"1.2.3.4:6881", Operation::Upsert, b"payload-A", 100),
        entry(b"5.6.7.8:6881", Operation::Delete, b"", 101),
    ];
    assert_eq!(st.append_ops_from_entries(0, &entries, 1, b"").ok(), Some(2));
    assert_eq!(st.oplog_len(), 2);
    assert_eq!(st.oplog_max_seq(), 2);
    let ops = st.load_ops_since(0, 0, 10);
    assert_eq!(ops.len(), 2);
    assert_eq!(ops[0].op, OP_UPSERT);
    assert_eq!(ops[0].key, b"1.2.3.4:6881");
    assert_eq!(ops[0].value, b"payload-A");
    assert_eq!(ops[1].op, OP_DELETE);
    assert!(ops[1].value.is_empty());
    let ops = st.load_ops_since(0, 1, 10);
    assert_eq!(ops.len(), 1);
    assert_eq!(ops[0].seq, 2);
    assert!(st.load_ops_since(1, 0, 10).is_empty());
    assert_eq!(st.load_ops_since(0, 0, 1).len(), 1);
}

#[test]
fn test_oplog_trim_by_retention() {
    let now = 1_700_000_000_000i64;
    let mut st = OpLog::new();
    assert!(st
        .append_ops_from_entries(0, &[entry(b"k1", Operation::Upsert, b"v", 1)], now, b"")
        .is_ok());
    assert_eq!(st.trim_oplog(now + 1), 1);
    assert_eq!(st.oplog_len(), 0);
    assert!(st
        .append_ops_from_entries(0, &[entry(b"k2", Operation::Upsert, b"v", 2)], now, b"")
        .is_ok());
    assert_eq!(st.trim_oplog_by_retention(0, now), 0);
    assert_eq!(st.oplog_len(), 1);
}

#[test]
fn a_full_log_stays_as_it_is() {
    let Some(mut st) = OpLog::restore(vec![], i64::MAX - 1) else { panic!("no log") };
    let two = [entry(b"a", Operation::Upsert, b"v", 1), entry(b"b", Operation::Upsert, b"v", 1)];
    assert_eq!(st.append_ops_from_entries(0, &two, 1, b"").ok(), Some(0));
    assert_eq!(st.oplog_len(), 0);
    assert_eq!(st.append_ops_from_entries(0, &two[..1], 1, b"").ok(), Some(1));
    assert_eq!(st.oplog_max_seq(), i64::MAX);
    assert_eq!(st.append_ops_from_entries(0, &[], 1, b"").ok(), Some(0));
    assert!(st.append_op(0, OP_UPSERT, b"k", b"v", 1, b"").is_err());
    assert_eq!(st.oplog_len(), 1);
}

#[test]
fn trimming_keeps_the_recent() {
    let mut st = OpLog::new();
    for t in [1_000i64, 2_000, 3_000] {
        assert!(st.append_op(1, OP_UPSERT, b"k", b"v", t, b"o").is_ok());
    }
    assert_eq!(st.trim_oplog_by_retention(1, 3_500), 2);
    assert_eq!(st.oplog_min_seq(), 3);
    assert_eq!(st.oplog_max_seq(), 3);
    assert_eq!(st.append_op(1, OP_UPSERT, b"k", b"v", 4_000, b"o").ok(), Some(4));
    assert_eq!(st.load_ops_since(ALL_REPOS, 0, 10).len(), 2);
}

#[test]
fn local_changes_carry_the_origin() {
    let mut cell: Option<Vec<u8>> = None;
    assert!(local_origin(&cell).is_empty());
    set_local_origin(&mut cell, vec![7; 20]);
    let mut log = OpLog::new();
    record_local_ops(
        &mut log,
        1,
        &[entry(b"k", Operation::Upsert, b"v", 1)],
        5,
        &local_origin(&cell),
    );
    assert_eq!(log.load_ops_since(1, 0, 1)[0].origin, vec![7; 20]);
}

#[test]
fn saved_log_is_restored() {
    let mut log = OpLog::new();
    assert!(log.append_op(1, OP_UPSERT, b"a", b"1", 1, b"").is_ok());
    assert!(log.append_op(4, OP_DELETE, b"b", b"", 2, b"").is_ok());
    let saved = log.load_ops_since(ALL_REPOS, 0, 10).iter().map(|o| o.duplicate()).collect();
    let again = OpLog::restore(saved, log.oplog_max_seq()).unwrap();
    assert_eq!(again.oplog_len(), 2);
    assert_eq!(again.load_ops_since(4, 0, 10)[0].key, b"b".to_vec());
    let swapped = log.load_ops_since(ALL_REPOS, 0, 10).iter().rev().map(|o| o.duplicate()).collect();
    assert!(OpLog::restore(swapped, 2).is_none());
}

#[test]
fn news_are_told_and_logged() {
    let built = build_each(&vec![1u8, 2, 3], |n: &u8| {
        if *n == 2 {
            None
        } else {
            Some((vec![*n], vec![*n, *n], vec![0]))
        }
    });
    assert_eq!(built.len(), 2);
    let mut log = OpLog::new();
    let entries = propagate(&mut log, true, 1, &built, 9, 9_000, b"me");
    assert_eq!(entries.len(), 2);
    assert_eq!(entries[1].key, vec![3]);
    assert_eq!(entries[1].version, 9);
    assert_eq!(log.oplog_len(), 2);
    assert_eq!(propagate(&mut log, true, 2, &built, 9, 9_000, b"me").len(), 2);
    assert_eq!(log.oplog_len(), 2);
    assert!(propagate(&mut log, false, 1, &built, 9, 9_000, b"me").is_empty());
    assert_eq!(log.oplog_len(), 2);
}

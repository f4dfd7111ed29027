use async_wal_db::database::LogRefusal;
use async_wal_db::log::{encode_batch, encode_record, kept_len, read_log, LogEnd, LogScan};
use async_wal_db::recovery::{incomplete_transactions, recover_found};
use async_wal_db::store::Store;
use async_wal_db::transaction::TxIds;
use async_wal_db::{Database, RecoveryStats, Transaction, WalEntry, WalError};

fn flush(db: &mut Database, file: &mut Vec<u8>) {
    if let Some(flush) = db.wal.drain_and_flush().unwrap() {
        file.extend(&flush.bytes);
        db.wal.end_flush(flush, true);
    }
}

fn append_op(db: &mut Database, tx: &mut Transaction, op: WalEntry) {
    db.append_op(tx, &op, 1).unwrap();
}

fn commit(db: &mut Database, file: &mut Vec<u8>, mut tx: Transaction) {
    let logged = db.log_commit(&mut tx, 2).unwrap();
    flush(db, file);
    assert!(db.can_finish(&tx, &logged));
    tx.commit(db, logged).unwrap();
}

fn abort(db: &mut Database, file: &mut Vec<u8>, mut tx: Transaction) {
    let logged = db.log_abort(&tx, 2).unwrap();
    flush(db, file);
    tx.abort(db, logged).unwrap();
}

fn insert(key: &str, value: &[u8]) -> WalEntry {
    WalEntry::Insert { tx_id: 0, timestamp: 0, key: key.to_string(), value: value.to_vec() }
}

fn stored<'a>(db: &'a Database, key: &str) -> Option<&'a [u8]> {
    db.store.get(key).map(|v| v.as_slice())
}

fn op(tx_id: u64, key: &str, value: &[u8]) -> WalEntry {
    WalEntry::Insert { tx_id, timestamp: 0, key: key.to_string(), value: value.to_vec() }
}

fn committed(tx_id: u64) -> WalEntry {
    WalEntry::Commit { tx_id, timestamp: 0 }
}

fn aborted(tx_id: u64) -> WalEntry {
    WalEntry::Abort { tx_id, timestamp: 0 }
}

fn recovered(entries: &[WalEntry]) -> (Database, RecoveryStats) {
    let log = encode_batch(&entries.to_vec()).unwrap();
    let mut db = Database::new("wal.log");
    let stats = db.recover(&mut TxIds::new(), Some(&log)).unwrap();
    (db, stats)
}

#[test]
fn test_recovery() {
    let mut ids = TxIds::new();
    let mut file = Vec::new();
    let mut db = Database::new("wal.log");
    let mut tx = db.begin_transaction(&mut ids);
    append_op(&mut db, &mut tx, insert("recovered", b"data"));
    commit(&mut db, &mut file, tx);
    drop(db);

    let mut db_new = Database::new("wal.log");
    db_new.recover(&mut ids, Some(&file)).unwrap();
    assert_eq!(stored(&db_new, "recovered"), Some(&b"data"[..]));
}

#[test]
fn test_checkpoint_compaction() {
    let mut ids = TxIds::new();
    let mut file = Vec::new();
    let mut db = Database::new("wal.log");
    let mut tx = db.begin_transaction(&mut ids);
    append_op(&mut db, &mut tx, insert("ckpt", b"data"));
    commit(&mut db, &mut file, tx);

    let max = db.checkpoint(0, Some(&file)).unwrap();
    assert_eq!(max, 1);
    assert!(file.len() > 0); // WAL still contains data
    assert_eq!(stored(&db, "ckpt"), Some(&b"data"[..]));
    assert!(matches!(db.checkpoint(max, Some(&file)), Err(WalError::NoNewCheckpoints)));
}

#[test]
fn test_transaction_id_uniqueness_after_recovery() {
    // Create first transaction
    let mut ids = TxIds::new();
    let db = Database::new("wal_unique.log");
    let tx1 = db.begin_transaction(&mut ids);
    let tx1_id = tx1.id;
    drop(tx1);
    drop(db);

    // Recover and create new transaction - should have higher ID
    let mut db2 = Database::new("wal_unique.log");
    db2.recover(&mut ids, Some(&[])).unwrap();
    let tx2 = db2.begin_transaction(&mut ids);
    assert!(tx2.id > tx1_id);
}

#[test]
fn test_incomplete_transaction_recovery() {
    let mut ids = TxIds::new();
    let mut file = Vec::new();
    let mut db = Database::new("wal_incomplete.log");

    // Create a complete transaction
    let mut tx1 = db.begin_transaction(&mut ids);
    append_op(&mut db, &mut tx1, insert("complete", b"data1"));
    commit(&mut db, &mut file, tx1);

    // Create an incomplete transaction (no commit/abort)
    let mut tx2 = db.begin_transaction(&mut ids);
    append_op(&mut db, &mut tx2, insert("incomplete", b"data2"));
    drop(tx2);
    flush(&mut db, &mut file);
    drop(db);

    // Recover - incomplete transaction should be rolled back
    let mut db2 = Database::new("wal_incomplete.log");
    let stats = db2.recover(&mut ids, Some(&file)).unwrap();

    assert_eq!(stats.total_transactions, 2);
    assert_eq!(stats.committed, 1);
    assert_eq!(stats.incomplete, 1);

    assert_eq!(stored(&db2, "complete"), Some(&b"data1"[..]));
    assert!(stored(&db2, "incomplete").is_none());
}

#[test]
fn test_aborted_transaction_recovery() {
    let mut ids = TxIds::new();
    let mut file = Vec::new();
    let mut db = Database::new("wal_aborted.log");

    // Create and abort a transaction
    let mut tx = db.begin_transaction(&mut ids);
    append_op(&mut db, &mut tx, insert("aborted", b"data"));
    abort(&mut db, &mut file, tx);
    drop(db);

    // Recover - aborted transaction should not appear in store
    let mut db2 = Database::new("wal_aborted.log");
    let stats = db2.recover(&mut ids, Some(&file)).unwrap();

    assert_eq!(stats.total_transactions, 1);
    assert_eq!(stats.aborted, 1);
    assert_eq!(stats.committed, 0);
    assert!(stored(&db2, "aborted").is_none());
}

#[test]
fn test_partial_write_recovery() {
    let mut ids = TxIds::new();
    let mut file = Vec::new();
    let mut db = Database::new("wal_partial.log");

    // Create a complete transaction
    let mut tx1 = db.begin_transaction(&mut ids);
    append_op(&mut db, &mut tx1, insert("before_crash", b"data"));
    commit(&mut db, &mut file, tx1);
    drop(db);

    // Write incomplete header (only 5 bytes instead of 13)
    file.extend([1, 2, 3, 4, 5]);

    // Recover - should handle partial write gracefully
    let mut db2 = Database::new("wal_partial.log");
    let stats = db2.recover(&mut ids, Some(&file)).unwrap();

    assert_eq!(stats.partial_writes, 1, "Should detect partial write");
    assert_eq!(stats.committed, 1);
    assert_eq!(stored(&db2, "before_crash"), Some(&b"data"[..]));
}

#[test]
fn test_mixed_transaction_states_recovery() {
    let mut ids = TxIds::new();
    let mut file = Vec::new();
    let mut db = Database::new("wal_mixed.log");

    // Transaction 1: Committed
    let mut tx1 = db.begin_transaction(&mut ids);
    append_op(&mut db, &mut tx1, insert("tx1", b"committed"));
    commit(&mut db, &mut file, tx1);

    // Transaction 2: Aborted
    let mut tx2 = db.begin_transaction(&mut ids);
    append_op(&mut db, &mut tx2, insert("tx2", b"aborted"));
    abort(&mut db, &mut file, tx2);

    // Transaction 3: Incomplete
    let mut tx3 = db.begin_transaction(&mut ids);
    append_op(&mut db, &mut tx3, insert("tx3", b"incomplete"));
    drop(tx3);

    // Transaction 4: Committed
    let mut tx4 = db.begin_transaction(&mut ids);
    append_op(&mut db, &mut tx4, insert("tx4", b"committed2"));
    commit(&mut db, &mut file, tx4);
    drop(db);

    // Recover and verify
    let mut db2 = Database::new("wal_mixed.log");
    let stats = db2.recover(&mut ids, Some(&file)).unwrap();

    assert_eq!(stats.total_transactions, 4);
    assert_eq!(stats.committed, 2);
    assert_eq!(stats.aborted, 1);
    assert_eq!(stats.incomplete, 1);
    assert_eq!(stats.partial_writes, 0);
    assert_eq!(stats.checksum_failures, 0);

    assert_eq!(stored(&db2, "tx1"), Some(&b"committed"[..]));
    assert!(stored(&db2, "tx2").is_none(), "Aborted tx should not be in store");
    assert!(stored(&db2, "tx3").is_none(), "Incomplete tx should not be in store");
    assert_eq!(stored(&db2, "tx4"), Some(&b"committed2"[..]));
}

#[test]
fn test_recovery_with_updates_and_deletes() {
    let mut ids = TxIds::new();
    let mut file = Vec::new();
    let mut db = Database::new("wal_ops.log");

    // Insert
    let mut tx1 = db.begin_transaction(&mut ids);
    append_op(&mut db, &mut tx1, insert("key1", b"value1"));
    commit(&mut db, &mut file, tx1);

    // Update
    let mut tx2 = db.begin_transaction(&mut ids);
    append_op(&mut db, &mut tx2, WalEntry::Update {
        tx_id: 0,
        timestamp: 0,
        key: "key1".to_string(),
        old_value: b"value1".to_vec(),
        new_value: b"value2".to_vec(),
    });
    commit(&mut db, &mut file, tx2);
    assert_eq!(stored(&db, "key1"), Some(&b"value2"[..]));

    // Delete
    let mut tx3 = db.begin_transaction(&mut ids);
    append_op(&mut db, &mut tx3, WalEntry::Delete {
        tx_id: 0,
        timestamp: 0,
        key: "key1".to_string(),
        old_value: b"value2".to_vec(),
    });
    commit(&mut db, &mut file, tx3);
    drop(db);

    // Recover and verify final state
    let mut db2 = Database::new("wal_ops.log");
    let stats = db2.recover(&mut ids, Some(&file)).unwrap();

    assert_eq!(stats.committed, 3);
    assert!(stored(&db2, "key1").is_none(), "Key should be deleted");
}

#[test]
fn log_that_cannot_be_opened_is_an_error() {
    let mut db = Database::new("wal.log");
    let mut ids = TxIds::new();
    assert!(matches!(db.recover(&mut ids, None), Err(WalError::OpenWal)));
    assert!(matches!(db.checkpoint(0, None), Err(WalError::OpenWal)));
    assert_eq!(ids.allocate(), 1);
}

#[test]
fn transactions_are_replayed_in_order_of_their_ids() {
    let (db, _) = recovered(&[op(5, "k", b"five"), op(2, "k", b"two"), committed(5), committed(2)]);
    assert_eq!(stored(&db, "k"), Some(&b"five"[..]));
}

#[test]
fn interleaving_does_not_matter() {
    let (a, sa) = recovered(&[op(1, "x", b"1"), op(2, "x", b"2"), committed(1), committed(2)]);
    let (b, sb) = recovered(&[op(2, "x", b"2"), committed(2), op(1, "x", b"1"), committed(1)]);
    assert_eq!(stored(&a, "x"), stored(&b, "x"));
    assert_eq!(stored(&a, "x"), Some(&b"2"[..]));
    assert_eq!(sa, sb);
}

#[test]
fn last_marker_decides() {
    let (db, stats) = recovered(&[op(1, "a", b"1"), committed(1), aborted(1)]);
    assert!(stored(&db, "a").is_none());
    assert_eq!((stats.total_transactions, stats.committed, stats.aborted), (1, 0, 1));
    let (db, stats) = recovered(&[aborted(1), op(1, "a", b"1"), committed(1), op(1, "b", b"2")]);
    assert_eq!(stored(&db, "a"), Some(&b"1"[..]));
    assert_eq!(stored(&db, "b"), Some(&b"2"[..]));
    assert_eq!((stats.committed, stats.aborted), (1, 0));
}

#[test]
fn uncommitted_transactions_leave_no_trace() {
    let with = [op(1, "a", b"1"), op(2, "a", b"2"), op(3, "b", b"3"), aborted(2), committed(1)];
    let without = [op(1, "a", b"1"), committed(1)];
    let (a, stats) = recovered(&with);
    let (b, _) = recovered(&without);
    assert_eq!(stored(&a, "a"), stored(&b, "a"));
    assert!(stored(&a, "b").is_none());
    assert_eq!(a.store.len(), 1);
    assert_eq!(stats.total_transactions, stats.committed + stats.aborted + stats.incomplete);
    assert_eq!((stats.committed, stats.aborted, stats.incomplete), (1, 1, 1));
}

#[test]
fn transactions_are_recovered_whole_or_not_at_all() {
    let before = encode_batch(&vec![op(1, "a", b"old"), committed(1)]).unwrap();
    let written =
        encode_batch(&vec![op(2, "a", b"new"), op(2, "b", b"new"), committed(2)]).unwrap();
    for len in 0..=written.len() {
        let mut log = before.clone();
        log.extend(&written[..len]);
        let mut db = Database::new("wal.log");
        db.recover(&mut TxIds::new(), Some(&log)).unwrap();
        if len == written.len() {
            assert_eq!(stored(&db, "a"), Some(&b"new"[..]));
            assert_eq!(stored(&db, "b"), Some(&b"new"[..]));
        } else {
            assert_eq!(stored(&db, "a"), Some(&b"old"[..]));
            assert_eq!(stored(&db, "b"), None);
        }
    }
}

#[test]
fn recovery_twice_is_recovery_once() {
    let log = encode_batch(&vec![
        op(1, "a", b"1"),
        committed(1),
        WalEntry::Delete { tx_id: 2, timestamp: 0, key: "b".to_string(), old_value: vec![] },
        op(2, "a", b"2"),
        committed(2),
    ])
    .unwrap();
    let mut db = Database::new("wal.log");
    let mut ids = TxIds::new();
    let first = db.recover(&mut ids, Some(&log)).unwrap();
    let second = db.recover(&mut ids, Some(&log)).unwrap();
    assert_eq!(first, second);
    assert_eq!(stored(&db, "a"), Some(&b"2"[..]));
    assert_eq!(db.store.len(), 1);
    assert_eq!(ids.allocate(), 3);
}

#[test]
fn recovered_ids_are_fresh() {
    let log = encode_batch(&vec![op(41, "a", b"1"), aborted(7)]).unwrap();
    let mut ids = TxIds::new();
    let mut db = Database::new("wal.log");
    db.recover(&mut ids, Some(&log)).unwrap();
    assert_eq!(db.begin_transaction(&mut ids).id, 42);
    db.recover(&mut ids, Some(&log)).unwrap();
    assert_eq!(db.begin_transaction(&mut ids).id, 43);
}

#[test]
fn largest_id_moves_no_counter() {
    let mut ids = TxIds::new();
    ids.restore(u64::MAX);
    assert_eq!(ids.allocate(), 1);
    ids.restore(u64::MAX - 1);
    assert_eq!(ids.allocate(), u64::MAX);
    assert_eq!(ids.allocate(), 0);
}

#[test]
fn empty_keys_are_refused_after_recovery() {
    let log = encode_batch(&vec![op(4, "", b"1"), committed(4)]).unwrap();
    let mut ids = TxIds::new();
    let mut db = Database::new("wal.log");
    match db.recover(&mut ids, Some(&log)) {
        Err(WalError::Validation(text)) => assert_eq!(text, "Invalid empty key after recovery"),
        _ => panic!("Expected Validation error"),
    }
    assert_eq!(stored(&db, ""), Some(&b"1"[..]));
    assert_eq!(ids.allocate(), 1);
}

#[test]
fn updates_of_missing_keys_are_recovered_as_inserts() {
    let (db, _) = recovered(&[
        WalEntry::Update {
            tx_id: 1,
            timestamp: 0,
            key: "k".to_string(),
            old_value: vec![],
            new_value: b"v".to_vec(),
        },
        committed(1),
    ]);
    assert_eq!(stored(&db, "k"), Some(&b"v"[..]));
}

#[test]
fn statistics_tell_how_the_log_ends() {
    let ends = [
        (LogEnd::Clean, 0, 0),
        (LogEnd::PartialHeader { offset: 0 }, 1, 0),
        (LogEnd::TornData { offset: 9 }, 1, 0),
        (LogEnd::BadEntry { offset: 9 }, 1, 0),
        (LogEnd::ChecksumMismatch { offset: 9, expected: 1, actual: 2 }, 0, 1),
    ];
    for (end, partial, checksum) in ends {
        let found = LogScan { entries: vec![op(3, "k", b"v")], end, decode_error: None };
        let mut store = Store::new();
        let stats = recover_found(&mut store, &mut TxIds::new(), &found).unwrap();
        assert_eq!(stats.partial_writes, partial);
        assert_eq!(stats.checksum_failures, checksum);
        assert_eq!((stats.total_transactions, stats.incomplete), (1, 1));
        assert!(!store.contains_key("k"));
    }
}

#[test]
fn default_statistics_are_zero() {
    let stats = RecoveryStats::default();
    assert_eq!(stats.total_transactions + stats.committed + stats.aborted, 0);
    assert_eq!(stats.incomplete + stats.partial_writes + stats.checksum_failures, 0);
}

#[test]
fn checkpoint_starts_behind_the_last_one() {
    let log = encode_batch(&vec![
        op(1, "a", b"1"),
        committed(1),
        op(2, "b", b"2"),
        committed(2),
        op(3, "c", b"3"),
        op(4, "d", b"4"),
        aborted(4),
    ])
    .unwrap();
    let mut db = Database::new("wal.log");
    assert_eq!(db.checkpoint(1, Some(&log)).unwrap(), 2);
    assert_eq!(db.store.len(), 1);
    assert_eq!(stored(&db, "b"), Some(&b"2"[..]));
    assert!(matches!(db.checkpoint(2, Some(&log)), Err(WalError::NoNewCheckpoints)));
    assert!(matches!(db.checkpoint(u64::MAX, Some(&log)), Err(WalError::NoNewCheckpoints)));
    assert_eq!(db.checkpoint(0, Some(&log)).unwrap(), 2);
    assert_eq!(stored(&db, "a"), Some(&b"1"[..]));
    assert_eq!(db.store.len(), 2);
}

#[test]
fn checkpoint_without_a_path_finds_nothing() {
    let mut db = Database::new("");
    assert!(matches!(db.checkpoint(0, None), Err(WalError::NoNewCheckpoints)));
    assert!(matches!(db.checkpoint(1, None), Err(WalError::OpenWal)));
}

#[test]
fn checkpoint_stops_at_a_broken_log() {
    let good = encode_batch(&vec![op(1, "a", b"1"), committed(1)]).unwrap();
    let mut db = Database::new("wal.log");

    let mut torn = good.clone();
    torn.extend(&encode_record(&committed(2)).unwrap()[..20]);
    match db.checkpoint(0, Some(&torn)) {
        Err(WalError::Io(e)) => {
            assert!(matches!(e, async_wal_db::error::IoError::UnexpectedEof));
        }
        _ => panic!("Expected Io error"),
    }

    let mut corrupt = good.clone();
    let last = corrupt.len() - 1;
    corrupt[last] ^= 1;
    assert!(matches!(db.checkpoint(0, Some(&corrupt)), Err(WalError::ChecksumMismatch { .. })));

    let mut bad = good.clone();
    bad.extend([0u8; 13]);
    assert!(matches!(read_log(&bad).end, LogEnd::BadEntry { .. }));
    assert!(matches!(db.checkpoint(0, Some(&bad)), Err(WalError::Deserialization(_))));
    assert_eq!(db.store.len(), 0);

    let mut cut = good.clone();
    cut.extend([0u8; 12]);
    assert_eq!(db.checkpoint(0, Some(&cut)).unwrap(), 1);
    assert_eq!(stored(&db, "a"), Some(&b"1"[..]));
}

#[test]
fn checkpoint_continues_what_recovery_began() {
    let first = vec![op(1, "a", b"1"), committed(1)];
    let mut all = first.clone();
    all.extend([op(2, "a", b"2"), op(2, "b", b"2"), committed(2)]);
    let (mut stepwise, _) = recovered(&first);
    let max = stepwise.checkpoint(1, Some(&encode_batch(&all).unwrap())).unwrap();
    let (whole, _) = recovered(&all);
    assert_eq!(max, 2);
    for key in ["a", "b"] {
        assert_eq!(stored(&stepwise, key), stored(&whole, key));
    }
}

#[test]
fn empty_log_changes_nothing() {
    let mut db = Database::new("wal.log");
    let mut ids = TxIds::new();
    db.store.insert("a".to_string(), vec![1]);
    let stats = db.recover(&mut ids, Some(&[])).unwrap();
    assert_eq!(stats, RecoveryStats::default());
    assert_eq!(stored(&db, "a"), Some(&[1u8][..]));
    assert_eq!(db.store.len(), 1);
    assert_eq!(ids.allocate(), 1);
}

#[test]
fn incomplete_transactions_are_listed_in_order() {
    let entries = vec![
        op(9, "a", b"1"),
        op(4, "a", b"1"),
        op(6, "a", b"1"),
        committed(6),
        op(2, "a", b"1"),
    ];
    let found = read_log(&encode_batch(&entries).unwrap());
    assert_eq!(incomplete_transactions(&found), vec![2, 4, 9]);
}

#[test]
fn commit_agrees_with_recovery() {
    let mut ids = TxIds::new();
    let mut file = Vec::new();
    let mut db = Database::new("wal.log");
    for round in 0..5u8 {
        let mut tx = db.begin_transaction(&mut ids);
        append_op(&mut db, &mut tx, insert("a", &[round]));
        append_op(&mut db, &mut tx, insert(&format!("k{round}"), &[round]));
        commit(&mut db, &mut file, tx);
        let mut again = Database::new("wal.log");
        again.recover(&mut TxIds::new(), Some(&file)).unwrap();
        assert_eq!(again.store.len(), db.store.len());
        for key in ["a", "k0", "k1", "k2", "k3", "k4"] {
            assert_eq!(stored(&again, key), stored(&db, key));
        }
    }
}

#[test]
fn refused_commits_leave_nothing() {
    let mut ids = TxIds::new();
    let mut file = Vec::new();
    let mut db = Database::new("wal.log");
    let mut tx = db.begin_transaction(&mut ids);
    append_op(&mut db, &mut tx, insert("a", b"1"));
    append_op(&mut db, &mut tx, WalEntry::Update {
        tx_id: 0,
        timestamp: 0,
        key: "missing".to_string(),
        old_value: b"x".to_vec(),
        new_value: b"y".to_vec(),
    });
    match db.log_commit(&mut tx, 2) {
        Err(LogRefusal::Invalid(WalError::ApplyStore(text))) => {
            assert_eq!(text, "Update on non-existent key: missing");
        }
        _ => panic!("Expected ApplyStore error"),
    }
    flush(&mut db, &mut file);
    assert_eq!(db.store.len(), 0);
    assert_eq!(read_log(&file).entries.len(), 2);

    let mut again = Database::new("wal.log");
    let stats = again.recover(&mut ids, Some(&file)).unwrap();
    assert_eq!((stats.committed, stats.incomplete), (0, 1));
    assert_eq!(again.store.len(), 0);
}

#[test]
fn commits_after_a_torn_tail_survive() {
    let good = encode_batch(&vec![op(1, "a", b"1"), committed(1)]).unwrap();
    let record = encode_record(&committed(2)).unwrap();
    for len in 1..record.len() {
        let mut file = good.clone();
        file.extend(&record[..len]);
        let mut ids = TxIds::new();
        let mut db = Database::new("wal.log");
        db.recover(&mut ids, Some(&file)).unwrap();
        let found = read_log(&file);
        file.truncate(kept_len(&found, file.len()));
        assert_eq!(file, good);

        let mut tx = db.begin_transaction(&mut ids);
        append_op(&mut db, &mut tx, insert("k", b"v"));
        commit(&mut db, &mut file, tx);
        let mut again = Database::new("wal.log");
        again.recover(&mut ids, Some(&file)).unwrap();
        assert_eq!(stored(&again, "k"), Some(&b"v"[..]));
        assert_eq!(stored(&again, "a"), Some(&b"1"[..]));
    }
}

#[test]
fn only_torn_tails_are_cut_off() {
    for (end, kept) in [
        (LogEnd::Clean, 50),
        (LogEnd::PartialHeader { offset: 7 }, 7),
        (LogEnd::TornData { offset: 0 }, 0),
        (LogEnd::TornData { offset: 99 }, 50),
        (LogEnd::BadEntry { offset: 7 }, 50),
        (LogEnd::ChecksumMismatch { offset: 7, expected: 1, actual: 2 }, 50),
    ] {
        let found = LogScan { entries: vec![], end, decode_error: None };
        assert_eq!(kept_len(&found, 50), kept);
    }
}

#[test]
fn buffered_entries_are_logged_with_the_commit() {
    let mut ids = TxIds::new();
    let mut file = Vec::new();
    let mut db = Database::new("wal.log");
    let mut tx = db.begin_transaction(&mut ids);
    tx.add_entry(op(tx.id, "k", b"v"));
    assert_eq!(db.wal.pending_count(), 0);
    commit(&mut db, &mut file, tx);
    assert_eq!(stored(&db, "k"), Some(&b"v"[..]));
    assert_eq!(read_log(&file).entries, vec![
        op(1, "k", b"v"),
        WalEntry::Commit { tx_id: 1, timestamp: 2 },
    ]);
    let mut again = Database::new("wal.log");
    again.recover(&mut ids, Some(&file)).unwrap();
    assert_eq!(stored(&again, "k"), Some(&b"v"[..]));
}

#[test]
fn buffered_and_appended_entries_keep_their_order() {
    let mut ids = TxIds::new();
    let mut file = Vec::new();
    let mut db = Database::new("wal.log");
    let mut tx = db.begin_transaction(&mut ids);
    append_op(&mut db, &mut tx, insert("k", b"0"));
    tx.add_entry(op(77, "k", b"1"));
    append_op(&mut db, &mut tx, insert("k", b"2"));
    tx.add_entry(op(77, "j", b"3"));
    commit(&mut db, &mut file, tx);
    assert_eq!(stored(&db, "k"), Some(&b"2"[..]));
    let appended = |value: &[u8]| WalEntry::Insert {
        tx_id: 1,
        timestamp: 1,
        key: "k".to_string(),
        value: value.to_vec(),
    };
    assert_eq!(read_log(&file).entries, vec![
        appended(b"0"),
        op(1, "k", b"1"),
        appended(b"2"),
        op(1, "j", b"3"),
        WalEntry::Commit { tx_id: 1, timestamp: 2 },
    ]);
    let mut again = Database::new("wal.log");
    again.recover(&mut ids, Some(&file)).unwrap();
    for key in ["k", "j"] {
        assert_eq!(stored(&again, key), stored(&db, key));
    }
}

#[test]
fn commits_wait_for_space() {
    let mut ids = TxIds::new();
    let mut file = Vec::new();
    let mut db = async_wal_db::DatabaseConfig::new("wal.log").with_max_queue_size(2).build();
    let mut tx = db.begin_transaction(&mut ids);
    for i in 0..5u8 {
        tx.add_entry(op(1, &format!("k{i}"), &[i]));
    }
    let mut waits = 0;
    let logged = loop {
        match db.log_commit(&mut tx, 2) {
            Ok(logged) => break logged,
            Err(LogRefusal::QueueFull) => {
                assert_eq!(db.wal.pending_count(), 2);
                waits += 1;
                flush(&mut db, &mut file);
            }
            Err(LogRefusal::Invalid(_)) => panic!("The transaction can be committed"),
        }
    };
    assert_eq!(waits, 2);
    assert_eq!(db.store.len(), 0);
    flush(&mut db, &mut file);
    tx.commit(&mut db, logged).unwrap();
    assert_eq!(db.store.len(), 5);
    let ids_found: Vec<u64> = read_log(&file).entries.iter().map(|e| e.tx_id()).collect();
    assert_eq!(ids_found, vec![1; 6]);
    assert_eq!(read_log(&file).entries[5], WalEntry::Commit { tx_id: 1, timestamp: 2 });

    let op = insert("z", b"z");
    let mut other = db.begin_transaction(&mut ids);
    db.append_op(&mut other, &op, 1).unwrap();
    db.append_op(&mut other, &op, 1).unwrap();
    assert!(matches!(db.append_op(&mut other, &op, 1), Err(LogRefusal::QueueFull)));
    assert_eq!(other.entries.len(), 2);
    assert!(matches!(db.log_abort(&other, 1), Err(LogRefusal::QueueFull)));
    assert!(matches!(db.append_op(&mut other, &committed(1), 1), Err(LogRefusal::Invalid(_))));
}

#[test]
fn operations_wait_for_space_behind_buffered_ones() {
    let mut ids = TxIds::new();
    let mut file = Vec::new();
    let mut db = async_wal_db::DatabaseConfig::new("wal.log").with_max_queue_size(2).build();
    let mut tx = db.begin_transaction(&mut ids);
    for i in 0..3u8 {
        tx.add_entry(op(1, &format!("k{i}"), &[i]));
    }
    let last = insert("k3", &[3]);
    assert!(matches!(db.append_op(&mut tx, &last, 0), Err(LogRefusal::QueueFull)));
    assert_eq!(tx.entries.len(), 3);
    flush(&mut db, &mut file);
    db.append_op(&mut tx, &last, 0).unwrap();
    assert_eq!(tx.entries.len(), 4);
    flush(&mut db, &mut file);
    let entries: Vec<WalEntry> = (0..4u8).map(|i| op(1, &format!("k{i}"), &[i])).collect();
    assert_eq!(read_log(&file).entries, entries);
}

#[test]
fn written_commits_survive_before_they_are_applied() {
    let mut ids = TxIds::new();
    let mut file = Vec::new();
    let mut db = Database::new("wal.log");
    let mut tx = db.begin_transaction(&mut ids);
    append_op(&mut db, &mut tx, insert("a", b"1"));
    let _logged = db.log_commit(&mut tx, 2).unwrap();
    flush(&mut db, &mut file);
    assert_eq!(db.store.len(), 0);

    let mut again = Database::new("wal.log");
    let stats = again.recover(&mut TxIds::new(), Some(&file)).unwrap();
    assert_eq!(stats.committed, 1);
    assert_eq!(stored(&again, "a"), Some(&b"1"[..]));
}

#[test]
fn recovered_databases_go_on() {
    let mut ids = TxIds::new();
    let mut file = Vec::new();
    let mut db = Database::new("wal.log");
    let mut tx = db.begin_transaction(&mut ids);
    append_op(&mut db, &mut tx, insert("a", b"1"));
    commit(&mut db, &mut file, tx);

    let mut ids = TxIds::new();
    let mut db = Database::new("wal.log");
    db.recover(&mut ids, Some(&file)).unwrap();
    let mut tx = db.begin_transaction(&mut ids);
    assert_eq!(tx.id, 2);
    append_op(&mut db, &mut tx, insert("b", b"2"));
    commit(&mut db, &mut file, tx);

    let mut again = Database::new("wal.log");
    let stats = again.recover(&mut TxIds::new(), Some(&file)).unwrap();
    assert_eq!(stats.committed, 2);
    assert_eq!(stored(&again, "a"), Some(&b"1"[..]));
    assert_eq!(stored(&again, "b"), Some(&b"2"[..]));
    assert_eq!(again.store.len(), db.store.len());
}

#[test]
fn runs_of_transactions_are_restored() {
    let mut ids = TxIds::new();
    let mut file = Vec::new();
    let mut db = Database::new("wal.log");
    for round in 0..30u8 {
        let mut tx = db.begin_transaction(&mut ids);
        append_op(&mut db, &mut tx, insert(&format!("k{}", round % 7), &[round]));
        if round % 5 == 4 {
            append_op(&mut db, &mut tx, WalEntry::Delete {
                tx_id: 0,
                timestamp: 0,
                key: format!("k{}", (round + 3) % 7),
                old_value: vec![],
            });
        }
        match round % 3 {
            0 => commit(&mut db, &mut file, tx),
            1 => abort(&mut db, &mut file, tx),
            _ => drop(tx),
        }
    }
    flush(&mut db, &mut file);
    let mut again = Database::new("wal.log");
    let stats = again.recover(&mut TxIds::new(), Some(&file)).unwrap();
    assert_eq!((stats.committed, stats.aborted, stats.incomplete), (10, 10, 10));
    assert_eq!(again.store.len(), db.store.len());
    for i in 0..7 {
        let key = format!("k{i}");
        assert_eq!(stored(&again, &key), stored(&db, &key));
    }
}

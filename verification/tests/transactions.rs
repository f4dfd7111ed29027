use async_wal_db::database::LogRefusal;
use async_wal_db::store::Store;
use async_wal_db::transaction::TxIds;
use async_wal_db::{Database, Transaction, TxState, WalEntry, WalError};

fn insert(key: &str, value: &[u8]) -> WalEntry {
    WalEntry::Insert { tx_id: 0, timestamp: 0, key: key.to_string(), value: value.to_vec() }
}

fn update(key: &str, value: &[u8]) -> WalEntry {
    WalEntry::Update {
        tx_id: 0,
        timestamp: 0,
        key: key.to_string(),
        old_value: vec![],
        new_value: value.to_vec(),
    }
}

fn delete(key: &str) -> WalEntry {
    WalEntry::Delete { tx_id: 0, timestamp: 0, key: key.to_string(), old_value: vec![] }
}

fn write_all(db: &mut Database) {
    let flush = db.wal.drain_and_flush().unwrap().unwrap();
    db.wal.end_flush(flush, true);
}

fn invalid_state(error: WalError) -> String {
    match error {
        WalError::InvalidState(text) => text,
        _ => panic!("Expected InvalidState error"),
    }
}

#[test]
fn test_transaction_commit() {
    let mut ids = TxIds::new();
    let mut db = Database::new("wal.log");
    let mut tx = db.begin_transaction(&mut ids);
    db.append_op(&mut tx, &insert("key", b"value"), 5).unwrap();
    let logged = db.log_commit(&mut tx, 6).unwrap();
    write_all(&mut db);
    tx.commit(&mut db, logged).unwrap();

    assert_eq!(db.store.get("key").map(|v| v.as_slice()), Some(&b"value"[..]));
    assert_eq!(tx.state, TxState::Committed);
}

#[test]
fn test_transaction_abort() {
    let mut ids = TxIds::new();
    let mut db = Database::new("wal.log");
    let mut tx = db.begin_transaction(&mut ids);
    db.append_op(&mut tx, &insert("key", b"value"), 5).unwrap();
    let logged = db.log_abort(&tx, 6).unwrap();
    write_all(&mut db);
    tx.abort(&db, logged).unwrap();

    assert_eq!(db.store.get("key"), None);
    assert_eq!(tx.state, TxState::Aborted);
    assert!(tx.entries.is_empty());
}

#[test]
fn ids_count_up_from_one() {
    let mut ids = TxIds::new();
    let taken: Vec<u64> = (0..4).map(|_| Transaction::new(&mut ids).id).collect();
    assert_eq!(taken, vec![1, 2, 3, 4]);
    ids.restore(2);
    assert_eq!(ids.allocate(), 5);
    ids.restore(9);
    assert_eq!(ids.allocate(), 10);
}

#[test]
fn operations_get_the_id_and_the_time() {
    let mut ids = TxIds::new();
    ids.restore(6);
    let mut tx = Transaction::new(&mut ids);
    assert_eq!(tx.state, TxState::Active);
    for op in [insert("a", b"1"), update("a", b"2"), delete("a")] {
        let given = tx.append_op(op, 99).unwrap();
        assert_eq!(given, vec![tx.entries[tx.entries.len() - 1].clone()]);
    }
    assert_eq!(tx.entries, vec![
        WalEntry::Insert { tx_id: 7, timestamp: 99, key: "a".to_string(), value: b"1".to_vec() },
        WalEntry::Update {
            tx_id: 7,
            timestamp: 99,
            key: "a".to_string(),
            old_value: vec![],
            new_value: b"2".to_vec(),
        },
        WalEntry::Delete { tx_id: 7, timestamp: 99, key: "a".to_string(), old_value: vec![] },
    ]);
    let present = Store::new();
    assert_eq!(tx.commit_entry(&present, 100).unwrap(), WalEntry::Commit { tx_id: 7, timestamp: 100 });
    assert_eq!(tx.abort_entry(101).unwrap(), WalEntry::Abort { tx_id: 7, timestamp: 101 });
}

#[test]
fn markers_are_no_operations() {
    let mut tx = Transaction::new(&mut TxIds::new());
    let mut store = Store::new();
    for marker in
        [WalEntry::Commit { tx_id: 1, timestamp: 1 }, WalEntry::Abort { tx_id: 1, timestamp: 1 }]
    {
        let error = tx.apply_to_store(&mut store, &marker).unwrap_err();
        assert_eq!(invalid_state(error), "Cannot apply non-operation entry to store");
        let error = tx.append_op(marker, 1).unwrap_err();
        assert_eq!(invalid_state(error), "Cannot append non-operation entry");
    }
    assert!(tx.entries.is_empty());
}

#[test]
fn finished_transactions_stay_finished() {
    for state in [TxState::Committed, TxState::Aborted] {
        let mut db = Database::new("wal.log");
        let mut tx = Transaction::new(&mut TxIds::new());
        tx.add_entry(insert("a", b"1"));
        let logged = db.log_commit(&mut tx, 1).unwrap();
        let logged_abort = db.log_abort(&tx, 1).unwrap();
        assert!(!db.is_abort_written(&tx, &logged_abort));
        write_all(&mut db);
        assert!(db.is_abort_written(&tx, &logged_abort));
        tx.state = state;
        let text = "Cannot commit non-active transaction";
        assert_eq!(invalid_state(tx.commit_entry(&db.store, 1).unwrap_err()), text);
        assert!(!db.can_finish(&tx, &logged));
        assert_eq!(invalid_state(tx.commit(&mut db, logged).unwrap_err()), text);
        assert_eq!(db.store.len(), 0);
        match db.log_commit(&mut tx, 1) {
            Err(LogRefusal::Invalid(e)) => assert_eq!(invalid_state(e), text),
            _ => panic!("Expected a refusal"),
        }
        assert_eq!(db.wal.pending_count(), 0);
        let text = "Cannot abort non-active transaction";
        assert_eq!(invalid_state(tx.abort_entry(1).unwrap_err()), text);
        assert_eq!(invalid_state(tx.abort(&db, logged_abort).unwrap_err()), text);
        match db.log_abort(&tx, 1) {
            Err(LogRefusal::Invalid(e)) => assert_eq!(invalid_state(e), text),
            _ => panic!("Expected a refusal"),
        }
        assert_eq!(db.wal.pending_count(), 0);
        assert_eq!(tx.state, state);
        assert_eq!(tx.entries.len(), 1);
    }
}

#[test]
fn operations_are_applied_to_the_store() {
    let tx = Transaction::new(&mut TxIds::new());
    let mut store = Store::new();
    tx.apply_to_store(&mut store, &insert("a", b"1")).unwrap();
    tx.apply_to_store(&mut store, &insert("a", b"2")).unwrap();
    assert_eq!(store.get("a"), Some(&b"2".to_vec()));
    tx.apply_to_store(&mut store, &update("a", b"3")).unwrap();
    assert_eq!(store.get("a"), Some(&b"3".to_vec()));
    tx.apply_to_store(&mut store, &delete("missing")).unwrap();
    tx.apply_to_store(&mut store, &delete("a")).unwrap();
    assert_eq!(store.get("a"), None);
    match tx.apply_to_store(&mut store, &update("a", b"4")) {
        Err(WalError::ApplyStore(text)) => assert_eq!(text, "Update on non-existent key: a"),
        _ => panic!("Expected ApplyStore error"),
    }
    assert_eq!(store.len(), 0);
}

#[test]
fn commit_is_all_or_nothing() {
    let mut tx = Transaction::new(&mut TxIds::new());
    let mut db = Database::new("wal.log");
    for op in [insert("a", b"1"), update("b", b"2"), insert("c", b"3")] {
        db.append_op(&mut tx, &op, 1).unwrap();
    }
    match db.log_commit(&mut tx, 1) {
        Err(LogRefusal::Invalid(WalError::ApplyStore(text))) => {
            assert_eq!(text, "Update on non-existent key: b");
        }
        _ => panic!("Expected ApplyStore error"),
    }
    assert_eq!(tx.state, TxState::Active);
    assert_eq!(tx.entries.len(), 3);
    assert_eq!(db.wal.pending_count(), 3);
    assert_eq!(db.store.len(), 0);

    db.store.insert("b".to_string(), vec![]);
    let logged = db.log_commit(&mut tx, 1).unwrap();
    write_all(&mut db);
    tx.commit(&mut db, logged).unwrap();
    assert_eq!(tx.state, TxState::Committed);
    assert_eq!(db.store.get("b"), Some(&b"2".to_vec()));
    assert_eq!(db.store.len(), 3);
}

#[test]
fn commits_are_finished_when_they_are_written() {
    let mut ids = TxIds::new();
    let mut db = Database::new("wal.log");
    let mut tx = db.begin_transaction(&mut ids);
    db.append_op(&mut tx, &insert("a", b"1"), 1).unwrap();
    let logged = db.log_commit(&mut tx, 2).unwrap();
    assert!(!db.can_finish(&tx, &logged));
    let flush = db.wal.drain_and_flush().unwrap().unwrap();
    assert!(!db.can_finish(&tx, &logged));
    db.wal.end_flush(flush, false);
    assert!(!db.can_finish(&tx, &logged));
    let flush = db.wal.drain_and_flush().unwrap().unwrap();
    let mut later = db.begin_transaction(&mut ids);
    db.append_op(&mut later, &insert("b", b"2"), 3).unwrap();
    db.wal.end_flush(flush, true);
    assert!(db.can_finish(&tx, &logged));
    assert_eq!(db.store.len(), 0);
    tx.commit(&mut db, logged).unwrap();
    assert_eq!(db.store.keys(), vec!["a".to_string()]);
    assert_eq!(db.wal.pending_count(), 1);
}

#[test]
fn operations_of_a_commit_see_those_before_them() {
    let mut store = Store::new();
    store.insert("x".to_string(), vec![0]);
    let cases = [
        (vec![insert("a", b"1"), update("a", b"2")], true),
        (vec![delete("x"), update("x", b"2")], false),
        (vec![delete("x"), insert("x", b"1"), update("x", b"2")], true),
        (vec![update("x", b"1"), delete("y"), update("x", b"2")], true),
        (vec![insert("a", b"1"), WalEntry::Abort { tx_id: 1, timestamp: 1 }], false),
        (vec![], true),
    ];
    for (ops, accepted) in cases {
        let mut tx = Transaction::new(&mut TxIds::new());
        for op in ops {
            tx.add_entry(op);
        }
        assert_eq!(tx.commit_entry(&store, 1).is_ok(), accepted);
    }
}

#[test]
fn unlogged_entries_are_taken_in_their_order() {
    let mut ids = TxIds::new();
    ids.restore(4);
    let mut tx = Transaction::new(&mut ids);
    assert!(tx.take_unlogged().is_none());
    tx.append_op(insert("a", b"1"), 9).unwrap();
    assert!(tx.take_unlogged().is_none());
    let stamped = WalEntry::Delete {
        tx_id: 5,
        timestamp: 0,
        key: "b".to_string(),
        old_value: vec![],
    };
    tx.add_entry(delete("b"));
    let given = tx.append_op(insert("c", b"3"), 9).unwrap();
    assert_eq!(given, vec![stamped.clone(), tx.entries[2].clone()]);
    assert!(tx.take_unlogged().is_none());
    tx.add_entry(delete("b"));
    tx.add_entry(WalEntry::Commit { tx_id: 5, timestamp: 9 });
    tx.add_entry(delete("b"));
    assert_eq!(tx.take_unlogged(), Some(stamped.clone()));
    assert_eq!(tx.take_unlogged(), Some(stamped));
    assert!(tx.take_unlogged().is_none());
    assert_eq!(tx.entries.len(), 6);
}

#[test]
fn stores_list_their_keys() {
    let mut store = Store::new();
    assert!(store.keys().is_empty());
    for key in ["a", "b", "c", "a", "d"] {
        store.insert(key.to_string(), key.as_bytes().to_vec());
    }
    store.remove("b");
    store.remove("x");
    let mut keys = store.keys();
    keys.sort();
    assert_eq!(keys, vec!["a".to_string(), "c".to_string(), "d".to_string()]);
    for key in ["a", "c", "d"] {
        assert_eq!(store.get(key), Some(&key.as_bytes().to_vec()));
        store.remove(key);
    }
    assert_eq!(store.len(), 0);
    store.insert("b".to_string(), vec![]);
    assert_eq!(store.keys(), vec!["b".to_string()]);
}

use async_wal_db::database::{checkpoint_report, CheckpointReport};
use async_wal_db::error::IoError;
use async_wal_db::failure::{OutsideStep, LMDB_MAP_SIZE, LMDB_MAX_DBS};
use async_wal_db::flusher::{FlusherEnd, FlusherEvent, FlusherState};
use async_wal_db::log::{encode_batch, read_log};
use async_wal_db::wal_storage::{FlushStep, WalStorage};
use async_wal_db::{Database, DatabaseConfig, WalEntry, WalError};

fn entry(i: u64, key: &str) -> WalEntry {
    WalEntry::Insert { tx_id: i, timestamp: 123, key: key.to_string(), value: b"value".to_vec() }
}

#[test]
fn test_append_flush() {
    let mut wal = WalStorage::new("wal.log");
    let entry = WalEntry::Insert {
        tx_id: 1,
        timestamp: 123,
        key: "test".to_string(),
        value: b"val".to_vec(),
    };
    wal.append(entry.clone()).unwrap();
    let flush = wal.drain_and_flush().unwrap().unwrap();
    assert!(!flush.bytes.is_empty());
    assert_eq!(flush.batch, vec![entry.clone()]);
    assert_eq!(read_log(&flush.bytes).entries, vec![entry]);
}

#[test]
fn test_bounded_queue_backpressure() {
    // Very small queue (2 entries) to easily trigger backpressure
    let mut wal = WalStorage::with_config("wal_bounded.log", 2);
    for i in 0..2 {
        wal.append(entry(i, &format!("key{}", i))).unwrap();
    }

    // One more is given back since the queue is full
    let blocked = entry(100, "blocked");
    let blocked = wal.append(blocked).unwrap_err();
    assert_eq!(blocked, entry(100, "blocked"));
    assert_eq!(wal.pending_count(), 2);

    // Draining alone makes no space; writing does
    let flush = wal.drain_and_flush().unwrap().unwrap();
    let blocked = wal.append(blocked).unwrap_err();
    wal.end_flush(flush, true);
    wal.append(blocked).unwrap();
    assert_eq!(wal.pending_count(), 1);
}

#[test]
fn test_pending_count_accuracy() {
    let mut wal = WalStorage::with_config("wal_count.log", 1000);
    for i in 0..50 {
        wal.append(entry(i, &format!("key{}", i))).unwrap();
    }
    assert_eq!(wal.pending_count(), 50);
    assert_eq!(wal.drained_count(), 0);

    let flush = wal.drain_and_flush().unwrap().unwrap();
    assert_eq!(wal.pending_count(), 50);
    assert_eq!(wal.drained_count(), 50);
    wal.end_flush(flush, true);
    assert_eq!(wal.pending_count(), 0, "Pending count should be 0 after flush");
    assert_eq!(wal.drained_count(), 0);
}

#[test]
fn test_queue_capacity_enforcement() {
    let mut wal = WalStorage::with_config("wal_capacity.log", 100);
    let mut file = Vec::new();
    for i in 0..200 {
        let mut waiting = entry(i, &format!("key-{}", i));
        while let Err(back) = wal.append(waiting) {
            assert_eq!(wal.pending_count(), 100);
            waiting = back;
            let flush = wal.drain_and_flush().unwrap().unwrap();
            file.extend(&flush.bytes);
            wal.end_flush(flush, true);
        }
        assert!(wal.pending_count() <= 100);
    }
    let flush = wal.drain_and_flush().unwrap().unwrap();
    file.extend(&flush.bytes);
    let ids: Vec<u64> = read_log(&file).entries.iter().map(|e| e.tx_id()).collect();
    assert_eq!(ids, (0..200).collect::<Vec<u64>>());
}

#[test]
fn entries_are_written_in_the_order_of_their_appends() {
    let mut wal = WalStorage::new("wal.log");
    let all: Vec<WalEntry> = (0..70).map(|i| entry(70 - i, "k")).collect();
    for e in &all {
        wal.append(e.clone()).unwrap();
    }
    let flush = wal.drain_and_flush().unwrap().unwrap();
    assert_eq!(flush.bytes, encode_batch(&all).unwrap());
    assert!(wal.drain_and_flush().unwrap().is_none());
}

#[test]
fn storage_without_places_takes_nothing() {
    let mut wal = WalStorage::with_config("wal.log", 0);
    assert!(wal.append(entry(1, "k")).is_err());
    assert!(wal.drain_and_flush().unwrap().is_none());
}

#[test]
fn flush_waits_and_then_writes_itself() {
    let mut wal = WalStorage::new("wal.log");
    assert_eq!(wal.flush(0), FlushStep::Done);
    wal.append(entry(1, "k")).unwrap();
    assert_eq!(wal.flush(0), FlushStep::Wait);
    assert_eq!(wal.flush(99), FlushStep::Wait);
    assert_eq!(wal.flush(100), FlushStep::Force);
    let flush = wal.drain_and_flush().unwrap().unwrap();
    assert_eq!(wal.flush(100), FlushStep::Force);
    wal.end_flush(flush, true);
    assert_eq!(wal.flush(100), FlushStep::Done);
}

#[test]
fn places_in_the_log_are_written_in_their_order() {
    let mut wal = WalStorage::with_config("wal.log", 4);
    let start = wal.position();
    assert!(wal.is_written(&start));
    wal.append(entry(1, "a")).unwrap();
    let first = wal.position();
    let flush = wal.drain_and_flush().unwrap().unwrap();
    wal.append(entry(2, "b")).unwrap();
    let second = wal.position();
    assert!(wal.is_written(&start) && !wal.is_written(&first) && !wal.is_written(&second));
    wal.end_flush(flush, true);
    assert!(wal.is_written(&first) && !wal.is_written(&second));
    let flush = wal.drain_and_flush().unwrap().unwrap();
    wal.end_flush(flush, false);
    assert!(wal.is_written(&first) && !wal.is_written(&second));
    let flush = wal.drain_and_flush().unwrap().unwrap();
    wal.end_flush(flush, true);
    assert!(wal.is_written(&second));
}

#[test]
fn written_log_has_room_again() {
    let mut wal = WalStorage::with_config("wal.log", 2);
    wal.append(entry(1, "a")).unwrap();
    wal.append(entry(2, "b")).unwrap();
    let waiting = wal.append(entry(3, "c")).unwrap_err();
    let flush = wal.drain_and_flush().unwrap().unwrap();
    wal.end_flush(flush, true);
    assert_eq!(wal.pending_count(), 0);
    wal.append(waiting).unwrap();
}

#[test]
fn paths_are_made_from_the_path_of_the_log() {
    let wal = WalStorage::new("dir/wal.log");
    assert_eq!(wal.path(), "dir/wal.log");
    assert_eq!(wal.checkpoint_path(), "dir/wal.log.checkpoint");
    assert_eq!(wal.old_path(), "dir/wal.log.old");
}

#[test]
fn truncation_starts_a_new_log() {
    let mut wal = WalStorage::with_config("wal.log", 3);
    let mut file = Vec::new();
    wal.append(entry(1, "k")).unwrap();
    flush_to(&mut wal, &mut file);
    assert_eq!(wal.pending_count(), 0);
    assert_eq!(read_log(&file).entries, vec![entry(1, "k")]);
    wal.stop_flusher();
    assert!(wal.is_stopping());
    wal.truncate_wal("new.log");
    assert_eq!(wal.path(), "new.log");
    assert_eq!(wal.max_queue_size(), 3);
    assert_eq!(wal.pending_count(), 0);
    assert!(!wal.is_stopping());
}

#[test]
fn failed_writes_cost_no_place_and_no_entry() {
    let mut wal = WalStorage::with_config("wal.log", 5);
    for i in 0..3 {
        wal.append(entry(i, "k")).unwrap();
    }
    let flush = wal.drain_and_flush().unwrap().unwrap();
    wal.append(entry(3, "k")).unwrap();
    wal.end_flush(flush, false);
    assert_eq!((wal.pending_count(), wal.drained_count()), (4, 0));
    wal.append(entry(4, "k")).unwrap();
    assert!(wal.append(entry(5, "k")).is_err());
    let flush = wal.drain_and_flush().unwrap().unwrap();
    let ids: Vec<u64> = read_log(&flush.bytes).entries.iter().map(|e| e.tx_id()).collect();
    assert_eq!(ids, vec![0, 1, 2, 3, 4]);
    wal.end_flush(flush, true);
    assert_eq!((wal.pending_count(), wal.drained_count()), (0, 0));
}

#[test]
fn batches_on_their_way_end_one_by_one() {
    let mut wal = WalStorage::with_config("wal.log", 5);
    wal.append(entry(0, "k")).unwrap();
    let first = wal.drain_and_flush().unwrap().unwrap();
    wal.append(entry(1, "k")).unwrap();
    let second = wal.drain_and_flush().unwrap().unwrap();
    assert_eq!(wal.drained_count(), 2);
    wal.fail_flush(second);
    assert_eq!((wal.pending_count(), wal.drained_count()), (2, 1));
    wal.finish_flush(first.batch.len());
    assert_eq!((wal.pending_count(), wal.drained_count()), (1, 0));
    assert_eq!(wal.drain_and_flush().unwrap().unwrap().batch, vec![entry(1, "k")]);
}

#[test]
fn checkpoints_are_read_back() {
    let wal = WalStorage::new("wal.log");
    for id in [0, 7, 10, 99, 1_234_567_890, u64::MAX] {
        let file = wal.set_checkpoint(id);
        assert_eq!(file.path, "wal.log.checkpoint");
        assert_eq!(file.contents, id.to_string());
        assert_eq!(wal.get_last_checkpoint(Some(&file.contents)).unwrap(), id);
    }
    assert_eq!(wal.get_last_checkpoint(None).unwrap(), 0);
}

#[test]
fn checkpoint_files_may_hold_white_space_and_a_sign() {
    let wal = WalStorage::new("wal.log");
    assert_eq!(wal.get_last_checkpoint(Some(" \t+42\r\n\u{3000}")).unwrap(), 42);
    assert_eq!(wal.get_last_checkpoint(Some("0012")).unwrap(), 12);
    assert_eq!(async_wal_db::checkpoint::trim("\u{a0} a b\u{2028}"), "a b");
    assert_eq!(async_wal_db::checkpoint::trim(" \n "), "");
}

#[test]
fn other_checkpoint_files_are_refused() {
    let wal = WalStorage::new("wal.log");
    for text in ["", "+", "-1", "1 2", "x", "18446744073709551616", "1_000"] {
        let reason = text.trim().parse::<u64>().unwrap_err();
        match wal.get_last_checkpoint(Some(text)) {
            Err(WalError::Checkpoint(error)) => {
                assert_eq!(error, format!("Invalid checkpoint TxID: {reason}"));
            }
            _ => panic!("Expected Checkpoint error"),
        }
    }
}

#[test]
fn white_space_is_that_of_unicode() {
    for code in 0..=0x10ffffu32 {
        if let Some(c) = char::from_u32(code) {
            let text = c.to_string();
            assert_eq!(async_wal_db::checkpoint::trim(&text).is_empty(), c.is_whitespace());
        }
    }
}

#[test]
fn flusher_flushes_once_more_before_it_stops() {
    let go_on = FlusherEvent::Flushed { shutdown: false, succeeded: true };
    let stop = FlusherEvent::Flushed { shutdown: true, succeeded: true };
    let state = FlusherState::Waiting;
    let state = state.next(FlusherEvent::Woken);
    assert_eq!(state, FlusherState::Draining);
    let state = state.next(go_on);
    assert_eq!(state, FlusherState::Waiting);
    let state = state.next(FlusherEvent::Woken).next(stop);
    assert_eq!(state, FlusherState::FinalDraining);
    assert_eq!(state.next(FlusherEvent::Woken), state);
    let failed = FlusherEvent::Flushed { shutdown: true, succeeded: false };
    assert_eq!(state.next(failed), FlusherState::Stopped { flushed: false });
    let state = state.next(go_on);
    assert_eq!(state, FlusherState::Stopped { flushed: true });
    assert_eq!(state.next(FlusherEvent::Woken), state);
    assert_eq!(state.next(failed), state);
}

#[test]
fn woken_flusher_writes_what_waits() {
    let mut wal = WalStorage::new("wal.log");
    let mut file = Vec::new();
    wal.append(entry(1, "a")).unwrap();
    wal.append(entry(2, "b")).unwrap();
    let state = FlusherState::Waiting.next(FlusherEvent::Woken);
    assert!(matches!(state, FlusherState::Draining));
    let flush = wal.drain_and_flush().unwrap().unwrap();
    wal.append(entry(3, "c")).unwrap();
    file.extend(&flush.bytes);
    wal.end_flush(flush, true);
    let state = state.next(FlusherEvent::Flushed { shutdown: false, succeeded: true });
    assert!(matches!(state, FlusherState::Waiting));
    assert_eq!(read_log(&file).entries, vec![entry(1, "a"), entry(2, "b")]);
    assert_eq!(wal.pending_count(), 1);
}

#[test]
fn stopped_flusher_has_written_everything() {
    let mut wal = WalStorage::new("wal.log");
    let mut file = Vec::new();
    let mut state = FlusherState::Waiting;
    for i in 0..3 {
        wal.append(entry(i, "k")).unwrap();
    }
    wal.stop_flusher();
    state = state.next(FlusherEvent::Woken);
    while state == FlusherState::Draining || state == FlusherState::FinalDraining {
        flush_to(&mut wal, &mut file);
        let shutdown = wal.is_stopping();
        state = state.next(FlusherEvent::Flushed { shutdown, succeeded: true });
    }
    assert_eq!(state, FlusherState::Stopped { flushed: true });
    assert_eq!(wal.pending_count(), 0);
    assert_eq!(read_log(&file).entries.len(), 3);
}

#[test]
fn configurations_have_defaults() {
    let config = DatabaseConfig::new("wal.log");
    assert_eq!(config.max_queue_size, 10_000);
    assert_eq!(config.flush_interval_ms, 10);
    let config = config.with_max_queue_size(20_000).with_flush_interval_ms(5);
    assert_eq!(config.wal_path, "wal.log");
    assert_eq!(config.flush_interval_ms, 5);
    let db = config.build();
    assert_eq!(db.wal.max_queue_size(), 20_000);
    assert_eq!(db.wal.path(), "wal.log");
    assert_eq!(Database::new("w").wal.max_queue_size(), 10_000);
}

#[test]
fn shutdown_stops_the_flusher() {
    let mut db = Database::new("wal.log");
    db.wal.append(entry(1, "k")).unwrap();
    assert!(!db.wal.is_stopping());
    db.shutdown(FlusherEnd::NotRunning).unwrap();
    assert!(db.wal.is_stopping());
    assert_eq!(db.wal.pending_count(), 1);
    db.shutdown(FlusherEnd::Finished(Ok(()))).unwrap();
}

#[test]
fn scheduler_reports_are_quiet_without_news() {
    assert!(matches!(checkpoint_report(Ok(4)), CheckpointReport::Completed(4)));
    assert!(matches!(
        checkpoint_report(Err(WalError::NoNewCheckpoints)),
        CheckpointReport::NothingNew
    ));
    assert!(matches!(
        checkpoint_report(Err(WalError::OpenWal)),
        CheckpointReport::Failed(WalError::OpenWal)
    ));
}

#[test]
fn failures_name_the_step() {
    match OutsideStep::OpenLmdb.failure("no space") {
        WalError::Io(IoError::Other(text)) => assert_eq!(text, "Failed to open LMDB: no space"),
        _ => panic!("Expected Io error"),
    }
    match OutsideStep::JoinFlusher.failure("x") {
        WalError::Io(IoError::Other(text)) => assert_eq!(text, "Flusher join error: x"),
        _ => panic!("Expected Io error"),
    }
    match OutsideStep::RenameWal.failure("x") {
        WalError::Checkpoint(text) => assert_eq!(text, "Failed to rename WAL: x"),
        _ => panic!("Expected Checkpoint error"),
    }
    assert_eq!((LMDB_MAP_SIZE, LMDB_MAX_DBS), (1024 * 1024 * 1024, 1));
}

/// Appends an entry, and flushes to `file` first where the queue is full.
fn append_or_flush(wal: &mut WalStorage, file: &mut Vec<u8>, entry: WalEntry) {
    let mut waiting = entry;
    while let Err(back) = wal.append(waiting) {
        waiting = back;
        flush_to(wal, file);
    }
}

fn flush_to(wal: &mut WalStorage, file: &mut Vec<u8>) {
    if let Some(flush) = wal.drain_and_flush().unwrap() {
        file.extend(&flush.bytes);
        wal.end_flush(flush, true);
    }
}

#[test]
fn test_concurrent_appends() {
    let mut wal = WalStorage::new("wal_concurrent.log");
    let mut file = Vec::new();
    // 10 writers take turns
    for j in 0..100 {
        for i in 0..10 {
            let key = format!("key-{}-{}", i, j);
            append_or_flush(&mut wal, &mut file, entry(i * 100 + j, &key));
        }
    }
    flush_to(&mut wal, &mut file);
    assert_eq!(read_log(&file).entries.len(), 1000);
}

#[test]
fn test_high_throughput_with_bounded_queue() {
    let mut wal = WalStorage::with_config("wal_throughput.log", 1000);
    let mut file = Vec::new();
    for i in 0..50 {
        for j in 0..100 {
            append_or_flush(&mut wal, &mut file, WalEntry::Insert {
                tx_id: i * 100 + j,
                timestamp: 123,
                key: format!("key-{}-{}", i, j),
                value: vec![0u8; 100],
            });
        }
    }
    flush_to(&mut wal, &mut file);
    assert!(file.len() > 500_000, "Should have written significant data (5000 entries)");
    assert_eq!(read_log(&file).entries.len(), 5000);
}

#[test]
fn test_graceful_degradation_under_load() {
    // Small queue: writers are delayed, and all succeed
    let mut wal = WalStorage::with_config("wal_degradation.log", 10);
    let mut file = Vec::new();
    for i in 0..100 {
        append_or_flush(&mut wal, &mut file, entry(i, &format!("key{}", i)));
    }
    flush_to(&mut wal, &mut file);
    assert_eq!(read_log(&file).entries.len(), 100);
    assert_eq!(wal.pending_count(), 0);
}

#[test]
fn shutdown_reports_a_failed_final_flush() {
    let mut db = Database::new("wal.log");
    let failed = FlusherEnd::Finished(Err(WalError::Io(IoError::Other("disk full".to_string()))));
    match db.shutdown(failed) {
        Err(WalError::Io(IoError::Other(text))) => assert_eq!(text, "disk full"),
        _ => panic!("Expected Io error"),
    }
    match db.shutdown(FlusherEnd::Lost("panicked".to_string())) {
        Err(WalError::Io(IoError::Other(text))) => {
            assert_eq!(text, "Flusher join error: panicked");
        }
        _ => panic!("Expected Io error"),
    }
}

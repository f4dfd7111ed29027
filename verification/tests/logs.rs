use async_wal_db::error::DecodeError;
use async_wal_db::log::{accept_data, encode_batch, encode_record, read_frame, read_log, LogEnd};
use async_wal_db::{WalEntry, WalEntryHeader};

fn entries() -> Vec<WalEntry> {
    vec![
        WalEntry::Insert { tx_id: 1, timestamp: 5, key: "a".to_string(), value: vec![1, 2, 3] },
        WalEntry::Commit { tx_id: 1, timestamp: 6 },
        WalEntry::Delete { tx_id: 2, timestamp: 7, key: "a".to_string(), old_value: vec![] },
        WalEntry::Abort { tx_id: 2, timestamp: 8 },
    ]
}

#[test]
fn empty_log_is_clean() {
    let found = read_log(&[]);
    assert!(found.entries.is_empty());
    assert_eq!(found.end, LogEnd::Clean);
    assert!(found.decode_error.is_none());
}

#[test]
fn log_reads_back_what_was_written() {
    let log = encode_batch(&entries()).unwrap();
    let found = read_log(&log);
    assert_eq!(found.entries, entries());
    assert_eq!(found.end, LogEnd::Clean);
}

#[test]
fn record_is_header_and_data() {
    let entry = WalEntry::Commit { tx_id: 2, timestamp: 1 };
    let data = entry.encode().unwrap();
    let record = encode_record(&entry).unwrap();
    assert_eq!(record[..13], WalEntryHeader::new(&data).to_bytes());
    assert_eq!(record[13..], data);
    assert_eq!(record.len(), 33);
}

#[test]
fn batches_do_not_matter() {
    let all = entries();
    let whole = encode_batch(&all).unwrap();
    for split in 0..=all.len() {
        let mut log = encode_batch(&all[..split].to_vec()).unwrap();
        log.extend(encode_batch(&all[split..].to_vec()).unwrap());
        assert_eq!(log, whole);
    }
}

#[test]
fn appended_entries_follow_the_old_ones() {
    let mut log = encode_batch(&entries()).unwrap();
    let more = vec![WalEntry::Abort { tx_id: 9, timestamp: 9 }];
    log.extend(encode_batch(&more).unwrap());
    let found = read_log(&log);
    assert_eq!(found.entries.len(), 5);
    assert_eq!(found.entries[..4], entries()[..]);
    assert_eq!(found.entries[4], more[0]);
    assert_eq!(found.end, LogEnd::Clean);
}

#[test]
fn cut_log_keeps_whole_entries() {
    let all = entries();
    let log = encode_batch(&all).unwrap();
    let mut starts = vec![0usize];
    for entry in &all {
        starts.push(starts[starts.len() - 1] + encode_record(entry).unwrap().len());
    }
    for len in 0..=log.len() {
        let whole = starts.iter().filter(|s| **s <= len).count() - 1;
        let offset = starts[whole];
        let found = read_log(&log[..len]);
        assert_eq!(found.entries, all[..whole]);
        let end = if len == offset {
            LogEnd::Clean
        } else if len < offset + WalEntryHeader::SIZE {
            LogEnd::PartialHeader { offset: offset as u64 }
        } else {
            LogEnd::TornData { offset: offset as u64 }
        };
        assert_eq!(found.end, end);
    }
}

#[test]
fn entries_before_corruption_are_read() {
    let log = encode_batch(&entries()).unwrap();
    for tail in [vec![0u8; 5], vec![0u8; 13], vec![255u8; 40], vec![7u8; 200]] {
        let mut broken = log.clone();
        broken.extend(&tail);
        let found = read_log(&broken);
        assert_eq!(found.entries[..4], entries()[..]);
        assert_ne!(found.end, LogEnd::Clean);
    }
}

#[test]
fn corruption_ends_the_log_where_it_is() {
    let all = entries();
    let first = encode_record(&all[0]).unwrap().len();
    let mut log = encode_batch(&all).unwrap();
    log[first + WalEntryHeader::SIZE + 4] ^= 1;
    let found = read_log(&log);
    assert_eq!(found.entries, all[..1]);
    let mut data = all[1].encode().unwrap();
    let expected = WalEntryHeader::new(&data).checksum;
    data[4] ^= 1;
    let actual = WalEntryHeader::new(&data).checksum;
    assert_eq!(
        found.end,
        LogEnd::ChecksumMismatch { offset: first as u64, expected, actual }
    );
}

#[test]
fn data_that_is_no_entry_ends_the_log() {
    let data = [9u8, 0, 0, 0, 1];
    let mut log = encode_batch(&entries()).unwrap();
    let offset = log.len() as u64;
    log.extend(WalEntryHeader::new(&data).to_bytes());
    log.extend(data);
    let found = read_log(&log);
    assert_eq!(found.entries, entries());
    assert_eq!(found.end, LogEnd::BadEntry { offset });
    assert!(matches!(found.decode_error, Some(DecodeError::UnknownVariant(9))));
}

#[test]
fn empty_data_is_no_entry() {
    let found = read_log(&[0u8; 13]);
    assert_eq!(found.end, LogEnd::BadEntry { offset: 0 });
    assert!(matches!(found.decode_error, Some(DecodeError::Malformed(_))));
}

#[test]
fn announced_data_may_be_longer_than_any_file() {
    let header = WalEntryHeader { length: u64::MAX, checksum: 0, version: 1 };
    let found = read_log(&header.to_bytes());
    assert_eq!(found.end, LogEnd::TornData { offset: 0 });
}

#[test]
fn version_is_not_looked_at() {
    let entry = WalEntry::Commit { tx_id: 1, timestamp: 1 };
    let mut log = encode_record(&entry).unwrap();
    log[12] = 77;
    assert_eq!(read_log(&log).entries, vec![entry]);
}

#[test]
fn frames_say_where_the_data_ends() {
    let log = encode_record(&WalEntry::Commit { tx_id: 1, timestamp: 1 }).unwrap();
    let (header, end) = read_frame(&log, 0).unwrap();
    assert_eq!((header.length, end), (20, 33));
    assert_eq!(read_frame(&log, 33), Err(LogEnd::Clean));
    assert_eq!(read_frame(&log, 99), Err(LogEnd::Clean));
    assert_eq!(read_frame(&log, 30), Err(LogEnd::PartialHeader { offset: 30 }));
}

#[test]
fn data_is_accepted_by_its_checksum() {
    let entry = WalEntry::Abort { tx_id: 1, timestamp: 1 };
    let data = entry.encode().unwrap();
    let header = WalEntryHeader::with_checksum(20, 42);
    assert_eq!(accept_data(&header, &data, 42, 0).unwrap(), entry);
    let (end, error) = accept_data(&header, &data, 43, 8).unwrap_err();
    assert_eq!(end, LogEnd::ChecksumMismatch { offset: 8, expected: 42, actual: 43 });
    assert!(error.is_none());
    let (end, error) = accept_data(&header, &data[..19], 42, 8).unwrap_err();
    assert_eq!(end, LogEnd::BadEntry { offset: 8 });
    assert!(error.is_some());
}

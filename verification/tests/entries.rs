use async_wal_db::error::DecodeError;
use async_wal_db::WalEntry;
use serde::ser::{Serialize, SerializeStructVariant, Serializer};

/// An entry as serde sees an enum with these variants and fields.
struct Mirror<'a>(&'a WalEntry);

impl<'a> Serialize for Mirror<'a> {
    fn serialize<S: Serializer>(&self, serializer: S) -> Result<S::Ok, S::Error> {
        match self.0 {
            WalEntry::Insert { tx_id, timestamp, key, value } => {
                let mut v = serializer.serialize_struct_variant("WalEntry", 0, "Insert", 4)?;
                v.serialize_field("tx_id", tx_id)?;
                v.serialize_field("timestamp", timestamp)?;
                v.serialize_field("key", key)?;
                v.serialize_field("value", value)?;
                v.end()
            }
            WalEntry::Update { tx_id, timestamp, key, old_value, new_value } => {
                let mut v = serializer.serialize_struct_variant("WalEntry", 1, "Update", 5)?;
                v.serialize_field("tx_id", tx_id)?;
                v.serialize_field("timestamp", timestamp)?;
                v.serialize_field("key", key)?;
                v.serialize_field("old_value", old_value)?;
                v.serialize_field("new_value", new_value)?;
                v.end()
            }
            WalEntry::Delete { tx_id, timestamp, key, old_value } => {
                let mut v = serializer.serialize_struct_variant("WalEntry", 2, "Delete", 4)?;
                v.serialize_field("tx_id", tx_id)?;
                v.serialize_field("timestamp", timestamp)?;
                v.serialize_field("key", key)?;
                v.serialize_field("old_value", old_value)?;
                v.end()
            }
            WalEntry::Commit { tx_id, timestamp } => {
                let mut v = serializer.serialize_struct_variant("WalEntry", 3, "Commit", 2)?;
                v.serialize_field("tx_id", tx_id)?;
                v.serialize_field("timestamp", timestamp)?;
                v.end()
            }
            WalEntry::Abort { tx_id, timestamp } => {
                let mut v = serializer.serialize_struct_variant("WalEntry", 4, "Abort", 2)?;
                v.serialize_field("tx_id", tx_id)?;
                v.serialize_field("timestamp", timestamp)?;
                v.end()
            }
        }
    }
}

fn samples() -> Vec<WalEntry> {
    vec![
        WalEntry::Insert { tx_id: 7, timestamp: 9, key: "k\u{e9}y".to_string(), value: vec![1, 2] },
        WalEntry::Update {
            tx_id: u64::MAX,
            timestamp: 0,
            key: String::new(),
            old_value: vec![],
            new_value: vec![0; 300],
        },
        WalEntry::Delete { tx_id: 0, timestamp: 1, key: "gone".to_string(), old_value: vec![255] },
        WalEntry::Commit { tx_id: 3, timestamp: 4 },
        WalEntry::Abort { tx_id: 5, timestamp: 6 },
    ]
}

#[test]
fn test_wal_entry_serialization() {
    let entry = WalEntry::Insert {
        tx_id: 1,
        timestamp: 123_456,
        key: "test_key".to_string(),
        value: b"test_value".to_vec(),
    };
    let serialized = entry.encode().unwrap();
    let deserialized: WalEntry = WalEntry::decode(&serialized).unwrap();
    assert_eq!(entry, deserialized);
}

#[test]
fn encoding_is_that_of_a_derived_enum() {
    for entry in samples() {
        assert_eq!(entry.encode().unwrap(), bincode::serialize(&Mirror(&entry)).unwrap());
    }
}

#[test]
fn decoding_inverts_encoding_and_ignores_what_follows() {
    for entry in samples() {
        let mut bytes = bincode::serialize(&Mirror(&entry)).unwrap();
        assert_eq!(WalEntry::decode(&bytes).unwrap(), entry);
        bytes.extend([9, 9, 9]);
        assert_eq!(WalEntry::decode(&bytes).unwrap(), entry);
    }
}

#[test]
fn encoding_of_a_commit_is_twenty_bytes() {
    let bytes = WalEntry::Commit { tx_id: 0x0102, timestamp: 3 }.encode().unwrap();
    assert_eq!(bytes, vec![3, 0, 0, 0, 2, 1, 0, 0, 0, 0, 0, 0, 3, 0, 0, 0, 0, 0, 0, 0]);
}

#[test]
fn cut_entries_are_malformed() {
    for entry in samples() {
        let bytes = entry.encode().unwrap();
        for len in 0..bytes.len() {
            assert!(matches!(WalEntry::decode(&bytes[..len]), Err(DecodeError::Malformed(_))));
        }
    }
}

#[test]
fn unknown_kinds_are_refused_by_number() {
    let mut bytes = WalEntry::Commit { tx_id: 1, timestamp: 1 }.encode().unwrap();
    bytes[0] = 5;
    assert!(matches!(WalEntry::decode(&bytes), Err(DecodeError::UnknownVariant(5))));
    assert!(matches!(
        WalEntry::decode(&[255, 255, 255, 255]),
        Err(DecodeError::UnknownVariant(u32::MAX))
    ));
    assert!(matches!(WalEntry::decode(&[255, 255, 255]), Err(DecodeError::Malformed(_))));
}

#[test]
fn keys_must_be_utf8() {
    let entry =
        WalEntry::Delete { tx_id: 1, timestamp: 1, key: "k".to_string(), old_value: vec![] };
    let mut bytes = entry.encode().unwrap();
    bytes[28] = 0xff;
    assert!(matches!(WalEntry::decode(&bytes), Err(DecodeError::Malformed(_))));
}

#[test]
fn clones_are_equal_and_keep_the_transaction() {
    let ids: Vec<u64> = samples().iter().map(|e| e.clone().tx_id()).collect();
    assert_eq!(ids, vec![7, u64::MAX, 0, 3, 5]);
    for entry in samples() {
        assert_eq!(entry.clone(), entry);
    }
}

#[test]
fn timestamps_are_seconds_since_the_epoch() {
    let a = WalEntry::new_timestamp().unwrap();
    let b = WalEntry::new_timestamp().unwrap();
    assert!(1_500_000_000 < a && a <= b && b < 10_000_000_000);
}

#[test]
fn timestamps_are_whole_seconds() {
    assert_eq!(WalEntry::timestamp_at(Some((1_700_000_000, 999_999_999))), Some(1_700_000_000));
    assert_eq!(WalEntry::timestamp_at(Some((0, 1))), Some(0));
    assert_eq!(WalEntry::timestamp_at(None), None);
}

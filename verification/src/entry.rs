//! The entries of the log.
use crate::bytes::{
    get_le, le_bytes, le_value, lemma_le_bounds, lemma_le_bytes_len, lemma_le_bytes_of_value,
    lemma_le_value_of_bytes,
};
use crate::codec::{
    blob_bytes, deserialize_marker, deserialize_pair, deserialize_triple, marker_bytes, read_blob,
    read_marker, read_pair, read_text, read_triple, serialize_marker, serialize_pair,
    serialize_triple, text_bytes, MARKER_LEN,
};
use crate::error::{DecodeError, WalError};
use vstd::prelude::*;
use vstd::utf8::{encode_utf8, encode_utf8_decode_utf8, encode_utf8_valid_utf8};

verus! {

/// One entry of the write-ahead log: an operation on the store, or the end of a transaction.
#[derive(Debug, PartialEq)]
pub enum WalEntry {
    Insert { tx_id: u64, timestamp: u64, key: String, value: Vec<u8> },
    Update { tx_id: u64, timestamp: u64, key: String, old_value: Vec<u8>, new_value: Vec<u8> },
    Delete { tx_id: u64, timestamp: u64, key: String, old_value: Vec<u8> },
    Commit { tx_id: u64, timestamp: u64 },
    Abort { tx_id: u64, timestamp: u64 },
}

/// What an entry says, with strings and vectors as sequences.
pub enum EntryView {
    Insert { tx_id: u64, timestamp: u64, key: Seq<char>, value: Seq<u8> },
    Update {
        tx_id: u64,
        timestamp: u64,
        key: Seq<char>,
        old_value: Seq<u8>,
        new_value: Seq<u8>,
    },
    Delete { tx_id: u64, timestamp: u64, key: Seq<char>, old_value: Seq<u8> },
    Commit { tx_id: u64, timestamp: u64 },
    Abort { tx_id: u64, timestamp: u64 },
}

/// The numbers that the kinds of entry have on disk.
pub const TAG_INSERT: u32 = 0;

pub const TAG_UPDATE: u32 = 1;

pub const TAG_DELETE: u32 = 2;

pub const TAG_COMMIT: u32 = 3;

pub const TAG_ABORT: u32 = 4;

impl View for WalEntry {
    type V = EntryView;

    open spec fn view(&self) -> EntryView {
        match *self {
            WalEntry::Insert { tx_id, timestamp, key, value } => EntryView::Insert {
                tx_id,
                timestamp,
                key: key@,
                value: value@,
            },
            WalEntry::Update { tx_id, timestamp, key, old_value, new_value } => EntryView::Update {
                tx_id,
                timestamp,
                key: key@,
                old_value: old_value@,
                new_value: new_value@,
            },
            WalEntry::Delete { tx_id, timestamp, key, old_value } => EntryView::Delete {
                tx_id,
                timestamp,
                key: key@,
                old_value: old_value@,
            },
            WalEntry::Commit { tx_id, timestamp } => EntryView::Commit { tx_id, timestamp },
            WalEntry::Abort { tx_id, timestamp } => EntryView::Abort { tx_id, timestamp },
        }
    }
}

/// What a vector of entries says.
pub open spec fn views(entries: Seq<WalEntry>) -> Seq<EntryView> {
    entries.map_values(|e: WalEntry| e@)
}

impl EntryView {
    /// The transaction that the entry belongs to.
    pub open spec fn tx_id(self) -> u64 {
        match self {
            EntryView::Insert { tx_id, .. } => tx_id,
            EntryView::Update { tx_id, .. } => tx_id,
            EntryView::Delete { tx_id, .. } => tx_id,
            EntryView::Commit { tx_id, .. } => tx_id,
            EntryView::Abort { tx_id, .. } => tx_id,
        }
    }

    /// The time at which the entry was made.
    pub open spec fn timestamp(self) -> u64 {
        match self {
            EntryView::Insert { timestamp, .. } => timestamp,
            EntryView::Update { timestamp, .. } => timestamp,
            EntryView::Delete { timestamp, .. } => timestamp,
            EntryView::Commit { timestamp, .. } => timestamp,
            EntryView::Abort { timestamp, .. } => timestamp,
        }
    }

    /// Whether the entry changes the store, rather than ends a transaction.
    pub open spec fn is_op(self) -> bool {
        !(self is Commit) && !(self is Abort)
    }

    /// The operation with another transaction and another time; a marker stays as it is.
    pub open spec fn stamped(self, tx_id: u64, timestamp: u64) -> EntryView {
        match self {
            EntryView::Insert { key, value, .. } => EntryView::Insert {
                tx_id,
                timestamp,
                key,
                value,
            },
            EntryView::Update { key, old_value, new_value, .. } => EntryView::Update {
                tx_id,
                timestamp,
                key,
                old_value,
                new_value,
            },
            EntryView::Delete { key, old_value, .. } => EntryView::Delete {
                tx_id,
                timestamp,
                key,
                old_value,
            },
            _ => self,
        }
    }

    /// The bytes of the entry on disk.
    pub open spec fn encoding(self) -> Seq<u8> {
        match self {
            EntryView::Insert { tx_id, timestamp, key, value } => marker_bytes(
                TAG_INSERT,
                tx_id,
                timestamp,
            ) + text_bytes(key) + blob_bytes(value),
            EntryView::Update { tx_id, timestamp, key, old_value, new_value } => marker_bytes(
                TAG_UPDATE,
                tx_id,
                timestamp,
            ) + text_bytes(key) + blob_bytes(old_value) + blob_bytes(new_value),
            EntryView::Delete { tx_id, timestamp, key, old_value } => marker_bytes(
                TAG_DELETE,
                tx_id,
                timestamp,
            ) + text_bytes(key) + blob_bytes(old_value),
            EntryView::Commit { tx_id, timestamp } => marker_bytes(TAG_COMMIT, tx_id, timestamp),
            EntryView::Abort { tx_id, timestamp } => marker_bytes(TAG_ABORT, tx_id, timestamp),
        }
    }

    /// Whether the encoding has a length that a machine word can hold, as that of every entry in
    /// memory has.
    pub open spec fn encodable(self) -> bool {
        self.encoding().len() < 0x1_0000_0000_0000_0000
    }
}

/// The entry whose bytes `bytes` starts with.
pub open spec fn decoding(bytes: Seq<u8>) -> Option<EntryView> {
    match read_marker(bytes) {
        None => None,
        Some((tag, tx_id, timestamp)) => if tag == TAG_INSERT {
            match read_pair(bytes) {
                Some((key, value)) => Some(EntryView::Insert { tx_id, timestamp, key, value }),
                None => None,
            }
        } else if tag == TAG_UPDATE {
            match read_triple(bytes) {
                Some((key, old_value, new_value)) => Some(
                    EntryView::Update { tx_id, timestamp, key, old_value, new_value },
                ),
                None => None,
            }
        } else if tag == TAG_DELETE {
            match read_pair(bytes) {
                Some((key, old_value)) => Some(
                    EntryView::Delete { tx_id, timestamp, key, old_value },
                ),
                None => None,
            }
        } else if tag == TAG_COMMIT {
            Some(EntryView::Commit { tx_id, timestamp })
        } else if tag == TAG_ABORT {
            Some(EntryView::Abort { tx_id, timestamp })
        } else {
            None
        },
    }
}

/// The number of a kind that no entry has, where `bytes` starts with one.
pub open spec fn unknown_tag(bytes: Seq<u8>) -> Option<u32> {
    if bytes.len() >= 4 && le_value(bytes.subrange(0, 4)) > TAG_ABORT {
        Some(le_value(bytes.subrange(0, 4)) as u32)
    } else {
        None
    }
}

/// Whether `error` is the failure to decode `bytes`.
pub open spec fn is_decode_error(error: DecodeError, bytes: Seq<u8>) -> bool {
    decoding(bytes) is None && match error {
        DecodeError::UnknownVariant(tag) => unknown_tag(bytes) == Some(tag),
        DecodeError::Malformed(_) => unknown_tag(bytes) is None,
    }
}

impl Clone for WalEntry {
    fn clone(&self) -> (r: Self)
        ensures
            r@ == self@,
    {
        match self {
            WalEntry::Insert { tx_id, timestamp, key, value } => WalEntry::Insert {
                tx_id: *tx_id,
                timestamp: *timestamp,
                key: key.clone(),
                value: value.clone(),
            },
            WalEntry::Update { tx_id, timestamp, key, old_value, new_value } => WalEntry::Update {
                tx_id: *tx_id,
                timestamp: *timestamp,
                key: key.clone(),
                old_value: old_value.clone(),
                new_value: new_value.clone(),
            },
            WalEntry::Delete { tx_id, timestamp, key, old_value } => WalEntry::Delete {
                tx_id: *tx_id,
                timestamp: *timestamp,
                key: key.clone(),
                old_value: old_value.clone(),
            },
            WalEntry::Commit { tx_id, timestamp } => WalEntry::Commit {
                tx_id: *tx_id,
                timestamp: *timestamp,
            },
            WalEntry::Abort { tx_id, timestamp } => WalEntry::Abort {
                tx_id: *tx_id,
                timestamp: *timestamp,
            },
        }
    }
}

/// `std::time::SystemTime::now`, as the seconds and nanoseconds since the Unix epoch, or `None` where
/// the clock stands before it. The nanoseconds make less than a second; nothing is promised of the
/// time itself, which is the machine's.
#[verifier::external_body]
fn clock() -> (since_epoch: Option<(u64, u32)>)
    ensures
        since_epoch matches Some((_, nanos)) ==> nanos < 1_000_000_000,
{
    match std::time::SystemTime::now().duration_since(std::time::UNIX_EPOCH) {
        Ok(elapsed) => Some((elapsed.as_secs(), elapsed.subsec_nanos())),
        Err(_) => None,
    }
}

impl WalEntry {
    /// The present time in whole seconds since the Unix epoch, or `None` where the clock stands
    /// before it. Which time that is rests on the clock alone; `timestamp_at` says what becomes of
    /// each time that the clock can give.
    pub fn new_timestamp() -> (timestamp: Option<u64>) {
        Self::timestamp_at(clock())
    }

    /// The timestamp for a time, given as the seconds and nanoseconds since the Unix epoch: the
    /// whole seconds. A time before the epoch has none.
    pub fn timestamp_at(since_epoch: Option<(u64, u32)>) -> (timestamp: Option<u64>)
        ensures
            match since_epoch {
                Some((seconds, _)) => timestamp == Some(seconds),
                None => timestamp is None,
            },
    {
        match since_epoch {
            Some((seconds, _)) => Some(seconds),
            None => None,
        }
    }

    /// The transaction that the entry belongs to.
    pub fn tx_id(&self) -> (id: u64)
        ensures
            id == self@.tx_id(),
    {
        match self {
            WalEntry::Insert { tx_id, .. } => *tx_id,
            WalEntry::Update { tx_id, .. } => *tx_id,
            WalEntry::Delete { tx_id, .. } => *tx_id,
            WalEntry::Commit { tx_id, .. } => *tx_id,
            WalEntry::Abort { tx_id, .. } => *tx_id,
        }
    }

    /// Whether the entry changes the store, rather than ends a transaction.
    pub fn is_op(&self) -> (op: bool)
        ensures
            op == self@.is_op(),
    {
        match self {
            WalEntry::Commit { .. } | WalEntry::Abort { .. } => false,
            _ => true,
        }
    }

    /// The operation as one of the given transaction; the end of a transaction stays as it is.
    pub fn with_tx_id(&self, id: u64) -> (entry: WalEntry)
        ensures
            entry@ == self@.stamped(id, self@.timestamp()),
    {
        match self {
            WalEntry::Insert { timestamp, key, value, .. } => WalEntry::Insert {
                tx_id: id,
                timestamp: *timestamp,
                key: key.clone(),
                value: value.clone(),
            },
            WalEntry::Update { timestamp, key, old_value, new_value, .. } => WalEntry::Update {
                tx_id: id,
                timestamp: *timestamp,
                key: key.clone(),
                old_value: old_value.clone(),
                new_value: new_value.clone(),
            },
            WalEntry::Delete { timestamp, key, old_value, .. } => WalEntry::Delete {
                tx_id: id,
                timestamp: *timestamp,
                key: key.clone(),
                old_value: old_value.clone(),
            },
            _ => self.clone(),
        }
    }

    /// The bytes of the entry on disk. Encoding an entry never fails.
    pub fn encode(&self) -> (r: Result<Vec<u8>, WalError>)
        ensures
            r is Ok,
            r->Ok_0@ == self@.encoding(),
            self@.encodable(),
    {
        let encoded = match self {
            WalEntry::Insert { tx_id, timestamp, key, value } => serialize_pair(
                TAG_INSERT,
                *tx_id,
                *timestamp,
                key.as_str(),
                value.as_slice(),
            ),
            WalEntry::Update { tx_id, timestamp, key, old_value, new_value } => serialize_triple(
                TAG_UPDATE,
                *tx_id,
                *timestamp,
                key.as_str(),
                old_value.as_slice(),
                new_value.as_slice(),
            ),
            WalEntry::Delete { tx_id, timestamp, key, old_value } => serialize_pair(
                TAG_DELETE,
                *tx_id,
                *timestamp,
                key.as_str(),
                old_value.as_slice(),
            ),
            WalEntry::Commit { tx_id, timestamp } => serialize_marker(
                TAG_COMMIT,
                *tx_id,
                *timestamp,
            ),
            WalEntry::Abort { tx_id, timestamp } => serialize_marker(
                TAG_ABORT,
                *tx_id,
                *timestamp,
            ),
        };
        match encoded {
            Ok(bytes) => {
                let len: usize = bytes.len();
                Ok(bytes)
            },
            Err(e) => Err(WalError::Deserialization(DecodeError::Malformed(e))),
        }
    }

    /// The entry whose bytes `bytes` starts with; what follows them is ignored.
    pub fn decode(bytes: &[u8]) -> (r: Result<WalEntry, DecodeError>)
        ensures
            match r {
                Ok(entry) => decoding(bytes@) == Some(entry@),
                Err(e) => is_decode_error(e, bytes@),
            },
    {
        if bytes.len() >= 4 {
            let kind: u64 = get_le(bytes, 0, 4);
            proof {
                lemma_le_bytes_of_value(bytes@.subrange(0, 4));
                lemma_le_bounds();
            }
            if kind > TAG_ABORT as u64 {
                return Err(DecodeError::UnknownVariant(kind as u32));
            }
        }
        let (tag, tx_id, timestamp) = match deserialize_marker(bytes) {
            Ok(fields) => fields,
            Err(e) => return Err(DecodeError::Malformed(e)),
        };
        if tag == TAG_INSERT {
            match deserialize_pair(bytes) {
                Ok((_, _, _, key, value)) => Ok(WalEntry::Insert { tx_id, timestamp, key, value }),
                Err(e) => Err(DecodeError::Malformed(e)),
            }
        } else if tag == TAG_UPDATE {
            match deserialize_triple(bytes) {
                Ok((_, _, _, key, old_value, new_value)) => Ok(
                    WalEntry::Update { tx_id, timestamp, key, old_value, new_value },
                ),
                Err(e) => Err(DecodeError::Malformed(e)),
            }
        } else if tag == TAG_DELETE {
            match deserialize_pair(bytes) {
                Ok((_, _, _, key, old_value)) => Ok(
                    WalEntry::Delete { tx_id, timestamp, key, old_value },
                ),
                Err(e) => Err(DecodeError::Malformed(e)),
            }
        } else if tag == TAG_COMMIT {
            Ok(WalEntry::Commit { tx_id, timestamp })
        } else {
            Ok(WalEntry::Abort { tx_id, timestamp })
        }
    }
}

proof fn lemma_read_marker(tag: u32, tx_id: u64, timestamp: u64, rest: Seq<u8>)
    ensures
        marker_bytes(tag, tx_id, timestamp).len() == MARKER_LEN,
        read_marker(marker_bytes(tag, tx_id, timestamp) + rest) == Some((tag, tx_id, timestamp)),
{
    let bytes = marker_bytes(tag, tx_id, timestamp) + rest;
    lemma_le_bounds();
    lemma_le_bytes_len(tag as nat, 4);
    lemma_le_bytes_len(tx_id as nat, 8);
    lemma_le_bytes_len(timestamp as nat, 8);
    lemma_le_value_of_bytes(tag as nat, 4);
    lemma_le_value_of_bytes(tx_id as nat, 8);
    lemma_le_value_of_bytes(timestamp as nat, 8);
    assert(bytes.subrange(0, 4) =~= le_bytes(tag as nat, 4));
    assert(bytes.subrange(4, 12) =~= le_bytes(tx_id as nat, 8));
    assert(bytes.subrange(12, 20) =~= le_bytes(timestamp as nat, 8));
}

proof fn lemma_read_blob(before: Seq<u8>, blob: Seq<u8>, rest: Seq<u8>)
    requires
        blob.len() < 0x1_0000_0000_0000_0000,
    ensures
        blob_bytes(blob).len() == 8 + blob.len(),
        read_blob(before + blob_bytes(blob) + rest, before.len() as int) == Some(
            (blob, (before + blob_bytes(blob)).len() as int),
        ),
{
    let bytes = before + blob_bytes(blob) + rest;
    let at = before.len() as int;
    lemma_le_bounds();
    lemma_le_bytes_len(blob.len(), 8);
    lemma_le_value_of_bytes(blob.len(), 8);
    assert(bytes.subrange(at, at + 8) =~= le_bytes(blob.len(), 8));
    assert(bytes.subrange(at + 8, at + 8 + blob.len()) =~= blob);
}

proof fn lemma_read_text(before: Seq<u8>, text: Seq<char>, rest: Seq<u8>)
    requires
        encode_utf8(text).len() < 0x1_0000_0000_0000_0000,
    ensures
        text_bytes(text).len() == 8 + encode_utf8(text).len(),
        read_text(before + text_bytes(text) + rest, before.len() as int) == Some(
            (text, (before + text_bytes(text)).len() as int),
        ),
{
    lemma_read_blob(before, encode_utf8(text), rest);
    encode_utf8_valid_utf8(text);
    encode_utf8_decode_utf8(text);
}

proof fn lemma_read_pair(marker: Seq<u8>, key: Seq<char>, value: Seq<u8>, rest: Seq<u8>)
    requires
        marker.len() == MARKER_LEN,
        (marker + text_bytes(key) + blob_bytes(value)).len() < 0x1_0000_0000_0000_0000,
    ensures
        read_pair(marker + text_bytes(key) + blob_bytes(value) + rest) == Some((key, value)),
{
    let front = marker + text_bytes(key);
    lemma_le_bytes_len(encode_utf8(key).len(), 8);
    lemma_le_bytes_len(value.len(), 8);
    lemma_read_text(marker, key, blob_bytes(value) + rest);
    lemma_read_blob(front, value, rest);
    assert(front + (blob_bytes(value) + rest) =~= front + blob_bytes(value) + rest);
}

proof fn lemma_read_triple(
    marker: Seq<u8>,
    key: Seq<char>,
    first: Seq<u8>,
    second: Seq<u8>,
    rest: Seq<u8>,
)
    requires
        marker.len() == MARKER_LEN,
        (marker + text_bytes(key) + blob_bytes(first) + blob_bytes(second)).len()
            < 0x1_0000_0000_0000_0000,
    ensures
        read_triple(
            marker + text_bytes(key) + blob_bytes(first) + blob_bytes(second) + rest,
        ) == Some((key, first, second)),
{
    let front = marker + text_bytes(key);
    let middle = front + blob_bytes(first);
    lemma_le_bytes_len(encode_utf8(key).len(), 8);
    lemma_le_bytes_len(first.len(), 8);
    lemma_le_bytes_len(second.len(), 8);
    let tail = blob_bytes(second) + rest;
    lemma_read_text(marker, key, blob_bytes(first) + tail);
    lemma_read_blob(front, first, tail);
    lemma_read_blob(middle, second, rest);
    assert(front + (blob_bytes(first) + tail) =~= middle + blob_bytes(second) + rest);
    assert(middle + tail =~= middle + blob_bytes(second) + rest);
}

proof fn lemma_decode_pair(
    tag: u32,
    tx_id: u64,
    timestamp: u64,
    key: Seq<char>,
    value: Seq<u8>,
    rest: Seq<u8>,
)
    requires
        (marker_bytes(tag, tx_id, timestamp) + text_bytes(key) + blob_bytes(value)).len()
            < 0x1_0000_0000_0000_0000,
    ensures
        ({
            let bytes = marker_bytes(tag, tx_id, timestamp) + text_bytes(key) + blob_bytes(value)
                + rest;
            &&& read_marker(bytes) == Some((tag, tx_id, timestamp))
            &&& read_pair(bytes) == Some((key, value))
        }),
{
    let marker = marker_bytes(tag, tx_id, timestamp);
    let tail = text_bytes(key) + blob_bytes(value) + rest;
    lemma_read_marker(tag, tx_id, timestamp, tail);
    lemma_read_pair(marker, key, value, rest);
    assert(marker + tail =~= marker + text_bytes(key) + blob_bytes(value) + rest);
}

proof fn lemma_decode_triple(
    tag: u32,
    tx_id: u64,
    timestamp: u64,
    key: Seq<char>,
    first: Seq<u8>,
    second: Seq<u8>,
    rest: Seq<u8>,
)
    requires
        (marker_bytes(tag, tx_id, timestamp) + text_bytes(key) + blob_bytes(first) + blob_bytes(
            second,
        )).len() < 0x1_0000_0000_0000_0000,
    ensures
        ({
            let bytes = marker_bytes(tag, tx_id, timestamp) + text_bytes(key) + blob_bytes(first)
                + blob_bytes(second) + rest;
            &&& read_marker(bytes) == Some((tag, tx_id, timestamp))
            &&& read_triple(bytes) == Some((key, first, second))
        }),
{
    let marker = marker_bytes(tag, tx_id, timestamp);
    let tail = text_bytes(key) + blob_bytes(first) + blob_bytes(second) + rest;
    lemma_read_marker(tag, tx_id, timestamp, tail);
    lemma_read_triple(marker, key, first, second, rest);
    assert(marker + tail =~= marker + text_bytes(key) + blob_bytes(first) + blob_bytes(second)
        + rest);
}

/// Decoding the encoding of an entry gives back the entry, whatever bytes follow it.
pub proof fn law_decode_inverts_encode(entry: EntryView, rest: Seq<u8>)
    requires
        entry.encodable(),
    ensures
        decoding(entry.encoding() + rest) == Some(entry),
{
    match entry {
        EntryView::Insert { tx_id, timestamp, key, value } => {
            lemma_decode_pair(TAG_INSERT, tx_id, timestamp, key, value, rest);
        },
        EntryView::Update { tx_id, timestamp, key, old_value, new_value } => {
            lemma_decode_triple(TAG_UPDATE, tx_id, timestamp, key, old_value, new_value, rest);
        },
        EntryView::Delete { tx_id, timestamp, key, old_value } => {
            lemma_decode_pair(TAG_DELETE, tx_id, timestamp, key, old_value, rest);
        },
        EntryView::Commit { tx_id, timestamp } => {
            lemma_read_marker(TAG_COMMIT, tx_id, timestamp, rest);
        },
        EntryView::Abort { tx_id, timestamp } => {
            lemma_read_marker(TAG_ABORT, tx_id, timestamp, rest);
        },
    }
}

} // verus!

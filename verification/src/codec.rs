//! How `bincode` lays out the fields of an entry: fixed-width little-endian integers, and strings
//! and byte vectors behind a length of eight bytes.
use crate::bytes::{le_bytes, le_value};
use vstd::prelude::*;
use vstd::utf8::{decode_utf8, encode_utf8, valid_utf8};

verus! {

/// The number of bytes of the fields that every entry starts with.
pub const MARKER_LEN: usize = 20;

/// The fields that every entry starts with: its kind, its transaction and its time.
pub open spec fn marker_bytes(tag: u32, tx_id: u64, timestamp: u64) -> Seq<u8> {
    le_bytes(tag as nat, 4) + le_bytes(tx_id as nat, 8) + le_bytes(timestamp as nat, 8)
}

/// A byte vector behind its length.
pub open spec fn blob_bytes(blob: Seq<u8>) -> Seq<u8> {
    le_bytes(blob.len(), 8) + blob
}

/// A string: its UTF-8 bytes behind their number.
pub open spec fn text_bytes(text: Seq<char>) -> Seq<u8> {
    blob_bytes(encode_utf8(text))
}

/// The leading fields that `bytes` starts with, if it is long enough to hold them.
pub open spec fn read_marker(bytes: Seq<u8>) -> Option<(u32, u64, u64)> {
    if bytes.len() < MARKER_LEN {
        None
    } else {
        Some(
            (
                le_value(bytes.subrange(0, 4)) as u32,
                le_value(bytes.subrange(4, 12)) as u64,
                le_value(bytes.subrange(12, 20)) as u64,
            ),
        )
    }
}

/// The byte vector that starts at `at`, and the position behind it.
pub open spec fn read_blob(bytes: Seq<u8>, at: int) -> Option<(Seq<u8>, int)> {
    if at + 8 > bytes.len() {
        None
    } else {
        let end = at + 8 + le_value(bytes.subrange(at, at + 8));
        if end > bytes.len() {
            None
        } else {
            Some((bytes.subrange(at + 8, end), end))
        }
    }
}

/// The string that starts at `at`, and the position behind it.
pub open spec fn read_text(bytes: Seq<u8>, at: int) -> Option<(Seq<char>, int)> {
    match read_blob(bytes, at) {
        Some((raw, end)) if valid_utf8(raw) => Some((decode_utf8(raw), end)),
        _ => None,
    }
}

/// The key and the value that follow the leading fields.
pub open spec fn read_pair(bytes: Seq<u8>) -> Option<(Seq<char>, Seq<u8>)> {
    match read_text(bytes, MARKER_LEN as int) {
        Some((key, at)) => match read_blob(bytes, at) {
            Some((value, _)) => Some((key, value)),
            None => None,
        },
        None => None,
    }
}

/// The key and the two values that follow the leading fields.
pub open spec fn read_triple(bytes: Seq<u8>) -> Option<(Seq<char>, Seq<u8>, Seq<u8>)> {
    match read_text(bytes, MARKER_LEN as int) {
        Some((key, at)) => match read_blob(bytes, at) {
            Some((first, next)) => match read_blob(bytes, next) {
                Some((second, _)) => Some((key, first, second)),
                None => None,
            },
            None => None,
        },
        None => None,
    }
}

/// `bincode::serialize` on three integers: it succeeds, and writes them one behind the other, each
/// in its full width with the lowest byte first.
#[verifier::external_body]
pub(crate) fn serialize_marker(tag: u32, tx_id: u64, timestamp: u64) -> (r: Result<
    Vec<u8>,
    Box<bincode::ErrorKind>,
>)
    ensures
        r is Ok,
        r->Ok_0@ == marker_bytes(tag, tx_id, timestamp),
{
    bincode::serialize(&(tag, tx_id, timestamp))
}

/// `bincode::serialize` on three integers, a string and a byte slice: it succeeds, and writes the
/// integers as above, then the string and the slice, each behind its length in eight bytes.
#[verifier::external_body]
pub(crate) fn serialize_pair(
    tag: u32,
    tx_id: u64,
    timestamp: u64,
    key: &str,
    value: &[u8],
) -> (r: Result<Vec<u8>, Box<bincode::ErrorKind>>)
    ensures
        r is Ok,
        r->Ok_0@ == marker_bytes(tag, tx_id, timestamp) + text_bytes(key@)
            + blob_bytes(value@),
{
    bincode::serialize(&(tag, tx_id, timestamp, key, value))
}

/// `bincode::serialize` on three integers, a string and two byte slices: as above, with the second
/// slice behind the first.
#[verifier::external_body]
pub(crate) fn serialize_triple(
    tag: u32,
    tx_id: u64,
    timestamp: u64,
    key: &str,
    first: &[u8],
    second: &[u8],
) -> (r: Result<Vec<u8>, Box<bincode::ErrorKind>>)
    ensures
        r is Ok,
        r->Ok_0@ == marker_bytes(tag, tx_id, timestamp) + text_bytes(key@)
            + blob_bytes(first@) + blob_bytes(second@),
{
    bincode::serialize(&(tag, tx_id, timestamp, key, first, second))
}

/// `bincode::deserialize` of three integers: it reads them from the front of the bytes, whatever
/// follows, and fails only where the bytes are too few.
#[verifier::external_body]
pub(crate) fn deserialize_marker(bytes: &[u8]) -> (r: Result<
    (u32, u64, u64),
    Box<bincode::ErrorKind>,
>)
    ensures
        match r {
            Ok(fields) => read_marker(bytes@) == Some(fields),
            Err(_) => read_marker(bytes@) is None,
        },
{
    bincode::deserialize(bytes)
}

/// `bincode::deserialize` of three integers, a string and a byte vector: it reads them from the
/// front of the bytes, whatever follows, and fails only where the bytes are too few for a field or
/// the string is not UTF-8.
#[verifier::external_body]
pub(crate) fn deserialize_pair(bytes: &[u8]) -> (r: Result<
    (u32, u64, u64, String, Vec<u8>),
    Box<bincode::ErrorKind>,
>)
    ensures
        match r {
            Ok(fields) => {
                &&& read_marker(bytes@) == Some((fields.0, fields.1, fields.2))
                &&& read_pair(bytes@) == Some((fields.3@, fields.4@))
            },
            Err(_) => read_marker(bytes@) is None || read_pair(bytes@) is None,
        },
{
    bincode::deserialize(bytes)
}

/// `bincode::deserialize` of three integers, a string and two byte vectors: as above, with the
/// second vector behind the first.
#[verifier::external_body]
pub(crate) fn deserialize_triple(bytes: &[u8]) -> (r: Result<
    (u32, u64, u64, String, Vec<u8>, Vec<u8>),
    Box<bincode::ErrorKind>,
>)
    ensures
        match r {
            Ok(fields) => {
                &&& read_marker(bytes@) == Some((fields.0, fields.1, fields.2))
                &&& read_triple(bytes@) == Some((fields.3@, fields.4@, fields.5@))
            },
            Err(_) => read_marker(bytes@) is None || read_triple(bytes@) is None,
        },
{
    bincode::deserialize(bytes)
}

} // verus!

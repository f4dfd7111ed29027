//! The bytes of the log, position by position, and what is read from them.
use crate::bytes::{
    le_bytes, le_value, lemma_le_bounds, lemma_le_bytes_len, lemma_le_bytes_of_value,
    lemma_le_value_of_bytes,
};
use crate::codec::{blob_bytes, marker_bytes, read_blob, read_text, text_bytes};
use crate::crc32::crc32_of;
use crate::entry::{decoding, law_decode_inverts_encode, views, EntryView, WalEntry};
use crate::error::{DecodeError, WalError};
use crate::header::WalEntryHeader;
use crate::log::{
    data_in, encode_batch, encode_record, entry_at, kept_len, log_of, read_log, record, scan,
    scan_from, LogEnd, LogScan, Scanned,
};
use crate::log_laws::{
    law_batches_do_not_matter, law_log_reads_back, law_truncated_log_takes_appends,
    lemma_clean_stays,
};
use vstd::prelude::*;
use vstd::utf8::{decode_utf8_encode_utf8, encode_utf8};

verus! {

/// The number in the four bytes at `at`, the lowest byte first.
pub open spec fn number4(bytes: Seq<u8>, at: int) -> int {
    bytes[at] + 0x100 * bytes[at + 1] + 0x1_0000 * bytes[at + 2] + 0x100_0000 * bytes[at + 3]
}

/// The number in the eight bytes at `at`, the lowest byte first.
pub open spec fn number8(bytes: Seq<u8>, at: int) -> int {
    number4(bytes, at) + 0x1_0000_0000 * number4(bytes, at + 4)
}

proof fn lemma_number4(bytes: Seq<u8>, at: int)
    requires
        0 <= at,
        at + 4 <= bytes.len(),
    ensures
        le_value(bytes.subrange(at, at + 4)) == number4(bytes, at),
{
    let b = bytes.subrange(at, at + 4);
    reveal_with_fuel(le_value, 5);
    assert(b.skip(1).skip(1).skip(1).skip(1).len() == 0);
    assert(b.skip(1)[0] == bytes[at + 1]);
    assert(b.skip(1).skip(1)[0] == bytes[at + 2]);
    assert(b.skip(1).skip(1).skip(1)[0] == bytes[at + 3]);
}

proof fn lemma_value_concat(a: Seq<u8>, b: Seq<u8>)
    requires
        a.len() == 4,
    ensures
        le_value(a + b) == le_value(a) + 0x1_0000_0000 * le_value(b),
{
    reveal_with_fuel(le_value, 5);
    let all = a + b;
    assert(all.skip(1).skip(1).skip(1).skip(1) =~= b);
    assert(all.skip(1)[0] == a.skip(1)[0]);
    assert(all.skip(1).skip(1)[0] == a.skip(1).skip(1)[0]);
    assert(all.skip(1).skip(1).skip(1)[0] == a.skip(1).skip(1).skip(1)[0]);
    assert(a.skip(1).skip(1).skip(1).skip(1).len() == 0);
}

proof fn lemma_number8(bytes: Seq<u8>, at: int)
    requires
        0 <= at,
        at + 8 <= bytes.len(),
    ensures
        le_value(bytes.subrange(at, at + 8)) == number8(bytes, at),
{
    lemma_number4(bytes, at);
    lemma_number4(bytes, at + 4);
    let low = bytes.subrange(at, at + 4);
    let high = bytes.subrange(at + 4, at + 8);
    assert(bytes.subrange(at, at + 8) =~= low + high);
    lemma_value_concat(low, high);
}

/// Bytes that hold a number at their place.
proof fn lemma_number_at(bytes: Seq<u8>, at: int, value: nat, width: nat)
    requires
        0 <= at,
        at + width <= bytes.len(),
        width == 4 || width == 8,
        width == 4 ==> value < 0x1_0000_0000,
        width == 8 ==> value < 0x1_0000_0000_0000_0000,
        bytes.subrange(at, at + width) == le_bytes(value, width),
    ensures
        width == 4 ==> number4(bytes, at) == value,
        width == 8 ==> number8(bytes, at) == value,
{
    lemma_le_bounds();
    lemma_le_value_of_bytes(value, width);
    if width == 4 {
        lemma_number4(bytes, at);
    } else {
        lemma_number8(bytes, at);
    }
}

/// A header is thirteen bytes: the length in eight, the checksum in four, the version in one, each
/// with the lowest byte first.
pub proof fn law_header_bytes(header: &WalEntryHeader, bytes: [u8; 13])
    requires
        call_ensures(WalEntryHeader::to_bytes, (header,), bytes),
    ensures
        number8(bytes@, 0) == header.length,
        number4(bytes@, 8) == header.checksum,
        bytes@[12] == header.version,
{
    lemma_le_bytes_len(header.length as nat, 8);
    lemma_le_bytes_len(header.checksum as nat, 4);
    assert(bytes@.subrange(0, 8) =~= le_bytes(header.length as nat, 8));
    assert(bytes@.subrange(8, 12) =~= le_bytes(header.checksum as nat, 4));
    lemma_number_at(bytes@, 0, header.length as nat, 8);
    lemma_number_at(bytes@, 8, header.checksum as nat, 4);
}

/// A header is read from the places where it is written.
pub proof fn law_header_is_read_where_it_is_written(bytes: &[u8; 13], header: WalEntryHeader)
    requires
        call_ensures(WalEntryHeader::from_bytes, (bytes,), header),
    ensures
        header.length == number8(bytes@, 0),
        header.checksum == number4(bytes@, 8),
        header.version == bytes@[12],
{
    lemma_le_bounds();
    lemma_le_bytes_of_value(bytes@.subrange(0, 8));
    lemma_le_bytes_of_value(bytes@.subrange(8, 12));
    lemma_number8(bytes@, 0);
    lemma_number4(bytes@, 8);
}

/// The header of data has its length, its checksum and the version 1; it accepts exactly the data
/// with that checksum, and says of other data which checksum was expected and which it has.
pub proof fn law_header_is_that_of_its_data(
    data: &[u8],
    header: WalEntryHeader,
    other: &[u8],
    r: Result<(), WalError>,
)
    requires
        call_ensures(WalEntryHeader::new, (data,), header),
        call_ensures(WalEntryHeader::validate, (&header, other), r),
    ensures
        header.length == data@.len(),
        header.checksum == crc32_of(data@),
        header.version == 1,
        r is Ok <==> crc32_of(other@) == crc32_of(data@),
        r matches Err(e) ==> e == (WalError::ChecksumMismatch {
            expected: crc32_of(data@),
            actual: crc32_of(other@),
        }),
{
}

/// The number that the kind of an entry has on disk.
pub open spec fn kind_number(entry: EntryView) -> int {
    match entry {
        EntryView::Insert { .. } => 0,
        EntryView::Update { .. } => 1,
        EntryView::Delete { .. } => 2,
        EntryView::Commit { .. } => 3,
        EntryView::Abort { .. } => 4,
    }
}

/// Whether the bytes at `at` are a byte vector: its length in eight bytes, and then the bytes.
pub open spec fn blob_at(bytes: Seq<u8>, at: int, blob: Seq<u8>) -> bool {
    &&& at + 8 + blob.len() <= bytes.len()
    &&& number8(bytes, at) == blob.len()
    &&& bytes.subrange(at + 8, at + 8 + blob.len()) == blob
}

/// Whether the bytes are those of an entry: its kind, its transaction and its time, and then its key
/// and its values, and no more.
pub open spec fn is_entry_data(bytes: Seq<u8>, entry: EntryView) -> bool {
    &&& bytes.len() >= 20
    &&& number4(bytes, 0) == kind_number(entry)
    &&& match entry {
        EntryView::Insert { tx_id, timestamp, key, value } => {
            let at = 28 + encode_utf8(key).len() as int;
            &&& number8(bytes, 4) == tx_id && number8(bytes, 12) == timestamp
            &&& blob_at(bytes, 20, encode_utf8(key))
            &&& blob_at(bytes, at, value)
            &&& bytes.len() == at + 8 + value.len()
        },
        EntryView::Update { tx_id, timestamp, key, old_value, new_value } => {
            let at = 28 + encode_utf8(key).len() as int;
            let next = at + 8 + old_value.len();
            &&& number8(bytes, 4) == tx_id && number8(bytes, 12) == timestamp
            &&& blob_at(bytes, 20, encode_utf8(key))
            &&& blob_at(bytes, at, old_value)
            &&& blob_at(bytes, next, new_value)
            &&& bytes.len() == next + 8 + new_value.len()
        },
        EntryView::Delete { tx_id, timestamp, key, old_value } => {
            let at = 28 + encode_utf8(key).len() as int;
            &&& number8(bytes, 4) == tx_id && number8(bytes, 12) == timestamp
            &&& blob_at(bytes, 20, encode_utf8(key))
            &&& blob_at(bytes, at, old_value)
            &&& bytes.len() == at + 8 + old_value.len()
        },
        EntryView::Commit { tx_id, timestamp } => {
            &&& number8(bytes, 4) == tx_id && number8(bytes, 12) == timestamp
            &&& bytes.len() == 20
        },
        EntryView::Abort { tx_id, timestamp } => {
            &&& number8(bytes, 4) == tx_id && number8(bytes, 12) == timestamp
            &&& bytes.len() == 20
        },
    }
}

proof fn lemma_marker_at(tag: u32, tx_id: u64, timestamp: u64, rest: Seq<u8>)
    ensures
        ({
            let bytes = marker_bytes(tag, tx_id, timestamp) + rest;
            &&& marker_bytes(tag, tx_id, timestamp).len() == 20
            &&& number4(bytes, 0) == tag
            &&& number8(bytes, 4) == tx_id
            &&& number8(bytes, 12) == timestamp
        }),
{
    let bytes = marker_bytes(tag, tx_id, timestamp) + rest;
    lemma_le_bytes_len(tag as nat, 4);
    lemma_le_bytes_len(tx_id as nat, 8);
    lemma_le_bytes_len(timestamp as nat, 8);
    assert(bytes.subrange(0, 4) =~= le_bytes(tag as nat, 4));
    assert(bytes.subrange(4, 12) =~= le_bytes(tx_id as nat, 8));
    assert(bytes.subrange(12, 20) =~= le_bytes(timestamp as nat, 8));
    lemma_number_at(bytes, 0, tag as nat, 4);
    lemma_number_at(bytes, 4, tx_id as nat, 8);
    lemma_number_at(bytes, 12, timestamp as nat, 8);
}

proof fn lemma_blob_at(before: Seq<u8>, blob: Seq<u8>, rest: Seq<u8>)
    requires
        blob.len() < 0x1_0000_0000_0000_0000,
    ensures
        blob_bytes(blob).len() == 8 + blob.len(),
        blob_at(before + blob_bytes(blob) + rest, before.len() as int, blob),
{
    let bytes = before + blob_bytes(blob) + rest;
    let at = before.len() as int;
    lemma_le_bytes_len(blob.len(), 8);
    assert(bytes.subrange(at, at + 8) =~= le_bytes(blob.len(), 8));
    lemma_number_at(bytes, at, blob.len(), 8);
    assert(bytes.subrange(at + 8, at + 8 + blob.len()) =~= blob);
}

proof fn lemma_entry_data(entry: EntryView)
    requires
        entry.encodable(),
    ensures
        is_entry_data(entry.encoding(), entry),
{
    let none = Seq::<u8>::empty();
    let bytes = entry.encoding();
    match entry {
        EntryView::Insert { tx_id, timestamp, key, value } => {
            let m = marker_bytes(0, tx_id, timestamp);
            let k = text_bytes(key);
            let v = blob_bytes(value);
            lemma_le_bytes_len(encode_utf8(key).len(), 8);
            lemma_le_bytes_len(value.len(), 8);
            lemma_marker_at(0, tx_id, timestamp, k + v);
            assert(m + (k + v) =~= bytes);
            lemma_blob_at(m, encode_utf8(key), v);
            lemma_blob_at(m + k, value, none);
            assert(m + k + v + none =~= bytes);
        },
        EntryView::Update { tx_id, timestamp, key, old_value, new_value } => {
            let m = marker_bytes(1, tx_id, timestamp);
            let k = text_bytes(key);
            let v = blob_bytes(old_value);
            let w = blob_bytes(new_value);
            lemma_le_bytes_len(encode_utf8(key).len(), 8);
            lemma_le_bytes_len(old_value.len(), 8);
            lemma_le_bytes_len(new_value.len(), 8);
            lemma_marker_at(1, tx_id, timestamp, k + v + w);
            assert(m + (k + v + w) =~= bytes);
            lemma_blob_at(m, encode_utf8(key), v + w);
            assert(m + k + (v + w) =~= bytes);
            lemma_blob_at(m + k, old_value, w);
            lemma_blob_at(m + k + v, new_value, none);
            assert(m + k + v + w + none =~= bytes);
        },
        EntryView::Delete { tx_id, timestamp, key, old_value } => {
            let m = marker_bytes(2, tx_id, timestamp);
            let k = text_bytes(key);
            let v = blob_bytes(old_value);
            lemma_le_bytes_len(encode_utf8(key).len(), 8);
            lemma_le_bytes_len(old_value.len(), 8);
            lemma_marker_at(2, tx_id, timestamp, k + v);
            assert(m + (k + v) =~= bytes);
            lemma_blob_at(m, encode_utf8(key), v);
            lemma_blob_at(m + k, old_value, none);
            assert(m + k + v + none =~= bytes);
        },
        EntryView::Commit { tx_id, timestamp } => {
            lemma_marker_at(3, tx_id, timestamp, none);
            assert(marker_bytes(3, tx_id, timestamp) + none =~= bytes);
        },
        EntryView::Abort { tx_id, timestamp } => {
            lemma_marker_at(4, tx_id, timestamp, none);
            assert(marker_bytes(4, tx_id, timestamp) + none =~= bytes);
        },
    }
}

/// Encoding an entry succeeds, and gives its kind, its transaction, its time, its key and its values,
/// each at its place.
pub proof fn law_entry_bytes(entry: &WalEntry, r: Result<Vec<u8>, WalError>)
    requires
        call_ensures(WalEntry::encode, (entry,), r),
    ensures
        r is Ok,
        is_entry_data(r->Ok_0@, entry@),
{
    lemma_entry_data(entry@);
}

proof fn lemma_blob_is_back(bytes: Seq<u8>, at: int)
    requires
        0 <= at,
        read_blob(bytes, at) is Some,
    ensures
        ({
            let (blob, end) = read_blob(bytes, at)->0;
            &&& at + 8 <= end <= bytes.len()
            &&& bytes.subrange(at, end) == blob_bytes(blob)
        }),
{
    let (blob, end) = read_blob(bytes, at)->0;
    lemma_le_bytes_of_value(bytes.subrange(at, at + 8));
    assert(bytes.subrange(at, end) =~= bytes.subrange(at, at + 8) + bytes.subrange(at + 8, end));
}

proof fn lemma_text_is_back(bytes: Seq<u8>, at: int)
    requires
        0 <= at,
        read_text(bytes, at) is Some,
    ensures
        ({
            let (text, end) = read_text(bytes, at)->0;
            &&& at + 8 <= end <= bytes.len()
            &&& bytes.subrange(at, end) == text_bytes(text)
        }),
{
    let (raw, end) = read_blob(bytes, at)->0;
    lemma_blob_is_back(bytes, at);
    decode_utf8_encode_utf8(raw);
}

proof fn lemma_marker_is_back(bytes: Seq<u8>)
    requires
        bytes.len() >= 20,
    ensures
        ({
            let tag = le_value(bytes.subrange(0, 4)) as u32;
            let tx_id = le_value(bytes.subrange(4, 12)) as u64;
            let timestamp = le_value(bytes.subrange(12, 20)) as u64;
            bytes.subrange(0, 20) == marker_bytes(tag, tx_id, timestamp)
        }),
{
    lemma_le_bounds();
    lemma_le_bytes_of_value(bytes.subrange(0, 4));
    lemma_le_bytes_of_value(bytes.subrange(4, 12));
    lemma_le_bytes_of_value(bytes.subrange(12, 20));
    assert(bytes.subrange(0, 20) =~= bytes.subrange(0, 4) + bytes.subrange(4, 12)
        + bytes.subrange(12, 20));
}

proof fn lemma_decoded(bytes: Seq<u8>)
    requires
        decoding(bytes) is Some,
    ensures
        decoding(bytes)->0.encoding().is_prefix_of(bytes),
{
    let entry = decoding(bytes)->0;
    lemma_marker_is_back(bytes);
    let m = bytes.subrange(0, 20);
    match entry {
        EntryView::Insert { .. } | EntryView::Delete { .. } => {
            let (key, at) = read_text(bytes, 20)->0;
            let (_, end) = read_blob(bytes, at)->0;
            lemma_text_is_back(bytes, 20);
            lemma_blob_is_back(bytes, at);
            assert(bytes.subrange(0, end) =~= m + bytes.subrange(20, at) + bytes.subrange(at, end));
            assert(entry.encoding() =~= bytes.subrange(0, end));
        },
        EntryView::Update { .. } => {
            let (key, at) = read_text(bytes, 20)->0;
            let (_, next) = read_blob(bytes, at)->0;
            let (_, end) = read_blob(bytes, next)->0;
            lemma_text_is_back(bytes, 20);
            lemma_blob_is_back(bytes, at);
            lemma_blob_is_back(bytes, next);
            assert(bytes.subrange(0, end) =~= m + bytes.subrange(20, at) + bytes.subrange(at, next)
                + bytes.subrange(next, end));
            assert(entry.encoding() =~= bytes.subrange(0, end));
        },
        _ => {
            assert(entry.encoding() =~= m);
        },
    }
}

/// Bytes are decoded as an entry exactly where they start with the bytes of an entry, and then as
/// that entry; a kind that no entry has is named in the error, and no other error names one. (The
/// bound is that of any slice.)
pub proof fn law_decoding_finds_the_entry(bytes: &[u8], r: Result<WalEntry, DecodeError>)
    requires
        bytes@.len() <= usize::MAX,
        call_ensures(WalEntry::decode, (bytes,), r),
    ensures
        r matches Ok(entry) ==> exists|n: int|
            0 <= n <= bytes@.len() && #[trigger] is_entry_data(bytes@.take(n), entry@),
        r is Err ==> forall|entry: EntryView, rest: Seq<u8>|
            #![trigger entry.encoding() + rest]
            entry.encodable() ==> bytes@ != entry.encoding() + rest,
        r matches Err(DecodeError::UnknownVariant(n)) ==> bytes@.len() >= 4 && number4(bytes@, 0)
            == n && n > 4,
        r matches Err(DecodeError::Malformed(_)) ==> bytes@.len() < 4 || number4(bytes@, 0) <= 4,
{
    if bytes@.len() >= 4 {
        lemma_number4(bytes@, 0);
        lemma_le_bounds();
        lemma_le_bytes_of_value(bytes@.subrange(0, 4));
    }
    match r {
        Ok(entry) => {
            let data = entry@.encoding();
            lemma_decoded(bytes@);
            assert(bytes@.take(data.len() as int) =~= data);
            lemma_entry_data(entry@);
        },
        Err(_) => {
            assert forall|entry: EntryView, rest: Seq<u8>|
                #![trigger entry.encoding() + rest]
                entry.encodable() implies bytes@ != entry.encoding() + rest by {
                law_decode_inverts_encode(entry, rest);
            }
        },
    }
}

/// An entry that was encoded is decoded as it was, whatever bytes follow.
pub proof fn law_encoded_entry_is_decoded(
    entry: &WalEntry,
    data: Result<Vec<u8>, WalError>,
    bytes: &[u8],
    rest: Seq<u8>,
    r: Result<WalEntry, DecodeError>,
)
    requires
        call_ensures(WalEntry::encode, (entry,), data),
        bytes@ == data->Ok_0@ + rest,
        call_ensures(WalEntry::decode, (bytes,), r),
    ensures
        r is Ok,
        r->Ok_0@ == entry@,
{
    law_decode_inverts_encode(entry@, rest);
}

/// A record is the header and then the data of the entry: the length of the data in eight bytes, its
/// checksum in four, the version 1 in one, and the data.
pub proof fn law_record_bytes(entry: &WalEntry, r: Result<Vec<u8>, WalError>)
    requires
        call_ensures(encode_record, (entry,), r),
    ensures
        r is Ok,
        ({
            let bytes = r->Ok_0@;
            &&& bytes.len() >= 13
            &&& number8(bytes, 0) == bytes.len() - 13
            &&& number4(bytes, 8) == crc32_of(bytes.skip(13))
            &&& bytes[12] == 1
            &&& is_entry_data(bytes.skip(13), entry@)
        }),
{
    let bytes = r->Ok_0@;
    let data = entry@.encoding();
    lemma_le_bytes_len(data.len(), 8);
    lemma_le_bytes_len(crc32_of(data) as nat, 4);
    assert(bytes.skip(13) =~= data);
    assert(bytes.subrange(0, 8) =~= le_bytes(data.len(), 8));
    assert(bytes.subrange(8, 12) =~= le_bytes(crc32_of(data) as nat, 4));
    lemma_number_at(bytes, 0, data.len(), 8);
    lemma_number_at(bytes, 8, crc32_of(data) as nat, 4);
    lemma_entry_data(entry@);
}

/// The bytes of a batch are those of its entries, one behind the other: a batch of one entry is its
/// record, an empty one is empty, and that of two batches in one is that of the first and then that
/// of the second.
pub proof fn law_batch_bytes(
    first: &Vec<WalEntry>,
    second: &Vec<WalEntry>,
    both: &Vec<WalEntry>,
    r1: Result<Vec<u8>, WalError>,
    r2: Result<Vec<u8>, WalError>,
    r: Result<Vec<u8>, WalError>,
    entry: &WalEntry,
    r_entry: Result<Vec<u8>, WalError>,
)
    requires
        call_ensures(encode_batch, (first,), r1),
        call_ensures(encode_batch, (second,), r2),
        call_ensures(encode_batch, (both,), r),
        both@ == first@ + second@,
        call_ensures(encode_record, (entry,), r_entry),
    ensures
        r1 is Ok && r2 is Ok && r is Ok,
        r->Ok_0@ == r1->Ok_0@ + r2->Ok_0@,
        first@.len() == 0 ==> r1->Ok_0@.len() == 0,
        first@ == seq![*entry] ==> r1->Ok_0@ == r_entry->Ok_0@,
{
    assert(views(both@) =~= views(first@) + views(second@));
    law_batches_do_not_matter(views(first@), views(second@));
    if first@ == seq![*entry] {
        assert(views(first@)[0] == entry@);
        assert(views(first@).skip(1) =~= Seq::<EntryView>::empty());
        assert(record(entry@) + log_of(Seq::empty()) =~= record(entry@));
    }
}

/// What was written is read back: the entries of a batch, in their order, and a clean end.
pub proof fn law_written_batch_is_read_back(
    batch: &Vec<WalEntry>,
    r: Result<Vec<u8>, WalError>,
    bytes: &[u8],
    found: LogScan,
)
    requires
        call_ensures(encode_batch, (batch,), r),
        bytes@ == r->Ok_0@,
        call_ensures(read_log, (bytes,), found),
    ensures
        found.entries@.len() == batch@.len(),
        forall|i: int| 0 <= i < batch@.len() ==> (#[trigger] found.entries@[i])@ == batch@[i]@,
        found.end is Clean,
{
    law_log_reads_back(views(batch@));
    assert(views(found.entries@).len() == views(batch@).len());
    assert forall|i: int| 0 <= i < batch@.len() implies (#[trigger] found.entries@[i])@
        == batch@[i]@ by {
        assert(views(found.entries@)[i] == found.entries@[i]@);
        assert(views(batch@)[i] == batch@[i]@);
    }
}

/// A log without bytes has no entry, and ends clean.
pub proof fn law_empty_log_has_no_entry(log: &[u8], found: LogScan)
    requires
        call_ensures(read_log, (log,), found),
        log@.len() == 0,
    ensures
        found.entries@.len() == 0,
        found.end is Clean,
{
    assert(views(found.entries@).len() == found.entries@.len());
}

/// How a log goes on behind a clean one. Where fewer than thirteen bytes follow, or fewer than the
/// length in them announces, it ends there, torn. Where the data do not have the checksum that stands
/// in front of them, or are not those of an entry, it ends there too. Else they are the next entry,
/// and the log is clean up to its end. The version does not matter. Whatever was found before is
/// found in each case.
pub proof fn law_log_goes_on_behind_a_clean_one(
    clean: Seq<u8>,
    tail: Seq<u8>,
    log: &[u8],
    found: LogScan,
)
    requires
        scan(clean).end is Clean,
        log@ == clean + tail,
        call_ensures(read_log, (log,), found),
    ensures
        scan(clean).entries.is_prefix_of(views(found.entries@)),
        tail.len() == 0 ==> found@ == scan(clean),
        0 < tail.len() < 13 ==> found@ == (Scanned {
            entries: scan(clean).entries,
            end: LogEnd::PartialHeader { offset: clean.len() as u64 },
        }),
        tail.len() >= 13 && number8(tail, 0) > tail.len() - 13 ==> found@ == (Scanned {
            entries: scan(clean).entries,
            end: LogEnd::TornData { offset: clean.len() as u64 },
        }),
        tail.len() >= 13 && number8(tail, 0) <= tail.len() - 13 ==> {
            let data = tail.subrange(13, 13 + number8(tail, 0));
            let expected = number4(tail, 8);
            let next = clean + tail.take(13 + number8(tail, 0));
            if crc32_of(data) != expected {
                found@ == (Scanned {
                    entries: scan(clean).entries,
                    end: LogEnd::ChecksumMismatch {
                        offset: clean.len() as u64,
                        expected: expected as u32,
                        actual: crc32_of(data),
                    },
                })
            } else {
                match decoding(data) {
                    Some(entry) => {
                        &&& scan(next) == (Scanned {
                            entries: scan(clean).entries.push(entry),
                            end: LogEnd::Clean,
                        })
                        &&& scan(clean).entries.push(entry).is_prefix_of(views(found.entries@))
                    },
                    None => found@ == (Scanned {
                        entries: scan(clean).entries,
                        end: LogEnd::BadEntry { offset: clean.len() as u64 },
                    }),
                }
            }
        },
{
    let whole = clean + tail;
    let pos = clean.len() as int;
    let entries = scan(clean).entries;
    let none = Seq::<EntryView>::empty();
    assert(entries + none =~= entries);
    lemma_clean_stays(clean, tail, 0);
    if tail.len() == 0 {
        assert(whole =~= clean);
    } else if tail.len() >= 13 {
        let head = whole.subrange(pos, pos + 13);
        assert(head.subrange(0, 8) =~= whole.subrange(pos, pos + 8));
        assert(head.subrange(8, 12) =~= whole.subrange(pos + 8, pos + 12));
        lemma_number8(head, 0);
        lemma_number4(head, 8);
        lemma_le_bounds();
        lemma_le_bytes_of_value(head.subrange(0, 8));
        lemma_le_bytes_of_value(head.subrange(8, 12));
        assert(number8(head, 0) == number8(tail, 0));
        assert(number4(head, 8) == number4(tail, 8));
        let len = number8(tail, 0);
        if len <= tail.len() - 13 {
            let data = tail.subrange(13, 13 + len);
            assert(data_in(whole, pos, pos + 13 + len) =~= data);
            if crc32_of(data) == number4(tail, 8) && decoding(data) is Some {
                let entry = decoding(data)->0;
                let cut = tail.take(13 + len);
                let next = clean + cut;
                lemma_clean_stays(clean, cut, 0);
                assert(next.subrange(pos, pos + 13) =~= head);
                assert(data_in(next, pos, pos + 13 + len) =~= data);
                assert(entry_at(next, pos) == Ok::<(EntryView, int), LogEnd>(
                    (entry, pos + 13 + len),
                ));
                assert(scan_from(next, pos + 13 + len).entries =~= none);
                assert(entries + (seq![entry] + none) =~= entries.push(entry));
                let rest = scan_from(whole, pos + 13 + len).entries;
                assert(entries + (seq![entry] + rest) =~= entries.push(entry) + rest);
            }
        }
    }
}

/// A log is cut in front of an entry that was not written whole, and nowhere else: no entry is lost,
/// and a log that ended inside an entry ends clean then.
pub proof fn law_cut_loses_no_entry(log: Seq<u8>, len: usize, found: &LogScan, n: usize)
    requires
        found@ == scan(log),
        len == log.len(),
        call_ensures(kept_len, (found, len), n),
    ensures
        n <= log.len(),
        scan(log.take(n as int)).entries == scan(log).entries,
        found.end is PartialHeader || found.end is TornData ==> scan(log.take(n as int)).end
            is Clean && n < log.len(),
        found.end is Clean || found.end is ChecksumMismatch || found.end is BadEntry ==> n
            == log.len(),
{
    if found.end is PartialHeader || found.end is TornData {
        law_truncated_log_takes_appends(log, Seq::empty());
        if n == log.len() {
            assert(log.take(n as int) =~= log);
        }
    } else {
        assert(log.take(n as int) =~= log);
    }
}

} // verus!

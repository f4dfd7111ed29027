//! The log file: a sequence of entries, each behind its header.
use crate::crc32::{crc32, crc32_of};
use crate::entry::{decoding, is_decode_error, views, EntryView, WalEntry};
use crate::error::{DecodeError, WalError};
use crate::header::{header_for, header_in, WalEntryHeader};
use vstd::prelude::*;

verus! {

/// Where and why the entries of a log end.
#[derive(Debug, Clone, Copy, PartialEq, Eq, Structural)]
pub enum LogEnd {
    /// The log ends right behind its last entry.
    Clean,
    /// The log ends inside the header that starts at `offset`.
    PartialHeader { offset: u64 },
    /// The log ends inside the data of the entry that starts at `offset`.
    TornData { offset: u64 },
    /// The data of the entry that starts at `offset` does not have the checksum of its header.
    ChecksumMismatch { offset: u64, expected: u32, actual: u32 },
    /// The data of the entry that starts at `offset` is not that of an entry.
    BadEntry { offset: u64 },
}

/// The entries of a log up to the first that cannot be read, and why they end there.
#[derive(Debug)]
pub struct LogScan {
    pub entries: Vec<WalEntry>,
    pub end: LogEnd,
    /// Why the bytes at the end are not those of an entry, where they are not.
    pub decode_error: Option<DecodeError>,
}

/// What a scan finds.
pub struct Scanned {
    pub entries: Seq<EntryView>,
    pub end: LogEnd,
}

impl View for LogScan {
    type V = Scanned;

    open spec fn view(&self) -> Scanned {
        Scanned { entries: views(self.entries@), end: self.end }
    }
}

/// The bytes of one entry in the log: its header, then its data.
pub open spec fn record(entry: EntryView) -> Seq<u8> {
    let data = entry.encoding();
    header_for(data.len(), crc32_of(data)).encoding() + data
}

/// The log that holds the given entries.
pub open spec fn log_of(entries: Seq<EntryView>) -> Seq<u8>
    decreases entries.len(),
{
    if entries.len() == 0 {
        Seq::empty()
    } else {
        record(entries[0]) + log_of(entries.skip(1))
    }
}

/// Whether each entry can be encoded, as every entry in memory can.
pub open spec fn all_encodable(entries: Seq<EntryView>) -> bool {
    forall|i: int| 0 <= i < entries.len() ==> (#[trigger] entries[i]).encodable()
}

/// The header at `pos` and the position behind the data that it announces, or why there is none.
pub open spec fn frame(log: Seq<u8>, pos: int) -> Result<(WalEntryHeader, int), LogEnd> {
    if pos >= log.len() {
        Err(LogEnd::Clean)
    } else if pos + WalEntryHeader::SIZE > log.len() {
        Err(LogEnd::PartialHeader { offset: pos as u64 })
    } else {
        let start = pos + WalEntryHeader::SIZE;
        let header = header_in(log.subrange(pos, start));
        if start + header.length > log.len() {
            Err(LogEnd::TornData { offset: pos as u64 })
        } else {
            Ok((header, start + header.length))
        }
    }
}

/// The entry that `data` holds, which has the checksum `checksum` and stands behind `header` at
/// `offset`.
pub open spec fn accepted(
    header: WalEntryHeader,
    data: Seq<u8>,
    checksum: u32,
    offset: u64,
) -> Result<EntryView, LogEnd> {
    if checksum != header.checksum {
        Err(LogEnd::ChecksumMismatch { offset, expected: header.checksum, actual: checksum })
    } else {
        match decoding(data) {
            Some(entry) => Ok(entry),
            None => Err(LogEnd::BadEntry { offset }),
        }
    }
}

/// The data between the header at `pos` and `end`.
pub open spec fn data_in(log: Seq<u8>, pos: int, end: int) -> Seq<u8> {
    log.subrange(pos + WalEntryHeader::SIZE, end)
}

/// The entry at `pos` and the position behind it, or why there is none.
pub open spec fn entry_at(log: Seq<u8>, pos: int) -> Result<(EntryView, int), LogEnd> {
    match frame(log, pos) {
        Ok((header, end)) => {
            let data = data_in(log, pos, end);
            match accepted(header, data, crc32_of(data), pos as u64) {
                Ok(entry) => Ok((entry, end)),
                Err(e) => Err(e),
            }
        },
        Err(e) => Err(e),
    }
}

/// The entries from `pos` on, up to the first that cannot be read.
pub open spec fn scan_from(log: Seq<u8>, pos: int) -> Scanned
    decreases log.len() - pos,
{
    match entry_at(log, pos) {
        Ok((entry, end)) => {
            let rest = scan_from(log, end);
            Scanned { entries: seq![entry] + rest.entries, end: rest.end }
        },
        Err(end) => Scanned { entries: Seq::empty(), end },
    }
}

/// The entries of a log, up to the first that cannot be read.
pub open spec fn scan(log: Seq<u8>) -> Scanned {
    scan_from(log, 0)
}

/// The data of the entry at `offset`.
pub open spec fn data_at(log: Seq<u8>, offset: u64) -> Seq<u8> {
    match frame(log, offset as int) {
        Ok((_, end)) => data_in(log, offset as int, end),
        Err(_) => Seq::empty(),
    }
}

/// Reads the header at `pos`, and says where the data that it announces ends.
pub fn read_frame(log: &[u8], pos: usize) -> (r: Result<(WalEntryHeader, usize), LogEnd>)
    ensures
        match r {
            Ok((header, end)) => frame(log@, pos as int) == Ok::<(WalEntryHeader, int), LogEnd>(
                (header, end as int),
            ),
            Err(e) => frame(log@, pos as int) == Err::<(WalEntryHeader, int), LogEnd>(e),
        },
{
    let len: usize = log.len();
    if pos >= len {
        return Err(LogEnd::Clean);
    }
    if len - pos < WalEntryHeader::SIZE {
        return Err(LogEnd::PartialHeader { offset: pos as u64 });
    }
    let bytes: [u8; 13] = [
        log[pos],
        log[pos + 1],
        log[pos + 2],
        log[pos + 3],
        log[pos + 4],
        log[pos + 5],
        log[pos + 6],
        log[pos + 7],
        log[pos + 8],
        log[pos + 9],
        log[pos + 10],
        log[pos + 11],
        log[pos + 12],
    ];
    assert(bytes@ =~= log@.subrange(pos as int, pos + WalEntryHeader::SIZE));
    let header = WalEntryHeader::from_bytes(&bytes);
    let start: usize = pos + WalEntryHeader::SIZE;
    if header.length > (len - start) as u64 {
        return Err(LogEnd::TornData { offset: pos as u64 });
    }
    Ok((header, start + header.length as usize))
}

/// The entry that `data` holds, which has the checksum `checksum` and stands behind `header` at
/// `offset`; or why the log ends there, with the failure to decode it where there was one.
pub fn accept_data(header: &WalEntryHeader, data: &[u8], checksum: u32, offset: u64) -> (r: Result<
    WalEntry,
    (LogEnd, Option<DecodeError>),
>)
    ensures
        match r {
            Ok(entry) => accepted(*header, data@, checksum, offset) == Ok::<EntryView, LogEnd>(
                entry@,
            ),
            Err((end, error)) => {
                &&& accepted(*header, data@, checksum, offset) == Err::<EntryView, LogEnd>(end)
                &&& error is Some <==> end is BadEntry
                &&& error is Some ==> is_decode_error(error->0, data@)
            },
        },
{
    if header.validate_checksum(checksum).is_err() {
        return Err(
            (
                LogEnd::ChecksumMismatch { offset, expected: header.checksum, actual: checksum },
                None,
            ),
        );
    }
    match WalEntry::decode(data) {
        Ok(entry) => Ok(entry),
        Err(e) => Err((LogEnd::BadEntry { offset }, Some(e))),
    }
}

/// Reads the entries of a log, up to the first that cannot be read.
pub fn read_log(log: &[u8]) -> (r: LogScan)
    ensures
        r@ == scan(log@),
        r.decode_error is Some <==> r.end is BadEntry,
        r.end matches LogEnd::BadEntry { offset } ==> is_decode_error(
            r.decode_error->0,
            data_at(log@, offset),
        ),
{
    let mut entries: Vec<WalEntry> = Vec::new();
    let mut pos: usize = 0;
    let len: usize = log.len();
    proof {
        assert(views(entries@) + scan(log@).entries =~= scan(log@).entries);
    }
    loop
        invariant
            pos <= log@.len() == len,
            views(entries@) + scan_from(log@, pos as int).entries == scan(log@).entries,
            scan_from(log@, pos as int).end == scan(log@).end,
        decreases log@.len() - pos,
    {
        let ghost rest = scan_from(log@, pos as int);
        let (header, end) = match read_frame(log, pos) {
            Ok(found) => found,
            Err(end) => {
                assert(views(entries@) + rest.entries =~= views(entries@));
                return LogScan { entries, end, decode_error: None };
            },
        };
        let data: &[u8] = &log[pos + WalEntryHeader::SIZE..end];
        match accept_data(&header, data, crc32(data), pos as u64) {
            Ok(entry) => {
                let ghost before = views(entries@);
                let ghost next = scan_from(log@, end as int);
                entries.push(entry);
                proof {
                    assert(rest.entries == seq![entry@] + next.entries);
                    assert(views(entries@) =~= before + seq![entry@]);
                    assert(views(entries@) + next.entries =~= before + rest.entries);
                }
                pos = end;
            },
            Err((end, decode_error)) => {
                assert(views(entries@) + rest.entries =~= views(entries@));
                return LogScan { entries, end, decode_error };
            },
        }
    }
}

/// The length at which a log is to be cut: where it ends inside an entry, the length in front of that
/// entry, so that entries can be appended. Any other log is left as it is; behind an entry that is
/// damaged or cannot be decoded, what is appended is not found.
pub open spec fn kept(end: LogEnd, len: int) -> int {
    match end {
        LogEnd::PartialHeader { offset } => offset as int,
        LogEnd::TornData { offset } => offset as int,
        _ => len,
    }
}

/// The length at which a log of the given length is to be cut, where `found` was found in it.
pub fn kept_len(found: &LogScan, len: usize) -> (n: usize)
    ensures
        n == if kept(found.end, len as int) <= len {
            kept(found.end, len as int)
        } else {
            len as int
        },
{
    match found.end {
        LogEnd::PartialHeader { offset } | LogEnd::TornData { offset } => {
            if offset <= len as u64 {
                offset as usize
            } else {
                len
            }
        },
        _ => len,
    }
}

/// The bytes of one entry in the log.
pub fn encode_record(entry: &WalEntry) -> (r: Result<Vec<u8>, WalError>)
    ensures
        r is Ok,
        r->Ok_0@ == record(entry@),
        entry@.encodable(),
{
    let data = match entry.encode() {
        Ok(data) => data,
        Err(e) => return Err(e),
    };
    let header = WalEntryHeader::new(data.as_slice());
    let bytes = header.to_bytes();
    let mut out: Vec<u8> = Vec::new();
    out.extend_from_slice(bytes.as_slice());
    out.extend_from_slice(data.as_slice());
    proof {
        assert(out@ =~= record(entry@));
    }
    Ok(out)
}

/// The bytes of a batch of entries, one behind the other.
pub fn encode_batch(batch: &Vec<WalEntry>) -> (r: Result<Vec<u8>, WalError>)
    ensures
        r is Ok,
        r->Ok_0@ == log_of(views(batch@)),
        all_encodable(views(batch@)),
{
    let mut out: Vec<u8> = Vec::new();
    let mut i: usize = 0;
    while i < batch.len()
        invariant
            i <= batch@.len(),
            out@ == log_of(views(batch@).take(i as int)),
            forall|j: int| 0 <= j < i ==> (#[trigger] batch@[j])@.encodable(),
        decreases batch@.len() - i,
    {
        let bytes = match encode_record(&batch[i]) {
            Ok(bytes) => bytes,
            Err(e) => return Err(e),
        };
        out.extend_from_slice(bytes.as_slice());
        proof {
            let es = views(batch@);
            lemma_log_of_push(es.take(i as int), es[i as int]);
            assert(es.take(i + 1) =~= es.take(i as int).push(es[i as int]));
        }
        i = i + 1;
    }
    proof {
        assert(views(batch@).take(i as int) =~= views(batch@));
    }
    Ok(out)
}

proof fn lemma_log_of_push(entries: Seq<EntryView>, entry: EntryView)
    ensures
        log_of(entries.push(entry)) == log_of(entries) + record(entry),
    decreases entries.len(),
{
    let more = entries.push(entry);
    if entries.len() == 0 {
        assert(more.skip(1) =~= Seq::empty());
        assert(record(entry) + log_of(Seq::empty()) =~= log_of(entries) + record(entry));
    } else {
        lemma_log_of_push(entries.skip(1), entry);
        assert(more.skip(1) =~= entries.skip(1).push(entry));
        assert(log_of(more) =~= log_of(entries) + record(entry));
    }
}

} // verus!

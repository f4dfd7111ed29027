//! What holds of every log.
use crate::crc32::{crc32_of, law_burst_changes_checksum};
use crate::entry::{law_decode_inverts_encode, EntryView};
use crate::header::{header_for, header_in, law_header_read_inverts_write, WalEntryHeader};
use crate::log::{
    all_encodable, data_in, entry_at, frame, kept, log_of, record, scan, scan_from, LogEnd, Scanned,
};
use vstd::prelude::*;

verus! {

proof fn lemma_header_of_record(before: Seq<u8>, entry: EntryView, after: Seq<u8>, log: Seq<u8>)
    requires
        entry.encodable(),
        log.len() >= before.len() + WalEntryHeader::SIZE,
        log.is_prefix_of(before + record(entry) + after),
    ensures
        record(entry).len() == WalEntryHeader::SIZE + entry.encoding().len(),
        header_in(log.subrange(before.len() as int, before.len() + WalEntryHeader::SIZE))
            == header_for(entry.encoding().len(), crc32_of(entry.encoding())),
{
    let data = entry.encoding();
    let header = header_for(data.len(), crc32_of(data));
    let pos = before.len() as int;
    law_header_read_inverts_write(header, Seq::empty());
    assert(header.encoding() + Seq::<u8>::empty() =~= header.encoding());
    assert(log.subrange(pos, pos + WalEntryHeader::SIZE) =~= header.encoding()) by {
        let whole = before + record(entry) + after;
        assert forall|i: int| 0 <= i < WalEntryHeader::SIZE implies log[pos + i]
            == header.encoding()[i] by {
            assert(log[pos + i] == whole[pos + i]);
        }
    }
}

/// A whole record is read as its entry.
proof fn lemma_entry_of_record(before: Seq<u8>, entry: EntryView, after: Seq<u8>)
    requires
        entry.encodable(),
    ensures
        entry_at(before + record(entry) + after, before.len() as int) == Ok::<
            (EntryView, int),
            LogEnd,
        >((entry, (before + record(entry)).len() as int)),
        record(entry).len() == WalEntryHeader::SIZE + entry.encoding().len(),
{
    let log = before + record(entry) + after;
    let data = entry.encoding();
    let pos = before.len() as int;
    law_header_read_inverts_write(header_for(data.len(), crc32_of(data)), Seq::empty());
    lemma_header_of_record(before, entry, after, log);
    let end = pos + WalEntryHeader::SIZE + data.len();
    assert(data_in(log, pos, end) =~= data);
    law_decode_inverts_encode(entry, Seq::empty());
    assert(data + Seq::<u8>::empty() =~= data);
}

/// Written entries are read back, and then whatever stands behind them.
proof fn lemma_scan_written(before: Seq<u8>, entries: Seq<EntryView>, after: Seq<u8>)
    requires
        all_encodable(entries),
    ensures
        ({
            let log = before + log_of(entries) + after;
            let found = scan_from(log, before.len() as int);
            let rest = scan_from(log, (before + log_of(entries)).len() as int);
            &&& found.entries == entries + rest.entries
            &&& found.end == rest.end
        }),
    decreases entries.len(),
{
    let log = before + log_of(entries) + after;
    if entries.len() == 0 {
        assert(log_of(entries) =~= Seq::<u8>::empty());
        assert(before + log_of(entries) =~= before);
        let rest = scan_from(log, before.len() as int);
        assert(entries + rest.entries =~= rest.entries);
    } else {
        let first = entries[0];
        let more = entries.skip(1);
        assert(log_of(entries) == record(first) + log_of(more));
        lemma_entry_of_record(before, first, log_of(more) + after);
        assert(before + record(first) + (log_of(more) + after) =~= log);
        assert forall|i: int| 0 <= i < more.len() implies (#[trigger] more[i]).encodable() by {
            assert(more[i] == entries[i + 1]);
        }
        lemma_scan_written(before + record(first), more, after);
        assert(before + record(first) + log_of(more) + after =~= log);
        assert(before + record(first) + log_of(more) =~= before + log_of(entries));
        let rest = scan_from(log, (before + log_of(entries)).len() as int);
        assert(seq![first] + (more + rest.entries) =~= entries + rest.entries);
    }
}

/// An entry stays where it is when the log grows.
proof fn lemma_entry_stays(log: Seq<u8>, after: Seq<u8>, pos: int)
    requires
        0 <= pos,
        entry_at(log, pos) is Ok,
    ensures
        entry_at(log + after, pos) == entry_at(log, pos),
{
    let longer = log + after;
    let start = pos + WalEntryHeader::SIZE;
    assert(longer.subrange(pos, start) =~= log.subrange(pos, start));
    let end = frame(log, pos)->Ok_0.1;
    assert(data_in(longer, pos, end) =~= data_in(log, pos, end));
}

/// A clean log is read the same when something follows it.
pub proof fn lemma_clean_stays(log: Seq<u8>, after: Seq<u8>, pos: int)
    requires
        0 <= pos <= log.len(),
        scan_from(log, pos).end is Clean,
    ensures
        ({
            let found = scan_from(log + after, pos);
            let rest = scan_from(log + after, log.len() as int);
            &&& found.entries == scan_from(log, pos).entries + rest.entries
            &&& found.end == rest.end
        }),
    decreases log.len() - pos,
{
    let rest = scan_from(log + after, log.len() as int);
    match entry_at(log, pos) {
        Ok((entry, end)) => {
            lemma_entry_stays(log, after, pos);
            lemma_clean_stays(log, after, end);
            let later = scan_from(log, end).entries;
            assert(seq![entry] + (later + rest.entries) =~= (seq![entry] + later) + rest.entries);
        },
        Err(_) => {
            assert(pos == log.len());
            assert(scan_from(log, pos).entries + rest.entries =~= rest.entries);
        },
    }
}

/// Reading a log gives back the entries that were written, and finds its end clean.
pub proof fn law_log_reads_back(entries: Seq<EntryView>)
    requires
        all_encodable(entries),
    ensures
        scan(log_of(entries)) == (Scanned { entries, end: LogEnd::Clean }),
{
    let none = Seq::<u8>::empty();
    lemma_scan_written(none, entries, none);
    assert(none + log_of(entries) + none =~= log_of(entries));
    assert(none + log_of(entries) =~= log_of(entries));
    assert(entries + Seq::<EntryView>::empty() =~= entries);
}

/// Appending entries to a clean log keeps what it held, adds the entries, and leaves it clean.
pub proof fn law_append_adds_entries(log: Seq<u8>, entries: Seq<EntryView>)
    requires
        scan(log).end is Clean,
        all_encodable(entries),
    ensures
        scan(log + log_of(entries)) == (Scanned {
            entries: scan(log).entries + entries,
            end: LogEnd::Clean,
        }),
{
    lemma_clean_stays(log, log_of(entries), 0);
    let none = Seq::<u8>::empty();
    lemma_scan_written(log, entries, none);
    assert(log + log_of(entries) + none =~= log + log_of(entries));
    assert(entries + Seq::<EntryView>::empty() =~= entries);
}

/// Whatever follows a clean log, torn or corrupt, the entries before it are found.
pub proof fn law_entries_before_corruption_are_read(log: Seq<u8>, tail: Seq<u8>)
    requires
        scan(log).end is Clean,
    ensures
        scan(log).entries.is_prefix_of(scan(log + tail).entries),
{
    lemma_clean_stays(log, tail, 0);
}

/// An entry whose data was damaged within four consecutive bytes is never read: the log ends with a
/// checksum failure where the entry starts, and everything before it is found.
pub proof fn law_damaged_entry_is_not_read(
    log: Seq<u8>,
    entry: EntryView,
    damaged: Seq<u8>,
    at: int,
    tail: Seq<u8>,
)
    requires
        scan(log).end is Clean,
        entry.encodable(),
        damaged.len() == entry.encoding().len(),
        damaged != entry.encoding(),
        0 <= at <= damaged.len() - 4,
        forall|j: int|
            0 <= j < damaged.len() && !(at <= j < at + 4) ==> damaged[j] == entry.encoding()[j],
    ensures
        ({
            let data = entry.encoding();
            let header = header_for(data.len(), crc32_of(data));
            scan(log + (header.encoding() + damaged + tail)) == (Scanned {
                entries: scan(log).entries,
                end: LogEnd::ChecksumMismatch {
                    offset: log.len() as u64,
                    expected: crc32_of(data),
                    actual: crc32_of(damaged),
                },
            })
        }),
{
    let data = entry.encoding();
    let header = header_for(data.len(), crc32_of(data));
    let after = header.encoding() + damaged + tail;
    let whole = log + after;
    let start = log.len() + WalEntryHeader::SIZE;
    law_burst_changes_checksum(damaged, data, at);
    lemma_clean_stays(log, after, 0);
    law_header_read_inverts_write(header, Seq::empty());
    assert(header.encoding() + Seq::<u8>::empty() =~= header.encoding());
    assert(whole.subrange(log.len() as int, start) =~= header.encoding());
    assert(data_in(whole, log.len() as int, start + damaged.len()) =~= damaged);
    assert(scan(log).entries + Seq::<EntryView>::empty() =~= scan(log).entries);
}

/// How many of the entries lie whole in the first `len` bytes of their log.
pub open spec fn whole_entries(entries: Seq<EntryView>, len: int) -> nat
    decreases entries.len(),
{
    if entries.len() == 0 || record(entries[0]).len() > len {
        0
    } else {
        1 + whole_entries(entries.skip(1), len - record(entries[0]).len())
    }
}

/// The end that a log has when `len` bytes of the entries have been written behind its first
/// `start` bytes.
pub open spec fn cut_end(start: nat, entries: Seq<EntryView>, len: int) -> LogEnd {
    let offset = start + log_of(entries.take(whole_entries(entries, len) as int)).len();
    if start + len == offset {
        LogEnd::Clean
    } else if start + len < offset + WalEntryHeader::SIZE {
        LogEnd::PartialHeader { offset: offset as u64 }
    } else {
        LogEnd::TornData { offset: offset as u64 }
    }
}

proof fn lemma_whole_entries(entries: Seq<EntryView>, len: int)
    ensures
        whole_entries(entries, len) <= entries.len(),
    decreases entries.len(),
{
    if entries.len() > 0 && record(entries[0]).len() <= len {
        lemma_whole_entries(entries.skip(1), len - record(entries[0]).len());
    }
}

/// What a scan finds where a log was cut `len` bytes behind `before`.
spec fn is_scan_of_cut(found: Scanned, before: Seq<u8>, entries: Seq<EntryView>, len: int) -> bool {
    let whole = whole_entries(entries, len) as int;
    &&& found.entries == entries.take(whole)
    &&& found.end == cut_end(before.len(), entries, len)
}

/// A log that was cut in front of an entry, or inside it.
proof fn lemma_scan_cut_in_first(before: Seq<u8>, entries: Seq<EntryView>, len: int)
    requires
        all_encodable(entries),
        0 <= len <= log_of(entries).len(),
        whole_entries(entries, len) == 0,
    ensures
        is_scan_of_cut(
            scan_from(before + log_of(entries).take(len), before.len() as int),
            before,
            entries,
            len,
        ),
{
    let log = before + log_of(entries).take(len);
    assert(entries.take(0) =~= Seq::<EntryView>::empty());
    if len > 0 {
        let first = entries[0];
        let after = log_of(entries.skip(1));
        assert(log_of(entries) == record(first) + after);
        if len >= WalEntryHeader::SIZE {
            assert(log.is_prefix_of(before + record(first) + after));
            lemma_header_of_record(before, first, after, log);
        }
    }
}

/// A log that was cut behind its first entry is read as that entry, and then as the rest.
proof fn lemma_scan_cut_behind_first(before: Seq<u8>, entries: Seq<EntryView>, len: int)
    requires
        all_encodable(entries),
        0 <= len <= log_of(entries).len(),
        whole_entries(entries, len) > 0,
    ensures
        ({
            let first = entries[0];
            let left = len - record(first).len();
            let log = before + log_of(entries).take(len);
            let next = before + record(first);
            &&& 0 <= left <= log_of(entries.skip(1)).len()
            &&& all_encodable(entries.skip(1))
            &&& log == next + log_of(entries.skip(1)).take(left)
            &&& entry_at(log, before.len() as int) == Ok::<(EntryView, int), LogEnd>(
                (first, next.len() as int),
            )
        }),
{
    let first = entries[0];
    let more = entries.skip(1);
    let left = len - record(first).len();
    assert(log_of(entries) == record(first) + log_of(more));
    assert(log_of(entries).take(len) =~= record(first) + log_of(more).take(left));
    lemma_entry_of_record(before, first, log_of(more).take(left));
    assert(before + log_of(entries).take(len) =~= before + record(first) + log_of(more).take(left));
    assert forall|i: int| 0 <= i < more.len() implies (#[trigger] more[i]).encodable() by {
        assert(more[i] == entries[i + 1]);
    }
}

proof fn lemma_scan_cut(before: Seq<u8>, entries: Seq<EntryView>, len: int)
    requires
        all_encodable(entries),
        0 <= len <= log_of(entries).len(),
    ensures
        is_scan_of_cut(
            scan_from(before + log_of(entries).take(len), before.len() as int),
            before,
            entries,
            len,
        ),
    decreases entries.len(),
{
    let whole = whole_entries(entries, len) as int;
    if whole == 0 {
        lemma_scan_cut_in_first(before, entries, len);
    } else {
        let first = entries[0];
        let more = entries.skip(1);
        let left = len - record(first).len();
        lemma_scan_cut_behind_first(before, entries, len);
        lemma_scan_cut(before + record(first), more, left);
        lemma_whole_entries(entries, len);
        lemma_whole_entries(more, left);
        let taken = entries.take(whole);
        assert(taken.skip(1) =~= more.take(whole - 1));
        assert(log_of(taken) == record(first) + log_of(taken.skip(1)));
        assert(seq![first] + more.take(whole - 1) =~= taken);
    }
}

/// When only the first `len` bytes of the entries reach a clean log, every entry that lies in them
/// whole is found, and no other; the end is clean where they stop between two entries, and marked
/// as a partial write elsewhere.
pub proof fn law_cut_log_keeps_whole_entries(log: Seq<u8>, entries: Seq<EntryView>, len: int)
    requires
        scan(log).end is Clean,
        all_encodable(entries),
        0 <= len <= log_of(entries).len(),
    ensures
        whole_entries(entries, len) <= entries.len(),
        scan(log + log_of(entries).take(len)) == (Scanned {
            entries: scan(log).entries + entries.take(whole_entries(entries, len) as int),
            end: cut_end(log.len(), entries, len),
        }),
{
    lemma_whole_entries(entries, len);
    lemma_clean_stays(log, log_of(entries).take(len), 0);
    lemma_scan_cut(log, entries, len);
}

/// All entries lie in their log whole, and none but all of them do when the last bytes are missing.
pub proof fn lemma_all_entries_whole(entries: Seq<EntryView>, len: int)
    requires
        0 <= len <= log_of(entries).len(),
    ensures
        len == log_of(entries).len() ==> whole_entries(entries, len) == entries.len(),
        len < log_of(entries).len() ==> whole_entries(entries, len) < entries.len(),
    decreases entries.len(),
{
    if entries.len() > 0 {
        let left = len - record(entries[0]).len();
        if left >= 0 {
            lemma_all_entries_whole(entries.skip(1), left);
        }
    }
}

/// How entries are grouped into batches makes no difference to the log.
pub proof fn law_batches_do_not_matter(first: Seq<EntryView>, second: Seq<EntryView>)
    ensures
        log_of(first + second) == log_of(first) + log_of(second),
    decreases first.len(),
{
    if first.len() == 0 {
        assert(first + second =~= second);
        assert(log_of(first) + log_of(second) =~= log_of(second));
    } else {
        law_batches_do_not_matter(first.skip(1), second);
        assert((first + second).skip(1) =~= first.skip(1) + second);
        assert(record(first[0]) + (log_of(first.skip(1)) + log_of(second)) =~= record(first[0])
            + log_of(first.skip(1)) + log_of(second));
    }
}

/// The bytes behind an entry do not matter to it.
proof fn lemma_entry_without_rest(log: Seq<u8>, pos: int, n: int)
    requires
        0 <= pos,
        entry_at(log, pos) is Ok,
        entry_at(log, pos)->Ok_0.1 <= n <= log.len(),
    ensures
        entry_at(log.take(n), pos) == entry_at(log, pos),
{
    lemma_end_of_entry(log, pos);
    let start = pos + WalEntryHeader::SIZE;
    let end = entry_at(log, pos)->Ok_0.1;
    assert(log.take(n).subrange(pos, start) =~= log.subrange(pos, start));
    assert(data_in(log.take(n), pos, end) =~= data_in(log, pos, end));
}

proof fn lemma_end_of_entry(log: Seq<u8>, pos: int)
    requires
        0 <= pos,
        entry_at(log, pos) is Ok,
    ensures
        pos + WalEntryHeader::SIZE <= entry_at(log, pos)->Ok_0.1 <= log.len(),
{
}

proof fn lemma_scan_without_tail(log: Seq<u8>, pos: int)
    requires
        0 <= pos <= log.len() <= u64::MAX,
        scan_from(log, pos).end is PartialHeader || scan_from(log, pos).end is TornData,
    ensures
        ({
            let n = kept(scan_from(log, pos).end, log.len() as int);
            &&& pos <= n <= log.len()
            &&& scan_from(log.take(n), pos) == (Scanned {
                entries: scan_from(log, pos).entries,
                end: LogEnd::Clean,
            })
        }),
    decreases log.len() - pos,
{
    match entry_at(log, pos) {
        Ok((entry, end)) => {
            lemma_end_of_entry(log, pos);
            lemma_scan_without_tail(log, end);
            let n = kept(scan_from(log, pos).end, log.len() as int);
            lemma_entry_without_rest(log, pos, n);
        },
        Err(_) => {},
    }
}

/// A log that ends inside an entry is clean when it is cut in front of that entry: no entry is lost,
/// and what is appended to it then is found. (The bound is that of any file.)
pub proof fn law_truncated_log_takes_appends(log: Seq<u8>, entries: Seq<EntryView>)
    requires
        log.len() <= u64::MAX,
        scan(log).end is PartialHeader || scan(log).end is TornData,
        all_encodable(entries),
    ensures
        ({
            let n = kept(scan(log).end, log.len() as int);
            &&& 0 <= n <= log.len()
            &&& scan(log.take(n)) == (Scanned { entries: scan(log).entries, end: LogEnd::Clean })
            &&& scan(log.take(n) + log_of(entries)) == (Scanned {
                entries: scan(log).entries + entries,
                end: LogEnd::Clean,
            })
        }),
{
    lemma_scan_without_tail(log, 0);
    law_append_adds_entries(log.take(kept(scan(log).end, log.len() as int)), entries);
}

} // verus!

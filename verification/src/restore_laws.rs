//! What a recovery and a checkpoint give, call by call: each key, the counter, the statistics.
use crate::database::{newly_committed, Database};
use crate::entry::{views, EntryView};
use crate::error::{IoError, WalError};
use crate::key_laws::{
    is_aborted, is_committed, is_found, law_committed_range_decides_keys, law_last_marker_decides,
    lookup, names, says, writes, writes_last,
};
use crate::log::{scan, LogEnd, LogScan, Scanned};
use crate::log_laws::law_entries_before_corruption_are_read;
use crate::recovery::{incomplete_transactions, is_recovery, max_id, recover_found, RecoveryStats};
use crate::recovery_laws::{law_checkpoint_continues_recovery, lemma_max_id};
use crate::replay::{id_end, ids_with, outcome, replay_range, tx_ids, RecoveryAction};
use crate::store::{Store, StoreView};
use crate::transaction::TxIds;
use vstd::prelude::*;

verus! {

/// Whether a key has in `store` what the last operation on it says, among those of the committed
/// transactions with `lo <= id < hi`, or what it has in `start` where there is none.
pub open spec fn holds_key(
    store: StoreView,
    start: StoreView,
    entries: Seq<EntryView>,
    lo: int,
    hi: int,
    key: Seq<char>,
) -> bool {
    &&& forall|i: int| #[trigger]
        writes_last(entries, lo, hi, key, i) ==> lookup(store, key) == says(entries[i])
    &&& (forall|i: int| !#[trigger] writes(entries, lo, hi, key, i)) ==> lookup(store, key)
        == lookup(start, key)
}

/// Whether `store` is `start` with the operations of the committed transactions with `lo <= id < hi`.
pub open spec fn holds(
    store: StoreView,
    start: StoreView,
    entries: Seq<EntryView>,
    lo: int,
    hi: int,
) -> bool {
    forall|key: Seq<char>| #[trigger] holds_key(store, start, entries, lo, hi, key)
}

proof fn lemma_same_lookups(a: StoreView, b: StoreView)
    requires
        forall|key: Seq<char>| #[trigger] lookup(a, key) == lookup(b, key),
    ensures
        a == b,
{
    assert forall|key: Seq<char>| #[trigger] a.dom().contains(key) == b.dom().contains(key) by {
        assert(lookup(a, key) == lookup(b, key));
    }
    assert forall|key: Seq<char>| a.dom().contains(key) implies #[trigger] a[key] == b[key] by {
        assert(lookup(a, key) == lookup(b, key));
    }
    assert(a =~= b);
}

/// There is one such store.
proof fn lemma_holds(
    store: StoreView,
    start: StoreView,
    entries: Seq<EntryView>,
    lo: int,
    hi: int,
)
    requires
        0 <= lo,
        hi <= id_end(),
    ensures
        holds(store, start, entries, lo, hi) <==> store == replay_range(start, entries, lo, hi),
{
    let made = replay_range(start, entries, lo, hi);
    assert(holds(made, start, entries, lo, hi)) by {
        assert forall|key: Seq<char>| #[trigger]
            holds_key(made, start, entries, lo, hi, key) by {
            law_committed_range_decides_keys(start, entries, lo, hi, key);
        }
    }
    if holds(store, start, entries, lo, hi) {
        assert forall|key: Seq<char>| #[trigger] lookup(store, key) == lookup(made, key) by {
            law_committed_range_decides_keys(start, entries, lo, hi, key);
            assert(holds_key(store, start, entries, lo, hi, key));
        }
        lemma_same_lookups(store, made);
    }
}

/// A recovery leaves each key with what the last operation on it says, among the operations of
/// committed transactions that were read, in the order of the ids; any other key is as it was. How
/// the log ends makes no difference.
pub proof fn law_recovery_decides_keys(
    store: &mut Store,
    ids: &mut TxIds,
    found: &LogScan,
    r: Result<RecoveryStats, WalError>,
    key: Seq<char>,
)
    requires
        call_ensures(recover_found, (store, ids, found), r),
    ensures
        ({
            let entries = views(found.entries@);
            &&& forall|i: int| #[trigger]
                writes_last(entries, 0, u64::MAX + 1, key, i) ==> lookup(final(store)@, key) == says(
                    entries[i],
                )
            &&& (forall|i: int| !#[trigger] writes(entries, 0, u64::MAX + 1, key, i)) ==> lookup(
                final(store)@,
                key,
            ) == lookup(old(store)@, key)
            &&& (exists|i: int| #[trigger] writes_last(entries, 0, u64::MAX + 1, key, i)) || (forall|
                i: int,
            | !#[trigger] writes(entries, 0, u64::MAX + 1, key, i))
        }),
{
    law_committed_range_decides_keys(
        old(store)@,
        views(found.entries@),
        0,
        u64::MAX + 1,
        key,
    );
}

/// The same of a recovery from the bytes of a log.
pub proof fn law_recovery_from_bytes_decides_keys(
    db: &mut Database,
    ids: &mut TxIds,
    log: &[u8],
    r: Result<RecoveryStats, WalError>,
)
    requires
        call_ensures(Database::recover, (db, ids, Some(log)), r),
    ensures
        holds(final(db).store@, old(db).store@, scan(log@).entries, 0, u64::MAX + 1),
{
    lemma_holds(final(db).store@, old(db).store@, scan(log@).entries, 0, u64::MAX + 1);
}

/// A recovery fails where the store then has an empty key, and nowhere else; a log that cannot be
/// opened changes nothing.
pub proof fn law_recovery_fails_on_an_empty_key(
    db: &mut Database,
    ids: &mut TxIds,
    log: Option<&[u8]>,
    r: Result<RecoveryStats, WalError>,
)
    requires
        call_ensures(Database::recover, (db, ids, log), r),
    ensures
        log is Some ==> (r is Err <==> final(db).store@.contains_key(Seq::empty())),
        log is Some && r is Err ==> {
            &&& r->Err_0 matches WalError::Validation(text) && text@
                == "Invalid empty key after recovery"@
            &&& final(ids).next() == old(ids).next()
        },
        log is None ==> {
            &&& r matches Err(WalError::OpenWal)
            &&& final(db).store@ == old(db).store@
            &&& final(ids).next() == old(ids).next()
        },
        final(db).wal == old(db).wal,
{
}

proof fn lemma_found(entries: Seq<EntryView>)
    ensures
        forall|id: u64| #[trigger] tx_ids(entries).contains(id) <==> is_found(entries, id),
{
    let ids = entries.map_values(|e: EntryView| e.tx_id());
    assert forall|id: u64| #[trigger] tx_ids(entries).contains(id) <==> is_found(entries, id) by {
        if tx_ids(entries).contains(id) {
            let i = ids.index_of(id);
            assert(names(entries[i]) == id);
        }
        if is_found(entries, id) {
            let i = choose|i: int| 0 <= i < entries.len() && names(#[trigger] entries[i]) == id;
            assert(ids[i] == id);
        }
    }
}

proof fn lemma_counter(
    found: Scanned,
    before: StoreView,
    after: StoreView,
    next_before: u64,
    next_after: u64,
    r: Result<RecoveryStats, WalError>,
)
    requires
        is_recovery(found, before, after, next_before, next_after, r),
        r is Ok,
    ensures
        next_before <= next_after,
        next_after != next_before ==> is_found(found.entries, (next_after - 1) as u64),
        !is_found(found.entries, u64::MAX) ==> forall|id: u64| #[trigger]
            is_found(found.entries, id) ==> id < next_after,
        is_found(found.entries, u64::MAX) ==> next_after == next_before,
{
    lemma_found(found.entries);
    lemma_max_id(found.entries);
    assert(tx_ids(found.entries).contains(u64::MAX) == is_found(found.entries, u64::MAX));
    assert forall|id: u64|
        !is_found(found.entries, u64::MAX) && #[trigger] is_found(found.entries, id) implies id
        < next_after by {
        assert(tx_ids(found.entries).contains(id));
        assert(max_id(found.entries) is Some);
    }
}

/// After every recovery that succeeds, however the log ends, the next id is larger than every id that
/// was read, and not smaller than before; it is not moved further than that. The largest number has
/// none behind it: where it was read, the counter stays.
pub proof fn law_recovery_moves_the_counter_behind_all_ids(
    store: &mut Store,
    ids: &mut TxIds,
    found: &LogScan,
    r: Result<RecoveryStats, WalError>,
)
    requires
        call_ensures(recover_found, (store, ids, found), r),
        r is Ok,
    ensures
        ({
            let entries = views(found.entries@);
            let next = final(ids).next();
            &&& old(ids).next() <= next
            &&& next != old(ids).next() ==> is_found(entries, (next - 1) as u64)
            &&& !is_found(entries, u64::MAX) ==> forall|i: int|
                0 <= i < entries.len() ==> names(#[trigger] entries[i]) < next
            &&& is_found(entries, u64::MAX) ==> next == old(ids).next()
        }),
{
    let entries = views(found.entries@);
    lemma_counter(found@, old(store)@, final(store)@, old(ids).next(), final(ids).next(), r);
    if !is_found(entries, u64::MAX) {
        assert forall|i: int| 0 <= i < entries.len() implies names(#[trigger] entries[i])
            < final(ids).next() by {
            assert(is_found(entries, names(entries[i])));
        }
    }
}

/// A transaction that begins after a recovery that succeeded, however the log ends, has an id that no
/// entry of the log has, unless the largest number was read.
pub proof fn law_id_after_recovery_is_new(
    db: &mut Database,
    ids: &mut TxIds,
    log: &[u8],
    r: Result<RecoveryStats, WalError>,
    later: &mut TxIds,
    id: u64,
)
    requires
        call_ensures(Database::recover, (db, ids, Some(log)), r),
        r is Ok,
        old(later).next() == final(ids).next(),
        call_ensures(TxIds::allocate, (later,), id),
        !is_found(scan(log@).entries, u64::MAX),
    ensures
        forall|i: int|
            0 <= i < scan(log@).entries.len() ==> names(#[trigger] scan(log@).entries[i]) < id,
        old(ids).next() <= id,
        final(later).next() == id + 1 || id == u64::MAX,
{
    let entries = scan(log@).entries;
    lemma_counter(
        scan(log@),
        old(db).store@,
        final(db).store@,
        old(ids).next(),
        final(ids).next(),
        r,
    );
    assert forall|i: int| 0 <= i < entries.len() implies names(#[trigger] entries[i]) < id by {
        assert(is_found(entries, names(entries[i])));
    }
}

proof fn lemma_counts(
    stats: RecoveryStats,
    scanned: Scanned,
    found: Set<u64>,
    committed: Set<u64>,
    aborted: Set<u64>,
)
    requires
        stats.describes(scanned),
        forall|id: u64| #[trigger] found.contains(id) <==> is_found(scanned.entries, id),
        forall|id: u64| #[trigger] committed.contains(id) <==> is_committed(scanned.entries, id),
        forall|id: u64| #[trigger] aborted.contains(id) <==> is_aborted(scanned.entries, id),
    ensures
        stats.total_transactions == found.len(),
        stats.committed == committed.len(),
        stats.aborted == aborted.len(),
        stats.incomplete == found.difference(committed).difference(aborted).len(),
        committed.subset_of(found),
        aborted.subset_of(found),
{
    let entries = scanned.entries;
    lemma_found(entries);
    assert forall|id: u64| #[trigger] is_committed(entries, id) implies is_found(entries, id) by {
        let i = choose|i: int|
            #![trigger entries[i]]
            0 <= i < entries.len() && entries[i] is Commit && names(entries[i]) == id && forall|
                j: int,
            |
                #![trigger entries[j]]
                i < j < entries.len() ==> !(entries[j] is Abort && names(entries[j]) == id);
        assert(names(entries[i]) == id);
    }
    assert forall|id: u64| #[trigger] is_aborted(entries, id) implies is_found(entries, id) by {
        let i = choose|i: int|
            #![trigger entries[i]]
            0 <= i < entries.len() && entries[i] is Abort && names(entries[i]) == id && forall|
                j: int,
            |
                #![trigger entries[j]]
                i < j < entries.len() ==> !(entries[j] is Commit && names(entries[j]) == id);
        assert(names(entries[i]) == id);
    }
    assert(tx_ids(entries) =~= found);
    let left = found.difference(committed).difference(aborted);
    assert forall|id: u64| #[trigger]
        ids_with(entries, RecoveryAction::Commit).contains(id) == committed.contains(id) by {
        law_last_marker_decides(entries, id);
    }
    assert forall|id: u64| #[trigger]
        ids_with(entries, RecoveryAction::Rollback).contains(id) == aborted.contains(id) by {
        law_last_marker_decides(entries, id);
    }
    assert forall|id: u64| #[trigger]
        ids_with(entries, RecoveryAction::Incomplete).contains(id) == left.contains(id) by {
        law_last_marker_decides(entries, id);
    }
    assert(ids_with(entries, RecoveryAction::Commit) =~= committed);
    assert(ids_with(entries, RecoveryAction::Rollback) =~= aborted);
    assert(ids_with(entries, RecoveryAction::Incomplete) =~= left);
}

/// The statistics count the transactions that were read, those that the log commits, those that it
/// aborts and those that it does neither; and they count the end of the log, as a partial write, as
/// a checksum failure or as neither.
pub proof fn law_recovery_counts_transactions(
    store: &mut Store,
    ids: &mut TxIds,
    scan: &LogScan,
    r: Result<RecoveryStats, WalError>,
    found: Set<u64>,
    committed: Set<u64>,
    aborted: Set<u64>,
)
    requires
        call_ensures(recover_found, (store, ids, scan), r),
        r is Ok,
        forall|id: u64| #[trigger] found.contains(id) <==> is_found(views(scan.entries@), id),
        forall|id: u64| #[trigger]
            committed.contains(id) <==> is_committed(views(scan.entries@), id),
        forall|id: u64| #[trigger] aborted.contains(id) <==> is_aborted(views(scan.entries@), id),
    ensures
        r->Ok_0.total_transactions == found.len(),
        r->Ok_0.committed == committed.len(),
        r->Ok_0.aborted == aborted.len(),
        r->Ok_0.incomplete == found.difference(committed).difference(aborted).len(),
        match scan.end {
            LogEnd::Clean => r->Ok_0.partial_writes == 0 && r->Ok_0.checksum_failures == 0,
            LogEnd::PartialHeader { .. } => r->Ok_0.partial_writes == 1
                && r->Ok_0.checksum_failures == 0,
            LogEnd::TornData { .. } => r->Ok_0.partial_writes == 1 && r->Ok_0.checksum_failures
                == 0,
            LogEnd::ChecksumMismatch { .. } => r->Ok_0.partial_writes == 0
                && r->Ok_0.checksum_failures == 1,
            LogEnd::BadEntry { .. } => r->Ok_0.partial_writes == 1 && r->Ok_0.checksum_failures
                == 0,
        },
{
    lemma_counts(r->Ok_0, scan@, found, committed, aborted);
}

/// The transactions that are reported as incomplete are those with an entry in the log that it
/// neither commits nor aborts, each once, the smallest id first.
pub proof fn law_incomplete_transactions_have_no_end(found: &LogScan, ids: Vec<u64>, id: u64)
    requires
        call_ensures(incomplete_transactions, (found,), ids),
    ensures
        ids@.contains(id) <==> {
            &&& is_found(views(found.entries@), id)
            &&& !is_committed(views(found.entries@), id)
            &&& !is_aborted(views(found.entries@), id)
        },
        forall|i: int, j: int| 0 <= i < j < ids@.len() ==> ids@[i] < ids@[j],
{
    let entries = views(found.entries@);
    lemma_found(entries);
    law_last_marker_decides(entries, id);
    assert(ids@.to_set().contains(id) == ids@.contains(id));
    assert(tx_ids(entries).contains(id) == is_found(entries, id));
}

/// Damage behind a clean log costs nothing in front of it: where no entry is found in the bytes that
/// follow it, whether they are a torn header, torn data, a damaged entry or one that cannot be
/// decoded, a recovery leaves the same store and the same counter as that of the clean log, and
/// counts the same transactions.
pub proof fn law_recovery_keeps_everything_before_damage(
    a: &mut Database,
    ids_a: &mut TxIds,
    clean: &[u8],
    ra: Result<RecoveryStats, WalError>,
    b: &mut Database,
    ids_b: &mut TxIds,
    damaged: &[u8],
    rb: Result<RecoveryStats, WalError>,
    tail: Seq<u8>,
)
    requires
        call_ensures(Database::recover, (a, ids_a, Some(clean)), ra),
        call_ensures(Database::recover, (b, ids_b, Some(damaged)), rb),
        old(a).store@ == old(b).store@,
        old(ids_a).next() == old(ids_b).next(),
        scan(clean@).end is Clean,
        damaged@ == clean@ + tail,
        scan(damaged@).entries.len() == scan(clean@).entries.len(),
    ensures
        final(a).store@ == final(b).store@,
        final(ids_a).next() == final(ids_b).next(),
        ra is Ok <==> rb is Ok,
        ra is Ok ==> {
            &&& ra->Ok_0.total_transactions == rb->Ok_0.total_transactions
            &&& ra->Ok_0.committed == rb->Ok_0.committed
            &&& ra->Ok_0.aborted == rb->Ok_0.aborted
            &&& ra->Ok_0.incomplete == rb->Ok_0.incomplete
        },
{
    law_entries_before_corruption_are_read(clean@, tail);
    assert(scan(damaged@).entries =~= scan(clean@).entries);
}

/// A checkpoint of a log that ends between two entries, or inside a header, returns the largest id
/// that was committed behind the last checkpoint, and leaves each key with what the last operation
/// of all transactions that were committed since says. Where there are none it fails. A log that
/// cannot be read to its end is refused. A refusal changes nothing.
pub proof fn law_checkpoint_carries_out_what_was_committed_since(
    db: &mut Database,
    last: u64,
    found: LogScan,
    r: Result<u64, WalError>,
)
    requires
        call_ensures(Database::checkpoint_found, (db, last, found), r),
    ensures
        ({
            let entries = views(found.entries@);
            &&& r is Err ==> final(db).store@ == old(db).store@
            &&& match found.end {
                LogEnd::TornData { .. } => r == Err::<u64, WalError>(
                    WalError::Io(IoError::UnexpectedEof),
                ),
                LogEnd::ChecksumMismatch { expected, actual, .. } => r == Err::<u64, WalError>(
                    WalError::ChecksumMismatch { expected, actual },
                ),
                LogEnd::BadEntry { .. } => r matches Err(WalError::Deserialization(_)),
                _ => match r {
                    Ok(max) => {
                        &&& last < max
                        &&& is_committed(entries, max)
                        &&& forall|id: u64| last < id && #[trigger] is_committed(entries, id) ==> id
                            <= max
                        &&& holds(
                            final(db).store@,
                            old(db).store@,
                            entries,
                            last + 1,
                            u64::MAX + 1,
                        )
                    },
                    Err(e) => {
                        &&& e is NoNewCheckpoints
                        &&& forall|id: u64| last < id ==> !#[trigger] is_committed(entries, id)
                    },
                },
            }
        }),
{
    let entries = views(found.entries@);
    assert forall|id: u64| #[trigger]
        is_committed(entries, id) == (outcome(entries, id)
            == RecoveryAction::Commit) by {
        law_last_marker_decides(entries, id);
    }
    match found.end {
        LogEnd::TornData { .. } => {},
        LogEnd::ChecksumMismatch { .. } => {},
        LogEnd::BadEntry { .. } => {},
        _ => match r {
            Ok(max) => {
                lemma_holds(final(db).store@, old(db).store@, entries, last + 1, u64::MAX + 1);
                assert forall|id: u64| last < id && #[trigger] is_committed(entries, id) implies id
                    <= max by {
                    assert(newly_committed(found@, last, id));
                }
            },
            Err(_) => {
                assert forall|id: u64| last < id implies !#[trigger] is_committed(entries, id) by {
                    assert(!newly_committed(found@, last, id));
                }
            },
        },
    }
}

/// A checkpoint completes a recovery: where it succeeds on a store that holds the committed
/// transactions up to the last checkpoint, whichever that is, the store afterwards is the one that a
/// recovery of the whole log gives.
pub proof fn law_checkpoint_completes_recovery(
    db: &mut Database,
    last: u64,
    log: &[u8],
    r: Result<u64, WalError>,
    whole: &mut Database,
    ids: &mut TxIds,
    recovered: Result<RecoveryStats, WalError>,
)
    requires
        call_ensures(Database::checkpoint, (db, last, Some(log)), r),
        call_ensures(Database::recover, (whole, ids, Some(log)), recovered),
        holds(old(db).store@, old(whole).store@, scan(log@).entries, 0, last + 1),
        r is Ok,
    ensures
        final(db).store@ == final(whole).store@,
        holds(final(db).store@, old(whole).store@, scan(log@).entries, 0, u64::MAX + 1),
{
    let entries = scan(log@).entries;
    let start = old(whole).store@;
    lemma_holds(old(db).store@, start, entries, 0, last + 1);
    lemma_holds(final(whole).store@, start, entries, 0, u64::MAX + 1);
    law_checkpoint_continues_recovery(start, entries, last + 1);
}

/// A checkpoint from the bytes of a log, behind the checkpoint `last`: which transactions it covers,
/// and what it leaves of each key. Without a log, or a path for one before the first checkpoint,
/// nothing is done.
pub proof fn law_checkpoint_from_bytes(
    db: &mut Database,
    last: u64,
    log: Option<&[u8]>,
    r: Result<u64, WalError>,
)
    requires
        call_ensures(Database::checkpoint, (db, last, log), r),
    ensures
        r is Err ==> final(db).store@ == old(db).store@,
        last == 0 && old(db).wal.path_view().len() == 0 ==> r == Err::<u64, WalError>(
            WalError::NoNewCheckpoints,
        ),
        !(last == 0 && old(db).wal.path_view().len() == 0) ==> match log {
            None => r == Err::<u64, WalError>(WalError::OpenWal),
            Some(bytes) => {
                let entries = scan(bytes@).entries;
                let end = scan(bytes@).end;
                &&& r matches Ok(max) ==> {
                    &&& last < max
                    &&& is_committed(entries, max)
                    &&& forall|id: u64| last < id && #[trigger] is_committed(entries, id) ==> id
                        <= max
                    &&& holds(
                        final(db).store@,
                        old(db).store@,
                        entries,
                        last + 1,
                        u64::MAX + 1,
                    )
                }
                &&& r is Ok <==> (end is Clean || end is PartialHeader) && exists|id: u64|
                    last < id && #[trigger] is_committed(entries, id)
                &&& (end is Clean || end is PartialHeader) && r is Err ==> r->Err_0
                    is NoNewCheckpoints
            },
        },
{
    if !(last == 0 && old(db).wal.path_view().len() == 0) && log is Some {
        let found = scan(log->0@);
        let entries = found.entries;
        assert forall|id: u64| #[trigger]
            is_committed(entries, id) == (outcome(entries, id) == RecoveryAction::Commit) by {
            law_last_marker_decides(entries, id);
        }
        match r {
            Ok(max) => {
                lemma_holds(final(db).store@, old(db).store@, entries, last + 1, u64::MAX + 1);
                assert forall|id: u64| last < id && #[trigger] is_committed(entries, id) implies id
                    <= max by {
                    assert(newly_committed(found, last, id));
                }
                assert(newly_committed(found, last, max));
                assert(is_committed(entries, max));
            },
            Err(_) => {
                assert forall|id: u64|
                    (found.end is Clean || found.end is PartialHeader) && last
                        < id implies !#[trigger] is_committed(entries, id) by {
                    assert(!newly_committed(found, last, id));
                }
            },
        }
    }
}

} // verus!

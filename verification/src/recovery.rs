//! Crash recovery: what the log says of the transactions, and what follows from it.
use crate::entry::{views, EntryView};
use crate::error::WalError;
use crate::log::{LogEnd, LogScan, Scanned};
use crate::replay::{ids_with, replay_committed, tx_ids, RecoveryAction};
use crate::store::{Store, StoreView};
use crate::transaction::TxIds;
use crate::tx_table::TxTable;
use vstd::prelude::*;

verus! {

/// Statistics collected during recovery process.
#[derive(Debug, Clone, Copy, PartialEq, Eq, Structural)]
pub struct RecoveryStats {
    /// Total transactions found in WAL
    pub total_transactions: usize,
    /// Transactions that were committed
    pub committed: usize,
    /// Transactions that were aborted
    pub aborted: usize,
    /// Incomplete transactions (missing Commit/Abort)
    pub incomplete: usize,
    /// Partial writes detected; `kept_len` says where a torn tail is to be cut off
    pub partial_writes: usize,
    /// Checksum validation failures
    pub checksum_failures: usize,
}

impl Default for RecoveryStats {
    fn default() -> (stats: Self)
        ensures
            stats.total_transactions == 0,
            stats.committed == 0,
            stats.aborted == 0,
            stats.incomplete == 0,
            stats.partial_writes == 0,
            stats.checksum_failures == 0,
    {
        RecoveryStats {
            total_transactions: 0,
            committed: 0,
            aborted: 0,
            incomplete: 0,
            partial_writes: 0,
            checksum_failures: 0,
        }
    }
}

impl LogEnd {
    /// Whether the log ends in an entry that was not written whole. A log that ends between two
    /// entries does not.
    pub open spec fn is_partial_write(self) -> bool {
        self is PartialHeader || self is TornData || self is BadEntry
    }
}

impl RecoveryStats {
    /// Whether these are the statistics of what was found in a log.
    pub open spec fn describes(self, found: Scanned) -> bool {
        &&& self.total_transactions == tx_ids(found.entries).len()
        &&& self.committed == ids_with(found.entries, RecoveryAction::Commit).len()
        &&& self.aborted == ids_with(found.entries, RecoveryAction::Rollback).len()
        &&& self.incomplete == ids_with(found.entries, RecoveryAction::Incomplete).len()
        &&& self.partial_writes == if found.end.is_partial_write() {
            1int
        } else {
            0
        }
        &&& self.checksum_failures == if found.end is ChecksumMismatch {
            1int
        } else {
            0
        }
    }
}

/// The largest id of a transaction.
pub open spec fn max_id(entries: Seq<EntryView>) -> Option<u64>
    decreases entries.len(),
{
    if entries.len() == 0 {
        None
    } else {
        let id = entries.last().tx_id();
        match max_id(entries.drop_last()) {
            Some(max) if max >= id => Some(max),
            _ => Some(id),
        }
    }
}

/// The next id to give out, where `next` would have been the next and the ids of `entries` are
/// taken.
pub open spec fn restored(next: u64, entries: Seq<EntryView>) -> u64 {
    match max_id(entries) {
        Some(max) if next <= max && max < u64::MAX => (max + 1) as u64,
        _ => next,
    }
}

/// What recovery does: it carries out the committed transactions on the store, in the order of
/// their ids. Where the store then has an empty key it fails; else it moves the counter behind the
/// ids of the log, and returns the statistics.
pub open spec fn is_recovery(
    found: Scanned,
    store_before: StoreView,
    store_after: StoreView,
    next_before: u64,
    next_after: u64,
    r: Result<RecoveryStats, WalError>,
) -> bool {
    &&& store_after == replay_committed(store_before, found.entries)
    &&& if store_after.contains_key(Seq::empty()) {
        &&& r matches Err(WalError::Validation(text)) && text@ == "Invalid empty key after recovery"@
        &&& next_after == next_before
    } else {
        &&& r matches Ok(stats) && stats.describes(found)
        &&& next_after == restored(next_before, found.entries)
    }
}

/// Moves the counter behind the ids of the entries.
fn restore_ids(ids: &mut TxIds, scan: &LogScan)
    ensures
        final(ids).next() == restored(old(ids).next(), scan@.entries),
{
    let ghost all = views(scan.entries@);
    let mut max: Option<u64> = None;
    let mut i: usize = 0;
    while i < scan.entries.len()
        invariant
            i <= scan.entries@.len(),
            all == views(scan.entries@),
            max == max_id(all.take(i as int)),
        decreases scan.entries@.len() - i,
    {
        let id: u64 = scan.entries[i].tx_id();
        proof {
            let seen = all.take(i + 1);
            assert(seen.drop_last() =~= all.take(i as int));
            assert(seen.last() == all[i as int]);
        }
        match max {
            Some(m) => {
                if m < id {
                    max = Some(id);
                }
            },
            None => {
                max = Some(id);
            },
        }
        i = i + 1;
    }
    assert(all.take(i as int) =~= all);
    match max {
        Some(m) => {
            ids.restore(m);
        },
        None => {},
    }
}

/// The transactions of a log that did not end, in ascending order of their ids.
pub fn incomplete_transactions(found: &LogScan) -> (ids: Vec<u64>)
    ensures
        forall|i: int, j: int| 0 <= i < j < ids@.len() ==> ids@[i] < ids@[j],
        ids@.to_set() == ids_with(found@.entries, RecoveryAction::Incomplete),
{
    let table = TxTable::of(&found.entries);
    table.ids(RecoveryAction::Incomplete, Ghost(found@.entries))
}

/// Recovers a store and the counter of transaction ids from what was found in a log.
pub fn recover_found(store: &mut Store, ids: &mut TxIds, scan: &LogScan) -> (r: Result<
    RecoveryStats,
    WalError,
>)
    ensures
        is_recovery(
            scan@,
            old(store)@,
            final(store)@,
            old(ids).next(),
            final(ids).next(),
            r,
        ),
{
    let ghost entries = scan@.entries;
    let mut stats = RecoveryStats::default();
    match scan.end {
        LogEnd::Clean => {},
        LogEnd::ChecksumMismatch { .. } => {
            stats.checksum_failures = 1;
        },
        _ => {
            stats.partial_writes = 1;
        },
    }
    let table = TxTable::of(&scan.entries);
    stats.total_transactions = table.len(Ghost(entries));
    stats.committed = table.count(RecoveryAction::Commit, Ghost(entries));
    stats.aborted = table.count(RecoveryAction::Rollback, Ghost(entries));
    stats.incomplete = table.count(RecoveryAction::Incomplete, Ghost(entries));
    table.replay_into(store, 0, Ghost(entries));
    proof {
        reveal_strlit("");
        assert(""@ =~= Seq::<char>::empty());
    }
    if store.contains_key("") {
        return Err(WalError::Validation("Invalid empty key after recovery".to_string()));
    }
    restore_ids(ids, scan);
    Ok(stats)
}

} // verus!

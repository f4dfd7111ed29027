//! The database: a store in memory, and the log that it is recovered from.
use crate::entry::{is_decode_error, views, EntryView, WalEntry};
use crate::error::{IoError, WalError};
use crate::failure::OutsideStep;
use crate::flusher::FlusherEnd;
use crate::log::{data_at, read_log, scan, LogEnd, LogScan, Scanned};
use crate::recovery::{is_recovery, recover_found, RecoveryStats};
use crate::replay::{id_end, outcome, replay_range, RecoveryAction};
use crate::run_laws::TxRun;
use crate::session::{
    aborted_run, has_run, is_behind, is_committing, is_running, law_new_database_has_run_nothing,
    lemma_aborted, lemma_appended, lemma_begun, lemma_commit_logged, lemma_given,
};
use crate::store::{Store, StoreView};
use crate::transaction::{all_applicable, id_after, is_abort_refusal, Transaction, TxIds, TxState};
use crate::tx_table::TxTable;
use crate::wal_storage::{LogPosition, WalStorage, COUNTS, DEFAULT_MAX_QUEUE_SIZE};
use vstd::prelude::*;

verus! {

/// Milliseconds between two flushes where nothing else is asked for.
pub const DEFAULT_FLUSH_INTERVAL_MS: u64 = 10;

/// Main database structure: an in-memory store and a write-ahead log.
///
/// All writes go through the log first, then are applied to the store on commit.
pub struct Database {
    pub store: Store,
    pub wal: WalStorage,
}

/// How a database is set up.
#[derive(Debug)]
pub struct DatabaseConfig {
    pub wal_path: String,
    /// How many entries wait at most to be written
    pub max_queue_size: usize,
    /// Milliseconds between two flushes
    pub flush_interval_ms: u64,
}

impl DatabaseConfig {
    /// The default set-up for the log at `wal_path`.
    pub fn new(wal_path: &str) -> (config: Self)
        ensures
            config.wal_path@ == wal_path@,
            config.max_queue_size == DEFAULT_MAX_QUEUE_SIZE,
            config.flush_interval_ms == DEFAULT_FLUSH_INTERVAL_MS,
    {
        DatabaseConfig {
            wal_path: wal_path.to_string(),
            max_queue_size: DEFAULT_MAX_QUEUE_SIZE,
            flush_interval_ms: DEFAULT_FLUSH_INTERVAL_MS,
        }
    }

    /// The set-up with another number of entries that may wait.
    pub fn with_max_queue_size(self, max_queue_size: usize) -> (config: Self)
        ensures
            config == (DatabaseConfig { max_queue_size, ..self }),
    {
        DatabaseConfig { max_queue_size, ..self }
    }

    /// The set-up with another time between two flushes.
    pub fn with_flush_interval_ms(self, flush_interval_ms: u64) -> (config: Self)
        ensures
            config == (DatabaseConfig { flush_interval_ms, ..self }),
    {
        DatabaseConfig { flush_interval_ms, ..self }
    }

    /// A database with this set-up, with an empty store.
    pub fn build(&self) -> (db: Database)
        ensures
            db.store@ == StoreView::empty(),
            db.wal.is_new(),
            db.wal.path_view() == self.wal_path@,
            db.wal.capacity() == self.max_queue_size,
            has_run(db, Seq::empty(), Seq::empty()),
    {
        let db = Database {
            store: Store::new(),
            wal: WalStorage::with_config(self.wal_path.as_str(), self.max_queue_size),
        };
        proof {
            law_new_database_has_run_nothing(db);
        }
        db
    }
}

/// Why the log was not given what it was to be given.
#[derive(Debug)]
pub enum LogRefusal {
    /// All places of the queue are taken: the writer waits for space, and tries again
    QueueFull,
    /// It may not be given
    Invalid(WalError),
}

/// That the log was given all operations of a transaction, and then the entry that commits it.
pub struct LoggedCommit {
    tx_id: u64,
    end: LogPosition,
    ops: Ghost<Seq<EntryView>>,
    log: Ghost<Seq<WalEntry>>,
}

impl LoggedCommit {
    /// All that the log had been given with the entry that commits the transaction.
    pub closed spec fn log(&self) -> Seq<WalEntry> {
        self.log@
    }

    /// The operations of the transaction.
    pub closed spec fn ops(&self) -> Seq<EntryView> {
        self.ops@
    }

    /// Whether it is of the given transaction, with the operations that it has.
    pub closed spec fn is_of(&self, tx: Transaction) -> bool {
        &&& self.tx_id == tx.id
        &&& self.ops@ == views(tx.entries@)
        &&& self.end.wf()
        &&& self.end.at() == self.log@.len()
    }
}

/// That the log was given the entry that aborts a transaction.
pub struct LoggedAbort {
    tx_id: u64,
    end: LogPosition,
    log: Ghost<Seq<WalEntry>>,
}

impl LoggedAbort {
    /// All that the log had been given with the entry that aborts the transaction.
    pub closed spec fn log(&self) -> Seq<WalEntry> {
        self.log@
    }

    /// Whether it is of the given transaction.
    pub closed spec fn is_of(&self, tx: Transaction) -> bool {
        &&& self.tx_id == tx.id
        &&& self.end.wf()
        &&& self.end.at() == self.log@.len()
    }
}

/// Whether `id` is that of a committed transaction behind the checkpoint `last`.
pub open spec fn newly_committed(found: Scanned, last: u64, id: u64) -> bool {
    id > last && outcome(found.entries, id) == RecoveryAction::Commit
}

/// What a checkpoint behind the checkpoint `last` does: it carries out the transactions that were
/// committed since, in the order of their ids, and returns the largest id. It fails where there are
/// none, and where the log cannot be read to its end; then the store stays as it is. A header that
/// was cut off ends the log.
pub open spec fn is_checkpoint(
    found: Scanned,
    last: u64,
    store_before: StoreView,
    store_after: StoreView,
    r: Result<u64, WalError>,
) -> bool {
    match found.end {
        LogEnd::TornData { .. } => {
            &&& r == Err::<u64, WalError>(WalError::Io(IoError::UnexpectedEof))
            &&& store_after == store_before
        },
        LogEnd::ChecksumMismatch { expected, actual, .. } => {
            &&& r == Err::<u64, WalError>(WalError::ChecksumMismatch { expected, actual })
            &&& store_after == store_before
        },
        LogEnd::BadEntry { .. } => {
            &&& r matches Err(WalError::Deserialization(_))
            &&& store_after == store_before
        },
        _ => match r {
            Ok(max) => {
                &&& newly_committed(found, last, max)
                &&& forall|id: u64| newly_committed(found, last, id) ==> id <= max
                &&& store_after == replay_range(store_before, found.entries, last + 1, id_end())
            },
            Err(e) => {
                &&& e is NoNewCheckpoints
                &&& forall|id: u64| !newly_committed(found, last, id)
                &&& store_after == store_before
            },
        },
    }
}

impl Database {
    /// Creates a new database with an empty store and the log at the specified path.
    pub fn new(wal_path: &str) -> (db: Self)
        ensures
            db.store@ == StoreView::empty(),
            db.wal.is_new(),
            db.wal.path_view() == wal_path@,
            db.wal.capacity() == DEFAULT_MAX_QUEUE_SIZE,
            has_run(db, Seq::empty(), Seq::empty()),
    {
        DatabaseConfig::new(wal_path).build()
    }

    /// Begins a new transaction with an id from the counter.
    pub fn begin_transaction(&self, ids: &mut TxIds) -> (tx: Transaction)
        ensures
            tx.id == old(ids).next(),
            tx.state == TxState::Active,
            tx.entries@.len() == 0,
            tx.to_log() == Seq::<EntryView>::empty(),
            final(ids).next() == id_after(tx.id),
            forall|before: Seq<EntryView>, txs: Seq<TxRun>|
                #![trigger is_running(*self, before, txs, tx)]
                has_run(*self, before, txs) && is_behind(tx.id, txs) ==> is_running(
                    *self,
                    before,
                    txs,
                    tx,
                ),
    {
        let tx = Transaction::new(ids);
        proof {
            assert forall|before: Seq<EntryView>, txs: Seq<TxRun>|
                #![trigger is_running(*self, before, txs, tx)]
                has_run(*self, before, txs) && is_behind(tx.id, txs) implies is_running(
                *self,
                before,
                txs,
                tx,
            ) by {
                lemma_begun(*self, before, txs, tx);
            }
        }
        tx
    }

    /// Recovers the database state from the log, or fails where the log could not be opened.
    pub fn recover(&mut self, ids: &mut TxIds, log: Option<&[u8]>) -> (r: Result<
        RecoveryStats,
        WalError,
    >)
        ensures
            final(self).wal == old(self).wal,
            match log {
                Some(bytes) => is_recovery(
                    scan(bytes@),
                    old(self).store@,
                    final(self).store@,
                    old(ids).next(),
                    final(ids).next(),
                    r,
                ),
                None => {
                    &&& r == Err::<RecoveryStats, WalError>(WalError::OpenWal)
                    &&& final(self).store@ == old(self).store@
                    &&& final(ids).next() == old(ids).next()
                },
            },
    {
        match log {
            Some(bytes) => {
                let found = read_log(bytes);
                self.recover_with_validation(ids, &found)
            },
            None => Err(WalError::OpenWal),
        }
    }

    /// Recovers the database state from what was found in the log.
    ///
    /// Handles:
    /// - Incomplete transactions (missing Commit/Abort markers)
    /// - Partial writes at WAL tail (torn pages)
    /// - Checksum validation failures
    /// - Transaction ordering and consistency
    pub fn recover_with_validation(&mut self, ids: &mut TxIds, found: &LogScan) -> (r: Result<
        RecoveryStats,
        WalError,
    >)
        ensures
            final(self).wal == old(self).wal,
            is_recovery(
                found@,
                old(self).store@,
                final(self).store@,
                old(ids).next(),
                final(ids).next(),
                r,
            ),
    {
        recover_found(&mut self.store, ids, found)
    }

    /// Brings the store up to the last committed transaction of the log, where `last_ckpt` is the
    /// last checkpoint, and returns the id of that transaction for the checkpoint file. Fails where
    /// the log could not be opened or read, and where nothing was committed since.
    pub fn checkpoint(&mut self, last_ckpt: u64, log: Option<&[u8]>) -> (r: Result<u64, WalError>)
        ensures
            final(self).wal == old(self).wal,
            if last_ckpt == 0 && old(self).wal.path_view().len() == 0 {
                &&& r == Err::<u64, WalError>(WalError::NoNewCheckpoints)
                &&& final(self).store@ == old(self).store@
            } else {
                match log {
                    Some(bytes) => {
                        &&& is_checkpoint(
                            scan(bytes@),
                            last_ckpt,
                            old(self).store@,
                            final(self).store@,
                            r,
                        )
                        &&& scan(bytes@).end matches LogEnd::BadEntry { offset }
                            ==> is_decode_error(r->Err_0->Deserialization_0, data_at(bytes@, offset))
                    },
                    None => {
                        &&& r == Err::<u64, WalError>(WalError::OpenWal)
                        &&& final(self).store@ == old(self).store@
                    },
                }
            },
    {
        if last_ckpt == 0 && self.wal.path().is_empty() {
            return Err(WalError::NoNewCheckpoints);
        }
        match log {
            Some(bytes) => self.checkpoint_found(last_ckpt, read_log(bytes)),
            None => Err(WalError::OpenWal),
        }
    }

    /// Brings the store up to the last committed transaction that was found in the log, where
    /// `last_ckpt` is the last checkpoint, and returns its id.
    pub fn checkpoint_found(&mut self, last_ckpt: u64, found: LogScan) -> (r: Result<u64, WalError>)
        requires
            found.decode_error is Some <==> found.end is BadEntry,
        ensures
            final(self).wal == old(self).wal,
            is_checkpoint(found@, last_ckpt, old(self).store@, final(self).store@, r),
            found.end is BadEntry ==> r->Err_0->Deserialization_0 == found.decode_error->0,
    {
        let ghost entries = found@.entries;
        match found.end {
            LogEnd::TornData { .. } => {
                return Err(WalError::Io(IoError::UnexpectedEof));
            },
            LogEnd::ChecksumMismatch { expected, actual, .. } => {
                return Err(WalError::ChecksumMismatch { expected, actual });
            },
            _ => {},
        }
        match found.decode_error {
            Some(e) => {
                return Err(WalError::Deserialization(e));
            },
            None => {},
        }
        let table = TxTable::of(&found.entries);
        match table.last_committed(Ghost(entries)) {
            Some(max) => {
                if max <= last_ckpt {
                    return Err(WalError::NoNewCheckpoints);
                }
                table.replay_into(&mut self.store, last_ckpt + 1, Ghost(entries));
                Ok(max)
            },
            None => Err(WalError::NoNewCheckpoints),
        }
    }

    /// Gives the log the operations of a transaction that it has not been given yet, as far as there
    /// is space; says whether there is space left for one more entry behind them.
    fn log_buffered(&mut self, tx: &mut Transaction) -> (room: bool)
        requires
            old(self).wal.wf(),
        ensures
            final(self).wal.wf(),
            final(self).wal.same_but_queue(&old(self).wal),
            final(self).wal.flying() == old(self).wal.flying(),
            final(self).wal.written() == old(self).wal.written(),
            final(self).store == old(self).store,
            final(tx).id == old(tx).id,
            final(tx).state == old(tx).state,
            final(tx).entries@ == old(tx).entries@,
            ({
                let space = old(self).wal.capacity() - old(self).wal.taken();
                let todo = old(tx).to_log();
                let given = if room {
                    todo.len() as int
                } else {
                    space
                };
                &&& room <==> todo.len() < space
                &&& given <= todo.len()
                &&& views(final(self).wal.queue()) == views(old(self).wal.queue()) + todo.take(given)
                &&& views(final(self).wal.appended()) == views(old(self).wal.appended())
                    + todo.take(given)
                &&& final(self).wal.taken() == old(self).wal.taken() + given
                &&& final(tx).to_log() == todo.skip(given)
            }),
    {
        let ghost before = views(self.wal.queue());
        let ghost all = views(self.wal.appended());
        let ghost todo = tx.to_log();
        let ghost mut given: int = 0;
        proof {
            assert(todo.skip(0) =~= todo);
            assert(before + todo.take(0) =~= before);
            assert(all + todo.take(0) =~= all);
        }
        loop
            invariant
                self.wal.wf(),
                self.wal.same_but_queue(&old(self).wal),
                self.wal.flying() == old(self).wal.flying(),
                self.wal.written() == old(self).wal.written(),
                self.store == old(self).store,
                tx.id == old(tx).id,
                tx.state == old(tx).state,
                tx.entries@ == old(tx).entries@,
                todo == old(tx).to_log(),
                before == views(old(self).wal.queue()),
                all == views(old(self).wal.appended()),
                0 <= given <= todo.len(),
                self.wal.taken() == old(self).wal.taken() + given,
                views(self.wal.queue()) == before + todo.take(given),
                views(self.wal.appended()) == all + todo.take(given),
                tx.to_log() == todo.skip(given),
            decreases todo.len() - given,
        {
            if self.wal.pending_count() >= self.wal.max_queue_size() {
                return false;
            }
            match tx.take_unlogged() {
                Some(entry) => {
                    let ghost queue = self.wal.queue();
                    let ghost appended = self.wal.appended();
                    match self.wal.append(entry) {
                        Ok(_) => {},
                        Err(_) => {},
                    }
                    proof {
                        assert(views(queue.push(entry)) =~= views(queue).push(entry@));
                        assert(views(appended.push(entry)) =~= views(appended).push(entry@));
                        assert(todo.take(given + 1) =~= todo.take(given).push(todo[given]));
                        assert((before + todo.take(given)).push(todo[given]) =~= before
                            + todo.take(given + 1));
                        assert((all + todo.take(given)).push(todo[given]) =~= all + todo.take(
                            given + 1,
                        ));
                        assert(todo.skip(given).skip(1) =~= todo.skip(given + 1));
                        given = given + 1;
                    }
                },
                None => {
                    return true;
                },
            }
        }
    }

    /// Adds an operation to a transaction, and gives it to the log at once, behind the operations
    /// that were added before it. The store stays as it is.
    ///
    /// Where the operation is refused, nothing changes. Where the queue gets full, the operation is
    /// not added, and the log has been given as many of those before it as there was space for; the
    /// writer waits, and calls again.
    pub fn append_op(&mut self, tx: &mut Transaction, op: &WalEntry, timestamp: u64) -> (r: Result<
        (),
        LogRefusal,
    >)
        requires
            old(self).wal.wf(),
        ensures
            final(self).wal.wf(),
            final(self).wal.same_but_queue(&old(self).wal),
            final(self).wal.flying() == old(self).wal.flying(),
            final(self).wal.written() == old(self).wal.written(),
            final(self).store == old(self).store,
            final(tx).id == old(tx).id,
            final(tx).state == old(tx).state,
            match r {
                Ok(_) => {
                    let entry = op@.stamped(old(tx).id, timestamp);
                    &&& op@.is_op()
                    &&& old(self).wal.taken() + old(tx).to_log().len() < old(self).wal.capacity()
                    &&& views(final(self).wal.queue()) == views(old(self).wal.queue()) + old(
                        tx,
                    ).to_log().push(entry)
                    &&& views(final(self).wal.appended()) == views(old(self).wal.appended()) + old(
                        tx,
                    ).to_log().push(entry)
                    &&& views(final(tx).entries@) == views(old(tx).entries@).push(entry)
                    &&& final(tx).to_log() == Seq::<EntryView>::empty()
                },
                Err(LogRefusal::QueueFull) => {
                    let space = old(self).wal.capacity() - old(self).wal.taken();
                    &&& op@.is_op()
                    &&& space <= old(tx).to_log().len()
                    &&& views(final(self).wal.queue()) == views(old(self).wal.queue()) + old(
                        tx,
                    ).to_log().take(space)
                    &&& views(final(self).wal.appended()) == views(old(self).wal.appended()) + old(
                        tx,
                    ).to_log().take(space)
                    &&& final(tx).to_log() == old(tx).to_log().skip(space)
                    &&& final(tx).entries@ == old(tx).entries@
                },
                Err(LogRefusal::Invalid(e)) => {
                    &&& !op@.is_op()
                    &&& e matches WalError::InvalidState(text) && text@
                        == "Cannot append non-operation entry"@
                    &&& *final(tx) == *old(tx)
                    &&& final(self).wal == old(self).wal
                },
            },
            forall|before: Seq<EntryView>, txs: Seq<TxRun>|
                is_running(*old(self), before, txs, *old(tx)) ==> #[trigger] is_running(
                    *final(self),
                    before,
                    txs,
                    *final(tx),
                ),
    {
        let ghost todo = old(tx).to_log();
        if op.is_op() && !self.log_buffered(tx) {
            proof {
                let space = old(self).wal.capacity() - old(self).wal.taken();
                assert forall|before: Seq<EntryView>, txs: Seq<TxRun>|
                    is_running(*old(self), before, txs, *old(tx)) implies #[trigger] is_running(
                    *self,
                    before,
                    txs,
                    *tx,
                ) by {
                    lemma_given(*old(self), *self, before, txs, *old(tx), *tx, space);
                }
            }
            return Err(LogRefusal::QueueFull);
        }
        let ghost queue = self.wal.queue();
        let ghost appended = self.wal.appended();
        match tx.append_op(op.clone(), timestamp) {
            Ok(mut given) => {
                proof {
                    assert(todo.take(todo.len() as int) =~= todo);
                    assert(todo.skip(todo.len() as int) =~= Seq::<EntryView>::empty());
                    assert(views(given@).len() == 1);
                    assert(views(given@)[0] == given@[0]@);
                }
                match given.pop() {
                    Some(entry) => {
                        match self.wal.append(entry) {
                            Ok(_) => {},
                            Err(_) => {},
                        }
                        proof {
                            let before = views(old(self).wal.queue());
                            let all = views(old(self).wal.appended());
                            assert(views(queue.push(entry)) =~= views(queue).push(entry@));
                            assert((before + todo).push(entry@) =~= before + todo.push(entry@));
                            assert(views(appended.push(entry)) =~= views(appended).push(entry@));
                            assert((all + todo).push(entry@) =~= all + todo.push(entry@));
                            assert forall|earlier: Seq<EntryView>, txs: Seq<TxRun>|
                                is_running(*old(self), earlier, txs, *old(tx)) implies #[trigger]
                                is_running(*self, earlier, txs, *tx) by {
                                lemma_appended(
                                    *old(self),
                                    *self,
                                    earlier,
                                    txs,
                                    *old(tx),
                                    *tx,
                                    entry@,
                                );
                            }
                        }
                    },
                    None => {},
                }
                Ok(())
            },
            Err(e) => Err(LogRefusal::Invalid(e)),
        }
    }

    /// Gives the log what it needs for a commit: the operations of the transaction that it has not
    /// been given yet, in their order, and behind them the entry that commits it. The store stays as
    /// it is; the transaction changes it when the log has been written.
    ///
    /// A transaction that cannot be committed is refused, and the log is given nothing. Where the
    /// queue gets full, it has been given as many operations as there was space for; the writer
    /// waits, and calls again.
    pub fn log_commit(&mut self, tx: &mut Transaction, timestamp: u64) -> (r: Result<
        LoggedCommit,
        LogRefusal,
    >)
        requires
            old(self).wal.wf(),
        ensures
            final(self).wal.wf(),
            final(self).wal.same_but_queue(&old(self).wal),
            final(self).wal.flying() == old(self).wal.flying(),
            final(self).wal.written() == old(self).wal.written(),
            final(self).store == old(self).store,
            final(tx).id == old(tx).id,
            final(tx).state == old(tx).state,
            final(tx).entries@ == old(tx).entries@,
            match r {
                Ok(logged) => {
                    let commit = EntryView::Commit { tx_id: old(tx).id, timestamp };
                    &&& old(tx).committable(old(self).store@)
                    &&& old(self).wal.taken() + old(tx).to_log().len() < old(self).wal.capacity()
                    &&& views(final(self).wal.queue()) == views(old(self).wal.queue()) + old(
                        tx,
                    ).to_log().push(commit)
                    &&& views(final(self).wal.appended()) == views(old(self).wal.appended()) + old(
                        tx,
                    ).to_log().push(commit)
                    &&& final(tx).to_log() == Seq::<EntryView>::empty()
                    &&& logged.is_of(*final(tx))
                    &&& logged.ops() == views(old(tx).entries@)
                    &&& logged.log() == final(self).wal.appended()
                    &&& forall|before: Seq<EntryView>, txs: Seq<TxRun>|
                        is_running(*old(self), before, txs, *old(tx)) ==> #[trigger] is_committing(
                            *final(self),
                            before,
                            txs,
                            *final(tx),
                            timestamp,
                        )
                },
                Err(LogRefusal::QueueFull) => {
                    let space = old(self).wal.capacity() - old(self).wal.taken();
                    &&& old(tx).committable(old(self).store@)
                    &&& space <= old(tx).to_log().len()
                    &&& views(final(self).wal.queue()) == views(old(self).wal.queue()) + old(
                        tx,
                    ).to_log().take(space)
                    &&& views(final(self).wal.appended()) == views(old(self).wal.appended()) + old(
                        tx,
                    ).to_log().take(space)
                    &&& final(tx).to_log() == old(tx).to_log().skip(space)
                    &&& forall|before: Seq<EntryView>, txs: Seq<TxRun>|
                        is_running(*old(self), before, txs, *old(tx)) ==> #[trigger] is_running(
                            *final(self),
                            before,
                            txs,
                            *final(tx),
                        )
                },
                Err(LogRefusal::Invalid(e)) => {
                    &&& !old(tx).committable(old(self).store@)
                    &&& old(tx).is_refusal(e, old(self).store@)
                    &&& *final(tx) == *old(tx)
                    &&& final(self).wal == old(self).wal
                },
            },
    {
        let marker = match tx.commit_entry(&self.store, timestamp) {
            Ok(marker) => marker,
            Err(e) => return Err(LogRefusal::Invalid(e)),
        };
        if !self.log_buffered(tx) {
            proof {
                let space = old(self).wal.capacity() - old(self).wal.taken();
                assert forall|before: Seq<EntryView>, txs: Seq<TxRun>|
                    is_running(*old(self), before, txs, *old(tx)) implies #[trigger] is_running(
                    *self,
                    before,
                    txs,
                    *tx,
                ) by {
                    lemma_given(*old(self), *self, before, txs, *old(tx), *tx, space);
                }
            }
            return Err(LogRefusal::QueueFull);
        }
        let ghost queue = self.wal.queue();
        let ghost appended = self.wal.appended();
        match self.wal.append(marker) {
            Ok(_) => {},
            Err(_) => {},
        }
        proof {
            let todo = old(tx).to_log();
            let before = views(old(self).wal.queue());
            assert(views(queue.push(marker)) =~= views(queue).push(marker@));
            assert(todo.take(todo.len() as int) =~= todo);
            assert((before + todo).push(marker@) =~= before + todo.push(marker@));
            assert(tx.to_log() =~= Seq::<EntryView>::empty());
            let all = views(old(self).wal.appended());
            assert(views(appended.push(marker)) =~= views(appended).push(marker@));
            assert((all + todo).push(marker@) =~= all + todo.push(marker@));
            assert forall|earlier: Seq<EntryView>, txs: Seq<TxRun>|
                is_running(*old(self), earlier, txs, *old(tx)) implies #[trigger] is_committing(
                *self,
                earlier,
                txs,
                *tx,
                timestamp,
            ) by {
                lemma_commit_logged(*old(self), *self, earlier, txs, *old(tx), *tx, timestamp);
            }
        }
        Ok(
            LoggedCommit {
                tx_id: tx.id,
                end: self.wal.position(),
                ops: Ghost(views(tx.entries@)),
                log: Ghost(self.wal.appended()),
            },
        )
    }

    /// Whether a commit that was logged can be carried out: the log has been written that far, and
    /// the store takes the operations. Where more entries than can be counted were logged behind the
    /// commit, the answer may be no all the same.
    pub fn can_finish(&self, tx: &Transaction, logged: &LoggedCommit) -> (ready: bool)
        requires
            self.wal.wf(),
            logged.is_of(*tx),
            logged.log().is_prefix_of(self.wal.appended()),
        ensures
            ready ==> {
                &&& logged.log().is_prefix_of(self.wal.written())
                &&& tx.committable(self.store@)
                &&& all_applicable(self.store@, logged.ops())
            },
            self.wal.appended().len() - logged.log().len() < COUNTS ==> ready == (
            logged.log().is_prefix_of(self.wal.written()) && tx.committable(self.store@)),
    {
        proof {
            let all = self.wal.appended();
            let written = self.wal.written();
            assert(written =~= all.take(written.len() as int));
        }
        self.wal.is_written(&logged.end) && tx.commit_entry(&self.store, 0).is_ok()
    }

    /// Gives the log the entry that aborts a transaction. The transaction and the store stay as they
    /// are. Where the transaction is not active, or the queue is full, nothing changes.
    pub fn log_abort(&mut self, tx: &Transaction, timestamp: u64) -> (r: Result<
        LoggedAbort,
        LogRefusal,
    >)
        requires
            old(self).wal.wf(),
        ensures
            final(self).wal.wf(),
            final(self).wal.same_but_queue(&old(self).wal),
            final(self).wal.flying() == old(self).wal.flying(),
            final(self).wal.written() == old(self).wal.written(),
            final(self).store == old(self).store,
            match r {
                Ok(logged) => {
                    &&& tx.state == TxState::Active
                    &&& logged.is_of(*tx)
                    &&& logged.log() == final(self).wal.appended()
                    &&& old(self).wal.taken() < old(self).wal.capacity()
                    &&& views(final(self).wal.queue()) == views(old(self).wal.queue()).push(
                        EntryView::Abort { tx_id: tx.id, timestamp },
                    )
                    &&& views(final(self).wal.appended()) == views(old(self).wal.appended()).push(
                        EntryView::Abort { tx_id: tx.id, timestamp },
                    )
                    &&& forall|before: Seq<EntryView>, txs: Seq<TxRun>|
                        is_running(*old(self), before, txs, *tx) ==> #[trigger] has_run(
                            *final(self),
                            before,
                            txs.push(aborted_run(*tx, timestamp)),
                        )
                },
                Err(LogRefusal::QueueFull) => {
                    &&& tx.state == TxState::Active
                    &&& old(self).wal.taken() == old(self).wal.capacity()
                    &&& final(self).wal == old(self).wal
                },
                Err(LogRefusal::Invalid(e)) => {
                    &&& tx.state != TxState::Active
                    &&& is_abort_refusal(e)
                    &&& final(self).wal == old(self).wal
                },
            },
    {
        let marker = match tx.abort_entry(timestamp) {
            Ok(marker) => marker,
            Err(e) => return Err(LogRefusal::Invalid(e)),
        };
        let ghost queue = self.wal.queue();
        let ghost appended = self.wal.appended();
        match self.wal.append(marker) {
            Ok(_) => {
                proof {
                    assert(views(queue.push(marker)) =~= views(queue).push(marker@));
                    assert(views(appended.push(marker)) =~= views(appended).push(marker@));
                    assert forall|before: Seq<EntryView>, txs: Seq<TxRun>|
                        is_running(*old(self), before, txs, *tx) implies #[trigger] has_run(
                        *self,
                        before,
                        txs.push(aborted_run(*tx, timestamp)),
                    ) by {
                        lemma_aborted(*old(self), *self, before, txs, *tx, timestamp);
                    }
                }
                Ok(
                    LoggedAbort {
                        tx_id: tx.id,
                        end: self.wal.position(),
                        log: Ghost(self.wal.appended()),
                    },
                )
            },
            Err(_) => Err(LogRefusal::QueueFull),
        }
    }

    /// Whether an abort that was logged has been written. Where more entries than can be counted were
    /// logged behind it, the answer may be no all the same.
    pub fn is_abort_written(&self, tx: &Transaction, logged: &LoggedAbort) -> (written: bool)
        requires
            self.wal.wf(),
            logged.is_of(*tx),
            logged.log().is_prefix_of(self.wal.appended()),
        ensures
            written ==> logged.log().is_prefix_of(self.wal.written()),
            self.wal.appended().len() - logged.log().len() < COUNTS ==> written
                == logged.log().is_prefix_of(self.wal.written()),
    {
        proof {
            let all = self.wal.appended();
            let written = self.wal.written();
            assert(written =~= all.take(written.len() as int));
        }
        self.wal.is_written(&logged.end)
    }

    /// Ends a graceful shutdown, for which the flusher was told to write what is left and terminate:
    /// returns an error if its last write failed, or if it could not be waited for.
    pub fn shutdown(&mut self, flusher: FlusherEnd) -> (r: Result<(), WalError>)
        ensures
            final(self).store == old(self).store,
            final(self).wal.stopping(),
            final(self).wal.path_view() == old(self).wal.path_view(),
            final(self).wal.capacity() == old(self).wal.capacity(),
            final(self).wal.same_entries(&old(self).wal),
            match flusher {
                FlusherEnd::NotRunning => r is Ok,
                FlusherEnd::Finished(outcome) => r == outcome,
                FlusherEnd::Lost(reason) => r matches Err(e) && OutsideStep::JoinFlusher.is_failure(
                    e,
                    reason@,
                ),
            },
    {
        self.wal.stop_flusher();
        flusher.result()
    }
}

/// What the checkpoint scheduler reports of an attempt.
#[derive(Debug)]
pub enum CheckpointReport {
    /// The store was brought up to the transaction with this id
    Completed(u64),
    /// Nothing was committed since the last checkpoint, which is normal
    NothingNew,
    /// The attempt failed
    Failed(WalError),
}

/// What the checkpoint scheduler reports of an attempt that ended with `result`.
pub fn checkpoint_report(result: Result<u64, WalError>) -> (report: CheckpointReport)
    ensures
        report == match result {
            Ok(tx_id) => CheckpointReport::Completed(tx_id),
            Err(WalError::NoNewCheckpoints) => CheckpointReport::NothingNew,
            Err(e) => CheckpointReport::Failed(e),
        },
{
    match result {
        Ok(tx_id) => CheckpointReport::Completed(tx_id),
        Err(WalError::NoNewCheckpoints) => CheckpointReport::NothingNew,
        Err(e) => CheckpointReport::Failed(e),
    }
}

} // verus!

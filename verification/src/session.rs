//! A database on which transactions run one after the other.
use crate::database::Database;
use crate::entry::{views, EntryView};
use crate::error::WalError;
use crate::log::{all_encodable, log_of, scan};
use crate::recovery::{is_recovery, RecoveryStats};
use crate::recovery_laws::{
    committed_entries, law_recovered_ids_are_fresh, law_transaction_of_operations_does_not_matter,
};
use crate::replay::tx_ids;
use crate::run_laws::{
    committed_count, have_proper_keys, is_run, law_log_restores_the_live_store, lemma_entries_of,
    lemma_run_ids, live_store, run_entries, TxEnd, TxRun,
};
use crate::store::{apply_op, replay, StoreView};
use crate::transaction::{
    all_applicable, are_ops_of, lemma_ops_all, Transaction,
};
use vstd::prelude::*;

verus! {

/// Whether the transactions `txs` are what has been done with the database: the log holds what they
/// gave it, where the file held `before` when it was opened, and the store is what they left.
pub open spec fn has_run(db: Database, before: Seq<EntryView>, txs: Seq<TxRun>) -> bool {
    &&& is_run(txs)
    &&& before + views(db.wal.appended()) == run_entries(txs)
    &&& db.store@ == live_store(StoreView::empty(), txs)
}

/// Whether an id is behind those of the transactions.
pub open spec fn is_behind(id: u64, txs: Seq<TxRun>) -> bool {
    txs.len() > 0 ==> txs.last().id < id
}

/// Whether the transaction `tx` is under way, behind the transactions `txs`: with the operations that
/// it still has to be given, the log holds what they gave it, and all operations of this one.
pub open spec fn is_running(
    db: Database,
    before: Seq<EntryView>,
    txs: Seq<TxRun>,
    tx: Transaction,
) -> bool {
    &&& is_run(txs)
    &&& is_behind(tx.id, txs)
    &&& before + views(db.wal.appended()) + tx.to_log() == run_entries(txs) + tx.all_ops()
    &&& db.store@ == live_store(StoreView::empty(), txs)
}

/// Whether the transaction `tx` is being committed, behind the transactions `txs`: the log holds what
/// they gave it, all operations of this one, and its commit. The store does not have them yet.
pub open spec fn is_committing(
    db: Database,
    before: Seq<EntryView>,
    txs: Seq<TxRun>,
    tx: Transaction,
    timestamp: u64,
) -> bool {
    &&& is_run(txs)
    &&& is_behind(tx.id, txs)
    &&& before + views(db.wal.appended()) == run_entries(txs) + committed_entries(
        tx.all_ops(),
        tx.id,
        timestamp,
    )
    &&& db.store@ == live_store(StoreView::empty(), txs)
    &&& all_applicable(db.store@, views(tx.entries@))
}

/// A transaction that was committed.
pub open spec fn committed_run(tx: Transaction, timestamp: u64) -> TxRun {
    TxRun { id: tx.id, ops: tx.all_ops(), end: TxEnd::Committed { timestamp } }
}

/// A transaction that was aborted with the operations that the log had been given.
pub open spec fn aborted_run(tx: Transaction, timestamp: u64) -> TxRun {
    TxRun { id: tx.id, ops: tx.given_ops(), end: TxEnd::Aborted { timestamp } }
}

/// A transaction that was given up with the operations that the log had been given.
pub open spec fn dropped_run(tx: Transaction) -> TxRun {
    TxRun { id: tx.id, ops: tx.given_ops(), end: TxEnd::Dropped }
}

/// The operations of a transaction are its own, and those that the log has to be given are the last.
pub proof fn lemma_ops_of(tx: Transaction)
    ensures
        are_ops_of(tx.all_ops(), tx.id),
        are_ops_of(tx.given_ops(), tx.id),
        tx.to_log().len() <= tx.all_ops().len(),
        tx.given_ops() + tx.to_log() == tx.all_ops(),
{
    let all = views(tx.entries@);
    let n = if tx.logged <= all.len() {
        tx.logged as int
    } else {
        all.len() as int
    };
    let is_op = |e: EntryView| e.is_op();
    reveal(Seq::filter);
    assert(tx.unlogged() =~= all.skip(n));
    assert(all.take(n) + all.skip(n) =~= all);
    Seq::filter_distributes_over_add(all.take(n), all.skip(n), is_op);
    assert forall|i: int| 0 <= i < tx.all_ops().len() implies (#[trigger] tx.all_ops()[i]).tx_id()
        == tx.id && tx.all_ops()[i].is_op() by {
        all.lemma_filter_pred(is_op, i);
    }
    assert(tx.given_ops() + tx.to_log() =~= tx.all_ops());
}

/// Operations that can be applied are operations.
proof fn lemma_applicable_are_ops(store: StoreView, ops: Seq<EntryView>)
    requires
        all_applicable(store, ops),
    ensures
        forall|i: int| 0 <= i < ops.len() ==> (#[trigger] ops[i]).is_op(),
    decreases ops.len(),
{
    if ops.len() > 0 {
        let rest = ops.skip(1);
        lemma_applicable_are_ops(apply_op(store, ops[0]), rest);
        assert forall|i: int| 0 <= i < ops.len() implies (#[trigger] ops[i]).is_op() by {
            if i > 0 {
                assert(ops[i] == rest[i - 1]);
            }
        }
    }
}

/// One more transaction in a run.
proof fn lemma_run_push(store: StoreView, txs: Seq<TxRun>, tx: TxRun)
    requires
        is_run(txs),
        is_behind(tx.id, txs),
        are_ops_of(tx.ops, tx.id),
    ensures
        is_run(txs.push(tx)),
        run_entries(txs.push(tx)) == run_entries(txs) + tx.entries(),
        live_store(store, txs.push(tx)) == if tx.end is Committed {
            replay(live_store(store, txs), tx.ops)
        } else {
            live_store(store, txs)
        },
{
    let more = txs.push(tx);
    assert(more.drop_last() =~= txs);
    assert forall|i: int, j: int| 0 <= i < j < more.len() implies more[i].id < more[j].id by {
        if j == txs.len() && i < txs.len() - 1 {
            assert(txs[i].id < txs[txs.len() - 1].id);
        }
    }
    assert forall|i: int| #![trigger more[i]] 0 <= i < more.len() implies are_ops_of(
        more[i].ops,
        more[i].id,
    ) by {
        if i < txs.len() {
            assert(more[i] == txs[i]);
        }
    }
}

/// A new database starts without transactions.
pub proof fn law_new_database_has_run_nothing(db: Database)
    requires
        db.wal.is_new(),
        db.store@ == StoreView::empty(),
    ensures
        has_run(db, Seq::empty(), Seq::empty()),
{
    assert(Seq::<EntryView>::empty() + views(db.wal.appended()) =~= run_entries(Seq::empty()));
}

/// A transaction without operations is under way when it has begun.
pub proof fn lemma_begun(db: Database, before: Seq<EntryView>, txs: Seq<TxRun>, tx: Transaction)
    requires
        has_run(db, before, txs),
        is_behind(tx.id, txs),
        tx.entries@.len() == 0,
    ensures
        is_running(db, before, txs, tx),
{
    reveal(Seq::filter);
    lemma_ops_of(tx);
    assert(before + views(db.wal.appended()) + tx.to_log() =~= run_entries(txs) + tx.all_ops());
}

/// A transaction that gets an entry that the log is not given yet is still under way.
pub proof fn lemma_buffered(
    db: Database,
    before: Seq<EntryView>,
    txs: Seq<TxRun>,
    tx: Transaction,
    tx_later: Transaction,
    entry: EntryView,
)
    requires
        is_running(db, before, txs, tx),
        tx_later.id == tx.id,
        views(tx_later.entries@) == views(tx.entries@).push(entry),
        tx_later.to_log() == if entry.is_op() {
            tx.to_log().push(entry.stamped(tx.id, entry.timestamp()))
        } else {
            tx.to_log()
        },
    ensures
        is_running(db, before, txs, tx_later),
{
    reveal(Seq::filter);
    let all = views(tx.entries@);
    let stamped = entry.stamped(tx.id, entry.timestamp());
    assert(all.push(entry).drop_last() =~= all);
    if entry.is_op() {
        assert(tx_later.all_ops() =~= tx.all_ops().push(stamped));
        assert(before + views(db.wal.appended()) + tx_later.to_log() =~= (before + views(
            db.wal.appended(),
        ) + tx.to_log()).push(stamped));
        assert(run_entries(txs) + tx_later.all_ops() =~= (run_entries(txs) + tx.all_ops()).push(
            stamped,
        ));
    } else {
        assert(tx_later.all_ops() =~= tx.all_ops());
    }
}

/// Once the log has been given more operations of a transaction, the rest is still to come.
pub proof fn lemma_given(
    db: Database,
    later: Database,
    before: Seq<EntryView>,
    txs: Seq<TxRun>,
    tx: Transaction,
    tx_later: Transaction,
    n: int,
)
    requires
        is_running(db, before, txs, tx),
        0 <= n <= tx.to_log().len(),
        later.store@ == db.store@,
        views(later.wal.appended()) == views(db.wal.appended()) + tx.to_log().take(n),
        tx_later.id == tx.id,
        tx_later.entries@ == tx.entries@,
        tx_later.to_log() == tx.to_log().skip(n),
    ensures
        is_running(later, before, txs, tx_later),
{
    assert(before + views(later.wal.appended()) + tx_later.to_log() =~= before + views(
        db.wal.appended(),
    ) + tx.to_log());
}

/// Once the log has been given all operations of a transaction and one more, none is to come.
pub proof fn lemma_appended(
    db: Database,
    later: Database,
    before: Seq<EntryView>,
    txs: Seq<TxRun>,
    tx: Transaction,
    tx_later: Transaction,
    op: EntryView,
)
    requires
        is_running(db, before, txs, tx),
        op.is_op(),
        op.tx_id() == tx.id,
        later.store@ == db.store@,
        views(later.wal.appended()) == views(db.wal.appended()) + tx.to_log().push(op),
        tx_later.id == tx.id,
        views(tx_later.entries@) == views(tx.entries@).push(op),
        tx_later.to_log() == Seq::<EntryView>::empty(),
    ensures
        is_running(later, before, txs, tx_later),
{
    reveal(Seq::filter);
    let all = views(tx.entries@);
    assert(all.push(op).drop_last() =~= all);
    assert(op.stamped(tx.id, op.timestamp()) == op);
    assert(tx_later.all_ops() =~= tx.all_ops().push(op));
    assert(before + views(later.wal.appended()) + tx_later.to_log() =~= (before + views(
        db.wal.appended(),
    ) + tx.to_log()).push(op));
    assert(run_entries(txs) + tx.all_ops().push(op) =~= (run_entries(txs) + tx.all_ops()).push(op));
}

/// Once the log has been given all operations of a transaction and its commit, it is being committed.
pub proof fn lemma_commit_logged(
    db: Database,
    later: Database,
    before: Seq<EntryView>,
    txs: Seq<TxRun>,
    tx: Transaction,
    tx_later: Transaction,
    timestamp: u64,
)
    requires
        is_running(db, before, txs, tx),
        all_applicable(db.store@, views(tx.entries@)),
        later.store@ == db.store@,
        views(later.wal.appended()) == views(db.wal.appended()) + tx.to_log().push(
            EntryView::Commit { tx_id: tx.id, timestamp },
        ),
        tx_later.id == tx.id,
        tx_later.entries@ == tx.entries@,
    ensures
        is_committing(later, before, txs, tx_later, timestamp),
{
    let marker = EntryView::Commit { tx_id: tx.id, timestamp };
    assert(before + views(later.wal.appended()) =~= (before + views(db.wal.appended())
        + tx.to_log()).push(marker));
    assert(run_entries(txs) + tx.all_ops().push(marker) =~= (run_entries(txs) + tx.all_ops()).push(
        marker,
    ));
}

/// A transaction that is being committed, as one more in the run.
proof fn lemma_committed_run(
    db: Database,
    before: Seq<EntryView>,
    txs: Seq<TxRun>,
    tx: Transaction,
    timestamp: u64,
)
    requires
        is_committing(db, before, txs, tx, timestamp),
    ensures
        ({
            let more = txs.push(committed_run(tx, timestamp));
            &&& is_run(more)
            &&& run_entries(more) == before + views(db.wal.appended())
            &&& live_store(StoreView::empty(), more) == replay(db.store@, views(tx.entries@))
        }),
{
    let ops = views(tx.entries@);
    lemma_applicable_are_ops(db.store@, ops);
    lemma_ops_all(ops);
    lemma_ops_of(tx);
    law_transaction_of_operations_does_not_matter(db.store@, ops, tx.id);
    lemma_run_push(StoreView::empty(), txs, committed_run(tx, timestamp));
}

/// Once the operations of a transaction that is being committed have been applied, it has run.
pub proof fn lemma_committed(
    db: Database,
    later: Database,
    before: Seq<EntryView>,
    txs: Seq<TxRun>,
    tx: Transaction,
    timestamp: u64,
)
    requires
        is_committing(db, before, txs, tx, timestamp),
        later.wal == db.wal,
        later.store@ == replay(db.store@, views(tx.entries@)),
    ensures
        has_run(later, before, txs.push(committed_run(tx, timestamp))),
{
    lemma_committed_run(db, before, txs, tx, timestamp);
}

/// Once the log has been given the abort of a transaction, the transaction has run, with the
/// operations that the log had been given.
pub proof fn lemma_aborted(
    db: Database,
    later: Database,
    before: Seq<EntryView>,
    txs: Seq<TxRun>,
    tx: Transaction,
    timestamp: u64,
)
    requires
        is_running(db, before, txs, tx),
        later.store@ == db.store@,
        views(later.wal.appended()) == views(db.wal.appended()).push(
            EntryView::Abort { tx_id: tx.id, timestamp },
        ),
    ensures
        has_run(later, before, txs.push(aborted_run(tx, timestamp))),
{
    let marker = EntryView::Abort { tx_id: tx.id, timestamp };
    law_dropped_transaction_has_run(db, before, txs, tx);
    lemma_ops_of(tx);
    lemma_run_push(StoreView::empty(), txs, dropped_run(tx));
    lemma_run_push(StoreView::empty(), txs, aborted_run(tx, timestamp));
    assert(before + views(later.wal.appended()) =~= (before + views(db.wal.appended())).push(
        marker,
    ));
    assert(run_entries(txs) + tx.given_ops().push(marker) =~= (run_entries(txs)
        + tx.given_ops()).push(marker));
}

/// A transaction that is given up in any state of it has run, with the operations that the log had
/// been given.
pub proof fn law_dropped_transaction_has_run(
    db: Database,
    before: Seq<EntryView>,
    txs: Seq<TxRun>,
    tx: Transaction,
)
    requires
        is_running(db, before, txs, tx),
    ensures
        has_run(db, before, txs.push(dropped_run(tx))),
{
    lemma_ops_of(tx);
    lemma_run_push(StoreView::empty(), txs, dropped_run(tx));
    let given = before + views(db.wal.appended());
    let all = run_entries(txs) + tx.all_ops();
    assert(all =~= run_entries(txs) + tx.given_ops() + tx.to_log());
    let n = given.len() as int;
    assert((given + tx.to_log()).take(n) =~= given);
    assert((run_entries(txs) + tx.given_ops() + tx.to_log()).take(n) =~= run_entries(txs)
        + tx.given_ops());
}

/// The log alone restores the database: when transactions on keys that are not empty have run on it
/// one after the other, and everything has been written, recovery of the log gives another database
/// the same store, and counts the commits.
pub proof fn law_log_restores_the_database(
    db: Database,
    before: Seq<EntryView>,
    txs: Seq<TxRun>,
    store_after: StoreView,
    next_before: u64,
    next_after: u64,
    r: Result<RecoveryStats, WalError>,
)
    requires
        has_run(db, before, txs),
        have_proper_keys(txs),
        db.wal.written() == db.wal.appended(),
        all_encodable(before + views(db.wal.written())),
        is_recovery(
            scan(log_of(before + views(db.wal.written()))),
            StoreView::empty(),
            store_after,
            next_before,
            next_after,
            r,
        ),
    ensures
        store_after == db.store@,
        r is Ok,
        r->Ok_0.committed == committed_count(txs),
{
    law_log_restores_the_live_store(txs, store_after, next_before, next_after, r);
}

/// A commit that was written survives, whether or not its operations were applied before the end:
/// recovery of the log gives the store with its operations, and counts it.
pub proof fn law_written_commit_survives(
    db: Database,
    before: Seq<EntryView>,
    txs: Seq<TxRun>,
    tx: Transaction,
    timestamp: u64,
    store_after: StoreView,
    next_before: u64,
    next_after: u64,
    r: Result<RecoveryStats, WalError>,
)
    requires
        is_committing(db, before, txs, tx, timestamp),
        have_proper_keys(txs.push(committed_run(tx, timestamp))),
        db.wal.written() == db.wal.appended(),
        all_encodable(before + views(db.wal.written())),
        is_recovery(
            scan(log_of(before + views(db.wal.written()))),
            StoreView::empty(),
            store_after,
            next_before,
            next_after,
            r,
        ),
    ensures
        store_after == replay(db.store@, views(tx.entries@)),
        r is Ok,
        r->Ok_0.committed == committed_count(txs) + 1,
{
    let more = txs.push(committed_run(tx, timestamp));
    lemma_committed_run(db, before, txs, tx, timestamp);
    assert(more.drop_last() =~= txs);
    law_log_restores_the_live_store(more, store_after, next_before, next_after, r);
}

/// A database that was recovered from the log of transactions goes on where they ended. The ids that
/// it gives out are behind theirs, where the last of them stands in the log.
pub proof fn law_recovered_database_goes_on(
    db: Database,
    txs: Seq<TxRun>,
    next_before: u64,
    next_after: u64,
    r: Result<RecoveryStats, WalError>,
)
    requires
        is_run(txs),
        have_proper_keys(txs),
        all_encodable(run_entries(txs)),
        db.wal.is_new(),
        is_recovery(
            scan(log_of(run_entries(txs))),
            StoreView::empty(),
            db.store@,
            next_before,
            next_after,
            r,
        ),
    ensures
        has_run(db, run_entries(txs), txs),
        txs.len() > 0 && txs.last().entries().len() > 0 && txs.last().id < u64::MAX ==> is_behind(
            next_after,
            txs,
        ),
{
    law_log_restores_the_live_store(txs, db.store@, next_before, next_after, r);
    assert(run_entries(txs) + views(db.wal.appended()) =~= run_entries(txs));
    if txs.len() > 0 && txs.last().entries().len() > 0 && txs.last().id < u64::MAX {
        let entries = run_entries(txs);
        let last = txs.last();
        assert(!tx_ids(entries).contains(u64::MAX)) by {
            if tx_ids(entries).contains(u64::MAX) {
                lemma_run_ids(txs, u64::MAX);
            }
        }
        law_recovered_ids_are_fresh(next_before, entries);
        assert(are_ops_of(txs[txs.len() - 1].ops, last.id));
        lemma_entries_of(last, last.entries().len() - 1);
        assert(entries.last() == last.entries().last());
        let ids = entries.map_values(|e: EntryView| e.tx_id());
        assert(ids[ids.len() - 1] == last.id);
        assert(tx_ids(entries).contains(last.id));
    }
}

} // verus!

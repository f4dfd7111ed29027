//! Transactions that run one after the other: the log alone gives back the store that they leave.
use crate::entry::EntryView;
use crate::error::WalError;
use crate::log::{all_encodable, log_of, scan, LogEnd, Scanned};
use crate::log_laws::law_log_reads_back;
use crate::recovery::{is_recovery, RecoveryStats};
use crate::recovery_laws::{
    committed_entries, law_committed_transaction_is_carried_out, law_empty_log_changes_nothing,
    law_operations_without_commit_change_nothing, lemma_new_transaction, lemma_ops_only,
    lemma_replay_same,
};
use crate::replay::{
    id_end, ids_with, lemma_no_entries, lemma_outcome_has_entries, lemma_push, outcome,
    replay_committed, tx_ids, RecoveryAction,
};
use crate::store::{replay, StoreView};
use crate::transaction::are_ops_of;
use vstd::prelude::*;

verus! {

/// How a transaction ended.
pub enum TxEnd {
    /// Its commit succeeded
    Committed { timestamp: u64 },
    /// It was aborted
    Aborted { timestamp: u64 },
    /// It was given up, or its commit was refused
    Dropped,
}

/// A transaction from its begin to its end: the operations that it gave to the log, and its end.
pub struct TxRun {
    pub id: u64,
    pub ops: Seq<EntryView>,
    pub end: TxEnd,
}

impl TxRun {
    /// What the log holds of the transaction.
    pub open spec fn entries(self) -> Seq<EntryView> {
        match self.end {
            TxEnd::Committed { timestamp } => committed_entries(self.ops, self.id, timestamp),
            TxEnd::Aborted { timestamp } => self.ops.push(
                EntryView::Abort { tx_id: self.id, timestamp },
            ),
            TxEnd::Dropped => self.ops,
        }
    }
}

/// The transactions have their own operations, and ids from one counter.
pub open spec fn is_run(txs: Seq<TxRun>) -> bool {
    &&& forall|i: int, j: int| 0 <= i < j < txs.len() ==> txs[i].id < txs[j].id
    &&& forall|i: int| #![trigger txs[i]] 0 <= i < txs.len() ==> are_ops_of(txs[i].ops, txs[i].id)
}

/// What the log holds of the transactions.
pub open spec fn run_entries(txs: Seq<TxRun>) -> Seq<EntryView>
    decreases txs.len(),
{
    if txs.len() == 0 {
        Seq::empty()
    } else {
        run_entries(txs.drop_last()) + txs.last().entries()
    }
}

/// The store that the transactions leave: each commit carries out its operations.
pub open spec fn live_store(store: StoreView, txs: Seq<TxRun>) -> StoreView
    decreases txs.len(),
{
    if txs.len() == 0 {
        store
    } else {
        let before = live_store(store, txs.drop_last());
        if txs.last().end is Committed {
            replay(before, txs.last().ops)
        } else {
            before
        }
    }
}

/// How many of the transactions were committed.
pub open spec fn committed_count(txs: Seq<TxRun>) -> nat
    decreases txs.len(),
{
    if txs.len() == 0 {
        0
    } else {
        committed_count(txs.drop_last()) + if txs.last().end is Committed {
            1nat
        } else {
            0nat
        }
    }
}

pub proof fn lemma_entries_of(tx: TxRun, i: int)
    requires
        are_ops_of(tx.ops, tx.id),
        0 <= i < tx.entries().len(),
    ensures
        tx.entries()[i].tx_id() == tx.id,
{
    if i < tx.ops.len() {
        assert(tx.entries()[i] == tx.ops[i]);
    }
}

/// The ids in the log are those of the transactions.
pub proof fn lemma_run_ids(txs: Seq<TxRun>, id: u64)
    requires
        is_run(txs),
        tx_ids(run_entries(txs)).contains(id),
    ensures
        txs.len() > 0,
        id <= txs.last().id,
    decreases txs.len(),
{
    let entries = run_entries(txs);
    let ids = entries.map_values(|e: EntryView| e.tx_id());
    let i = ids.index_of(id);
    assert(entries[i].tx_id() == id);
    let fewer = run_entries(txs.drop_last());
    if i < fewer.len() {
        assert(entries[i] == fewer[i]);
        let fewer_ids = fewer.map_values(|e: EntryView| e.tx_id());
        assert(fewer_ids[i] == id);
        assert(tx_ids(fewer).contains(id));
        lemma_prefix_is_run(txs);
        lemma_run_ids(txs.drop_last(), id);
    } else {
        assert(entries[i] == txs.last().entries()[i - fewer.len()]);
        lemma_entries_of(txs.last(), i - fewer.len());
    }
}

proof fn lemma_prefix_is_run(txs: Seq<TxRun>)
    requires
        is_run(txs),
        txs.len() > 0,
    ensures
        is_run(txs.drop_last()),
        txs.len() > 1 ==> txs.drop_last().last().id < txs.last().id,
{
    let fewer = txs.drop_last();
    assert forall|i: int| #![trigger fewer[i]] 0 <= i < fewer.len() implies are_ops_of(
        fewer[i].ops,
        fewer[i].id,
    ) by {
        assert(fewer[i] == txs[i]);
    }
}

/// One more transaction.
proof fn lemma_one_more(store: StoreView, entries: Seq<EntryView>, tx: TxRun)
    requires
        forall|x: u64| tx_ids(entries).contains(x) ==> x < tx.id,
        are_ops_of(tx.ops, tx.id),
    ensures
        replay_committed(store, entries + tx.entries()) == if tx.end is Committed {
            replay(replay_committed(store, entries), tx.ops)
        } else {
            replay_committed(store, entries)
        },
        ids_with(entries + tx.entries(), RecoveryAction::Commit) == if tx.end is Committed {
            ids_with(entries, RecoveryAction::Commit).insert(tx.id)
        } else {
            ids_with(entries, RecoveryAction::Commit)
        },
        !ids_with(entries, RecoveryAction::Commit).contains(tx.id),
{
    let extra = tx.entries();
    let all = entries + extra;
    assert(!tx_ids(entries).contains(tx.id));
    assert forall|i: int| 0 <= i < extra.len() implies (#[trigger] extra[i]).tx_id() == tx.id by {
        lemma_entries_of(tx, i);
    }
    lemma_new_transaction(entries, extra, tx.id);
    lemma_no_entries(entries, tx.id);
    lemma_ops_only(tx.ops, tx.id);
    match tx.end {
        TxEnd::Committed { timestamp } => {
            law_committed_transaction_is_carried_out(store, entries, tx.ops, tx.id, timestamp);
            lemma_push(tx.ops, EntryView::Commit { tx_id: tx.id, timestamp });
            assert(outcome(extra, tx.id) == RecoveryAction::Commit);
        },
        TxEnd::Aborted { timestamp } => {
            lemma_push(tx.ops, EntryView::Abort { tx_id: tx.id, timestamp });
            assert(outcome(extra, tx.id) == RecoveryAction::Rollback);
            lemma_replay_same(store, all, entries, 0, id_end());
        },
        TxEnd::Dropped => {
            law_operations_without_commit_change_nothing(store, entries, tx.ops, tx.id);
        },
    }
    let before = ids_with(entries, RecoveryAction::Commit);
    let after = ids_with(all, RecoveryAction::Commit);
    lemma_in_committed(entries, tx.id);
    assert forall|x: u64| #[trigger] after.contains(x) == if tx.end is Committed {
        before.insert(tx.id).contains(x)
    } else {
        before.contains(x)
    } by {
        lemma_in_committed(all, x);
        lemma_in_committed(entries, x);
        if x != tx.id {
            assert(outcome(all, x) == outcome(entries, x));
        }
    }
    if tx.end is Committed {
        assert(after =~= before.insert(tx.id));
    } else {
        assert(after =~= before);
    }
}

proof fn lemma_in_committed(entries: Seq<EntryView>, id: u64)
    ensures
        ids_with(entries, RecoveryAction::Commit).contains(id) == (outcome(entries, id)
            == RecoveryAction::Commit),
{
    if outcome(entries, id) == RecoveryAction::Commit {
        lemma_outcome_has_entries(entries, id);
    }
}

/// Replaying the entries of transactions that ran one after the other gives the store that they
/// left, and as many committed transactions as there were commits.
pub proof fn law_replay_gives_the_live_store(store: StoreView, txs: Seq<TxRun>)
    requires
        is_run(txs),
    ensures
        replay_committed(store, run_entries(txs)) == live_store(store, txs),
        ids_with(run_entries(txs), RecoveryAction::Commit).len() == committed_count(txs),
    decreases txs.len(),
{
    if txs.len() == 0 {
        assert(ids_with(run_entries(txs), RecoveryAction::Commit) =~= Set::empty());
        law_empty_log_changes_nothing(store, 0);
    } else {
        let fewer = txs.drop_last();
        lemma_prefix_is_run(txs);
        law_replay_gives_the_live_store(store, fewer);
        assert forall|x: u64| tx_ids(run_entries(fewer)).contains(x) implies x < txs.last().id by {
            lemma_run_ids(fewer, x);
        }
        lemma_one_more(store, run_entries(fewer), txs.last());
    }
}

/// Whether an operation is on a key that is not empty.
pub open spec fn has_proper_key(op: EntryView) -> bool {
    match op {
        EntryView::Insert { key, .. } => key.len() > 0,
        EntryView::Update { key, .. } => key.len() > 0,
        EntryView::Delete { key, .. } => key.len() > 0,
        _ => true,
    }
}

/// Whether all operations of the transactions are on keys that are not empty.
pub open spec fn have_proper_keys(txs: Seq<TxRun>) -> bool {
    forall|i: int, j: int|
        #![trigger txs[i].ops[j]]
        0 <= i < txs.len() && 0 <= j < txs[i].ops.len() ==> has_proper_key(txs[i].ops[j])
}

proof fn lemma_no_empty_key(store: StoreView, ops: Seq<EntryView>)
    requires
        !store.contains_key(Seq::empty()),
        forall|j: int| 0 <= j < ops.len() ==> has_proper_key(#[trigger] ops[j]),
    ensures
        !replay(store, ops).contains_key(Seq::empty()),
    decreases ops.len(),
{
    if ops.len() > 0 {
        lemma_no_empty_key(store, ops.drop_last());
        assert(has_proper_key(ops[ops.len() - 1]));
    }
}

proof fn lemma_live_store_has_no_empty_key(store: StoreView, txs: Seq<TxRun>)
    requires
        !store.contains_key(Seq::empty()),
        have_proper_keys(txs),
    ensures
        !live_store(store, txs).contains_key(Seq::empty()),
    decreases txs.len(),
{
    if txs.len() > 0 {
        let fewer = txs.drop_last();
        assert forall|i: int, j: int|
            #![trigger fewer[i].ops[j]]
            0 <= i < fewer.len() && 0 <= j < fewer[i].ops.len() implies has_proper_key(
            fewer[i].ops[j],
        ) by {
            assert(fewer[i].ops[j] == txs[i].ops[j]);
        }
        lemma_live_store_has_no_empty_key(store, fewer);
        let ops = txs.last().ops;
        assert forall|j: int| 0 <= j < ops.len() implies has_proper_key(#[trigger] ops[j]) by {
            assert(ops[j] == txs[txs.len() - 1].ops[j]);
        }
        lemma_no_empty_key(live_store(store, fewer), ops);
    }
}

/// The log alone restores the live state: when transactions on keys that are not empty have run one
/// after the other on a new database, and all that they gave to the log has been written, recovery
/// succeeds on the log, with the store that they left and with their commits counted.
pub proof fn law_log_restores_the_live_store(
    txs: Seq<TxRun>,
    store_after: StoreView,
    next_before: u64,
    next_after: u64,
    r: Result<RecoveryStats, WalError>,
)
    requires
        is_run(txs),
        have_proper_keys(txs),
        all_encodable(run_entries(txs)),
        is_recovery(
            scan(log_of(run_entries(txs))),
            StoreView::empty(),
            store_after,
            next_before,
            next_after,
            r,
        ),
    ensures
        scan(log_of(run_entries(txs))) == (Scanned {
            entries: run_entries(txs),
            end: LogEnd::Clean,
        }),
        r is Ok,
        store_after == live_store(StoreView::empty(), txs),
        r->Ok_0.committed == committed_count(txs),
{
    law_log_reads_back(run_entries(txs));
    law_replay_gives_the_live_store(StoreView::empty(), txs);
    lemma_live_store_has_no_empty_key(StoreView::empty(), txs);
}

} // verus!

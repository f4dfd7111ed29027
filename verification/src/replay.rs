//! Replaying a log: which transactions it commits, and what they do to the store.
use crate::entry::EntryView;
use crate::store::{replay, StoreView};
use vstd::prelude::*;

verus! {

/// Recovery action taken for a transaction during crash recovery.
#[derive(Debug, Clone, Copy, PartialEq, Eq, Structural)]
pub enum RecoveryAction {
    /// Transaction was committed successfully
    Commit,
    /// Transaction was explicitly aborted
    Rollback,
    /// Transaction was incomplete (no Commit/Abort marker)
    Incomplete,
}

/// The transactions that entries belong to.
pub open spec fn tx_ids(entries: Seq<EntryView>) -> Set<u64> {
    entries.map_values(|e: EntryView| e.tx_id()).to_set()
}

/// The operations of a transaction, in the order of the log.
pub open spec fn tx_ops(entries: Seq<EntryView>, id: u64) -> Seq<EntryView> {
    entries.filter(|e: EntryView| e.tx_id() == id && e.is_op())
}

/// How a transaction ended: what its last marker says, or that it has none.
pub open spec fn outcome(entries: Seq<EntryView>, id: u64) -> RecoveryAction
    decreases entries.len(),
{
    if entries.len() == 0 {
        RecoveryAction::Incomplete
    } else {
        match entries.last() {
            EntryView::Commit { tx_id, .. } if tx_id == id => RecoveryAction::Commit,
            EntryView::Abort { tx_id, .. } if tx_id == id => RecoveryAction::Rollback,
            _ => outcome(entries.drop_last(), id),
        }
    }
}

/// The transactions that ended in the given way.
pub open spec fn ids_with(entries: Seq<EntryView>, action: RecoveryAction) -> Set<u64> {
    tx_ids(entries).filter(|id: u64| outcome(entries, id) == action)
}

/// The store after the committed transactions with `lo <= id < hi`, in ascending order of `id`.
pub open spec fn replay_range(
    store: StoreView,
    entries: Seq<EntryView>,
    lo: int,
    hi: int,
) -> StoreView
    decreases hi - lo,
{
    if hi <= lo {
        store
    } else {
        let before = replay_range(store, entries, lo, hi - 1);
        let id = (hi - 1) as u64;
        if outcome(entries, id) == RecoveryAction::Commit {
            replay(before, tx_ops(entries, id))
        } else {
            before
        }
    }
}

/// One more than the largest id.
pub open spec fn id_end() -> int {
    u64::MAX + 1
}

/// The store after all committed transactions, in ascending order of their ids.
pub open spec fn replay_committed(store: StoreView, entries: Seq<EntryView>) -> StoreView {
    replay_range(store, entries, 0, id_end())
}

/// A transaction that ended has entries.
pub proof fn lemma_outcome_has_entries(entries: Seq<EntryView>, id: u64)
    requires
        outcome(entries, id) != RecoveryAction::Incomplete,
    ensures
        tx_ids(entries).contains(id),
    decreases entries.len(),
{
    let ids = entries.map_values(|e: EntryView| e.tx_id());
    if entries.last().tx_id() == id {
        assert(ids[ids.len() - 1] == id);
    } else {
        lemma_outcome_has_entries(entries.drop_last(), id);
        let fewer = entries.drop_last().map_values(|e: EntryView| e.tx_id());
        let i = fewer.index_of(id);
        assert(ids[i] == id);
    }
}

/// A range of ids in which nothing was committed leaves the store as it is.
pub proof fn lemma_replay_gap(store: StoreView, entries: Seq<EntryView>, lo: int, a: int, b: int)
    requires
        0 <= lo <= a <= b <= id_end(),
        forall|id: u64| a <= id < b ==> outcome(entries, id) != RecoveryAction::Commit,
    ensures
        replay_range(store, entries, lo, b) == replay_range(store, entries, lo, a),
    decreases b - a,
{
    if a < b {
        lemma_replay_gap(store, entries, lo, a, b - 1);
        let id = (b - 1) as u64;
        assert(a <= id < b);
    }
}

/// What one more entry changes.
pub proof fn lemma_push(entries: Seq<EntryView>, entry: EntryView)
    ensures
        tx_ids(entries.push(entry)) == tx_ids(entries).insert(entry.tx_id()),
        forall|id: u64| #[trigger]
            tx_ops(entries.push(entry), id) == if id == entry.tx_id() && entry.is_op() {
                tx_ops(entries, id).push(entry)
            } else {
                tx_ops(entries, id)
            },
        forall|id: u64| #[trigger]
            outcome(entries.push(entry), id) == if id != entry.tx_id() || entry.is_op() {
                outcome(entries, id)
            } else if entry is Commit {
                RecoveryAction::Commit
            } else {
                RecoveryAction::Rollback
            },
{
    let more = entries.push(entry);
    assert(more.drop_last() =~= entries);
    let ids = entries.map_values(|e: EntryView| e.tx_id());
    let more_ids = more.map_values(|e: EntryView| e.tx_id());
    assert(more_ids =~= ids.push(entry.tx_id()));
    assert(tx_ids(more) =~= tx_ids(entries).insert(entry.tx_id())) by {
        assert forall|id: u64| ids.contains(id) implies more_ids.contains(id) by {
            let i = ids.index_of(id);
            assert(more_ids[i] == id);
        }
        assert(more_ids[ids.len() as int] == entry.tx_id());
    }
    assert forall|id: u64| #[trigger]
        tx_ops(more, id) == if id == entry.tx_id() && entry.is_op() {
            tx_ops(entries, id).push(entry)
        } else {
            tx_ops(entries, id)
        } by {
        reveal(Seq::filter);
    }
}

/// A transaction without entries has no operations and did not end.
pub proof fn lemma_no_entries(entries: Seq<EntryView>, id: u64)
    requires
        !tx_ids(entries).contains(id),
    ensures
        tx_ops(entries, id) == Seq::<EntryView>::empty(),
        outcome(entries, id) == RecoveryAction::Incomplete,
    decreases entries.len(),
{
    reveal(Seq::filter);
    if entries.len() > 0 {
        let fewer = entries.drop_last();
        lemma_push(fewer, entries.last());
        assert(fewer.push(entries.last()) =~= entries);
        lemma_no_entries(fewer, id);
    }
}

} // verus!

//! What becomes of each key: the last operation on it decides, alone, in a commit, in a recovery and
//! in a checkpoint.
use crate::database::{Database, LoggedCommit};
use crate::entry::{views, EntryView, WalEntry};
use crate::error::WalError;
use crate::replay::{id_end, lemma_push, outcome, replay_range, tx_ops, RecoveryAction};
use crate::store::{replay, Store, StoreView};
use crate::transaction::{Transaction, TxState};
use vstd::prelude::*;

verus! {

/// What a store has for a key.
pub open spec fn lookup(store: StoreView, key: Seq<char>) -> Option<Seq<u8>> {
    if store.contains_key(key) {
        Some(store[key])
    } else {
        None
    }
}

/// Whether an entry is an operation on the given key.
pub open spec fn is_on(entry: EntryView, key: Seq<char>) -> bool {
    match entry {
        EntryView::Insert { key: k, .. } => k == key,
        EntryView::Update { key: k, .. } => k == key,
        EntryView::Delete { key: k, .. } => k == key,
        EntryView::Commit { .. } => false,
        EntryView::Abort { .. } => false,
    }
}

/// What the key of an operation has afterwards.
pub open spec fn says(entry: EntryView) -> Option<Seq<u8>> {
    match entry {
        EntryView::Insert { value, .. } => Some(value),
        EntryView::Update { new_value, .. } => Some(new_value),
        _ => None,
    }
}

/// The transaction that an entry names.
pub open spec fn names(entry: EntryView) -> u64 {
    match entry {
        EntryView::Insert { tx_id, .. } => tx_id,
        EntryView::Update { tx_id, .. } => tx_id,
        EntryView::Delete { tx_id, .. } => tx_id,
        EntryView::Commit { tx_id, .. } => tx_id,
        EntryView::Abort { tx_id, .. } => tx_id,
    }
}

/// Whether the log commits a transaction: it has a commit of it, and no abort of it behind that.
pub open spec fn is_committed(entries: Seq<EntryView>, id: u64) -> bool {
    exists|i: int|
        #![trigger entries[i]]
        0 <= i < entries.len() && entries[i] is Commit && names(entries[i]) == id && forall|j: int|
            #![trigger entries[j]]
            i < j < entries.len() ==> !(entries[j] is Abort && names(entries[j]) == id)
}

/// Whether the log aborts a transaction: it has an abort of it, and no commit of it behind that.
pub open spec fn is_aborted(entries: Seq<EntryView>, id: u64) -> bool {
    exists|i: int|
        #![trigger entries[i]]
        0 <= i < entries.len() && entries[i] is Abort && names(entries[i]) == id && forall|j: int|
            #![trigger entries[j]]
            i < j < entries.len() ==> !(entries[j] is Commit && names(entries[j]) == id)
}

/// Whether the log has an entry of a transaction.
pub open spec fn is_found(entries: Seq<EntryView>, id: u64) -> bool {
    exists|i: int| 0 <= i < entries.len() && names(#[trigger] entries[i]) == id
}

/// Whether the entry at `i` is an operation on `key` of a committed transaction with `lo <= id < hi`.
pub open spec fn writes(entries: Seq<EntryView>, lo: int, hi: int, key: Seq<char>, i: int) -> bool {
    &&& 0 <= i < entries.len()
    &&& is_on(entries[i], key)
    &&& lo <= names(entries[i]) < hi
    &&& is_committed(entries, names(entries[i]))
}

/// Whether the entry at `i` is the last of the operations that `writes` speaks of: no transaction
/// with a larger id has one, and its own has none behind it.
pub open spec fn writes_last(
    entries: Seq<EntryView>,
    lo: int,
    hi: int,
    key: Seq<char>,
    i: int,
) -> bool {
    &&& writes(entries, lo, hi, key, i)
    &&& forall|j: int| #[trigger]
        writes(entries, lo, hi, key, j) ==> names(entries[j]) < names(entries[i]) || (names(
            entries[j],
        ) == names(entries[i]) && j <= i)
}

/// An operation gives its key exactly what it says, and no other key anything: an insert the value,
/// an update the new value whatever the old one is, and a delete none. The end of a transaction
/// changes nothing.
pub proof fn law_operation_decides_its_key(store: &mut Store, entry: &WalEntry)
    requires
        call_ensures(Store::apply, (store, entry), ()),
    ensures
        match *entry {
            WalEntry::Insert { key, value, .. } => {
                &&& final(store)@.contains_key(key@)
                &&& final(store)@[key@] == value@
                &&& forall|k: Seq<char>|
                    k != key@ ==> #[trigger] lookup(final(store)@, k) == lookup(old(store)@, k)
            },
            WalEntry::Update { key, new_value, .. } => {
                &&& final(store)@.contains_key(key@)
                &&& final(store)@[key@] == new_value@
                &&& forall|k: Seq<char>|
                    k != key@ ==> #[trigger] lookup(final(store)@, k) == lookup(old(store)@, k)
            },
            WalEntry::Delete { key, .. } => {
                &&& !final(store)@.contains_key(key@)
                &&& forall|k: Seq<char>|
                    k != key@ ==> #[trigger] lookup(final(store)@, k) == lookup(old(store)@, k)
            },
            _ => forall|k: Seq<char>| #[trigger]
                lookup(final(store)@, k) == lookup(old(store)@, k),
        },
{
}

/// The same of an operation that a transaction applies by itself: it succeeds but for an update of a
/// key without a value and for the end of a transaction, and then nothing changes.
pub proof fn law_applied_operation_decides_its_key(
    tx: &Transaction,
    store: &mut Store,
    op: &WalEntry,
    r: Result<(), WalError>,
)
    requires
        call_ensures(Transaction::apply_to_store, (tx, store, op), r),
    ensures
        match *op {
            WalEntry::Insert { key, value, .. } => r is Ok && lookup(final(store)@, key@) == Some(
                value@,
            ),
            WalEntry::Update { key, new_value, .. } => if old(store)@.contains_key(key@) {
                r is Ok && lookup(final(store)@, key@) == Some(new_value@)
            } else {
                &&& r matches Err(WalError::ApplyStore(text)) && text@
                    == "Update on non-existent key: "@ + key@
                &&& final(store)@ == old(store)@
            },
            WalEntry::Delete { key, .. } => r is Ok && lookup(final(store)@, key@) is None,
            _ => {
                &&& r matches Err(WalError::InvalidState(text)) && text@
                    == "Cannot apply non-operation entry to store"@
                &&& final(store)@ == old(store)@
            },
        },
        forall|k: Seq<char>|
            !is_on(op@, k) ==> #[trigger] lookup(final(store)@, k) == lookup(old(store)@, k),
{
}

/// Of several operations the last on a key decides what it has; a key that none is on keeps what it
/// had.
pub proof fn law_last_operation_decides(store: StoreView, ops: Seq<EntryView>, key: Seq<char>)
    ensures
        forall|i: int|
            #![trigger ops[i]]
            0 <= i < ops.len() && is_on(ops[i], key) && (forall|j: int|
                i < j < ops.len() ==> !is_on(#[trigger] ops[j], key)) ==> lookup(
                replay(store, ops),
                key,
            ) == says(ops[i]),
        (forall|j: int| 0 <= j < ops.len() ==> !is_on(#[trigger] ops[j], key)) ==> lookup(
            replay(store, ops),
            key,
        ) == lookup(store, key),
    decreases ops.len(),
{
    if ops.len() > 0 {
        let fewer = ops.drop_last();
        let n = ops.len() - 1;
        law_last_operation_decides(store, fewer, key);
        assert forall|i: int|
            #![trigger ops[i]]
            0 <= i < ops.len() && is_on(ops[i], key) && (forall|j: int|
                i < j < ops.len() ==> !is_on(#[trigger] ops[j], key)) implies lookup(
            replay(store, ops),
            key,
        ) == says(ops[i]) by {
            if i < n {
                assert(!is_on(ops[n], key));
                assert(fewer[i] == ops[i]);
                assert forall|j: int| i < j < fewer.len() implies !is_on(
                    #[trigger] fewer[j],
                    key,
                ) by {
                    assert(fewer[j] == ops[j]);
                }
            }
        }
        if forall|j: int| 0 <= j < ops.len() ==> !is_on(#[trigger] ops[j], key) {
            assert(!is_on(ops[n], key));
            assert forall|j: int| 0 <= j < fewer.len() implies !is_on(#[trigger] fewer[j], key) by {
                assert(fewer[j] == ops[j]);
            }
        }
    }
}

/// A commit that succeeds gives each key what the last operation of the transaction on it says, and
/// leaves every other key as it was. It marks the transaction as committed.
pub proof fn law_commit_decides_its_keys(
    tx: &mut Transaction,
    db: &mut Database,
    logged: LoggedCommit,
    r: Result<(), WalError>,
    key: Seq<char>,
)
    requires
        call_ensures(Transaction::commit, (tx, db, logged), r),
    ensures
        r is Ok <==> old(tx).state == TxState::Active,
        r is Ok ==> final(tx).state == TxState::Committed,
        r is Ok ==> {
            let ops = old(tx).entries@;
            &&& forall|i: int|
                #![trigger ops[i]]
                0 <= i < ops.len() && is_on(ops[i]@, key) && (forall|j: int|
                    i < j < ops.len() ==> !is_on((#[trigger] ops[j])@, key)) ==> lookup(
                    final(db).store@,
                    key,
                ) == says(ops[i]@)
            &&& (forall|j: int| 0 <= j < ops.len() ==> !is_on((#[trigger] ops[j])@, key)) ==> lookup(
                final(db).store@,
                key,
            ) == lookup(old(db).store@, key)
        },
        r is Err ==> final(tx).state == old(tx).state && final(db).store@ == old(db).store@,
{
    if r is Ok {
        let entries = old(tx).entries@;
        let ops = views(entries);
        law_last_operation_decides(old(db).store@, ops, key);
        assert forall|i: int|
            #![trigger entries[i]]
            0 <= i < entries.len() && is_on(entries[i]@, key) && (forall|j: int|
                i < j < entries.len() ==> !is_on((#[trigger] entries[j])@, key)) implies lookup(
            final(db).store@,
            key,
        ) == says(entries[i]@) by {
            assert(ops[i] == entries[i]@);
            assert forall|j: int| i < j < ops.len() implies !is_on(#[trigger] ops[j], key) by {
                assert(ops[j] == entries[j]@);
            }
        }
        if forall|j: int| 0 <= j < entries.len() ==> !is_on((#[trigger] entries[j])@, key) {
            assert forall|j: int| 0 <= j < ops.len() implies !is_on(#[trigger] ops[j], key) by {
                assert(ops[j] == entries[j]@);
            }
        }
    }
}

/// How a transaction ended is what its last marker says.
pub proof fn law_last_marker_decides(entries: Seq<EntryView>, id: u64)
    ensures
        outcome(entries, id) == RecoveryAction::Commit <==> is_committed(entries, id),
        outcome(entries, id) == RecoveryAction::Rollback <==> is_aborted(entries, id),
    decreases entries.len(),
{
    if entries.len() > 0 {
        let fewer = entries.drop_last();
        let last = entries.last();
        let n = entries.len() - 1;
        law_last_marker_decides(fewer, id);
        assert(entries[n] == last);
        assert forall|i: int| 0 <= i < n implies fewer[i] == #[trigger] entries[i] by {}
        if last is Commit && names(last) == id {
            assert(is_committed(entries, id));
            if is_aborted(entries, id) {
                let i = choose|i: int|
                    #![trigger entries[i]]
                    0 <= i < entries.len() && entries[i] is Abort && names(entries[i]) == id
                        && forall|j: int|
                        #![trigger entries[j]]
                        i < j < entries.len() ==> !(entries[j] is Commit && names(entries[j])
                            == id);
                assert(entries[n] is Commit);
            }
        } else if last is Abort && names(last) == id {
            assert(is_aborted(entries, id));
            if is_committed(entries, id) {
                let i = choose|i: int|
                    #![trigger entries[i]]
                    0 <= i < entries.len() && entries[i] is Commit && names(entries[i]) == id
                        && forall|j: int|
                        #![trigger entries[j]]
                        i < j < entries.len() ==> !(entries[j] is Abort && names(entries[j]) == id);
                assert(entries[n] is Abort);
            }
        } else {
            if is_committed(fewer, id) {
                let i = choose|i: int|
                    #![trigger fewer[i]]
                    0 <= i < fewer.len() && fewer[i] is Commit && names(fewer[i]) == id
                        && forall|j: int|
                        #![trigger fewer[j]]
                        i < j < fewer.len() ==> !(fewer[j] is Abort && names(fewer[j]) == id);
                assert(entries[i] == fewer[i]);
            }
            if is_committed(entries, id) {
                let i = choose|i: int|
                    #![trigger entries[i]]
                    0 <= i < entries.len() && entries[i] is Commit && names(entries[i]) == id
                        && forall|j: int|
                        #![trigger entries[j]]
                        i < j < entries.len() ==> !(entries[j] is Abort && names(entries[j]) == id);
                assert(fewer[i] == entries[i]);
            }
            if is_aborted(fewer, id) {
                let i = choose|i: int|
                    #![trigger fewer[i]]
                    0 <= i < fewer.len() && fewer[i] is Abort && names(fewer[i]) == id
                        && forall|j: int|
                        #![trigger fewer[j]]
                        i < j < fewer.len() ==> !(fewer[j] is Commit && names(fewer[j]) == id);
                assert(entries[i] == fewer[i]);
            }
            if is_aborted(entries, id) {
                let i = choose|i: int|
                    #![trigger entries[i]]
                    0 <= i < entries.len() && entries[i] is Abort && names(entries[i]) == id
                        && forall|j: int|
                        #![trigger entries[j]]
                        i < j < entries.len() ==> !(entries[j] is Commit && names(entries[j])
                            == id);
                assert(fewer[i] == entries[i]);
            }
        }
    }
}

/// Whether the entry at `i` is an operation of the transaction on the key.
spec fn is_op_on(entries: Seq<EntryView>, id: u64, key: Seq<char>, i: int) -> bool {
    0 <= i < entries.len() && names(entries[i]) == id && is_on(entries[i], key)
}

/// The operations of one transaction, by key.
proof fn lemma_tx_by_key(store: StoreView, entries: Seq<EntryView>, id: u64, key: Seq<char>)
    ensures
        forall|i: int| #[trigger]
            is_op_on(entries, id, key, i) && (forall|j: int| #[trigger]
                is_op_on(entries, id, key, j) ==> j <= i) ==> lookup(
                replay(store, tx_ops(entries, id)),
                key,
            ) == says(entries[i]),
        (forall|j: int| !#[trigger] is_op_on(entries, id, key, j)) ==> lookup(
            replay(store, tx_ops(entries, id)),
            key,
        ) == lookup(store, key),
    decreases entries.len(),
{
    reveal(Seq::filter);
    if entries.len() > 0 {
        let fewer = entries.drop_last();
        let last = entries.last();
        let n = entries.len() - 1;
        lemma_tx_by_key(store, fewer, id, key);
        lemma_push(fewer, last);
        assert(fewer.push(last) =~= entries);
        let before = tx_ops(fewer, id);
        assert(tx_ops(fewer.push(last), id) == tx_ops(entries, id));
        assert(before.push(last).drop_last() =~= before);
        assert forall|i: int| #[trigger] is_op_on(fewer, id, key, i) == (i < n && is_op_on(
            entries,
            id,
            key,
            i,
        )) by {}
        if is_op_on(entries, id, key, n) {
            assert forall|i: int| #[trigger]
                is_op_on(entries, id, key, i) && (forall|j: int| #[trigger]
                    is_op_on(entries, id, key, j) ==> j <= i) implies lookup(
                replay(store, tx_ops(entries, id)),
                key,
            ) == says(entries[i]) by {
                assert(i == n);
            }
        } else {
            assert(lookup(replay(store, tx_ops(entries, id)), key) == lookup(
                replay(store, before),
                key,
            ));
            assert forall|i: int| #[trigger]
                is_op_on(entries, id, key, i) && (forall|j: int| #[trigger]
                    is_op_on(entries, id, key, j) ==> j <= i) implies lookup(
                replay(store, tx_ops(entries, id)),
                key,
            ) == says(entries[i]) by {
                assert(is_op_on(fewer, id, key, i));
                assert forall|j: int| #[trigger] is_op_on(fewer, id, key, j) implies j <= i by {
                    assert(is_op_on(entries, id, key, j));
                }
            }
            if forall|j: int| !#[trigger] is_op_on(entries, id, key, j) {
                assert forall|j: int| !#[trigger] is_op_on(fewer, id, key, j) by {
                    assert(!is_op_on(entries, id, key, j));
                }
            }
        }
    }
}

/// The last of the operations on a key, among the first `n` entries, if there is one.
spec fn last_op(entries: Seq<EntryView>, id: u64, key: Seq<char>, n: int) -> int
    decreases n,
{
    if n <= 0 {
        -1
    } else if is_op_on(entries, id, key, n - 1) {
        n - 1
    } else {
        last_op(entries, id, key, n - 1)
    }
}

proof fn lemma_last_op(entries: Seq<EntryView>, id: u64, key: Seq<char>, n: int)
    requires
        0 <= n <= entries.len(),
    ensures
        ({
            let i = last_op(entries, id, key, n);
            &&& -1 <= i < n
            &&& i >= 0 ==> is_op_on(entries, id, key, i)
            &&& forall|j: int| j < n && #[trigger] is_op_on(entries, id, key, j) ==> j <= i
        }),
    decreases n,
{
    if n > 0 {
        lemma_last_op(entries, id, key, n - 1);
    }
}

/// Each key either keeps what it had, where no committed transaction in the range has an operation
/// on it, or has what the last such operation says; and there is always one or the other.
pub proof fn law_committed_range_decides_keys(
    store: StoreView,
    entries: Seq<EntryView>,
    lo: int,
    hi: int,
    key: Seq<char>,
)
    requires
        0 <= lo,
        hi <= id_end(),
    ensures
        forall|i: int| #[trigger]
            writes_last(entries, lo, hi, key, i) ==> lookup(
                replay_range(store, entries, lo, hi),
                key,
            ) == says(entries[i]),
        (forall|i: int| !#[trigger] writes(entries, lo, hi, key, i)) ==> lookup(
            replay_range(store, entries, lo, hi),
            key,
        ) == lookup(store, key),
        (exists|i: int| #[trigger] writes_last(entries, lo, hi, key, i)) || (forall|i: int|
            !#[trigger] writes(entries, lo, hi, key, i)),
    decreases hi - lo,
{
    if lo < hi {
        law_committed_range_decides_keys(store, entries, lo, hi - 1, key);
        let id = (hi - 1) as u64;
        let before = replay_range(store, entries, lo, hi - 1);
        law_last_marker_decides(entries, id);
        lemma_tx_by_key(before, entries, id, key);
        let n = entries.len() as int;
        lemma_last_op(entries, id, key, n);
        let top = last_op(entries, id, key, n);
        assert forall|i: int| #[trigger] writes(entries, lo, hi, key, i) == (writes(
            entries,
            lo,
            hi - 1,
            key,
            i,
        ) || (is_op_on(entries, id, key, i) && is_committed(entries, id))) by {}
        if is_committed(entries, id) && top >= 0 {
            assert(is_op_on(entries, id, key, top));
            assert forall|j: int| #[trigger] is_op_on(entries, id, key, j) implies j <= top by {}
            assert(writes(entries, lo, hi, key, top));
            assert(writes_last(entries, lo, hi, key, top));
            assert forall|i: int| #[trigger] writes_last(entries, lo, hi, key, i) implies lookup(
                replay_range(store, entries, lo, hi),
                key,
            ) == says(entries[i]) by {
                assert(i == top);
            }
        } else {
            assert forall|i: int| #[trigger] writes(entries, lo, hi, key, i) == writes(
                entries,
                lo,
                hi - 1,
                key,
                i,
            ) by {
                if is_op_on(entries, id, key, i) && is_committed(entries, id) {
                    assert(i <= top);
                }
            }
            assert(lookup(replay_range(store, entries, lo, hi), key) == lookup(before, key)) by {
                if is_committed(entries, id) {
                    assert forall|j: int| !#[trigger] is_op_on(entries, id, key, j) by {
                        if is_op_on(entries, id, key, j) {
                            assert(j <= top);
                        }
                    }
                }
            }
            assert forall|i: int| #[trigger] writes_last(entries, lo, hi, key, i) == writes_last(
                entries,
                lo,
                hi - 1,
                key,
                i,
            ) by {
                assert(writes(entries, lo, hi, key, i) == writes(entries, lo, hi - 1, key, i));
                if writes_last(entries, lo, hi, key, i) {
                    assert forall|j: int| #[trigger]
                        writes(entries, lo, hi - 1, key, j) implies names(entries[j]) < names(
                        entries[i],
                    ) || (names(entries[j]) == names(entries[i]) && j <= i) by {
                        assert(writes(entries, lo, hi, key, j));
                    }
                }
                if writes_last(entries, lo, hi - 1, key, i) {
                    assert forall|j: int| #[trigger] writes(entries, lo, hi, key, j) implies names(
                        entries[j],
                    ) < names(entries[i]) || (names(entries[j]) == names(entries[i]) && j <= i) by {
                        assert(writes(entries, lo, hi - 1, key, j));
                    }
                }
            }
            if exists|i: int| #[trigger] writes_last(entries, lo, hi - 1, key, i) {
                let i = choose|i: int| #[trigger] writes_last(entries, lo, hi - 1, key, i);
                assert(writes_last(entries, lo, hi, key, i));
            } else {
                assert forall|i: int| !#[trigger] writes(entries, lo, hi, key, i) by {
                    assert(!writes(entries, lo, hi - 1, key, i));
                }
            }
            assert((forall|i: int| !#[trigger] writes(entries, lo, hi, key, i)) ==> (forall|i: int|
                !#[trigger] writes(entries, lo, hi - 1, key, i))) by {
                if forall|i: int| !#[trigger] writes(entries, lo, hi, key, i) {
                    assert forall|i: int| !#[trigger] writes(entries, lo, hi - 1, key, i) by {
                        assert(!writes(entries, lo, hi, key, i));
                    }
                }
            }
        }
    }
}

} // verus!

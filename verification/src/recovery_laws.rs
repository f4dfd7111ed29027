//! What holds of every recovery and every checkpoint.
use crate::database::newly_committed;
use crate::bytes::lemma_le_bytes_len;
use crate::entry::{EntryView, TAG_COMMIT};
use crate::log::{all_encodable, kept, log_of, scan, Scanned};
use crate::log_laws::{
    law_cut_log_keeps_whole_entries, law_truncated_log_takes_appends, lemma_all_entries_whole,
    whole_entries,
};
use crate::recovery::{max_id, restored, RecoveryStats};
use crate::replay::{
    id_end, ids_with, lemma_no_entries, lemma_outcome_has_entries, lemma_push, lemma_replay_gap,
    outcome, replay_committed, replay_range, tx_ids, tx_ops, RecoveryAction,
};
use crate::store::{replay, StoreView};
use crate::transaction::{all_applicable, are_ops_of, with_tx_id};
use vstd::prelude::*;

verus! {

/// Carrying out operations in two goes is the same as in one.
proof fn lemma_replay_concat(store: StoreView, first: Seq<EntryView>, second: Seq<EntryView>)
    ensures
        replay(store, first + second) == replay(replay(store, first), second),
    decreases second.len(),
{
    if second.len() == 0 {
        assert(first + second =~= first);
    } else {
        lemma_replay_concat(store, first, second.drop_last());
        assert((first + second).drop_last() =~= first + second.drop_last());
    }
}

/// Only the committed transactions count, and of each only its operations.
pub proof fn lemma_replay_same(
    store: StoreView,
    a: Seq<EntryView>,
    b: Seq<EntryView>,
    lo: int,
    hi: int,
)
    requires
        0 <= lo,
        hi <= id_end(),
        forall|id: u64|
            lo <= id < hi ==> (outcome(a, id) == RecoveryAction::Commit <==> outcome(b, id)
                == RecoveryAction::Commit),
        forall|id: u64|
            lo <= id < hi && outcome(a, id) == RecoveryAction::Commit ==> tx_ops(a, id) == tx_ops(
                b,
                id,
            ),
    ensures
        replay_range(store, a, lo, hi) == replay_range(store, b, lo, hi),
    decreases hi - lo,
{
    if lo < hi {
        lemma_replay_same(store, a, b, lo, hi - 1);
        let id = (hi - 1) as u64;
        assert(lo <= id < hi);
    }
}

/// What recovery makes of a log depends on which transactions are committed and what each of them
/// does, and not on how their entries are interleaved.
pub proof fn law_interleaving_does_not_matter(
    store: StoreView,
    a: Seq<EntryView>,
    b: Seq<EntryView>,
)
    requires
        forall|id: u64| #[trigger] outcome(a, id) == outcome(b, id),
        forall|id: u64|
            outcome(a, id) == RecoveryAction::Commit ==> tx_ops(a, id) == tx_ops(b, id),
    ensures
        replay_committed(store, a) == replay_committed(store, b),
{
    lemma_replay_same(store, a, b, 0, id_end());
}

proof fn lemma_without(entries: Seq<EntryView>, id: u64)
    ensures
        ({
            let rest = entries.filter(|e: EntryView| e.tx_id() != id);
            &&& outcome(rest, id) == RecoveryAction::Incomplete
            &&& forall|x: u64|
                x != id ==> outcome(rest, x) == outcome(entries, x) && tx_ops(rest, x) == tx_ops(
                    entries,
                    x,
                )
        }),
    decreases entries.len(),
{
    reveal(Seq::filter);
    if entries.len() > 0 {
        let fewer = entries.drop_last();
        let last = entries.last();
        let rest = fewer.filter(|e: EntryView| e.tx_id() != id);
        lemma_without(fewer, id);
        lemma_push(fewer, last);
        lemma_push(rest, last);
        assert(fewer.push(last) =~= entries);
        assert forall|x: u64| x != id implies outcome(
            entries.filter(|e: EntryView| e.tx_id() != id),
            x,
        ) == outcome(entries, x) && tx_ops(
            entries.filter(|e: EntryView| e.tx_id() != id),
            x,
        ) == tx_ops(entries, x) by {
            assert(outcome(fewer.push(last), x) == outcome(entries, x));
            assert(outcome(rest, x) == outcome(fewer, x) && tx_ops(rest, x) == tx_ops(fewer, x));
            assert(tx_ops(fewer.push(last), x) == tx_ops(entries, x));
            assert(outcome(rest.push(last), x) == outcome(rest.push(last), x));
            assert(tx_ops(rest.push(last), x) == tx_ops(rest.push(last), x));
        }
    }
}

/// A transaction that was aborted or not finished leaves no trace: recovery does the same as if the
/// log held none of its entries.
pub proof fn law_uncommitted_transaction_leaves_no_trace(
    store: StoreView,
    entries: Seq<EntryView>,
    id: u64,
)
    requires
        outcome(entries, id) != RecoveryAction::Commit,
    ensures
        replay_committed(store, entries) == replay_committed(
            store,
            entries.filter(|e: EntryView| e.tx_id() != id),
        ),
{
    lemma_without(entries, id);
    lemma_replay_same(
        store,
        entries,
        entries.filter(|e: EntryView| e.tx_id() != id),
        0,
        id_end(),
    );
}

pub proof fn lemma_new_transaction(entries: Seq<EntryView>, extra: Seq<EntryView>, id: u64)
    requires
        !tx_ids(entries).contains(id),
        forall|i: int| 0 <= i < extra.len() ==> (#[trigger] extra[i]).tx_id() == id,
    ensures
        outcome(entries + extra, id) == outcome(extra, id),
        tx_ops(entries + extra, id) == tx_ops(extra, id),
        forall|x: u64|
            x != id ==> outcome(entries + extra, x) == outcome(entries, x) && tx_ops(
                entries + extra,
                x,
            ) == tx_ops(entries, x),
    decreases extra.len(),
{
    reveal(Seq::filter);
    if extra.len() == 0 {
        assert(entries + extra =~= entries);
        lemma_no_entries(entries, id);
    } else {
        let fewer = extra.drop_last();
        let last = extra.last();
        lemma_new_transaction(entries, fewer, id);
        lemma_push(entries + fewer, last);
        lemma_push(fewer, last);
        assert((entries + fewer).push(last) =~= entries + extra);
        assert(fewer.push(last) =~= extra);
        assert forall|x: u64| x != id implies outcome(entries + extra, x) == outcome(entries, x)
            && tx_ops(entries + extra, x) == tx_ops(entries, x) by {
            assert(outcome((entries + fewer).push(last), x) == outcome(entries + fewer, x));
            assert(tx_ops((entries + fewer).push(last), x) == tx_ops(entries + fewer, x));
        }
        assert(outcome((entries + fewer).push(last), id) == outcome(fewer.push(last), id));
        assert(tx_ops((entries + fewer).push(last), id) == tx_ops(fewer.push(last), id));
    }
}

/// The entries of a transaction that was committed.
pub open spec fn committed_entries(ops: Seq<EntryView>, id: u64, timestamp: u64) -> Seq<EntryView> {
    ops.push(EntryView::Commit { tx_id: id, timestamp })
}

pub proof fn lemma_ops_only(ops: Seq<EntryView>, id: u64)
    requires
        are_ops_of(ops, id),
    ensures
        outcome(ops, id) == RecoveryAction::Incomplete,
        tx_ops(ops, id) == ops,
    decreases ops.len(),
{
    reveal(Seq::filter);
    if ops.len() > 0 {
        let fewer = ops.drop_last();
        lemma_ops_only(fewer, id);
        lemma_push(fewer, ops.last());
        assert(fewer.push(ops.last()) =~= ops);
        assert(tx_ops(fewer.push(ops.last()), id) == tx_ops(fewer, id).push(ops.last()));
        assert(outcome(fewer.push(ops.last()), id) == outcome(fewer, id));
    }
}

/// Operations that no commit follows change nothing.
pub proof fn law_operations_without_commit_change_nothing(
    store: StoreView,
    entries: Seq<EntryView>,
    ops: Seq<EntryView>,
    id: u64,
)
    requires
        !tx_ids(entries).contains(id),
        are_ops_of(ops, id),
    ensures
        replay_committed(store, entries + ops) == replay_committed(store, entries),
{
    lemma_new_transaction(entries, ops, id);
    lemma_ops_only(ops, id);
    lemma_no_entries(entries, id);
    lemma_replay_same(store, entries + ops, entries, 0, id_end());
}

/// A committed transaction whose id is larger than all before it is carried out whole, after all
/// before it.
pub proof fn law_committed_transaction_is_carried_out(
    store: StoreView,
    entries: Seq<EntryView>,
    ops: Seq<EntryView>,
    id: u64,
    timestamp: u64,
)
    requires
        forall|x: u64| tx_ids(entries).contains(x) ==> x < id,
        are_ops_of(ops, id),
    ensures
        replay_committed(store, entries + committed_entries(ops, id, timestamp)) == replay(
            replay_committed(store, entries),
            ops,
        ),
{
    let commit = EntryView::Commit { tx_id: id, timestamp };
    let extra = ops.push(commit);
    let all = entries + extra;
    lemma_new_transaction(entries, extra, id);
    lemma_ops_only(ops, id);
    lemma_push(ops, commit);
    assert(outcome(ops.push(commit), id) == RecoveryAction::Commit);
    assert(tx_ops(ops.push(commit), id) == ops);
    lemma_replay_same(store, all, entries, 0, id as int);
    assert forall|x: u64| id < x < id_end() implies outcome(all, x) != RecoveryAction::Commit by {
        if outcome(entries, x) == RecoveryAction::Commit {
            lemma_outcome_has_entries(entries, x);
        }
    }
    lemma_replay_gap(store, all, 0, id + 1, id_end());
    assert forall|x: u64| id <= x < id_end() implies outcome(entries, x)
        != RecoveryAction::Commit by {
        if outcome(entries, x) == RecoveryAction::Commit {
            lemma_outcome_has_entries(entries, x);
        }
    }
    lemma_replay_gap(store, entries, 0, id as int, id_end());
    assert((id + 1 - 1) as u64 == id);
}

/// A transaction is recovered whole or not at all, wherever a crash cuts its entries off: as long as
/// a single byte is missing, the store is what it was before; with the last byte it is what the
/// operations make of it.
pub proof fn law_transaction_is_all_or_nothing(
    store: StoreView,
    log: Seq<u8>,
    ops: Seq<EntryView>,
    id: u64,
    timestamp: u64,
    len: int,
)
    requires
        scan(log).end is Clean,
        forall|x: u64| tx_ids(scan(log).entries).contains(x) ==> x < id,
        are_ops_of(ops, id),
        all_encodable(ops),
        0 <= len <= log_of(committed_entries(ops, id, timestamp)).len(),
    ensures
        ({
            let written = log_of(committed_entries(ops, id, timestamp));
            let before = replay_committed(store, scan(log).entries);
            let after = replay_committed(store, scan(log + written.take(len)).entries);
            after == if len == written.len() {
                replay(before, ops)
            } else {
                before
            }
        }),
{
    let entries = committed_entries(ops, id, timestamp);
    let old = scan(log).entries;
    lemma_committed_encodable(ops, id, timestamp);
    law_cut_log_keeps_whole_entries(log, entries, len);
    lemma_all_entries_whole(entries, len);
    let whole = whole_entries(entries, len) as int;
    if whole == entries.len() {
        assert(entries.take(whole) =~= entries);
        law_committed_transaction_is_carried_out(store, old, ops, id, timestamp);
    } else {
        assert(entries.take(whole) =~= ops.take(whole));
        law_operations_without_commit_change_nothing(store, old, ops.take(whole), id);
    }
}

/// Every transaction of a log is counted in exactly one way.
pub proof fn law_transactions_add_up(stats: RecoveryStats, found: Scanned)
    requires
        stats.describes(found),
    ensures
        stats.total_transactions == stats.committed + stats.aborted + stats.incomplete,
{
    let ids = tx_ids(found.entries);
    let committed = ids_with(found.entries, RecoveryAction::Commit);
    let aborted = ids_with(found.entries, RecoveryAction::Rollback);
    let incomplete = ids_with(found.entries, RecoveryAction::Incomplete);
    assert(ids =~= committed + aborted + incomplete);
    vstd::set_lib::lemma_set_disjoint_lens(committed, aborted);
    vstd::set_lib::lemma_set_disjoint_lens(committed + aborted, incomplete);
}

pub proof fn lemma_max_id(entries: Seq<EntryView>)
    ensures
        match max_id(entries) {
            Some(max) => tx_ids(entries).contains(max) && forall|id: u64|
                tx_ids(entries).contains(id) ==> id <= max,
            None => entries.len() == 0,
        },
    decreases entries.len(),
{
    if entries.len() > 0 {
        let fewer = entries.drop_last();
        lemma_max_id(fewer);
        lemma_push(fewer, entries.last());
        assert(fewer.push(entries.last()) =~= entries);
    }
}

/// After recovery the counter stands behind every id of the log, and not before where it stood: no
/// id is given out twice. The largest id of all has none behind it.
pub proof fn law_recovered_ids_are_fresh(next: u64, entries: Seq<EntryView>)
    requires
        !tx_ids(entries).contains(u64::MAX),
    ensures
        restored(next, entries) >= next,
        forall|id: u64| tx_ids(entries).contains(id) ==> id < restored(next, entries),
{
    lemma_max_id(entries);
    if entries.len() == 0 {
        assert(tx_ids(entries) =~= Set::empty());
    }
}

/// A second checkpoint behind the first finds nothing new in the same log.
pub proof fn law_checkpoint_leaves_nothing_new(found: Scanned, last: u64, max: u64)
    requires
        newly_committed(found, last, max),
        forall|id: u64| newly_committed(found, last, id) ==> id <= max,
    ensures
        forall|id: u64| !newly_committed(found, max, id),
{
    assert forall|id: u64| !newly_committed(found, max, id) by {
        if newly_committed(found, max, id) {
            assert(newly_committed(found, last, id));
        }
    }
}

/// A checkpoint on a store that holds the transactions up to the last checkpoint gives the store
/// that a recovery of the whole log gives.
pub proof fn law_checkpoint_continues_recovery(store: StoreView, entries: Seq<EntryView>, mid: int)
    requires
        0 <= mid <= id_end(),
    ensures
        replay_range(replay_range(store, entries, 0, mid), entries, mid, id_end())
            == replay_committed(store, entries),
{
    lemma_replay_split(store, entries, mid, id_end());
}

proof fn lemma_replay_split(store: StoreView, entries: Seq<EntryView>, mid: int, hi: int)
    requires
        0 <= mid <= hi <= id_end(),
    ensures
        replay_range(replay_range(store, entries, 0, mid), entries, mid, hi) == replay_range(
            store,
            entries,
            0,
            hi,
        ),
    decreases hi - mid,
{
    if mid < hi {
        lemma_replay_split(store, entries, mid, hi - 1);
    }
}

/// The key that an operation is on.
spec fn op_key(op: EntryView) -> Option<Seq<char>> {
    match op {
        EntryView::Insert { key, .. } => Some(key),
        EntryView::Update { key, .. } => Some(key),
        EntryView::Delete { key, .. } => Some(key),
        _ => None,
    }
}

spec fn touched(ops: Seq<EntryView>, key: Seq<char>) -> bool {
    exists|i: int| 0 <= i < ops.len() && op_key(#[trigger] ops[i]) == Some(key)
}

spec fn agree(a: StoreView, b: StoreView, key: Seq<char>) -> bool {
    &&& a.contains_key(key) == b.contains_key(key)
    &&& a.contains_key(key) ==> a[key] == b[key]
}

proof fn lemma_replay_key(a: StoreView, b: StoreView, ops: Seq<EntryView>, key: Seq<char>)
    requires
        touched(ops, key) || agree(a, b, key),
    ensures
        agree(replay(a, ops), replay(b, ops), key),
        !touched(ops, key) ==> agree(replay(a, ops), a, key),
    decreases ops.len(),
{
    if ops.len() > 0 {
        let fewer = ops.drop_last();
        let last = ops.last();
        if op_key(last) != Some(key) {
            if touched(ops, key) {
                let i = choose|i: int| 0 <= i < ops.len() && op_key(#[trigger] ops[i]) == Some(key);
                assert(fewer[i] == ops[i]);
                assert(touched(fewer, key));
            }
            lemma_replay_key(a, b, fewer, key);
            assert(touched(fewer, key) ==> touched(ops, key)) by {
                if touched(fewer, key) {
                    let i = choose|i: int|
                        0 <= i < fewer.len() && op_key(#[trigger] fewer[i]) == Some(key);
                    assert(ops[i] == fewer[i]);
                }
            }
        } else {
            assert(ops[ops.len() - 1] == last);
            assert(touched(ops, key));
        }
    }
}

spec fn committed_ops(entries: Seq<EntryView>, lo: int, hi: int) -> Seq<EntryView>
    decreases hi - lo,
{
    if hi <= lo {
        Seq::empty()
    } else {
        let before = committed_ops(entries, lo, hi - 1);
        let id = (hi - 1) as u64;
        if outcome(entries, id) == RecoveryAction::Commit {
            before + tx_ops(entries, id)
        } else {
            before
        }
    }
}

proof fn lemma_committed_ops(store: StoreView, entries: Seq<EntryView>, lo: int, hi: int)
    ensures
        replay_range(store, entries, lo, hi) == replay(store, committed_ops(entries, lo, hi)),
    decreases hi - lo,
{
    if lo < hi {
        lemma_committed_ops(store, entries, lo, hi - 1);
        let id = (hi - 1) as u64;
        lemma_replay_concat(store, committed_ops(entries, lo, hi - 1), tx_ops(entries, id));
    }
}

/// Recovering twice from the same log gives the same store as recovering once.
pub proof fn law_recovery_is_idempotent(store: StoreView, entries: Seq<EntryView>)
    ensures
        replay_committed(replay_committed(store, entries), entries) == replay_committed(
            store,
            entries,
        ),
{
    let ops = committed_ops(entries, 0, id_end());
    let once = replay(store, ops);
    lemma_committed_ops(store, entries, 0, id_end());
    lemma_committed_ops(once, entries, 0, id_end());
    let twice = replay(once, ops);
    assert forall|key: Seq<char>| #[trigger] agree(twice, once, key) by {
        if touched(ops, key) {
            lemma_replay_key(once, store, ops, key);
        } else {
            lemma_replay_key(once, once, ops, key);
        }
    }
    lemma_agree(twice, once);
}

/// A log without entries changes nothing.
pub proof fn law_empty_log_changes_nothing(store: StoreView, next: u64)
    ensures
        replay_committed(store, Seq::empty()) == store,
        restored(next, Seq::empty()) == next,
{
    lemma_replay_gap(store, Seq::empty(), 0, 0, id_end());
}

/// The store that a commit leaves is the one that a recovery gives, when the store was the recovered
/// one before, whether or not the commit is refused: a commit that succeeds has its marker in the
/// log, and one that is refused has none.
pub proof fn law_commit_agrees_with_recovery(
    store: StoreView,
    entries: Seq<EntryView>,
    ops: Seq<EntryView>,
    id: u64,
    timestamp: u64,
)
    requires
        forall|x: u64| tx_ids(entries).contains(x) ==> x < id,
        are_ops_of(ops, id),
    ensures
        ({
            let before = replay_committed(store, entries);
            if all_applicable(before, ops) {
                replay_committed(store, entries + committed_entries(ops, id, timestamp)) == replay(
                    before,
                    ops,
                )
            } else {
                replay_committed(store, entries + ops) == before
            }
        }),
{
    law_committed_transaction_is_carried_out(store, entries, ops, id, timestamp);
    law_operations_without_commit_change_nothing(store, entries, ops, id);
}

/// A transaction that is committed after a recovery from a torn log survives the next recovery, when
/// the torn tail was cut off.
pub proof fn law_commit_after_truncation_survives(
    store: StoreView,
    log: Seq<u8>,
    ops: Seq<EntryView>,
    id: u64,
    timestamp: u64,
)
    requires
        log.len() <= u64::MAX,
        scan(log).end is PartialHeader || scan(log).end is TornData,
        forall|x: u64| tx_ids(scan(log).entries).contains(x) ==> x < id,
        are_ops_of(ops, id),
        all_encodable(ops),
    ensures
        ({
            let cut = log.take(kept(scan(log).end, log.len() as int));
            let entries = committed_entries(ops, id, timestamp);
            replay_committed(store, scan(cut + log_of(entries)).entries) == replay(
                replay_committed(store, scan(log).entries),
                ops,
            )
        }),
{
    lemma_committed_encodable(ops, id, timestamp);
    law_truncated_log_takes_appends(log, committed_entries(ops, id, timestamp));
    law_committed_transaction_is_carried_out(store, scan(log).entries, ops, id, timestamp);
}

proof fn lemma_committed_encodable(ops: Seq<EntryView>, id: u64, timestamp: u64)
    requires
        all_encodable(ops),
    ensures
        all_encodable(committed_entries(ops, id, timestamp)),
{
    let entries = committed_entries(ops, id, timestamp);
    assert(entries.last().encodable()) by {
        lemma_le_bytes_len(TAG_COMMIT as nat, 4);
        lemma_le_bytes_len(id as nat, 8);
        lemma_le_bytes_len(timestamp as nat, 8);
    }
    assert forall|i: int| 0 <= i < entries.len() implies (#[trigger] entries[i]).encodable() by {
        if i < ops.len() {
            assert(entries[i] == ops[i]);
        }
    }
}

/// Operations do the same to a store whichever transaction they are written down for.
pub proof fn law_transaction_of_operations_does_not_matter(
    store: StoreView,
    ops: Seq<EntryView>,
    id: u64,
)
    ensures
        replay(store, with_tx_id(ops, id)) == replay(store, ops),
    decreases ops.len(),
{
    if ops.len() > 0 {
        law_transaction_of_operations_does_not_matter(store, ops.drop_last(), id);
        assert(with_tx_id(ops, id).drop_last() =~= with_tx_id(ops.drop_last(), id));
    }
}

proof fn lemma_agree(a: StoreView, b: StoreView)
    requires
        forall|key: Seq<char>| #[trigger] agree(a, b, key),
    ensures
        a == b,
{
    assert forall|key: Seq<char>| #[trigger] a.dom().contains(key) == b.dom().contains(key) by {
        assert(agree(a, b, key));
    }
    assert forall|key: Seq<char>| b.dom().contains(key) implies #[trigger] a[key] == b[key] by {
        assert(agree(a, b, key));
    }
    assert(a =~= b);
}

} // verus!

//! What the calls of a transaction do, field by field.
use crate::database::{Database, LogRefusal, LoggedAbort, LoggedCommit};
use crate::entry::{views, EntryView, WalEntry};
use crate::error::WalError;
use crate::key_laws::{is_on, law_last_operation_decides, lookup, says};
use crate::store::{apply_op, replay, Store, StoreView};
use crate::transaction::{
    applicable, applied_count, lemma_ops_first, ops_only, with_tx_id, Transaction, TxIds, TxState,
};
use vstd::prelude::*;

verus! {

/// Whether `entry` is the operation `op` with another transaction and another time: the kind, the
/// key and the values are those of `op`.
pub open spec fn is_stamped(entry: EntryView, op: EntryView, id: u64, time: u64) -> bool {
    match op {
        EntryView::Insert { key, value, .. } => {
            entry matches EntryView::Insert { tx_id, timestamp, key: k, value: v } && tx_id == id
                && timestamp == time && k == key && v == value
        },
        EntryView::Update { key, old_value, new_value, .. } => {
            entry matches EntryView::Update { tx_id, timestamp, key: k, old_value: o, new_value: n }
                && tx_id == id && timestamp == time && k == key && o == old_value && n == new_value
        },
        EntryView::Delete { key, old_value, .. } => {
            entry matches EntryView::Delete { tx_id, timestamp, key: k, old_value: o } && tx_id == id
                && timestamp == time && k == key && o == old_value
        },
        _ => false,
    }
}

/// The time that an entry names.
pub open spec fn time_of(entry: EntryView) -> u64 {
    match entry {
        EntryView::Insert { timestamp, .. } => timestamp,
        EntryView::Update { timestamp, .. } => timestamp,
        EntryView::Delete { timestamp, .. } => timestamp,
        EntryView::Commit { timestamp, .. } => timestamp,
        EntryView::Abort { timestamp, .. } => timestamp,
    }
}

/// An entry says all that its fields say.
pub proof fn law_entry_says_its_fields(entry: WalEntry)
    ensures
        match entry {
            WalEntry::Insert { tx_id, timestamp, key, value } => entry@ == (EntryView::Insert {
                tx_id,
                timestamp,
                key: key@,
                value: value@,
            }),
            WalEntry::Update { tx_id, timestamp, key, old_value, new_value } => entry@ == (
            EntryView::Update {
                tx_id,
                timestamp,
                key: key@,
                old_value: old_value@,
                new_value: new_value@,
            }),
            WalEntry::Delete { tx_id, timestamp, key, old_value } => entry@ == (EntryView::Delete {
                tx_id,
                timestamp,
                key: key@,
                old_value: old_value@,
            }),
            WalEntry::Commit { tx_id, timestamp } => entry@ == (EntryView::Commit {
                tx_id,
                timestamp,
            }),
            WalEntry::Abort { tx_id, timestamp } => entry@ == (EntryView::Abort {
                tx_id,
                timestamp,
            }),
        },
{
}

/// A list of entries says what each of them says, in its place.
pub proof fn law_entries_say_what_each_says(entries: Seq<WalEntry>)
    ensures
        views(entries).len() == entries.len(),
        forall|i: int| 0 <= i < entries.len() ==> #[trigger] views(entries)[i] == entries[i]@,
{
}

/// An operation that is appended gets the id of the transaction and the given time, and keeps its
/// kind, its key and its values, whatever id and time it came with: so it stands in the transaction,
/// behind the entries that were there, and so it is the last that the log is given. The end of a
/// transaction is refused, and nothing changes.
pub proof fn law_appended_operation_keeps_its_fields(
    tx: &mut Transaction,
    op: WalEntry,
    time: u64,
    r: Result<Vec<WalEntry>, WalError>,
)
    requires
        call_ensures(Transaction::append_op, (tx, op, time), r),
    ensures
        r is Ok <==> op is Insert || op is Update || op is Delete,
        r matches Ok(given) ==> {
            let n = old(tx).entries@.len() as int;
            &&& given@.len() > 0
            &&& is_stamped(given@.last()@, op@, old(tx).id, time)
            &&& final(tx).entries@.len() == n + 1
            &&& is_stamped(final(tx).entries@[n]@, op@, old(tx).id, time)
            &&& forall|i: int|
                0 <= i < n ==> (#[trigger] final(tx).entries@[i])@ == old(tx).entries@[i]@
        },
        r matches Err(e) ==> {
            &&& e matches WalError::InvalidState(text) && text@
                == "Cannot append non-operation entry"@
            &&& final(tx).entries@ == old(tx).entries@
        },
        final(tx).id == old(tx).id,
        final(tx).state == old(tx).state,
{
    if r is Ok {
        let given = r->Ok_0@;
        let n = old(tx).entries@.len() as int;
        let before = views(old(tx).entries@);
        let after = views(final(tx).entries@);
        let entry = op@.stamped(old(tx).id, time);
        assert(views(given).len() == given.len());
        assert(views(given)[given.len() - 1] == given[given.len() - 1]@);
        assert(after.len() == final(tx).entries@.len());
        assert(after == before.push(entry));
        assert(after[n] == final(tx).entries@[n]@);
        assert forall|i: int| 0 <= i < n implies (#[trigger] final(tx).entries@[i])@ == old(
            tx,
        ).entries@[i]@ by {
            assert(after[i] == final(tx).entries@[i]@);
            assert(before[i] == old(tx).entries@[i]@);
        }
    }
}

/// The same of an operation that is appended through the database: it is the last entry of the log
/// afterwards, and of the transaction. Nothing that the log had been given before is lost.
pub proof fn law_logged_operation_keeps_its_fields(
    db: &mut Database,
    tx: &mut Transaction,
    op: &WalEntry,
    time: u64,
    r: Result<(), LogRefusal>,
)
    requires
        call_ensures(Database::append_op, (db, tx, op, time), r),
        r is Ok,
    ensures
        ({
            let n = old(tx).entries@.len() as int;
            let log = final(db).wal.appended();
            &&& log.len() > old(db).wal.appended().len()
            &&& is_stamped(log.last()@, op@, old(tx).id, time)
            &&& final(tx).entries@.len() == n + 1
            &&& is_stamped(final(tx).entries@[n]@, op@, old(tx).id, time)
            &&& final(db).store == old(db).store
            &&& final(db).wal.written() == old(db).wal.written()
        }),
{
    let n = old(tx).entries@.len() as int;
    let log = final(db).wal.appended();
    let after = views(final(tx).entries@);
    assert(views(log).len() == log.len());
    assert(views(old(db).wal.appended()).len() == old(db).wal.appended().len());
    assert(views(log)[log.len() - 1] == log[log.len() - 1]@);
    assert(after.len() == final(tx).entries@.len());
    assert(views(old(tx).entries@).len() == n);
    assert(after[n] == final(tx).entries@[n]@);
}

/// An operation that is appended through the database is refused where it is the end of a transaction,
/// and then nothing changes; it is not added where there is no space for it behind the operations
/// that the log still has to be given, and the log is then given as many of those as fit.
pub proof fn law_operation_that_is_not_logged_is_not_added(
    db: &mut Database,
    tx: &mut Transaction,
    op: &WalEntry,
    time: u64,
    r: Result<(), LogRefusal>,
)
    requires
        call_ensures(Database::append_op, (db, tx, op, time), r),
    ensures
        ({
            let space = old(db).wal.capacity() - old(db).wal.taken();
            let todo = old(tx).to_log();
            let before = views(old(db).wal.appended());
            let after = views(final(db).wal.appended());
            &&& final(db).store == old(db).store
            &&& final(tx).id == old(tx).id
            &&& final(tx).state == old(tx).state
            &&& r is Ok <==> !(*op is Commit) && !(*op is Abort) && todo.len() < space
            &&& (r is Err && r->Err_0 is Invalid) <==> (*op is Commit || *op is Abort)
            &&& r is Ok ==> after.drop_last() == before + todo && final(tx).to_log().len() == 0
            &&& r is Err ==> final(tx).entries@ == old(tx).entries@
            &&& r is Err && r->Err_0 is Invalid ==> after == before && final(tx).to_log() == todo
            &&& r is Err && r->Err_0 is QueueFull ==> after == before + todo.take(space)
                && final(tx).to_log() == todo.skip(space)
        }),
{
    let todo = old(tx).to_log();
    let before = views(old(db).wal.appended());
    let after = views(final(db).wal.appended());
    if r is Ok {
        assert(after.drop_last() =~= before + todo);
    }
}

/// What the log still has to be given goes through the entries one by one: an operation is the next,
/// with the id of the transaction and all else its own; the end of a transaction is left out; and
/// behind the last entry there is nothing.
pub proof fn law_unlogged_operations_come_in_their_order(tx: Transaction, next: Transaction)
    requires
        next.id == tx.id,
        next.entries@ == tx.entries@,
        next.logged == tx.logged + 1,
    ensures
        tx.logged >= tx.entries@.len() ==> tx.to_log() == Seq::<EntryView>::empty(),
        tx.logged < tx.entries@.len() ==> {
            let first = tx.entries@[tx.logged as int];
            if first is Commit || first is Abort {
                tx.to_log() == next.to_log()
            } else {
                &&& tx.to_log().len() == next.to_log().len() + 1
                &&& is_stamped(tx.to_log()[0], first@, tx.id, time_of(first@))
                &&& tx.to_log().skip(1) == next.to_log()
            }
        },
{
    if tx.logged >= tx.entries@.len() {
        reveal(Seq::filter);
        assert(tx.unlogged() =~= Seq::<EntryView>::empty());
        assert(tx.to_log() =~= Seq::<EntryView>::empty());
    } else {
        let rest = tx.unlogged();
        let first = tx.entries@[tx.logged as int];
        assert(rest[0] == first@);
        assert(next.unlogged() =~= rest.skip(1));
        lemma_ops_first(rest);
        if first is Commit || first is Abort {
        } else {
            let more = ops_only(rest.skip(1));
            assert(with_tx_id(seq![rest[0]] + more, tx.id).skip(1) =~= with_tx_id(more, tx.id));
            assert(tx.to_log()[0] == rest[0].stamped(tx.id, rest[0].timestamp()));
        }
    }
}

/// An entry that is added stands behind the others. Where it is an operation it is the last that the
/// log has to be given, with the id of the transaction and all else its own.
pub proof fn law_added_entry_is_logged_later(tx: &mut Transaction, entry: WalEntry)
    requires
        call_ensures(Transaction::add_entry, (tx, entry), ()),
    ensures
        final(tx).entries@ == old(tx).entries@.push(entry),
        entry is Commit || entry is Abort ==> final(tx).to_log() == old(tx).to_log(),
        !(entry is Commit || entry is Abort) ==> {
            &&& final(tx).to_log().len() == old(tx).to_log().len() + 1
            &&& final(tx).to_log().drop_last() == old(tx).to_log()
            &&& is_stamped(final(tx).to_log().last(), entry@, old(tx).id, time_of(entry@))
        },
{
    if !(entry is Commit || entry is Abort) {
        assert(final(tx).to_log().drop_last() =~= old(tx).to_log());
    }
}

/// Whether a key has a value behind the first `n` operations: the last of them on it gives it one, or
/// none is on it and the store has one.
pub open spec fn present(store: StoreView, ops: Seq<WalEntry>, n: int, key: Seq<char>) -> bool {
    ||| exists|i: int|
        #![trigger ops[i]]
        0 <= i < n && is_on(ops[i]@, key) && says(ops[i]@) is Some && forall|j: int|
            i < j < n ==> !is_on((#[trigger] ops[j])@, key)
    ||| store.contains_key(key) && forall|j: int|
        0 <= j < n ==> !is_on((#[trigger] ops[j])@, key)
}

/// Whether the operation at `n` can be carried out behind those before it: an update needs a key that
/// has a value by then, and the end of a transaction is no operation.
pub open spec fn can_follow(store: StoreView, ops: Seq<WalEntry>, n: int) -> bool {
    match ops[n] {
        WalEntry::Insert { .. } => true,
        WalEntry::Update { key, .. } => present(store, ops, n, key@),
        WalEntry::Delete { .. } => true,
        _ => false,
    }
}

proof fn lemma_applied_count(store: StoreView, ops: Seq<EntryView>)
    ensures
        applied_count(store, ops) <= ops.len(),
        forall|n: int|
            0 <= n < applied_count(store, ops) ==> applicable(
                replay(store, ops.take(n)),
                #[trigger] ops[n],
            ),
        applied_count(store, ops) < ops.len() ==> ({
            let n = applied_count(store, ops) as int;
            !applicable(replay(store, ops.take(n)), ops[n])
        }),
    decreases ops.len(),
{
    if ops.len() > 0 {
        assert(ops.take(0) =~= Seq::<EntryView>::empty());
        if applicable(store, ops[0]) {
            let rest = ops.skip(1);
            let next = apply_op(store, ops[0]);
            lemma_applied_count(next, rest);
            let count = applied_count(store, ops) as int;
            assert forall|n: int| 0 < n <= ops.len() implies #[trigger] replay(store, ops.take(n))
                == replay(next, rest.take(n - 1)) by {
                lemma_replay_first(store, ops.take(n));
                assert(ops.take(n).skip(1) =~= rest.take(n - 1));
            }
            assert forall|n: int| 0 <= n < count implies applicable(
                replay(store, ops.take(n)),
                #[trigger] ops[n],
            ) by {
                if n > 0 {
                    assert(rest[n - 1] == ops[n]);
                    assert(replay(store, ops.take(n)) == replay(next, rest.take(n - 1)));
                }
            }
            if count < ops.len() {
                assert(rest[count - 1] == ops[count]);
                assert(replay(store, ops.take(count)) == replay(next, rest.take(count - 1)));
            }
        }
    }
}

proof fn lemma_replay_first(store: StoreView, ops: Seq<EntryView>)
    requires
        ops.len() > 0,
    ensures
        replay(store, ops) == replay(apply_op(store, ops[0]), ops.skip(1)),
    decreases ops.len(),
{
    if ops.len() == 1 {
        assert(ops.drop_last() =~= Seq::<EntryView>::empty());
        assert(ops.skip(1) =~= Seq::<EntryView>::empty());
        reveal_with_fuel(replay, 2);
    } else {
        lemma_replay_first(store, ops.drop_last());
        assert(ops.drop_last().skip(1) =~= ops.skip(1).drop_last());
    }
}

proof fn lemma_last_on(ops: Seq<WalEntry>, n: int, key: Seq<char>) -> (i: int)
    requires
        0 <= n <= ops.len(),
    ensures
        -1 <= i < n,
        i >= 0 ==> is_on(ops[i]@, key),
        forall|j: int| i < j < n ==> !is_on((#[trigger] ops[j])@, key),
    decreases n,
{
    if n == 0 {
        -1
    } else if is_on(ops[n - 1]@, key) {
        n - 1
    } else {
        lemma_last_on(ops, n - 1, key)
    }
}

proof fn lemma_present(store: StoreView, ops: Seq<WalEntry>, n: int, key: Seq<char>)
    requires
        0 <= n <= ops.len(),
    ensures
        present(store, ops, n, key) <==> replay(store, views(ops).take(n)).contains_key(key),
{
    let done = views(ops).take(n);
    let now = replay(store, done);
    law_last_operation_decides(store, done, key);
    let i = lemma_last_on(ops, n, key);
    assert forall|j: int| 0 <= j < n implies #[trigger] done[j] == ops[j]@ by {}
    if i >= 0 {
        assert(done[i] == ops[i]@);
        assert(lookup(now, key) == says(done[i]));
        if present(store, ops, n, key) {
            assert(is_on(ops[i]@, key));
            let k = choose|k: int|
                #![trigger ops[k]]
                0 <= k < n && is_on(ops[k]@, key) && says(ops[k]@) is Some && forall|j: int|
                    k < j < n ==> !is_on((#[trigger] ops[j])@, key);
            assert(ops[k] == ops[k]);
            assert(k == i) by {
                if k < i {
                    assert(!is_on(ops[i]@, key));
                }
                if i < k {
                    assert(!is_on(ops[k]@, key));
                }
            }
        }
    } else {
        assert forall|j: int| 0 <= j < done.len() implies !is_on(#[trigger] done[j], key) by {
            assert(done[j] == ops[j]@);
        }
        assert(lookup(now, key) == lookup(store, key));
    }
}

proof fn lemma_can_follow(store: StoreView, ops: Seq<WalEntry>, n: int)
    requires
        0 <= n < ops.len(),
    ensures
        can_follow(store, ops, n) <==> applicable(
            replay(store, views(ops).take(n)),
            views(ops)[n],
        ),
{
    assert(views(ops)[n] == ops[n]@);
    match ops[n] {
        WalEntry::Update { key, .. } => {
            lemma_present(store, ops, n, key@);
        },
        _ => {},
    }
}

/// Whether all operations can be carried out, each behind those before it.
pub open spec fn all_follow(store: StoreView, ops: Seq<WalEntry>) -> bool {
    forall|n: int| 0 <= n < ops.len() ==> #[trigger] can_follow(store, ops, n)
}

/// Whether `error` is the refusal of the first operation that cannot be carried out.
pub open spec fn refuses_first(error: WalError, store: StoreView, ops: Seq<WalEntry>) -> bool {
    exists|n: int|
        0 <= n < ops.len() && !#[trigger] can_follow(store, ops, n) && (forall|m: int|
            0 <= m < n ==> #[trigger] can_follow(store, ops, m)) && match ops[n] {
            WalEntry::Update { key, .. } => error matches WalError::ApplyStore(text) && text@
                == "Update on non-existent key: "@ + key@,
            _ => error matches WalError::InvalidState(text) && text@
                == "Cannot apply non-operation entry to store"@,
        }
}

proof fn lemma_committable(tx: Transaction, store: StoreView)
    ensures
        tx.committable(store) <==> tx.state == TxState::Active && all_follow(store, tx.entries@),
        tx.state == TxState::Active && !tx.committable(store) ==> forall|e: WalError| #[trigger]
            tx.is_refusal(e, store) ==> refuses_first(e, store, tx.entries@),
{
    let entries = tx.entries@;
    let ops = views(entries);
    let count = applied_count(store, ops) as int;
    assert(ops.len() == entries.len());
    lemma_applied_count(store, ops);
    assert forall|n: int| 0 <= n < count implies #[trigger] can_follow(store, entries, n) by {
        lemma_can_follow(store, entries, n);
        assert(applicable(replay(store, ops.take(n)), ops[n]));
    }
    if count < ops.len() {
        lemma_can_follow(store, entries, count);
        assert(!can_follow(store, entries, count));
        assert(ops[count] == entries[count]@);
        assert forall|e: WalError| tx.state == TxState::Active && #[trigger]
            tx.is_refusal(e, store) implies refuses_first(e, store, entries) by {
            assert(!can_follow(store, entries, count));
        }
    }
}

/// A transaction can be committed if it is active and the store takes all of its operations, each
/// behind those before it; the entry for the log then names the transaction and the time. Else the
/// error is that of its state, or of the first operation that the store does not take.
pub proof fn law_commit_entry_is_owed_when_all_operations_follow(
    tx: &Transaction,
    store: &Store,
    time: u64,
    r: Result<WalEntry, WalError>,
)
    requires
        call_ensures(Transaction::commit_entry, (tx, store, time), r),
    ensures
        r is Ok <==> tx.state == TxState::Active && all_follow(store@, tx.entries@),
        r matches Ok(entry) ==> entry matches WalEntry::Commit { tx_id, timestamp } && tx_id == tx.id
            && timestamp == time,
        r matches Err(e) ==> if tx.state == TxState::Active {
            refuses_first(e, store@, tx.entries@)
        } else {
            e matches WalError::InvalidState(text) && text@ == "Cannot commit non-active transaction"@
        },
{
    lemma_committable(*tx, store@);
}

/// The log is given the commit of a transaction only where the transaction can be committed, and
/// behind all operations that it still had to be given, in their order. A refusal gives it nothing;
/// a full queue gives it as many of those operations as there was space for.
pub proof fn law_commit_is_logged_behind_the_operations(
    db: &mut Database,
    tx: &mut Transaction,
    time: u64,
    r: Result<LoggedCommit, LogRefusal>,
)
    requires
        call_ensures(Database::log_commit, (db, tx, time), r),
    ensures
        ({
            let fine = old(tx).state == TxState::Active && all_follow(
                old(db).store@,
                old(tx).entries@,
            );
            let before = views(old(db).wal.appended());
            let after = views(final(db).wal.appended());
            let todo = old(tx).to_log();
            let space = old(db).wal.capacity() - old(db).wal.taken();
            &&& final(db).store == old(db).store
            &&& final(tx).entries@ == old(tx).entries@
            &&& final(tx).state == old(tx).state
            &&& match r {
                Ok(logged) => {
                    &&& fine
                    &&& todo.len() < space
                    &&& after.len() == before.len() + todo.len() + 1
                    &&& after.take(before.len() as int) == before
                    &&& after.subrange(before.len() as int, (before.len() + todo.len()) as int) == todo
                    &&& after.last() == (EntryView::Commit { tx_id: old(tx).id, timestamp: time })
                    &&& logged.is_of(*final(tx))
                    &&& logged.log() == final(db).wal.appended()
                },
                Err(LogRefusal::QueueFull) => {
                    &&& fine
                    &&& space <= todo.len()
                    &&& after == before + todo.take(space)
                },
                Err(LogRefusal::Invalid(e)) => {
                    &&& !fine
                    &&& after == before
                    &&& old(tx).state == TxState::Active ==> refuses_first(
                        e,
                        old(db).store@,
                        old(tx).entries@,
                    )
                },
            }
        }),
{
    lemma_committable(*old(tx), old(db).store@);
    let before = views(old(db).wal.appended());
    let after = views(final(db).wal.appended());
    let todo = old(tx).to_log();
    if r is Ok {
        assert(after.take(before.len() as int) =~= before);
        assert(after.subrange(before.len() as int, (before.len() + todo.len()) as int) =~= todo);
    }
}

/// A commit may be carried out only when everything that the log had been given with it has been
/// written, and where the store takes its operations. The test for it says yes only then; and it does
/// then, unless more was logged since than can be counted.
pub proof fn law_commit_waits_for_the_log(
    db: &mut Database,
    tx: &mut Transaction,
    logged: LoggedCommit,
    ready: bool,
)
    requires
        logged.is_of(*old(tx)),
        logged.ops() == views(old(tx).entries@),
        call_ensures(Database::can_finish, (old(db), old(tx), &logged), ready),
    ensures
        forall|r: Result<(), WalError>| #[trigger]
            call_ensures(Transaction::commit, (tx, db, logged), r) && r is Ok
                ==> logged.log().is_prefix_of(old(db).wal.written()),
        ready ==> call_requires(Transaction::commit, (tx, db, logged)),
        ready ==> logged.log().is_prefix_of(old(db).wal.written()) && old(tx).state
            == TxState::Active && all_follow(old(db).store@, old(tx).entries@),
        !ready && old(db).wal.appended().len() - logged.log().len() < 0x1_0000_0000_0000_0000
            ==> !logged.log().is_prefix_of(old(db).wal.written()) || old(tx).state
            != TxState::Active || !all_follow(old(db).store@, old(tx).entries@),
{
    lemma_committable(*old(tx), old(db).store@);
}

/// An abort is carried out only when its entry has been written.
pub proof fn law_abort_waits_for_the_log(
    db: &Database,
    tx: &mut Transaction,
    logged: LoggedAbort,
    written: bool,
)
    requires
        logged.is_of(*old(tx)),
        call_ensures(Database::is_abort_written, (db, old(tx), &logged), written),
    ensures
        forall|r: Result<(), WalError>| #[trigger]
            call_ensures(Transaction::abort, (tx, db, logged), r) && r is Ok
                ==> logged.log().is_prefix_of(db.wal.written()),
        written ==> call_requires(Transaction::abort, (tx, db, logged)),
{
}

/// An abort changes no key: the log is given the abort of an active transaction while there is space,
/// naming the transaction and the time, and the transaction then forgets its operations.
pub proof fn law_abort_changes_no_key(
    db: &mut Database,
    tx: &Transaction,
    time: u64,
    r: Result<LoggedAbort, LogRefusal>,
)
    requires
        call_ensures(Database::log_abort, (db, tx, time), r),
    ensures
        final(db).store == old(db).store,
        r is Ok ==> old(db).wal.taken() < old(db).wal.capacity(),
        r matches Err(LogRefusal::QueueFull) ==> old(db).wal.taken() == old(db).wal.capacity(),
        r is Ok ==> {
            let before = views(old(db).wal.appended());
            let after = views(final(db).wal.appended());
            &&& tx.state == TxState::Active
            &&& after.len() == before.len() + 1
            &&& after.drop_last() == before
            &&& after.last() == (EntryView::Abort { tx_id: tx.id, timestamp: time })
        },
        r is Err ==> final(db).wal == old(db).wal,
        (r is Err && r->Err_0 is Invalid) <==> tx.state != TxState::Active,
{
    if r is Ok {
        let before = views(old(db).wal.appended());
        let after = views(final(db).wal.appended());
        assert(after.drop_last() =~= before);
    }
}

/// An aborted transaction holds no operation and has nothing to give to the log; an abort of one that
/// is not active is refused, and nothing changes.
pub proof fn law_aborted_transaction_is_empty(
    tx: &mut Transaction,
    db: &Database,
    logged: LoggedAbort,
    r: Result<(), WalError>,
)
    requires
        call_ensures(Transaction::abort, (tx, db, logged), r),
    ensures
        r is Ok <==> old(tx).state == TxState::Active,
        r is Ok ==> {
            &&& final(tx).state == TxState::Aborted
            &&& final(tx).entries@.len() == 0
            &&& final(tx).to_log().len() == 0
        },
        r matches Err(e) ==> {
            &&& *final(tx) == *old(tx)
            &&& e matches WalError::InvalidState(text) && text@
                == "Cannot abort non-active transaction"@
        },
        final(tx).id == old(tx).id,
{
}

/// The counter gives out one id after the other; behind the largest number it starts over.
pub proof fn law_ids_count_up(ids: &mut TxIds, id: u64)
    requires
        call_ensures(TxIds::allocate, (ids,), id),
    ensures
        id == old(ids).next(),
        id < u64::MAX ==> final(ids).next() == id + 1,
        id == u64::MAX ==> final(ids).next() == 0,
{
}

/// A new transaction is active, has the next id, and holds nothing.
pub proof fn law_new_transaction_is_active_and_empty(
    db: &Database,
    ids: &mut TxIds,
    tx: Transaction,
)
    requires
        call_ensures(Database::begin_transaction, (db, ids), tx),
    ensures
        tx.id == old(ids).next(),
        tx.state == TxState::Active,
        tx.entries@.len() == 0,
        tx.to_log().len() == 0,
        tx.id < u64::MAX ==> final(ids).next() == tx.id + 1,
{
}

} // verus!

//! Transactions: operations that take effect together or not at all.
use crate::database::{Database, LoggedAbort, LoggedCommit};
use crate::entry::{views, EntryView, WalEntry};
use crate::error::WalError;
use crate::run_laws::TxRun;
use crate::session::{
    committed_run, has_run, is_committing, is_running, lemma_buffered, lemma_committed,
};
use crate::store::{apply_op, replay, Store, StoreView};
use vstd::hash_map::StringHashMap;
use vstd::prelude::*;
use vstd::string::StringExecFns;

verus! {

/// The counter that transaction ids are taken from.
#[derive(Debug)]
pub struct TxIds {
    next: u64,
}

/// The id behind `id`; the first one is behind the last.
pub open spec fn id_after(id: u64) -> u64 {
    if id == u64::MAX {
        0
    } else {
        (id + 1) as u64
    }
}

impl TxIds {
    /// The id that the next transaction gets.
    pub closed spec fn next(&self) -> u64 {
        self.next
    }

    /// A counter that starts with the id 1.
    pub fn new() -> (ids: Self)
        ensures
            ids.next() == 1,
    {
        TxIds { next: 1 }
    }

    /// Takes an id off the counter. Behind the largest id the counter starts over.
    pub fn allocate(&mut self) -> (id: u64)
        ensures
            id == old(self).next(),
            final(self).next() == id_after(id),
    {
        let id: u64 = self.next;
        self.next = id.wrapping_add(1);
        id
    }

    /// Moves the counter behind an id that is taken, unless it stands there already. Behind the
    /// largest id there is nothing, and the counter stays where it is.
    pub fn restore(&mut self, taken: u64)
        ensures
            final(self).next() == if taken < u64::MAX && old(self).next() <= taken {
                (taken + 1) as u64
            } else {
                old(self).next()
            },
    {
        let after: u64 = taken.wrapping_add(1);
        if self.next < after {
            self.next = after;
        }
    }
}

#[derive(Debug, Clone, Copy, PartialEq, Eq, Structural)]
pub enum TxState {
    Active,
    Committed,
    Aborted,
}

/// A transaction with the operations that it will carry out.
#[derive(Debug)]
pub struct Transaction {
    pub id: u64,
    pub state: TxState,
    pub entries: Vec<WalEntry>,
    /// How many of the entries, counted from the first, are dealt with: the log was given the
    /// operations among them, in their order
    pub logged: usize,
}

/// Whether an operation can be applied: an update needs a key that has a value.
pub open spec fn applicable(store: StoreView, op: EntryView) -> bool {
    match op {
        EntryView::Insert { .. } => true,
        EntryView::Update { key, .. } => store.contains_key(key),
        EntryView::Delete { .. } => true,
        _ => false,
    }
}

/// Whether `error` is the refusal of an operation that cannot be applied.
pub open spec fn is_apply_error(error: WalError, op: EntryView) -> bool {
    match op {
        EntryView::Update { key, .. } => error matches WalError::ApplyStore(text) && text@
            == "Update on non-existent key: "@ + key,
        _ => error matches WalError::InvalidState(text) && text@
            == "Cannot apply non-operation entry to store"@,
    }
}

/// Whether `error` is the refusal to commit a transaction that is not active.
pub open spec fn is_commit_refusal(error: WalError) -> bool {
    error matches WalError::InvalidState(text) && text@ == "Cannot commit non-active transaction"@
}

/// Whether `error` is the refusal to abort a transaction that is not active.
pub open spec fn is_abort_refusal(error: WalError) -> bool {
    error matches WalError::InvalidState(text) && text@ == "Cannot abort non-active transaction"@
}

/// How many of the operations are applied before the first that cannot be.
pub open spec fn applied_count(store: StoreView, ops: Seq<EntryView>) -> nat
    decreases ops.len(),
{
    if ops.len() == 0 || !applicable(store, ops[0]) {
        0
    } else {
        1 + applied_count(apply_op(store, ops[0]), ops.skip(1))
    }
}

/// Whether all operations can be applied, one after the other.
pub open spec fn all_applicable(store: StoreView, ops: Seq<EntryView>) -> bool {
    applied_count(store, ops) == ops.len()
}

/// The operations as those of the given transaction.
pub open spec fn with_tx_id(ops: Seq<EntryView>, id: u64) -> Seq<EntryView> {
    ops.map_values(|e: EntryView| e.stamped(id, e.timestamp()))
}

/// The operations among entries.
pub open spec fn ops_only(entries: Seq<EntryView>) -> Seq<EntryView> {
    entries.filter(|e: EntryView| e.is_op())
}

proof fn lemma_ops_push(entries: Seq<EntryView>, entry: EntryView)
    ensures
        ops_only(entries.push(entry)) == if entry.is_op() {
            ops_only(entries).push(entry)
        } else {
            ops_only(entries)
        },
{
    reveal(Seq::filter);
    assert(entries.push(entry).drop_last() =~= entries);
}

pub proof fn lemma_ops_first(entries: Seq<EntryView>)
    requires
        entries.len() > 0,
    ensures
        ops_only(entries) == if entries[0].is_op() {
            seq![entries[0]] + ops_only(entries.skip(1))
        } else {
            ops_only(entries.skip(1))
        },
{
    let first = seq![entries[0]];
    assert(first + entries.skip(1) =~= entries);
    Seq::filter_distributes_over_add(first, entries.skip(1), |e: EntryView| e.is_op());
    lemma_ops_push(Seq::empty(), entries[0]);
    assert(Seq::<EntryView>::empty().push(entries[0]) =~= first);
    reveal(Seq::filter);
    assert(ops_only(entries) =~= if entries[0].is_op() {
        first + ops_only(entries.skip(1))
    } else {
        ops_only(entries.skip(1))
    });
}

/// Where all entries are operations, none is left out.
pub proof fn lemma_ops_all(entries: Seq<EntryView>)
    requires
        forall|i: int| 0 <= i < entries.len() ==> (#[trigger] entries[i]).is_op(),
    ensures
        ops_only(entries) == entries,
    decreases entries.len(),
{
    if entries.len() == 0 {
        reveal(Seq::filter);
        assert(ops_only(entries) =~= entries);
    } else {
        let fewer = entries.drop_last();
        lemma_ops_all(fewer);
        lemma_ops_push(fewer, entries.last());
        assert(fewer.push(entries.last()) =~= entries);
    }
}

impl Transaction {
    /// The entries that the log has not been given yet.
    pub open spec fn unlogged(&self) -> Seq<EntryView> {
        let all = views(self.entries@);
        if self.logged <= all.len() {
            all.skip(self.logged as int)
        } else {
            Seq::empty()
        }
    }

    /// The operations that the log still has to be given before anything else of the transaction, as
    /// the log is given them.
    pub open spec fn to_log(&self) -> Seq<EntryView> {
        with_tx_id(ops_only(self.unlogged()), self.id)
    }

    /// All of the operations, as the log is given them.
    pub open spec fn all_ops(&self) -> Seq<EntryView> {
        with_tx_id(ops_only(views(self.entries@)), self.id)
    }

    /// The operations that the log has been given.
    pub open spec fn given_ops(&self) -> Seq<EntryView> {
        self.all_ops().take(self.all_ops().len() - self.to_log().len())
    }

    /// Whether the transaction can be committed: it is active, and the store takes all of its
    /// operations.
    pub open spec fn committable(&self, store: StoreView) -> bool {
        self.state == TxState::Active && all_applicable(store, views(self.entries@))
    }

    /// Whether `error` is why the transaction cannot be committed.
    pub open spec fn is_refusal(&self, error: WalError, store: StoreView) -> bool {
        if self.state != TxState::Active {
            is_commit_refusal(error)
        } else {
            let ops = views(self.entries@);
            is_apply_error(error, ops[applied_count(store, ops) as int])
        }
    }

    /// Creates a new transaction with an id from the counter. It is active and holds no operations.
    pub fn new(ids: &mut TxIds) -> (tx: Self)
        ensures
            tx.id == old(ids).next(),
            tx.state == TxState::Active,
            tx.entries@ == Seq::<WalEntry>::empty(),
            tx.to_log() == Seq::<EntryView>::empty(),
            final(ids).next() == id_after(tx.id),
    {
        let tx = Transaction {
            id: ids.allocate(),
            state: TxState::Active,
            entries: Vec::new(),
            logged: 0,
        };
        proof {
            reveal(Seq::filter);
            assert(tx.unlogged() =~= Seq::<EntryView>::empty());
            assert(tx.to_log() =~= Seq::<EntryView>::empty());
        }
        tx
    }

    /// Adds a WAL entry to the transaction's local buffer. The log is given it, where it is an
    /// operation, with the next operation that is appended or with the commit.
    pub fn add_entry(&mut self, entry: WalEntry)
        ensures
            final(self).entries@ == old(self).entries@.push(entry),
            final(self).id == old(self).id,
            final(self).state == old(self).state,
            final(self).to_log() == if entry@.is_op() {
                old(self).to_log().push(entry@.stamped(old(self).id, entry@.timestamp()))
            } else {
                old(self).to_log()
            },
            forall|db: Database, before: Seq<EntryView>, txs: Seq<TxRun>|
                is_running(db, before, txs, *old(self)) ==> #[trigger] is_running(
                    db,
                    before,
                    txs,
                    *final(self),
                ),
    {
        if self.logged > self.entries.len() {
            self.logged = self.entries.len();
        }
        self.entries.push(entry);
        proof {
            lemma_ops_push(old(self).unlogged(), entry@);
            assert(self.unlogged() =~= old(self).unlogged().push(entry@));
            assert(views(self.entries@) =~= views(old(self).entries@).push(entry@));
            assert(self.to_log() =~= if entry@.is_op() {
                old(self).to_log().push(entry@.stamped(old(self).id, entry@.timestamp()))
            } else {
                old(self).to_log()
            });
            assert forall|db: Database, before: Seq<EntryView>, txs: Seq<TxRun>|
                is_running(db, before, txs, *old(self)) implies #[trigger] is_running(
                db,
                before,
                txs,
                *self,
            ) by {
                lemma_buffered(db, before, txs, *old(self), *self, entry@);
            }
        }
    }

    /// Gives an operation the id of the transaction and the time `timestamp`, adds it to the local
    /// buffer, and returns what the log is to be given: the operations that it has not been given
    /// yet, in their order, and this one. Fails on the end of a transaction, which is no operation.
    pub fn append_op(&mut self, op: WalEntry, timestamp: u64) -> (r: Result<
        Vec<WalEntry>,
        WalError,
    >)
        ensures
            final(self).id == old(self).id,
            final(self).state == old(self).state,
            match r {
                Ok(given) => {
                    let entry = op@.stamped(old(self).id, timestamp);
                    &&& op@.is_op()
                    &&& views(given@) == old(self).to_log().push(entry)
                    &&& views(final(self).entries@) == views(old(self).entries@).push(entry)
                    &&& final(self).to_log() == Seq::<EntryView>::empty()
                },
                Err(e) => {
                    &&& !op@.is_op()
                    &&& e matches WalError::InvalidState(text) && text@
                        == "Cannot append non-operation entry"@
                    &&& *final(self) == *old(self)
                },
            },
    {
        let entry = match op {
            WalEntry::Insert { key, value, .. } => WalEntry::Insert {
                tx_id: self.id,
                timestamp,
                key,
                value,
            },
            WalEntry::Update { key, old_value, new_value, .. } => WalEntry::Update {
                tx_id: self.id,
                timestamp,
                key,
                old_value,
                new_value,
            },
            WalEntry::Delete { key, old_value, .. } => WalEntry::Delete {
                tx_id: self.id,
                timestamp,
                key,
                old_value,
            },
            _ => {
                return Err(
                    WalError::InvalidState("Cannot append non-operation entry".to_string()),
                );
            },
        };
        let mut given: Vec<WalEntry> = Vec::new();
        let ghost todo = self.to_log();
        proof {
            assert(views(given@) + self.to_log() =~= todo);
        }
        loop
            invariant
                self.id == old(self).id,
                self.state == old(self).state,
                self.entries@ == old(self).entries@,
                todo == old(self).to_log(),
                views(given@) + self.to_log() == todo,
            ensures
                self.to_log().len() == 0,
            decreases self.to_log().len(),
        {
            let ghost left = self.to_log();
            match self.take_unlogged() {
                Some(next) => {
                    let ghost before = views(given@);
                    given.push(next);
                    proof {
                        assert(views(given@) =~= before.push(next@));
                        assert(before.push(left[0]) + left.skip(1) =~= before + left);
                    }
                },
                None => {
                    break;
                },
            }
        }
        let ghost before = views(given@);
        given.push(entry.clone());
        self.entries.push(entry);
        self.logged = self.entries.len();
        proof {
            reveal(Seq::filter);
            assert(before =~= todo);
            assert(views(given@) =~= todo.push(entry@));
            assert(views(self.entries@) =~= views(old(self).entries@).push(entry@));
            assert(self.unlogged() =~= Seq::<EntryView>::empty());
            assert(self.to_log() =~= Seq::<EntryView>::empty());
        }
        Ok(given)
    }

    /// Applies a single operation to the store.
    ///
    /// - Insert: Adds key-value pair
    /// - Update: Modifies existing value (fails if key doesn't exist)
    /// - Delete: Removes key-value pair
    pub fn apply_to_store(&self, store: &mut Store, op: &WalEntry) -> (r: Result<(), WalError>)
        ensures
            match r {
                Ok(_) => {
                    &&& applicable(old(store)@, op@)
                    &&& final(store)@ == apply_op(old(store)@, op@)
                },
                Err(e) => {
                    &&& !applicable(old(store)@, op@)
                    &&& is_apply_error(e, op@)
                    &&& final(store)@ == old(store)@
                },
            },
    {
        match op {
            WalEntry::Insert { .. } => {
                store.apply(op);
            },
            WalEntry::Update { key, .. } => {
                if !store.contains_key(key.as_str()) {
                    let mut text = "Update on non-existent key: ".to_string();
                    text.append(key.as_str());
                    return Err(WalError::ApplyStore(text));
                }
                store.apply(op);
            },
            WalEntry::Delete { .. } => {
                store.apply(op);
            },
            _ => {
                return Err(
                    WalError::InvalidState("Cannot apply non-operation entry to store".to_string()),
                );
            },
        }
        Ok(())
    }

    /// Looks whether the store takes all operations, one after the other, and gives the error of the
    /// first that it does not take. The store stays as it is.
    fn check(&self, store: &Store) -> (r: Result<(), WalError>)
        ensures
            match r {
                Ok(_) => all_applicable(store@, views(self.entries@)),
                Err(e) => {
                    let ops = views(self.entries@);
                    let n = applied_count(store@, ops) as int;
                    n < ops.len() && is_apply_error(e, ops[n])
                },
            },
    {
        let ghost ops = views(self.entries@);
        let ghost mut now = store@;
        let mut changed: StringHashMap<bool> = StringHashMap::new();
        let mut i: usize = 0;
        proof {
            assert(ops.skip(0) =~= ops);
        }
        while i < self.entries.len()
            invariant
                i <= self.entries@.len(),
                ops == views(self.entries@),
                applied_count(store@, ops) == i + applied_count(now, ops.skip(i as int)),
                forall|key: Seq<char>| #[trigger]
                    now.contains_key(key) == if changed@.contains_key(key) {
                        changed@[key]
                    } else {
                        store@.contains_key(key)
                    },
            decreases self.entries@.len() - i,
        {
            proof {
                assert(ops.skip(i as int)[0] == ops[i as int]);
                assert(ops.skip(i as int).skip(1) =~= ops.skip(i + 1));
            }
            match &self.entries[i] {
                WalEntry::Insert { key, .. } => {
                    changed.insert(key.clone(), true);
                },
                WalEntry::Update { key, .. } => {
                    let present: bool = match changed.get(key.as_str()) {
                        Some(present) => *present,
                        None => store.contains_key(key.as_str()),
                    };
                    if !present {
                        let mut text = "Update on non-existent key: ".to_string();
                        text.append(key.as_str());
                        return Err(WalError::ApplyStore(text));
                    }
                },
                WalEntry::Delete { key, .. } => {
                    changed.insert(key.clone(), false);
                },
                _ => {
                    return Err(
                        WalError::InvalidState(
                            "Cannot apply non-operation entry to store".to_string(),
                        ),
                    );
                },
            }
            proof {
                now = apply_op(now, ops[i as int]);
            }
            i = i + 1;
        }
        Ok(())
    }

    /// The entry that commits the transaction, for the log. Fails on a transaction that is not
    /// active, and where the store does not take all of its operations.
    pub fn commit_entry(&self, store: &Store, timestamp: u64) -> (r: Result<WalEntry, WalError>)
        ensures
            match r {
                Ok(entry) => {
                    &&& self.committable(store@)
                    &&& entry@ == (EntryView::Commit { tx_id: self.id, timestamp })
                },
                Err(e) => !self.committable(store@) && self.is_refusal(e, store@),
            },
    {
        if self.state != TxState::Active {
            return Err(WalError::InvalidState("Cannot commit non-active transaction".to_string()));
        }
        match self.check(store) {
            Ok(_) => Ok(WalEntry::Commit { tx_id: self.id, timestamp }),
            Err(e) => Err(e),
        }
    }

    /// Takes the next operation that the log has to be given before anything else of the transaction.
    pub fn take_unlogged(&mut self) -> (r: Option<WalEntry>)
        ensures
            final(self).id == old(self).id,
            final(self).state == old(self).state,
            final(self).entries@ == old(self).entries@,
            match r {
                Some(entry) => {
                    &&& old(self).to_log().len() > 0
                    &&& entry@ == old(self).to_log()[0]
                    &&& final(self).to_log() == old(self).to_log().skip(1)
                },
                None => {
                    &&& old(self).to_log().len() == 0
                    &&& final(self).to_log() == old(self).to_log()
                },
            },
    {
        while self.logged < self.entries.len()
            invariant
                self.id == old(self).id,
                self.state == old(self).state,
                self.entries@ == old(self).entries@,
                self.to_log() == old(self).to_log(),
            decreases self.entries@.len() - self.logged,
        {
            let ghost rest = self.unlogged();
            let next: usize = self.logged;
            self.logged = next + 1;
            proof {
                lemma_ops_first(rest);
                assert(rest[0] == self.entries@[next as int]@);
                assert(self.unlogged() =~= rest.skip(1));
            }
            if self.entries[next].is_op() {
                proof {
                    let more = ops_only(rest.skip(1));
                    assert(with_tx_id(seq![rest[0]] + more, self.id).skip(1) =~= with_tx_id(
                        more,
                        self.id,
                    ));
                }
                return Some(self.entries[next].with_tx_id(self.id));
            }
        }
        proof {
            reveal(Seq::filter);
            assert(self.unlogged() =~= Seq::<EntryView>::empty());
        }
        None
    }

    /// Commits the transaction, once everything that was logged for it has been written: marks it as
    /// committed and applies all of its operations to the store in order. Fails on a transaction
    /// that is not active; then nothing changes.
    pub fn commit(&mut self, db: &mut Database, logged: LoggedCommit) -> (r: Result<(), WalError>)
        requires
            logged.is_of(*old(self)),
            logged.log().is_prefix_of(old(db).wal.written()),
            all_applicable(old(db).store@, logged.ops()),
        ensures
            final(db).wal == old(db).wal,
            final(self).id == old(self).id,
            final(self).entries@ == old(self).entries@,
            match r {
                Ok(_) => {
                    &&& old(self).state == TxState::Active
                    &&& final(self).state == TxState::Committed
                    &&& logged.log().is_prefix_of(final(db).wal.written())
                    &&& final(db).store@ == replay(old(db).store@, views(old(self).entries@))
                    &&& forall|before: Seq<EntryView>, txs: Seq<TxRun>, timestamp: u64|
                        is_committing(*old(db), before, txs, *old(self), timestamp) ==> #[trigger]
                        has_run(
                            *final(db),
                            before,
                            txs.push(committed_run(*old(self), timestamp)),
                        )
                },
                Err(e) => {
                    &&& old(self).state != TxState::Active
                    &&& is_commit_refusal(e)
                    &&& *final(self) == *old(self)
                    &&& final(db).store@ == old(db).store@
                },
            },
    {
        if self.state != TxState::Active {
            return Err(WalError::InvalidState("Cannot commit non-active transaction".to_string()));
        }
        self.state = TxState::Committed;
        db.store.apply_all(&self.entries);
        proof {
            assert forall|before: Seq<EntryView>, txs: Seq<TxRun>, timestamp: u64|
                is_committing(*old(db), before, txs, *old(self), timestamp) implies #[trigger]
                has_run(*db, before, txs.push(committed_run(*old(self), timestamp))) by {
                lemma_committed(*old(db), *db, before, txs, *old(self), timestamp);
            }
        }
        Ok(())
    }

    /// The entry that aborts the transaction, for the log. Fails on a transaction that is not
    /// active.
    pub fn abort_entry(&self, timestamp: u64) -> (r: Result<WalEntry, WalError>)
        ensures
            match r {
                Ok(entry) => {
                    &&& self.state == TxState::Active
                    &&& entry@ == (EntryView::Abort { tx_id: self.id, timestamp })
                },
                Err(e) => self.state != TxState::Active && is_abort_refusal(e),
            },
    {
        if self.state != TxState::Active {
            return Err(WalError::InvalidState("Cannot abort non-active transaction".to_string()));
        }
        Ok(WalEntry::Abort { tx_id: self.id, timestamp })
    }

    /// Aborts the transaction, once its abort has been written: marks it as aborted and forgets its
    /// operations. Fails on a transaction that is not active; then nothing changes.
    pub fn abort(&mut self, db: &Database, logged: LoggedAbort) -> (r: Result<(), WalError>)
        requires
            logged.is_of(*old(self)),
            logged.log().is_prefix_of(db.wal.written()),
        ensures
            final(self).id == old(self).id,
            match r {
                Ok(_) => {
                    &&& old(self).state == TxState::Active
                    &&& final(self).state == TxState::Aborted
                    &&& logged.log().is_prefix_of(db.wal.written())
                    &&& final(self).entries@ == Seq::<WalEntry>::empty()
                    &&& final(self).to_log() == Seq::<EntryView>::empty()
                },
                Err(e) => {
                    &&& old(self).state != TxState::Active
                    &&& is_abort_refusal(e)
                    &&& *final(self) == *old(self)
                },
            },
    {
        if self.state != TxState::Active {
            return Err(WalError::InvalidState("Cannot abort non-active transaction".to_string()));
        }
        self.state = TxState::Aborted;
        self.entries.clear();
        proof {
            reveal(Seq::filter);
            assert(self.unlogged() =~= Seq::<EntryView>::empty());
            assert(self.to_log() =~= Seq::<EntryView>::empty());
        }
        Ok(())
    }
}

/// The id that is given out `n` transactions after `id`.
pub open spec fn id_after_many(id: u64, n: nat) -> u64
    decreases n,
{
    if n == 0 {
        id
    } else {
        id_after(id_after_many(id, (n - 1) as nat))
    }
}

proof fn lemma_id_after_many(id: u64, n: nat)
    requires
        n <= u64::MAX,
    ensures
        id_after_many(id, n) == if id + n <= u64::MAX {
            id + n
        } else {
            id + n - u64::MAX - 1
        },
    decreases n,
{
    if n > 0 {
        lemma_id_after_many(id, (n - 1) as nat);
    }
}

/// No two transactions of one counter have the same id, unless the counter has run through all
/// ids in between.
pub proof fn law_ids_are_unique(first: u64, m: nat, n: nat)
    requires
        m < n,
        n - m <= u64::MAX,
    ensures
        id_after_many(first, m) != id_after_many(first, n),
{
    lemma_id_after_many_splits(first, m, (n - m) as nat);
    lemma_id_after_many(id_after_many(first, m), (n - m) as nat);
}

proof fn lemma_id_after_many_splits(id: u64, m: nat, k: nat)
    ensures
        id_after_many(id, m + k) == id_after_many(id_after_many(id, m), k),
    decreases k,
{
    if k > 0 {
        lemma_id_after_many_splits(id, m, (k - 1) as nat);
    }
}

/// Operations of one transaction, without a marker.
pub open spec fn are_ops_of(ops: Seq<EntryView>, id: u64) -> bool {
    forall|i: int| 0 <= i < ops.len() ==> (#[trigger] ops[i]).tx_id() == id && ops[i].is_op()
}

/// Whatever operations a transaction is given, it holds operations with its own id.
pub proof fn law_operations_belong_to_their_transaction(
    ops: Seq<EntryView>,
    op: EntryView,
    id: u64,
    timestamp: u64,
)
    requires
        are_ops_of(ops, id),
        op.is_op(),
    ensures
        are_ops_of(ops.push(op.stamped(id, timestamp)), id),
        op.stamped(id, timestamp).timestamp() == timestamp,
        forall|store: StoreView|
            #![trigger apply_op(store, op)]
            apply_op(store, op.stamped(id, timestamp)) == apply_op(store, op),
{
}

} // verus!

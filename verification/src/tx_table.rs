//! The transactions of a log, each with its operations and its end.
use crate::entry::{views, EntryView, WalEntry};
use crate::replay::{
    id_end, ids_with, lemma_no_entries, lemma_outcome_has_entries, lemma_push, lemma_replay_gap,
    outcome, replay_range, tx_ids, tx_ops, RecoveryAction,
};
use crate::store::Store;
use std::collections::BTreeMap;
use vstd::prelude::*;
use vstd::std_specs::cmp::OrdSpec;
use vstd::std_specs::iter::IteratorSpec;

verus! {

broadcast use {
    vstd::std_specs::btree::group_btree_axioms,
    vstd::laws_cmp::group_laws_cmp,
};

/// A committed transaction stands in any list of the transactions.
proof fn lemma_listed(ids: Seq<u64>, entries: Seq<EntryView>, id: u64) -> (i: int)
    requires
        ids.to_set() == tx_ids(entries),
        outcome(entries, id) == RecoveryAction::Commit,
    ensures
        0 <= i < ids.len(),
        ids[i] == id,
{
    lemma_outcome_has_entries(entries, id);
    assert(ids.to_set().contains(id));
    ids.index_of(id)
}

proof fn lemma_contains_push(s: Seq<u64>, x: u64)
    ensures
        forall|y: u64| s.push(x).contains(y) <==> s.contains(y) || x == y,
{
    assert forall|y: u64| s.push(x).contains(y) <==> s.contains(y) || x == y by {
        if s.contains(y) {
            assert(s.push(x)[s.index_of(y)] == y);
        }
        assert(s.push(x)[s.len() as int] == x);
    }
}

/// What the log holds of one transaction.
struct TxGroup {
    ops: Vec<WalEntry>,
    action: RecoveryAction,
}

/// The transactions of a log, by their ids.
pub(crate) struct TxTable {
    groups: BTreeMap<u64, TxGroup>,
}

/// The keys of `map` in ascending order.
fn sorted_keys<V>(map: &BTreeMap<u64, V>) -> (keys: Vec<u64>)
    ensures
        forall|i: int, j: int| 0 <= i < j < keys@.len() ==> keys@[i] < keys@[j],
        keys@.to_set() == map@.dom(),
{
    let mut keys: Vec<u64> = Vec::new();
    let iter = map.iter();
    let ghost pairs = iter.remaining();
    let ghost firsts = pairs.map_values(|pair: (&u64, &V)| *pair.0);
    for pair in it: iter
        invariant
            it.seq() == pairs,
            keys@.len() == it.index(),
            forall|i: int| 0 <= i < keys@.len() ==> keys@[i] == *(#[trigger] pairs[i]).0,
    {
        keys.push(*pair.0);
    }
    proof {
        assert(keys@ =~= firsts);
        assert(vstd::std_specs::btree::increasing_seq(firsts));
        assert forall|i: int, j: int| 0 <= i < j < keys@.len() implies keys@[i] < keys@[j] by {
            assert(firsts[i].cmp_spec(&firsts[j]) is Less);
        }
        assert(keys@.to_set() =~= map@.dom()) by {
            assert forall|k: u64| map@.contains_key(k) implies keys@.contains(k) by {
                assert(pairs.contains((&k, &map@[k])));
                let i = pairs.index_of((&k, &map@[k]));
                assert(keys@[i] == k);
            }
            assert forall|k: u64| keys@.contains(k) implies map@.contains_key(k) by {
                let i = keys@.index_of(k);
                assert(map@.contains_key(*pairs[i].0));
            }
        }
    }
    keys
}

impl TxTable {
    /// Whether the table holds the transactions of the given entries.
    pub(crate) closed spec fn holds(&self, entries: Seq<EntryView>) -> bool {
        &&& self.groups@.dom() == tx_ids(entries)
        &&& forall|id: u64| #[trigger]
            self.groups@.contains_key(id) ==> {
                &&& views(self.groups@[id].ops@) == tx_ops(entries, id)
                &&& self.groups@[id].action == outcome(entries, id)
            }
    }

    /// Adds an entry to its transaction. A marker settles how the transaction ended, unless another
    /// one follows.
    fn record(&mut self, entry: &WalEntry, Ghost(entries): Ghost<Seq<EntryView>>)
        requires
            old(self).holds(entries),
        ensures
            final(self).holds(entries.push(entry@)),
    {
        let id: u64 = entry.tx_id();
        let ghost before = self.groups@;
        let mut group = match self.groups.remove(&id) {
            Some(group) => group,
            None => TxGroup { ops: Vec::new(), action: RecoveryAction::Incomplete },
        };
        proof {
            lemma_push(entries, entry@);
            if !before.contains_key(id) {
                lemma_no_entries(entries, id);
                assert(views(group.ops@) =~= Seq::empty());
            }
        }
        let ghost ops = views(group.ops@);
        match entry {
            WalEntry::Commit { .. } => {
                group.action = RecoveryAction::Commit;
            },
            WalEntry::Abort { .. } => {
                group.action = RecoveryAction::Rollback;
            },
            _ => {
                group.ops.push(entry.clone());
                assert(views(group.ops@) =~= ops.push(entry@));
            },
        }
        self.groups.insert(id, group);
        proof {
            assert(self.groups@.dom() =~= tx_ids(entries.push(entry@)));
        }
    }

    /// The table of the given entries.
    pub(crate) fn of(entries: &Vec<WalEntry>) -> (table: Self)
        ensures
            table.holds(views(entries@)),
    {
        let ghost all = views(entries@);
        let mut table = TxTable { groups: BTreeMap::new() };
        proof {
            assert(table.groups@.dom() =~= tx_ids(all.take(0)));
        }
        let mut i: usize = 0;
        while i < entries.len()
            invariant
                i <= entries@.len(),
                all == views(entries@),
                table.holds(all.take(i as int)),
            decreases entries@.len() - i,
        {
            table.record(&entries[i], Ghost(all.take(i as int)));
            assert(all.take(i as int).push(entries@[i as int]@) =~= all.take(i + 1));
            i = i + 1;
        }
        assert(all.take(i as int) =~= all);
        table
    }

    /// How many transactions there are.
    pub(crate) fn len(&self, Ghost(entries): Ghost<Seq<EntryView>>) -> (len: usize)
        requires
            self.holds(entries),
        ensures
            len == tx_ids(entries).len(),
    {
        self.groups.len()
    }

    /// How many transactions ended in the given way.
    pub(crate) fn count(&self, action: RecoveryAction, Ghost(entries): Ghost<Seq<EntryView>>) -> (n:
        usize)
        requires
            self.holds(entries),
        ensures
            n == ids_with(entries, action).len(),
    {
        let ids = self.ids(action, Ghost(entries));
        proof {
            assert(ids@.no_duplicates());
            ids@.unique_seq_to_set();
        }
        ids.len()
    }

    /// The ids of the transactions that ended in the given way, in ascending order.
    pub(crate) fn ids(&self, action: RecoveryAction, Ghost(entries): Ghost<Seq<EntryView>>) -> (r:
        Vec<u64>)
        requires
            self.holds(entries),
        ensures
            forall|a: int, b: int| 0 <= a < b < r@.len() ==> r@[a] < r@[b],
            r@.to_set() == ids_with(entries, action),
    {
        let ids = sorted_keys(&self.groups);
        let mut r: Vec<u64> = Vec::new();
        let mut i: usize = 0;
        while i < ids.len()
            invariant
                self.holds(entries),
                i <= ids@.len(),
                ids@.to_set() == self.groups@.dom(),
                forall|a: int, b: int| 0 <= a < b < ids@.len() ==> ids@[a] < ids@[b],
                forall|a: int, b: int| 0 <= a < b < r@.len() ==> r@[a] < r@[b],
                forall|a: int, b: int|
                    0 <= a < r@.len() && i <= b < ids@.len() ==> r@[a] < ids@[b],
                forall|id: u64|
                    r@.contains(id) <==> ids@.take(i as int).contains(id) && outcome(entries, id)
                        == action,
            decreases ids@.len() - i,
        {
            let id: u64 = ids[i];
            let ghost before = r@;
            proof {
                assert(ids@.contains(id));
                assert(self.groups@.contains_key(id));
            }
            match self.groups.get(&id) {
                Some(group) => {
                    if group.action == action {
                        r.push(id);
                    }
                },
                None => {},
            }
            proof {
                lemma_contains_push(ids@.take(i as int), id);
                lemma_contains_push(before, id);
                assert(ids@.take(i + 1) =~= ids@.take(i as int).push(id));
            }
            i = i + 1;
        }
        proof {
            assert(ids@.take(i as int) =~= ids@);
            assert forall|id: u64| r@.to_set().contains(id) == ids_with(
                entries,
                action,
            ).contains(id) by {
                assert(ids@.to_set().contains(id) == ids@.contains(id));
            }
            assert(r@.to_set() =~= ids_with(entries, action));
        }
        r
    }

    /// Carries out the operations of the committed transactions whose ids are at least `lo`, in
    /// ascending order of the ids.
    pub(crate) fn replay_into(
        &self,
        store: &mut Store,
        lo: u64,
        Ghost(entries): Ghost<Seq<EntryView>>,
    )
        requires
            self.holds(entries),
        ensures
            final(store)@ == replay_range(old(store)@, entries, lo as int, id_end()),
    {
        let ids = sorted_keys(&self.groups);
        let ghost mut next: int = lo as int;
        let mut i: usize = 0;
        while i < ids.len()
            invariant
                self.holds(entries),
                i <= ids@.len(),
                ids@.to_set() == self.groups@.dom(),
                forall|a: int, b: int| 0 <= a < b < ids@.len() ==> ids@[a] < ids@[b],
                lo <= next <= id_end(),
                forall|j: int| 0 <= j < i ==> ids@[j] < next,
                forall|j: int| i <= j < ids@.len() ==> next <= ids@[j] || ids@[j] < lo,
                store@ == replay_range(old(store)@, entries, lo as int, next),
            decreases ids@.len() - i,
        {
            let id: u64 = ids[i];
            proof {
                assert(ids@.contains(id));
                assert(self.groups@.contains_key(id));
            }
            if id >= lo {
                proof {
                    assert forall|x: u64| next <= x < id implies outcome(entries, x)
                        != RecoveryAction::Commit by {
                        if outcome(entries, x) == RecoveryAction::Commit {
                            let j = lemma_listed(ids@, entries, x);
                        }
                    }
                    lemma_replay_gap(old(store)@, entries, lo as int, next, id as int);
                    next = id + 1;
                }
                match self.groups.get(&id) {
                    Some(group) => {
                        if group.action == RecoveryAction::Commit {
                            store.apply_all(&group.ops);
                        }
                    },
                    None => {},
                }
            }
            i = i + 1;
        }
        proof {
            assert forall|x: u64| next <= x < id_end() implies outcome(entries, x)
                != RecoveryAction::Commit by {
                if outcome(entries, x) == RecoveryAction::Commit {
                    let j = lemma_listed(ids@, entries, x);
                }
            }
            lemma_replay_gap(old(store)@, entries, lo as int, next, id_end());
        }
    }

    /// The largest id of a committed transaction.
    pub(crate) fn last_committed(&self, Ghost(entries): Ghost<Seq<EntryView>>) -> (r: Option<u64>)
        requires
            self.holds(entries),
        ensures
            match r {
                Some(last) => {
                    &&& outcome(entries, last) == RecoveryAction::Commit
                    &&& forall|id: u64|
                        outcome(entries, id) == RecoveryAction::Commit ==> id <= last
                },
                None => forall|id: u64| outcome(entries, id) != RecoveryAction::Commit,
            },
    {
        let ids = sorted_keys(&self.groups);
        let mut i: usize = ids.len();
        while i > 0
            invariant
                self.holds(entries),
                i <= ids@.len(),
                ids@.to_set() == self.groups@.dom(),
                forall|a: int, b: int| 0 <= a < b < ids@.len() ==> ids@[a] < ids@[b],
                forall|j: int|
                    i <= j < ids@.len() ==> outcome(entries, #[trigger] ids@[j])
                        != RecoveryAction::Commit,
            decreases i,
        {
            i = i - 1;
            let id: u64 = ids[i];
            proof {
                assert(ids@.contains(id));
                assert(self.groups@.contains_key(id));
            }
            match self.groups.get(&id) {
                Some(group) => {
                    if group.action == RecoveryAction::Commit {
                        proof {
                            assert forall|x: u64|
                                outcome(entries, x) == RecoveryAction::Commit implies x <= id by {
                                let j = lemma_listed(ids@, entries, x);
                            }
                        }
                        return Some(id);
                    }
                },
                None => {},
            }
        }
        proof {
            assert forall|x: u64| outcome(entries, x) != RecoveryAction::Commit by {
                if outcome(entries, x) == RecoveryAction::Commit {
                    let j = lemma_listed(ids@, entries, x);
                }
            }
        }
        None
    }
}

} // verus!

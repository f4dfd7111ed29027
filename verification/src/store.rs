//! The in-memory store: keys and their values.
use crate::entry::{views, EntryView, WalEntry};
use vstd::hash_map::StringHashMap;
use vstd::prelude::*;

verus! {

/// What a store holds: a value for each key.
pub type StoreView = Map<Seq<char>, Seq<u8>>;

/// The in-memory store: hash maps from keys to values and to their places in a list of all keys.
pub struct Store {
    table: Table,
}

struct Table {
    values: StringHashMap<Vec<u8>>,
    /// The place of each key in `keys`
    places: StringHashMap<usize>,
    keys: Vec<String>,
}

/// What a list of keys says.
pub open spec fn key_views(keys: Seq<String>) -> Seq<Seq<char>> {
    keys.map_values(|key: String| key@)
}

impl View for Store {
    type V = StoreView;

    closed spec fn view(&self) -> StoreView {
        self.table.values@.map_values(|value: Vec<u8>| value@)
    }
}

impl Table {
    /// The list holds each key that has a value, once, at its place.
    spec fn wf(self) -> bool {
        &&& self.values@.dom() == self.places@.dom()
        &&& forall|key: Seq<char>| #[trigger]
            self.places@.contains_key(key) ==> self.places@[key] < self.keys@.len()
                && self.keys@[self.places@[key] as int]@ == key
        &&& forall|i: int|
            0 <= i < self.keys@.len() ==> self.places@.contains_key(#[trigger] self.keys@[i]@)
                && self.places@[self.keys@[i]@] == i
    }

    fn new() -> (table: Self)
        ensures
            table.wf(),
            table.values@ == Map::<Seq<char>, Vec<u8>>::empty(),
    {
        let table = Table {
            values: StringHashMap::new(),
            places: StringHashMap::new(),
            keys: Vec::new(),
        };
        assert(table.values@.dom() =~= table.places@.dom());
        table
    }

    fn insert(&mut self, key: String, value: Vec<u8>)
        requires
            old(self).wf(),
        ensures
            final(self).wf(),
            final(self).values@ == old(self).values@.insert(key@, value),
    {
        if !self.places.contains_key(key.as_str()) {
            let place: usize = self.keys.len();
            self.keys.push(key.clone());
            self.places.insert(key.clone(), place);
        }
        self.values.insert(key, value);
        assert(self.values@.dom() =~= self.places@.dom());
    }

    fn remove(&mut self, key: &str)
        requires
            old(self).wf(),
        ensures
            final(self).wf(),
            final(self).values@ == old(self).values@.remove(key@),
    {
        let place: usize = match self.places.get(key) {
            Some(place) => *place,
            None => {
                assert(self.values@ =~= self.values@.remove(key@));
                return;
            },
        };
        let last: usize = self.keys.len() - 1;
        self.values.remove(key);
        self.places.remove(key);
        self.keys.swap_remove(place);
        if place < last {
            let moved = self.keys[place].clone();
            assert(moved@ == old(self).keys@[last as int]@);
            self.places.insert(moved, place);
        }
        assert(self.values@.dom() =~= self.places@.dom());
    }
}

/// The store after an operation; the end of a transaction leaves it as it is.
pub open spec fn apply_op(store: StoreView, entry: EntryView) -> StoreView {
    match entry {
        EntryView::Insert { key, value, .. } => store.insert(key, value),
        EntryView::Update { key, new_value, .. } => store.insert(key, new_value),
        EntryView::Delete { key, .. } => store.remove(key),
        _ => store,
    }
}

/// The store after several operations.
pub open spec fn replay(store: StoreView, ops: Seq<EntryView>) -> StoreView
    decreases ops.len(),
{
    if ops.len() == 0 {
        store
    } else {
        apply_op(replay(store, ops.drop_last()), ops.last())
    }
}

impl Store {
    #[verifier::type_invariant]
    spec fn inv(self) -> bool {
        self.table.wf()
    }

    /// An empty store.
    pub fn new() -> (store: Self)
        ensures
            store@ == StoreView::empty(),
    {
        let store = Store { table: Table::new() };
        assert(store@ =~= StoreView::empty());
        store
    }

    /// Gives `key` the value `value`, whether or not it had one.
    pub fn insert(&mut self, key: String, value: Vec<u8>)
        ensures
            final(self)@ == old(self)@.insert(key@, value@),
    {
        proof {
            use_type_invariant(&*self);
        }
        let mut table = Table::new();
        std::mem::swap(&mut table, &mut self.table);
        table.insert(key, value);
        self.table = table;
        assert(self@ =~= old(self)@.insert(key@, value@));
    }

    /// Takes the value of `key` away, if it has one.
    pub fn remove(&mut self, key: &str)
        ensures
            final(self)@ == old(self)@.remove(key@),
    {
        proof {
            use_type_invariant(&*self);
        }
        let mut table = Table::new();
        std::mem::swap(&mut table, &mut self.table);
        table.remove(key);
        self.table = table;
        assert(self@ =~= old(self)@.remove(key@));
    }

    /// The value of `key`, if it has one.
    pub fn get(&self, key: &str) -> (value: Option<&Vec<u8>>)
        ensures
            match value {
                Some(v) => self@.contains_key(key@) && v@ == self@[key@],
                None => !self@.contains_key(key@),
            },
    {
        self.table.values.get(key)
    }

    /// Whether `key` has a value.
    pub fn contains_key(&self, key: &str) -> (found: bool)
        ensures
            found == self@.contains_key(key@),
    {
        self.table.values.contains_key(key)
    }

    /// The number of keys that have a value.
    pub fn len(&self) -> (len: usize)
        ensures
            len == self@.len(),
    {
        let len: usize = self.table.values.len();
        assert(self@.dom() =~= self.table.values@.dom());
        len
    }

    /// The keys that have a value, each once, in no particular order.
    pub fn keys(&self) -> (keys: Vec<String>)
        ensures
            key_views(keys@).no_duplicates(),
            key_views(keys@).to_set() == self@.dom(),
    {
        proof {
            use_type_invariant(self);
        }
        let mut keys: Vec<String> = Vec::new();
        let mut i: usize = 0;
        while i < self.table.keys.len()
            invariant
                i <= self.table.keys@.len(),
                key_views(keys@) == key_views(self.table.keys@).take(i as int),
            decreases self.table.keys@.len() - i,
        {
            let ghost all = key_views(self.table.keys@);
            let ghost before = key_views(keys@);
            let key = self.table.keys[i].clone();
            keys.push(key);
            proof {
                assert(key_views(keys@) =~= before.push(key@));
                assert(all.take(i + 1) =~= all.take(i as int).push(all[i as int]));
            }
            i = i + 1;
        }
        proof {
            let all = key_views(self.table.keys@);
            assert(all.take(i as int) =~= all);
            assert(all.no_duplicates()) by {
                assert forall|a: int, b: int|
                    0 <= a < all.len() && 0 <= b < all.len() && a != b implies all[a] != all[b] by {
                    assert(self.table.places@[self.table.keys@[a]@] == a);
                    assert(self.table.places@[self.table.keys@[b]@] == b);
                }
            }
            assert forall|key: Seq<char>| #[trigger] all.to_set().contains(key)
                == self@.dom().contains(key) by {
                if self.table.places@.contains_key(key) {
                    assert(all[self.table.places@[key] as int] == key);
                }
                if all.contains(key) {
                    let j = all.index_of(key);
                    assert(self.table.places@.contains_key(self.table.keys@[j]@));
                }
                assert(self.table.values@.dom().contains(key) == self.table.places@.dom().contains(
                    key,
                ));
            }
            assert(all.to_set() =~= self@.dom());
        }
        keys
    }

    /// Carries out one operation; the end of a transaction leaves the store as it is.
    pub fn apply(&mut self, entry: &WalEntry)
        ensures
            final(self)@ == apply_op(old(self)@, entry@),
    {
        match entry {
            WalEntry::Insert { key, value, .. } => {
                self.insert(key.clone(), value.clone());
            },
            WalEntry::Update { key, new_value, .. } => {
                self.insert(key.clone(), new_value.clone());
            },
            WalEntry::Delete { key, .. } => {
                self.remove(key.as_str());
            },
            _ => {},
        }
    }

    /// Carries out several operations, one after the other.
    pub fn apply_all(&mut self, ops: &Vec<WalEntry>)
        ensures
            final(self)@ == replay(old(self)@, views(ops@)),
    {
        let ghost all = views(ops@);
        let mut i: usize = 0;
        while i < ops.len()
            invariant
                i <= ops@.len(),
                all == views(ops@),
                self@ == replay(old(self)@, all.take(i as int)),
            decreases ops@.len() - i,
        {
            self.apply(&ops[i]);
            proof {
                let done = all.take(i + 1);
                assert(done.drop_last() =~= all.take(i as int));
                assert(done.last() == ops@[i as int]@);
            }
            i = i + 1;
        }
        assert(all.take(i as int) =~= all);
    }
}

} // verus!

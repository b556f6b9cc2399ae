//! A finite map from accounts to values: the contracts' per-account storage.
use crate::primitives::AccountId;
use vstd::prelude::*;

verus! {

/// The entries `s` hold each key at most once.
pub open spec fn keys_distinct<V>(s: Seq<(AccountId, V)>) -> bool {
    forall|i: int, j: int| 0 <= i < j < s.len() ==> s[i].0 != s[j].0
}

/// Some entry of `s` has key `k`.
pub open spec fn has_key<V>(s: Seq<(AccountId, V)>, k: AccountId) -> bool {
    exists|i: int| 0 <= i < s.len() && s[i].0 == k
}

/// The map that a list of entries with distinct keys stands for.
pub open spec fn entries_map<V>(s: Seq<(AccountId, V)>) -> Map<AccountId, V> {
    Map::new(
        |k: AccountId| has_key(s, k),
        |k: AccountId| s[choose|i: int| 0 <= i < s.len() && s[i].0 == k].1,
    )
}

/// A map from accounts to values, kept as a list of entries with distinct keys.
pub struct AccountMap<V> {
    entries: Vec<(AccountId, V)>,
}

impl<V> View for AccountMap<V> {
    type V = Map<AccountId, V>;

    closed spec fn view(&self) -> Map<AccountId, V> {
        entries_map(self.entries@)
    }
}

/// In entries with distinct keys, the entry at `i` gives the map's value at its key.
proof fn lemma_entry_in_map<V>(s: Seq<(AccountId, V)>, i: int)
    requires
        keys_distinct(s),
        0 <= i < s.len(),
    ensures
        entries_map(s).contains_key(s[i].0),
        entries_map(s)[s[i].0] == s[i].1,
{
    let k = s[i].0;
    assert(has_key(s, k));
    let j = choose|j: int| 0 <= j < s.len() && s[j].0 == k;
    assert(j == i);
}

/// Appending an entry with a new key inserts it into the map.
proof fn lemma_push_entry<V>(s: Seq<(AccountId, V)>, k: AccountId, v: V)
    requires
        keys_distinct(s),
        !has_key(s, k),
    ensures
        keys_distinct(s.push((k, v))),
        entries_map(s.push((k, v))) == entries_map(s).insert(k, v),
{
    let t = s.push((k, v));
    assert(keys_distinct(t));
    assert forall|x: AccountId| #[trigger] entries_map(t).contains_key(x) == entries_map(s).insert(k, v).contains_key(x) by {
        if has_key(s, x) {
            let i = choose|i: int| 0 <= i < s.len() && s[i].0 == x;
            assert(t[i].0 == x);
        }
        if x == k {
            assert(t[s.len() as int].0 == x);
        }
    }
    assert forall|x: AccountId| #[trigger] entries_map(t).contains_key(x) implies entries_map(t)[x] == entries_map(s).insert(k, v)[x] by {
        let i = choose|i: int| 0 <= i < t.len() && t[i].0 == x;
        lemma_entry_in_map(t, i);
        if i < s.len() {
            lemma_entry_in_map(s, i);
        }
    }
    assert(entries_map(t) =~= entries_map(s).insert(k, v));
}

/// Replacing the entry at `i` by one with the same key updates the map at that key.
proof fn lemma_update_entry<V>(s: Seq<(AccountId, V)>, i: int, v: V)
    requires
        keys_distinct(s),
        0 <= i < s.len(),
    ensures
        keys_distinct(s.update(i, (s[i].0, v))),
        entries_map(s.update(i, (s[i].0, v))) == entries_map(s).insert(s[i].0, v),
{
    let k = s[i].0;
    let t = s.update(i, (k, v));
    assert(keys_distinct(t));
    lemma_entry_in_map(s, i);
    assert forall|x: AccountId| #[trigger] entries_map(t).contains_key(x) == entries_map(s).insert(k, v).contains_key(x) by {
        if has_key(s, x) {
            let j = choose|j: int| 0 <= j < s.len() && s[j].0 == x;
            assert(t[j].0 == x);
        }
        if has_key(t, x) {
            let j = choose|j: int| 0 <= j < t.len() && t[j].0 == x;
            assert(s[j].0 == x);
        }
    }
    assert forall|x: AccountId| #[trigger] entries_map(t).contains_key(x) implies entries_map(t)[x] == entries_map(s).insert(k, v)[x] by {
        let j = choose|j: int| 0 <= j < t.len() && t[j].0 == x;
        lemma_entry_in_map(t, j);
        if j != i {
            lemma_entry_in_map(s, j);
        }
    }
    assert(entries_map(t) =~= entries_map(s).insert(k, v));
}

impl<V> AccountMap<V> {
    /// The entries hold each key at most once.
    pub closed spec fn wf(&self) -> bool {
        keys_distinct(self.entries@)
    }

    /// An empty map.
    pub fn new() -> (m: Self)
        ensures
            m.wf(),
            m@ == Map::<AccountId, V>::empty(),
    {
        let m = AccountMap { entries: Vec::new() };
        assert(m@ =~= Map::<AccountId, V>::empty());
        m
    }

    /// The position of the entry with key `k`, if there is one.
    fn position(&self, k: &AccountId) -> (r: Option<usize>)
        requires
            self.wf(),
        ensures
            match r {
                Some(i) => i < self.entries@.len() && self.entries@[i as int].0 == *k,
                None => !has_key(self.entries@, *k),
            },
    {
        let mut i: usize = 0;
        while i < self.entries.len()
            invariant
                i <= self.entries@.len(),
                forall|j: int| 0 <= j < i ==> self.entries@[j].0 != *k,
            decreases self.entries@.len() - i,
        {
            if self.entries[i].0 == *k {
                return Some(i);
            }
            i = i + 1;
        }
        None
    }

    /// Whether the map holds a value at `k`.
    pub fn contains_key(&self, k: &AccountId) -> (r: bool)
        requires
            self.wf(),
        ensures
            r == self@.contains_key(*k),
    {
        match self.position(k) {
            Some(i) => {
                proof { lemma_entry_in_map(self.entries@, i as int); }
                true
            },
            None => false,
        }
    }

    /// The value at `k`, if there is one.
    pub fn get(&self, k: &AccountId) -> (r: Option<&V>)
        requires
            self.wf(),
        ensures
            match r {
                Some(v) => self@.contains_key(*k) && *v == self@[*k],
                None => !self@.contains_key(*k),
            },
    {
        match self.position(k) {
            Some(i) => {
                proof { lemma_entry_in_map(self.entries@, i as int); }
                Some(&self.entries[i].1)
            },
            None => None,
        }
    }

    /// Sets the value at `k` to `v`.
    pub fn insert(&mut self, k: AccountId, v: V)
        requires
            old(self).wf(),
        ensures
            final(self).wf(),
            final(self)@ == old(self)@.insert(k, v),
    {
        match self.position(&k) {
            Some(i) => {
                proof { lemma_update_entry(self.entries@, i as int, v); }
                self.entries.set(i, (k, v));
            },
            None => {
                proof { lemma_push_entry(self.entries@, k, v); }
                self.entries.push((k, v));
            },
        }
    }
}

} // verus!

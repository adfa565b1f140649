//! The in-memory graph store's records: an ordered list of keyed
//! records where a store of a record with a known id replaces it in
//! place and a new id is appended. It is always available, so the
//! server runs without an embedded triple store.
use vstd::prelude::*;

use crate::text::{same, to_chars};

verus! {

pub type EntryV<T> = (Seq<char>, T);

/// Index of the first entry at or after `i` keyed `k`.
pub open spec fn key_index_from<T>(s: Seq<EntryV<T>>, k: Seq<char>, i: int) -> Option<int>
    decreases s.len() - i,
{
    if i < 0 || i >= s.len() {
        None
    } else if s[i].0 == k {
        Some(i)
    } else {
        key_index_from(s, k, i + 1)
    }
}

pub open spec fn key_index<T>(s: Seq<EntryV<T>>, k: Seq<char>) -> Option<int> {
    key_index_from(s, k, 0)
}

/// The entries after storing `item` under `k`: the first entry keyed
/// `k` replaced, or the record appended.
pub open spec fn upserted<T>(s: Seq<EntryV<T>>, k: Seq<char>, item: T) -> Seq<EntryV<T>> {
    match key_index(s, k) {
        Some(i) => s.update(i, (k, item)),
        None => s.push((k, item)),
    }
}

pub open spec fn distinct_keys<T>(s: Seq<EntryV<T>>) -> bool {
    forall|a: int, b: int| 0 <= a < b < s.len() ==> s[a].0 != s[b].0
}

pub proof fn lemma_key_index_from<T>(s: Seq<EntryV<T>>, k: Seq<char>, i: int)
    requires
        0 <= i,
    ensures
        key_index_from(s, k, i) matches Some(j) ==> i <= j < s.len() && s[j].0 == k && forall|m: int|
            i <= m < j ==> s[m].0 != k,
        key_index_from(s, k, i) is None ==> forall|m: int| i <= m < s.len() ==> s[m].0 != k,
    decreases s.len() - i,
{
    if i < s.len() && s[i].0 != k {
        lemma_key_index_from(s, k, i + 1);
    }
}

/// Keyed records in store order.
pub struct RecordStore<T> {
    entries: Vec<(String, T)>,
}

impl<T> RecordStore<T> {
    pub closed spec fn view(&self) -> Seq<EntryV<T>> {
        self.entries@.map_values(|e: (String, T)| (e.0@, e.1))
    }

    pub fn new() -> (r: RecordStore<T>)
        ensures
            r.view() == Seq::<EntryV<T>>::empty(),
    {
        let r = RecordStore { entries: Vec::new() };
        proof {
            assert(r.view() =~= Seq::<EntryV<T>>::empty());
        }
        r
    }

    pub fn len(&self) -> (n: usize)
        ensures
            n == self.view().len(),
    {
        self.entries.len()
    }

    /// The record at position `i`.
    pub fn get(&self, i: usize) -> (r: &T)
        requires
            i < self.view().len(),
        ensures
            *r == self.view()[i as int].1,
    {
        &self.entries[i].1
    }

    /// The key at position `i`.
    pub fn key(&self, i: usize) -> (r: &str)
        requires
            i < self.view().len(),
        ensures
            r@ == self.view()[i as int].0,
    {
        self.entries[i].0.as_str()
    }

    /// Position of the first record keyed `k`.
    pub fn find(&self, k: &str) -> (r: Option<usize>)
        ensures
            match r {
                Some(i) => key_index(self.view(), k@) == Some(i as int),
                None => key_index(self.view(), k@) is None,
            },
    {
        let kv = to_chars(k);
        let mut i: usize = 0;
        while i < self.entries.len()
            invariant
                i <= self.entries.len(),
                kv@ == k@,
                key_index(self.view(), k@) == key_index_from(self.view(), k@, i as int),
            decreases self.entries.len() - i,
        {
            if same(&to_chars(self.entries[i].0.as_str()), &kv) {
                return Some(i);
            }
            i += 1;
        }
        None
    }

    /// Stores `item` under `k`: replaces the first record with that key,
    /// or appends.
    pub fn upsert(&mut self, k: String, item: T)
        ensures
            final(self).view() == upserted(old(self).view(), k@, item),
    {
        let ghost kk = k@;
        match self.find(k.as_str()) {
            Some(i) => {
                let ghost before = self.view();
                proof {
                    lemma_key_index_from(before, kk, 0);
                }
                self.entries.set(i, (k, item));
                proof {
                    assert(self.view() =~= before.update(i as int, (kk, item)));
                }
            },
            None => {
                let ghost before = self.view();
                self.entries.push((k, item));
                proof {
                    assert(self.view() =~= before.push((kk, item)));
                }
            },
        }
    }

    /// Appends `item` under `k`, whatever is stored already.
    pub fn append(&mut self, k: String, item: T)
        ensures
            final(self).view() == old(self).view().push((k@, item)),
    {
        let ghost kk = k@;
        let ghost before = self.view();
        self.entries.push((k, item));
        proof {
            assert(self.view() =~= before.push((kk, item)));
        }
    }
}

/// After a store, the record found under its key is the one stored.
pub proof fn lemma_upsert_then_find<T>(s: Seq<EntryV<T>>, k: Seq<char>, item: T)
    ensures
        key_index(upserted(s, k, item), k) matches Some(i) && upserted(s, k, item)[i] == (k, item),
{
    let u = upserted(s, k, item);
    lemma_key_index_from(s, k, 0);
    lemma_key_index_from(u, k, 0);
    match key_index(s, k) {
        Some(i) => {
            assert(u[i].0 == k);
            if let Some(j) = key_index(u, k) {
                if j < i {
                    assert(u[j] == s[j]);
                }
            }
        },
        None => {
            assert(u[s.len() as int].0 == k);
            if let Some(j) = key_index(u, k) {
                if j < s.len() {
                    assert(u[j] == s[j]);
                }
            }
        },
    }
}

/// Storing under a key that is already there keeps the number of
/// records, and the second of two stores under one key wins.
pub proof fn lemma_upsert_twice<T>(s: Seq<EntryV<T>>, k: Seq<char>, a: T, b: T)
    ensures
        upserted(upserted(s, k, a), k, b).len() == upserted(s, k, a).len(),
        upserted(upserted(s, k, a), k, b) == upserted(s, k, b),
{
    let u = upserted(s, k, a);
    lemma_key_index_from(s, k, 0);
    lemma_key_index_from(u, k, 0);
    lemma_upsert_then_find(s, k, a);
    match key_index(s, k) {
        Some(i) => {
            assert(key_index(u, k) == Some(i)) by {
                let j = key_index(u, k)->0;
                if j < i {
                    assert(u[j] == s[j]);
                }
                if j > i {
                    assert(u[i].0 == k);
                }
            }
            assert(upserted(u, k, b) =~= s.update(i, (k, b)));
        },
        None => {
            assert(key_index(u, k) == Some(s.len() as int)) by {
                let j = key_index(u, k)->0;
                if j < s.len() {
                    assert(u[j] == s[j]);
                }
            }
            assert(upserted(u, k, b) =~= s.push((k, b)));
        },
    }
}

/// Storing never gives two records one key.
pub proof fn lemma_upsert_keeps_keys_distinct<T>(s: Seq<EntryV<T>>, k: Seq<char>, item: T)
    requires
        distinct_keys(s),
    ensures
        distinct_keys(upserted(s, k, item)),
{
    let u = upserted(s, k, item);
    lemma_key_index_from(s, k, 0);
    match key_index(s, k) {
        Some(i) => {
            assert forall|a: int, b: int| 0 <= a < b < u.len() implies u[a].0 != u[b].0 by {
                if a == i {
                    assert(s[i].0 == k);
                    assert(u[b] == s[b]);
                } else if b == i {
                    assert(s[i].0 == k);
                    assert(u[a] == s[a]);
                } else {
                    assert(u[a] == s[a]);
                    assert(u[b] == s[b]);
                }
            }
        },
        None => {
            assert forall|a: int, b: int| 0 <= a < b < u.len() implies u[a].0 != u[b].0 by {
                assert(u[a] == s[a]);
                if b < s.len() {
                    assert(u[b] == s[b]);
                }
            }
        },
    }
}

} // verus!

//! Association of values with keys.

use crate::depend::{Key, KeyView};
use vstd::prelude::*;

verus! {

/// A map from keys to values. Each key occurs in one entry at most.
#[derive(Debug)]
pub struct KeyMap<V> {
    entries: Vec<(Key, V)>,
}

/// Whether entry `index` is for `key`.
pub open spec fn entry_for<V>(entries: Seq<(Key, V)>, index: int, key: KeyView) -> bool {
    0 <= index < entries.len() && entries[index].0@ == key
}

impl<V> View for KeyMap<V> {
    type V = Map<KeyView, V>;

    closed spec fn view(&self) -> Map<KeyView, V> {
        Map::new(
            |key: KeyView| exists|index: int| entry_for(self.entries@, index, key),
            |key: KeyView|
                self.entries@[choose|index: int| entry_for(self.entries@, index, key)].1,
        )
    }
}

impl<V> KeyMap<V> {
    /// No key occurs in two entries.
    #[verifier::type_invariant]
    pub closed spec fn distinct(self) -> bool {
        forall|left: int, right: int, key: KeyView| #[trigger]
            entry_for(self.entries@, left, key) && #[trigger] entry_for(self.entries@, right, key)
                ==> left == right
    }

    pub fn new() -> (map: Self)
        ensures
            map@ == Map::<KeyView, V>::empty(),
    {
        let map = KeyMap { entries: Vec::new() };
        assert(map@ =~= Map::<KeyView, V>::empty());
        map
    }

    /// The entry of `key`.
    fn find(&self, key: &Key) -> (index: Option<usize>)
        ensures
            match index {
                None => {
                    &&& !self@.contains_key(key@)
                    &&& forall|at: int| !#[trigger] entry_for(self.entries@, at, key@)
                },
                Some(index) => {
                    &&& entry_for(self.entries@, index as int, key@)
                    &&& self@.contains_key(key@)
                    &&& self@[key@] == self.entries@[index as int].1
                },
            },
    {
        proof {
            use_type_invariant(self);
        }
        let mut index: usize = 0;
        while index < self.entries.len()
            invariant
                self.distinct(),
                index <= self.entries.len(),
                forall|before: int|
                    0 <= before < index ==> !#[trigger] entry_for(self.entries@, before, key@),
            decreases self.entries.len() - index,
        {
            if self.entries[index].0 == *key {
                assert(entry_for(self.entries@, index as int, key@));
                return Some(index);
            }
            index += 1;
        }
        None
    }

    pub fn get(&self, key: &Key) -> (value: Option<&V>)
        ensures
            match value {
                None => !self@.contains_key(key@),
                Some(value) => self@.contains_key(key@) && self@[key@] == *value,
            },
    {
        match self.find(key) {
            None => None,
            Some(index) => Some(&self.entries[index].1),
        }
    }

    pub fn contains(&self, key: &Key) -> (contains: bool)
        ensures
            contains == self@.contains_key(key@),
    {
        match self.find(key) {
            None => false,
            Some(_) => true,
        }
    }

    pub fn is_empty(&self) -> (empty: bool)
        ensures
            empty == forall|key: KeyView| !#[trigger] self@.contains_key(key),
    {
        if self.entries.len() > 0 {
            assert(entry_for(self.entries@, 0, self.entries@[0].0@));
            assert(self@.contains_key(self.entries@[0].0@));
            false
        } else {
            true
        }
    }

    /// Associates `value` with `key`, in place of the value that the key had, if any.
    pub fn insert(&mut self, key: Key, value: V)
        ensures
            final(self)@ == old(self)@.insert(key@, value),
    {
        let ghost before = *self;
        proof {
            use_type_invariant(&*self);
        }
        let found = self.find(&key);
        let mut entries: Vec<(Key, V)> = Vec::new();
        let ghost old_entries = self.entries@;
        std::mem::swap(&mut self.entries, &mut entries);
        match found {
            Some(index) => {
                entries.set(index, (key, value));
                assert forall|at: int, other: KeyView|
                    #[trigger] entry_for(entries@, at, other) == entry_for(
                        old_entries,
                        at,
                        other,
                    ) by {}
            },
            None => {
                entries.push((key, value));
                assert forall|at: int, other: KeyView| #[trigger]
                    entry_for(entries@, at, other) == (entry_for(old_entries, at, other) || at
                        == old_entries.len() && other == key@) by {}
            },
        }
        let ghost new_entries = entries@;
        assert(KeyMap { entries }.distinct());
        std::mem::swap(&mut self.entries, &mut entries);
        proof {
            assert(self.entries@ == new_entries);
            assert forall|other: KeyView|
                self@.contains_key(other) == (before@.contains_key(other) || other == key@) by {
                if other == key@ {
                    let at = match found {
                        Some(index) => index as int,
                        None => old_entries.len() as int,
                    };
                    assert(entry_for(new_entries, at, other));
                }
                if before@.contains_key(other) {
                    let at = choose|at: int| entry_for(old_entries, at, other);
                    assert(entry_for(new_entries, at, other));
                }
                if self@.contains_key(other) && other != key@ {
                    let at = choose|at: int| entry_for(new_entries, at, other);
                    assert(entry_for(old_entries, at, other));
                }
            }
            assert forall|other: KeyView| self@.contains_key(other) implies self@[other]
                == before@.insert(key@, value)[other] by {
                let at = choose|at: int| entry_for(new_entries, at, other);
                if other != key@ {
                    assert(entry_for(old_entries, at, other));
                    let old_at = choose|at: int| entry_for(old_entries, at, other);
                    assert(at == old_at);
                } else {
                    let expected = match found {
                        Some(index) => index as int,
                        None => old_entries.len() as int,
                    };
                    assert(entry_for(new_entries, expected, other));
                }
            }
            assert(self@ =~= before@.insert(key@, value));
        }
    }

    pub fn clear(&mut self)
        ensures
            final(self)@ == Map::<KeyView, V>::empty(),
    {
        self.entries = Vec::new();
        assert(self@ =~= Map::<KeyView, V>::empty());
    }
}

} // verus!

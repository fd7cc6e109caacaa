//! A hashed table keyed by strings.
//!
//! [`StringHashMap`] finds the place of a key among the entries; the entries
//! themselves stand in a vector, from which they can be taken out.

use vstd::hash_map::StringHashMap;
use vstd::prelude::*;

verus! {

/// Values by string key, each key at most once.
pub struct Table<V> {
    entries: Vec<(String, V)>,
    places: StringHashMap<usize>,
}

impl<V> View for Table<V> {
    type V = Map<Seq<char>, V>;

    closed spec fn view(&self) -> Map<Seq<char>, V> {
        self.places@.map_values(|place: usize| self.entries@[place as int].1)
    }
}

impl<V> Table<V> {
    /// Every key has a place, at which it stands, and nothing else stands
    /// anywhere.
    pub closed spec fn wf(&self) -> bool {
        &&& forall|key: Seq<char>| #[trigger]
            self.places@.contains_key(key) ==> {
                &&& self.places@[key] < self.entries@.len()
                &&& self.entries@[self.places@[key] as int].0@ == key
            }
        &&& forall|i: int|
            0 <= i < self.entries@.len() ==> {
                &&& self.places@.contains_key((#[trigger] self.entries@[i]).0@)
                &&& self.places@[self.entries@[i].0@] == i
            }
    }

    /// An empty table.
    #[must_use]
    pub fn new() -> (table: Self)
        ensures
            table.wf(),
            table@ == Map::<Seq<char>, V>::empty(),
    {
        let table = Table { entries: Vec::new(), places: StringHashMap::new() };
        assert(table@ =~= Map::<Seq<char>, V>::empty());
        table
    }

    fn place_of(&self, key: &String) -> (place: Option<usize>)
        requires
            self.wf(),
        ensures
            match place {
                Some(place) => {
                    &&& self@.contains_key(key@)
                    &&& place < self.entries@.len()
                    &&& self.places@.contains_key(key@)
                    &&& self.places@[key@] == place
                    &&& self.entries@[place as int].0@ == key@
                    &&& self@[key@] == self.entries@[place as int].1
                },
                None => !self@.contains_key(key@) && !self.places@.contains_key(key@),
            },
    {
        match self.places.get(key.as_str()) {
            Some(place) => Some(*place),
            None => None,
        }
    }

    /// What stands under `key`.
    #[must_use]
    pub fn get(&self, key: &String) -> (value: Option<&V>)
        requires
            self.wf(),
        ensures
            value == (if self@.contains_key(key@) {
                Some(&self@[key@])
            } else {
                None
            }),
    {
        match self.place_of(key) {
            Some(place) => Some(&self.entries[place].1),
            None => None,
        }
    }

    /// Whether something stands under `key`.
    #[must_use]
    pub fn contains(&self, key: &String) -> (contains: bool)
        requires
            self.wf(),
        ensures
            contains == self@.contains_key(key@),
    {
        self.places.contains_key(key.as_str())
    }

    /// Puts `value` under `key`, returning what stood there.
    pub fn insert(&mut self, key: String, value: V) -> (replaced: Option<V>)
        requires
            old(self).wf(),
        ensures
            final(self).wf(),
            final(self)@ == old(self)@.insert(key@, value),
            replaced == (if old(self)@.contains_key(key@) {
                Some(old(self)@[key@])
            } else {
                None
            }),
    {
        let place: Option<usize> = self.place_of(&key);
        match place {
            Some(place) => {
                let mut slot = value;
                core::mem::swap(&mut self.entries[place].1, &mut slot);
                assert(self@ =~= old(self)@.insert(key@, value));
                Some(slot)
            },
            None => {
                let ghost name = key@;
                let place: usize = self.entries.len();
                self.places.insert(key.clone(), place);
                self.entries.push((key, value));
                assert(self@ =~= old(self)@.insert(name, value));
                None
            },
        }
    }

    /// Takes out what stands under `key`.
    pub fn remove(&mut self, key: &String) -> (removed: Option<V>)
        requires
            old(self).wf(),
        ensures
            final(self).wf(),
            final(self)@ == old(self)@.remove(key@),
            removed == (if old(self)@.contains_key(key@) {
                Some(old(self)@[key@])
            } else {
                None
            }),
    {
        let place: Option<usize> = self.place_of(key);
        match place {
            Some(place) => {
                // The last entry fills the gap.
                let (_, value) = self.entries.swap_remove(place);
                self.places.remove(key.as_str());
                if place < self.entries.len() {
                    let moved = self.entries[place].0.clone();
                    self.places.insert(moved, place);
                }
                assert(self@ =~= old(self)@.remove(key@));
                Some(value)
            },
            None => {
                assert(self@ =~= old(self)@.remove(key@));
                None
            },
        }
    }
}

} // verus!

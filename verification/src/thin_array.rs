//! A dense-key associative array: one slot per possible key, with the
//! values packed in insertion order.  It backs the word cache, whose keys
//! are charmasks drawn from a bounded key space.
use vstd::prelude::*;

verus! {

use crate::Charmask;

/// Maps keys `0 .. n_keys` to values of type `T`.  A slot table holds,
/// for each key, the position of its value (shifted by one, zero meaning
/// absent); the values themselves sit packed in `items`.
pub struct ThinArray<T> {
    keys: Vec<usize>,
    items: Vec<T>,
}

impl<T> View for ThinArray<T> {
    type V = Map<int, T>;

    /// The mapping this array holds.
    closed spec fn view(&self) -> Map<int, T> {
        Map::new(
            |k: int| 0 <= k < self.keys@.len() && self.keys@[k] != 0,
            |k: int| self.items@[self.keys@[k] - 1],
        )
    }
}

impl<T> ThinArray<T> {
    /// Every occupied slot points into `items`.
    pub closed spec fn wf(self) -> bool {
        forall|j: int| 0 <= j < self.keys@.len() ==> #[trigger] self.keys@[j] <= self.items@.len()
    }

    /// How many distinct keys the array admits.
    pub closed spec fn n_keys(self) -> int {
        self.keys@.len() as int
    }

    /// An empty array over the key space `0 .. n_keys`.
    pub fn default(n_keys: usize) -> (r: Self)
        ensures
            r.wf(),
            r.n_keys() == n_keys,
            r@ == Map::<int, T>::empty(),
    {
        let mut keys: Vec<usize> = Vec::new();
        while keys.len() < n_keys
            invariant
                keys@.len() <= n_keys,
                forall|j: int| 0 <= j < keys@.len() ==> #[trigger] keys@[j] == 0,
            decreases n_keys - keys@.len(),
        {
            keys.push(0);
        }
        let r = ThinArray { keys, items: Vec::new() };
        proof {
            assert(r@ =~= Map::<int, T>::empty());
        }
        r
    }

    /// Bind `key` to `value`, replacing any earlier binding.
    pub fn insert(&mut self, key: Charmask, value: T)
        requires
            old(self).wf(),
            (key as int) < old(self).n_keys(),
        ensures
            final(self).wf(),
            final(self).n_keys() == old(self).n_keys(),
            final(self)@ == old(self)@.insert(key as int, value),
    {
        self.items.push(value);
        let slot = self.items.len();
        self.keys.set(key as usize, slot);
        proof {
            assert(self@ =~= old(self)@.insert(key as int, value));
        }
    }

    /// The value bound to `key`, if any.
    pub fn get(&self, key: Charmask) -> (r: Option<&T>)
        requires
            self.wf(),
            (key as int) < self.n_keys(),
        ensures
            match r {
                Some(v) => self@.contains_key(key as int) && *v == self@[key as int],
                None => !self@.contains_key(key as int),
            },
    {
        let slot = self.keys[key as usize];
        if slot == 0 {
            None
        } else {
            Some(&self.items[slot - 1])
        }
    }

    /// Whether `key` has a value.
    pub fn contains_key(&self, key: &Charmask) -> (r: bool)
        requires
            self.wf(),
            (*key as int) < self.n_keys(),
        ensures
            r == self@.contains_key(*key as int),
    {
        self.keys[*key as usize] != 0
    }
}

} // verus!

//! Per-frame values produced on demand: a map from frame index to value
//! that remembers the largest number of values it has held at once.
use std::collections::HashMap;
use std::collections::hash_map::Entry;
use vstd::prelude::*;

verus! {

/// Values keyed by frame index, with the peak number held at once.
pub struct FrameCache<T> {
    items: HashMap<i32, T>,
    peak: usize,
}

impl<T> FrameCache<T> {
    /// The values held, by frame index.
    pub closed spec fn contents(&self) -> Map<i32, T> {
        self.items@
    }

    /// The largest number of values held at once: the recorded peak, or
    /// the number held now if that is more.
    pub closed spec fn peak_count(&self) -> nat {
        if self.items@.len() > self.peak {
            self.items@.len()
        } else {
            self.peak as nat
        }
    }

    /// An empty cache.
    pub fn new() -> (c: Self)
        ensures
            c.contents() == Map::<i32, T>::empty(),
            c.peak_count() == 0,
    {
        FrameCache { items: HashMap::new(), peak: 0 }
    }

    /// Whether the value of frame `index` is held.
    pub fn contains(&self, index: i32) -> (r: bool)
        ensures
            r == self.contents().dom().contains(index),
    {
        self.items.contains_key(&index)
    }

    /// The value of frame `index`, if held.
    pub fn get(&self, index: i32) -> (r: Option<&T>)
        ensures
            match r {
                Some(v) => self.contents().dom().contains(index) && *v == self.contents()[index],
                None => !self.contents().dom().contains(index),
            },
    {
        self.items.get(&index)
    }

    /// The value of frame `index`, if held, to change in place; the frames
    /// held and the peak stay as they are.
    pub fn get_mut(&mut self, index: i32) -> (r: Option<&mut T>)
        ensures
            final(self).peak_count() == old(self).peak_count(),
            match r {
                Some(v) => old(self).contents().dom().contains(index) && *v == old(self).contents()[index]
                    && final(self).contents() == old(self).contents().insert(index, *final(v)),
                None => !old(self).contents().dom().contains(index) && final(self).contents() == old(self).contents(),
            },
    {
        proof {
            lemma_insert_held_len(self.items@, index);
        }
        match self.items.entry(index) {
            Entry::Occupied(slot) => Some(slot.into_mut()),
            Entry::Vacant(_) => None,
        }
    }

    /// Holds `value` as the value of frame `index`, replacing any held
    /// before; the peak grows to the new number of values if that is larger.
    pub fn insert(&mut self, index: i32, value: T)
        ensures
            final(self).contents() == old(self).contents().insert(index, value),
            final(self).peak_count() == if final(self).contents().len() > old(self).peak_count() {
                final(self).contents().len()
            } else {
                old(self).peak_count()
            },
    {
        proof {
            lemma_insert_len(self.items@, index, value);
        }
        self.items.insert(index, value);
        let len: usize = self.items.len();
        if len > self.peak {
            self.peak = len;
        }
    }

    /// Takes out the value of frame `index`, if held; the peak is kept.
    pub fn remove(&mut self, index: i32) -> (r: Option<T>)
        ensures
            final(self).contents() == old(self).contents().remove(index),
            final(self).peak_count() == old(self).peak_count(),
            match r {
                Some(v) => old(self).contents().dom().contains(index) && v == old(self).contents()[index],
                None => !old(self).contents().dom().contains(index),
            },
    {
        proof {
            lemma_remove_len(self.items@, index);
        }
        let len: usize = self.items.len();
        if len > self.peak {
            self.peak = len;
        }
        self.items.remove(&index)
    }

    /// Number of values held.
    pub fn len(&self) -> (r: usize)
        ensures
            r == self.contents().len(),
    {
        self.items.len()
    }

    /// The largest number of values held at once; never below `len`.
    pub fn peak(&self) -> (r: usize)
        ensures
            r == self.peak_count(),
            self.contents().len() <= r,
    {
        let len: usize = self.items.len();
        if len > self.peak {
            len
        } else {
            self.peak
        }
    }
}

/// Inserting a key never makes a finite map smaller.
proof fn lemma_insert_len<T>(m: Map<i32, T>, k: i32, v: T)
    requires
        m.dom().finite(),
    ensures
        m.insert(k, v).len() >= m.len(),
{
    if m.dom().contains(k) {
        assert(m.insert(k, v).dom() =~= m.dom());
    }
}

/// Replacing the value of a held key keeps the number of keys.
proof fn lemma_insert_held_len<T>(m: Map<i32, T>, k: i32)
    requires
        m.dom().finite(),
    ensures
        m.dom().contains(k) ==> forall|v: T| #[trigger] m.insert(k, v).len() == m.len(),
{
    if m.dom().contains(k) {
        assert forall|v: T| #[trigger] m.insert(k, v).len() == m.len() by {
            assert(m.insert(k, v).dom() =~= m.dom());
        }
    }
}

/// Removing a key never makes a finite map larger.
proof fn lemma_remove_len<T>(m: Map<i32, T>, k: i32)
    requires
        m.dom().finite(),
    ensures
        m.remove(k).len() <= m.len(),
{
    if m.dom().contains(k) {
        assert(m.remove(k).dom() =~= m.dom().remove(k));
    } else {
        assert(m.remove(k) =~= m);
    }
}

} // verus!

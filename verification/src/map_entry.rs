use vstd::prelude::*;

verus! {

/// A slot of the table: either free, or holding one entry.
#[derive(Clone, Copy, Debug)]
pub enum MapEntry<V> {
    Occupied(Entry<V>),
    VacantEntry,
}

/// An occupied slot's contents: the key, its value, the key's hash as the
/// table's hash provider computed it, and the probe sequence length (how far
/// the entry sits from its home slot).
#[derive(Clone, Copy, Debug)]
pub struct Entry<V> {
    pub key: usize,
    pub value: V,
    pub hash: usize,
    pub psl: usize,
}

impl<V> MapEntry<V> {
    /// Returns the contained `Occupied` entry, consuming the slot.
    pub fn unwrap(self) -> (r: Entry<V>)
        requires
            self is Occupied,
        ensures
            r == self->Occupied_0,
    {
        match self {
            MapEntry::Occupied(entry) => entry,
            MapEntry::VacantEntry => unreached(),
        }
    }
}

impl<V> Default for MapEntry<V> {
    fn default() -> (r: Self)
        ensures
            r is VacantEntry,
    {
        MapEntry::VacantEntry
    }
}

impl<V> Entry<V> {
    pub fn new(key: usize, value: V, hash: usize, psl: usize) -> (r: Self)
        ensures
            r == (Entry { key, value, hash, psl }),
    {
        Self { key, value, hash, psl }
    }
}

} // verus!

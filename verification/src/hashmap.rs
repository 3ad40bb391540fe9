use vstd::prelude::*;

use crate::fx_build_hasher::FxBuildHasher;
use crate::fx_build_hasher::HashProvider;
use crate::map_entry::Entry;
use crate::map_entry::MapEntry;

verus! {

/// Capacity given to a table that must grow but has no slots yet.
pub const INITIAL_SIZE: usize = 4;

// ---------------------------------------------------------------------------
// The mathematical model of a slot sequence.
// ---------------------------------------------------------------------------

/// The entry held by slot `i` (meaningful only when the slot is occupied).
pub open spec fn slot_entry<V>(s: Seq<MapEntry<V>>, i: int) -> Entry<V>
    recommends
        0 <= i < s.len(),
        s[i] is Occupied,
{
    s[i]->Occupied_0
}

/// The home slot of an entry: where probing for its key starts.
pub open spec fn home_of<V>(e: Entry<V>, modulus: int) -> int
    recommends
        modulus > 0,
{
    (e.hash as int) % modulus
}

/// Every occupied slot records as its probe sequence length exactly its
/// distance from its home slot; probing never wraps, so the home is at or
/// before the slot itself.
pub open spec fn psls_wf<V>(s: Seq<MapEntry<V>>, modulus: int) -> bool {
    forall|i: int|
        #![trigger s[i]]
        0 <= i < s.len() && s[i] is Occupied ==> slot_entry(s, i).psl == i - home_of(
            slot_entry(s, i),
            modulus,
        )
}

/// At slot `i`, a displaced entry is preceded by an occupied slot whose
/// entry is displaced by at least one less.
pub open spec fn slot_ordered<V>(s: Seq<MapEntry<V>>, i: int) -> bool {
    s[i] is Occupied && slot_entry(s, i).psl > 0 ==> 1 <= i && s[i - 1] is Occupied && slot_entry(
        s,
        i - 1,
    ).psl + 1 >= slot_entry(s, i).psl
}

/// The local Robin Hood ordering: it holds at every slot.
pub open spec fn run_wf<V>(s: Seq<MapEntry<V>>) -> bool {
    forall|i: int| 0 <= i < s.len() ==> #[trigger] slot_ordered(s, i)
}

/// No two occupied slots hold equal keys.
pub open spec fn keys_distinct<V>(s: Seq<MapEntry<V>>) -> bool {
    forall|i: int, j: int|
        #![trigger slot_entry(s, i), slot_entry(s, j)]
        0 <= i < s.len() && 0 <= j < s.len() && i != j && s[i] is Occupied && s[j]
            is Occupied ==> slot_entry(s, i).key != slot_entry(s, j).key
}

/// The key/value association a slot sequence represents; later slots win,
/// though with distinct keys that never matters.
pub open spec fn as_map<V>(s: Seq<MapEntry<V>>) -> Map<usize, V>
    decreases s.len(),
{
    if s.len() == 0 {
        Map::empty()
    } else {
        let m = as_map(s.drop_last());
        match s.last() {
            MapEntry::Occupied(e) => m.insert(e.key, e.value),
            MapEntry::VacantEntry => m,
        }
    }
}

/// The slot count a growing table reaches: four slots where there were
/// none, else twice as many, capped at the machine limit.
pub open spec fn grown_capacity(cap: nat) -> nat {
    if cap == 0 {
        INITIAL_SIZE as nat
    } else if cap <= usize::MAX as nat / 2 {
        2 * cap
    } else {
        usize::MAX as nat
    }
}

/// How many slots of the sequence are occupied.
pub open spec fn occupied_count<V>(s: Seq<MapEntry<V>>) -> int
    decreases s.len(),
{
    if s.len() == 0 {
        0
    } else {
        occupied_count(s.drop_last()) + if s.last() is Occupied {
            1int
        } else {
            0int
        }
    }
}

// ---------------------------------------------------------------------------
// Lemmas about the model.
// ---------------------------------------------------------------------------

/// A sequence with no occupied slot represents the empty association.
pub proof fn lemma_as_map_all_vacant<V>(s: Seq<MapEntry<V>>)
    requires
        forall|i: int| #![trigger s[i]] 0 <= i < s.len() ==> !(s[i] is Occupied),
    ensures
        as_map(s) == Map::<usize, V>::empty(),
        occupied_count(s) == 0,
    decreases s.len(),
{
    if s.len() > 0 {
        lemma_as_map_all_vacant(s.drop_last());
        assert(!(s[s.len() - 1] is Occupied));
    }
}

/// If some occupied slot holds key `k`, the represented map contains `k`.
pub proof fn lemma_as_map_dom<V>(s: Seq<MapEntry<V>>, k: usize)
    requires
        as_map(s).dom().contains(k),
    ensures
        exists|j: int|
            0 <= j < s.len() && s[j] is Occupied && (#[trigger] slot_entry(s, j)).key == k,
    decreases s.len(),
{
    if s.len() > 0 {
        if s.last() is Occupied && slot_entry(s, s.len() - 1).key == k {
            assert(s[s.len() - 1] is Occupied && slot_entry(s, s.len() - 1).key == k);
        } else {
            lemma_as_map_dom(s.drop_last(), k);
            let j = choose|j: int|
                0 <= j < s.drop_last().len() && s.drop_last()[j] is Occupied && (
                #[trigger] slot_entry(s.drop_last(), j)).key == k;
            assert(s[j] == s.drop_last()[j]);
            assert(s[j] is Occupied && slot_entry(s, j).key == k);
        }
    }
}

/// With distinct keys, each occupied slot's pair is in the represented map.
pub proof fn lemma_as_map_at<V>(s: Seq<MapEntry<V>>, i: int)
    requires
        keys_distinct(s),
        0 <= i < s.len(),
        s[i] is Occupied,
    ensures
        as_map(s).dom().contains(slot_entry(s, i).key),
        as_map(s)[slot_entry(s, i).key] == slot_entry(s, i).value,
    decreases s.len(),
{
    if i == s.len() - 1 {
    } else {
        assert(keys_distinct(s.drop_last())) by {
            assert forall|a: int, b: int|
                0 <= a < s.drop_last().len() && 0 <= b < s.drop_last().len() && a != b
                    && s.drop_last()[a] is Occupied && s.drop_last()[b] is Occupied implies (
            #[trigger] slot_entry(s.drop_last(), a)).key != (#[trigger] slot_entry(
                s.drop_last(),
                b,
            )).key by {
                assert(s[a] == s.drop_last()[a]);
                assert(s[b] == s.drop_last()[b]);
                assert(slot_entry(s, a).key != slot_entry(s, b).key);
            }
        }
        assert(s.drop_last()[i] == s[i]);
        lemma_as_map_at(s.drop_last(), i);
        if s.last() is Occupied {
            assert(slot_entry(s, s.len() - 1).key != slot_entry(s, i).key);
        }
    }
}

/// A key held by no occupied slot is absent from the represented map.
pub proof fn lemma_as_map_absent<V>(s: Seq<MapEntry<V>>, k: usize)
    requires
        forall|j: int|
            0 <= j < s.len() && s[j] is Occupied ==> (#[trigger] slot_entry(s, j)).key != k,
    ensures
        !as_map(s).dom().contains(k),
{
    if as_map(s).dom().contains(k) {
        lemma_as_map_dom(s, k);
    }
}

/// With distinct keys, the number of occupied slots is the size of the
/// represented map's domain.
pub proof fn lemma_count_is_dom_len<V>(s: Seq<MapEntry<V>>)
    requires
        keys_distinct(s),
    ensures
        as_map(s).dom().finite(),
        as_map(s).dom().len() == occupied_count(s),
    decreases s.len(),
{
    if s.len() > 0 {
        assert(keys_distinct(s.drop_last())) by {
            assert forall|a: int, b: int|
                0 <= a < s.drop_last().len() && 0 <= b < s.drop_last().len() && a != b
                    && s.drop_last()[a] is Occupied && s.drop_last()[b] is Occupied implies (
            #[trigger] slot_entry(s.drop_last(), a)).key != (#[trigger] slot_entry(
                s.drop_last(),
                b,
            )).key by {
                assert(s[a] == s.drop_last()[a]);
                assert(s[b] == s.drop_last()[b]);
                assert(slot_entry(s, a).key != slot_entry(s, b).key);
            }
        }
        lemma_count_is_dom_len(s.drop_last());
        if s.last() is Occupied {
            let e = slot_entry(s, s.len() - 1);
            assert forall|j: int|
                0 <= j < s.drop_last().len() && s.drop_last()[j] is Occupied implies (
            #[trigger] slot_entry(s.drop_last(), j)).key != e.key by {
                assert(s[j] == s.drop_last()[j]);
                assert(slot_entry(s, j).key != slot_entry(s, s.len() - 1).key);
            }
            lemma_as_map_absent(s.drop_last(), e.key);
        }
    }
}

/// Walking back from any occupied slot toward its home slot, every slot on
/// the way is occupied and displaced at least as far as its distance from
/// that home: the probe path of an entry is an unbroken run.
pub proof fn lemma_probe_path<V>(s: Seq<MapEntry<V>>, modulus: int, j: int, p: int)
    requires
        psls_wf(s, modulus),
        run_wf(s),
        0 <= j < s.len(),
        s[j] is Occupied,
        0 <= p <= j,
        j - slot_entry(s, j).psl <= p,
    ensures
        s[p] is Occupied,
        slot_entry(s, p).psl >= p - (j - slot_entry(s, j).psl),
    decreases j - p,
{
    if p < j {
        lemma_probe_path(s, modulus, j, p + 1);
        let h = j - slot_entry(s, j).psl;
        assert(s[p + 1] is Occupied && slot_entry(s, p + 1).psl >= p + 1 - h);
        assert(slot_ordered(s, p + 1));
    }
}

/// Two maps that differ by two insertions of distinct keys can take the
/// insertions in either order.
pub proof fn lemma_insert_commutes<V>(m: Map<usize, V>, k1: usize, v1: V, k2: usize, v2: V)
    requires
        k1 != k2,
    ensures
        m.insert(k1, v1).insert(k2, v2) == m.insert(k2, v2).insert(k1, v1),
{
    assert(m.insert(k1, v1).insert(k2, v2) =~= m.insert(k2, v2).insert(k1, v1));
}

/// Overwriting a slot with an entry whose key appears in no other slot (and
/// either replaces an equal key or fills a vacancy) inserts its pair.
pub proof fn lemma_as_map_update<V>(s: Seq<MapEntry<V>>, i: int, e: Entry<V>)
    requires
        0 <= i < s.len(),
        s[i] is Occupied ==> slot_entry(s, i).key == e.key,
        forall|j: int|
            0 <= j < s.len() && j != i && s[j] is Occupied ==> (#[trigger] slot_entry(s, j)).key
                != e.key,
    ensures
        as_map(s.update(i, MapEntry::Occupied(e))) == as_map(s).insert(e.key, e.value),
    decreases s.len(),
{
    let s2 = s.update(i, MapEntry::Occupied(e));
    if i == s.len() - 1 {
        assert(s2.drop_last() =~= s.drop_last());
        if s.last() is Occupied {
            assert(as_map(s).insert(e.key, e.value) =~= as_map(s.drop_last()).insert(
                e.key,
                e.value,
            ));
        }
    } else {
        assert(s2.drop_last() =~= s.drop_last().update(i, MapEntry::Occupied(e)));
        assert forall|j: int|
            0 <= j < s.drop_last().len() && j != i && s.drop_last()[j] is Occupied implies (
        #[trigger] slot_entry(s.drop_last(), j)).key != e.key by {
            assert(s.drop_last()[j] == s[j]);
            assert(slot_entry(s, j).key != e.key);
        }
        assert(s.drop_last()[i] == s[i]);
        lemma_as_map_update(s.drop_last(), i, e);
        assert(s2.last() == s.last());
        if s.last() is Occupied {
            let f = slot_entry(s, s.len() - 1);
            assert(f.key != e.key);
            lemma_insert_commutes(as_map(s.drop_last()), e.key, e.value, f.key, f.value);
        }
    }
}

/// Swapping a fresh-keyed entry into an occupied slot exchanges the two
/// pairs: putting the displaced pair back in gives the same map as putting
/// the new pair into the original.
pub proof fn lemma_as_map_update_swap<V>(s: Seq<MapEntry<V>>, i: int, e: Entry<V>)
    requires
        keys_distinct(s),
        0 <= i < s.len(),
        s[i] is Occupied,
        slot_entry(s, i).key != e.key,
        forall|j: int|
            0 <= j < s.len() && j != i && s[j] is Occupied ==> (#[trigger] slot_entry(s, j)).key
                != e.key,
    ensures
        as_map(s.update(i, MapEntry::Occupied(e))).insert(
            slot_entry(s, i).key,
            slot_entry(s, i).value,
        ) == as_map(s).insert(e.key, e.value),
    decreases s.len(),
{
    let s2 = s.update(i, MapEntry::Occupied(e));
    let res = slot_entry(s, i);
    if i == s.len() - 1 {
        assert(s2.drop_last() =~= s.drop_last());
        lemma_insert_commutes(as_map(s.drop_last()), e.key, e.value, res.key, res.value);
    } else {
        assert(s2.drop_last() =~= s.drop_last().update(i, MapEntry::Occupied(e)));
        assert(keys_distinct(s.drop_last())) by {
            assert forall|a: int, b: int|
                0 <= a < s.drop_last().len() && 0 <= b < s.drop_last().len() && a != b
                    && s.drop_last()[a] is Occupied && s.drop_last()[b] is Occupied implies (
            #[trigger] slot_entry(s.drop_last(), a)).key != (#[trigger] slot_entry(
                s.drop_last(),
                b,
            )).key by {
                assert(s[a] == s.drop_last()[a]);
                assert(s[b] == s.drop_last()[b]);
                assert(slot_entry(s, a).key != slot_entry(s, b).key);
            }
        }
        assert forall|j: int|
            0 <= j < s.drop_last().len() && j != i && s.drop_last()[j] is Occupied implies (
        #[trigger] slot_entry(s.drop_last(), j)).key != e.key by {
            assert(s.drop_last()[j] == s[j]);
            assert(slot_entry(s, j).key != e.key);
        }
        assert(s.drop_last()[i] == s[i]);
        lemma_as_map_update_swap(s.drop_last(), i, e);
        assert(s2.last() == s.last());
        if s.last() is Occupied {
            let f = slot_entry(s, s.len() - 1);
            assert(f.key != res.key);
            assert(f.key != e.key);
            // push the trailing pair past both insertions on each side
            lemma_insert_commutes(as_map(s2.drop_last()), f.key, f.value, res.key, res.value);
            lemma_insert_commutes(as_map(s.drop_last()), f.key, f.value, e.key, e.value);
        }
    }
}

/// No more slots are occupied than there are slots.
pub proof fn lemma_count_bound<V>(s: Seq<MapEntry<V>>)
    ensures
        0 <= occupied_count(s) <= s.len(),
    decreases s.len(),
{
    if s.len() > 0 {
        lemma_count_bound(s.drop_last());
    }
}

/// The slot one step closer to home: the same entry with its displacement
/// reduced by one.
pub open spec fn shifted_slot<V>(slot: MapEntry<V>) -> MapEntry<V>
    recommends
        slot is Occupied,
        slot->Occupied_0.psl > 0,
{
    let e = slot->Occupied_0;
    MapEntry::Occupied(
        Entry { key: e.key, value: e.value, hash: e.hash, psl: (e.psl - 1) as usize },
    )
}

/// Vacating a slot whose key appears nowhere else removes its pair.
pub proof fn lemma_as_map_update_vacate<V>(s: Seq<MapEntry<V>>, i: int)
    requires
        0 <= i < s.len(),
        s[i] is Occupied,
        forall|j: int|
            0 <= j < s.len() && j != i && s[j] is Occupied ==> (#[trigger] slot_entry(s, j)).key
                != slot_entry(s, i).key,
    ensures
        as_map(s.update(i, MapEntry::VacantEntry)) == as_map(s).remove(slot_entry(s, i).key),
    decreases s.len(),
{
    let s2 = s.update(i, MapEntry::VacantEntry);
    let k = slot_entry(s, i).key;
    if i == s.len() - 1 {
        assert(s2.drop_last() =~= s.drop_last());
        assert forall|j: int|
            0 <= j < s.drop_last().len() && s.drop_last()[j] is Occupied implies (
        #[trigger] slot_entry(s.drop_last(), j)).key != k by {
            assert(s.drop_last()[j] == s[j]);
            assert(slot_entry(s, j).key != k);
        }
        lemma_as_map_absent(s.drop_last(), k);
        assert(as_map(s.drop_last()) =~= as_map(s.drop_last()).insert(
            k,
            slot_entry(s, i).value,
        ).remove(k));
    } else {
        assert(s2.drop_last() =~= s.drop_last().update(i, MapEntry::VacantEntry));
        assert forall|j: int|
            0 <= j < s.drop_last().len() && j != i && s.drop_last()[j] is Occupied implies (
        #[trigger] slot_entry(s.drop_last(), j)).key != slot_entry(s.drop_last(), i).key by {
            assert(s.drop_last()[j] == s[j]);
            assert(s.drop_last()[i] == s[i]);
            assert(slot_entry(s, j).key != k);
        }
        assert(s.drop_last()[i] == s[i]);
        lemma_as_map_update_vacate(s.drop_last(), i);
        assert(s2.last() == s.last());
        if s.last() is Occupied {
            let f = slot_entry(s, s.len() - 1);
            assert(f.key != k);
            assert(as_map(s.drop_last()).remove(k).insert(f.key, f.value) =~= as_map(
                s.drop_last(),
            ).insert(f.key, f.value).remove(k));
        }
    }
}

/// A sequence with an occupied slot has at least one occupied slot.
pub proof fn lemma_count_pos<V>(s: Seq<MapEntry<V>>, i: int)
    requires
        0 <= i < s.len(),
        s[i] is Occupied,
    ensures
        occupied_count(s) >= 1,
    decreases s.len(),
{
    lemma_count_bound(s.drop_last());
    if i < s.len() - 1 {
        assert(s.drop_last()[i] == s[i]);
        lemma_count_pos(s.drop_last(), i);
    }
}

/// How overwriting one slot changes the number of occupied slots.
pub proof fn lemma_count_update<V>(s: Seq<MapEntry<V>>, i: int, x: MapEntry<V>)
    requires
        0 <= i < s.len(),
    ensures
        occupied_count(s.update(i, x)) == occupied_count(s) - (if s[i] is Occupied {
            1int
        } else {
            0int
        }) + (if x is Occupied {
            1int
        } else {
            0int
        }),
    decreases s.len(),
{
    let s2 = s.update(i, x);
    if i == s.len() - 1 {
        assert(s2.drop_last() =~= s.drop_last());
    } else {
        assert(s2.drop_last() =~= s.drop_last().update(i, x));
        assert(s.drop_last()[i] == s[i]);
        lemma_count_update(s.drop_last(), i, x);
        assert(s2.last() == s.last());
    }
}

// ---------------------------------------------------------------------------
// The table.
// ---------------------------------------------------------------------------

/// A Robin Hood hash map: a flat slot sequence probed forward from each key's
/// home slot, with steal-from-the-rich insertion and backward-shift deletion.
///
/// Probing never wraps around to the front. An insertion that walks off the
/// end of the slots appends one instead, so the slot sequence can grow
/// slightly past the size it was built with; home slots are always computed
/// against the built size, kept in `probe_modulus`, so every earlier
/// placement stays findable.
#[derive(Debug)]
pub struct RHMap<V, H: HashProvider> {
    inner: Vec<MapEntry<V>>,
    hasher_builder: H,
    num_items: usize,
    max_psl: usize,
    /// The modulus that assigns home slots. It is the size the slot vector
    /// was built with; the vector itself may grow slightly longer when an
    /// insertion runs off its end, and keeping the modulus fixed keeps every
    /// earlier placement findable.
    probe_modulus: usize,
}

impl<V, H: HashProvider> View for RHMap<V, H> {
    type V = Map<usize, V>;

    closed spec fn view(&self) -> Map<usize, V> {
        as_map(self.inner@)
    }
}

impl<V, H: HashProvider> RHMap<V, H> {
    /// The hash provider all keys are hashed with.
    pub closed spec fn spec_hasher(&self) -> H {
        self.hasher_builder
    }

    /// The length of the slot sequence.
    pub closed spec fn spec_capacity(&self) -> nat {
        self.inner@.len()
    }

    /// Every stored hash is the provider's hash of the stored key.
    pub closed spec fn hashes_wf(&self) -> bool {
        forall|i: int|
            #![trigger self.inner@[i]]
            0 <= i < self.inner@.len() && self.inner@[i] is Occupied ==> slot_entry(
                self.inner@,
                i,
            ).hash == self.hasher_builder.hash_spec(slot_entry(self.inner@, i).key)
    }

    /// `max_psl` bounds the displacement of every occupied slot.
    pub closed spec fn max_psl_wf(&self) -> bool {
        forall|i: int|
            #![trigger self.inner@[i]]
            0 <= i < self.inner@.len() && self.inner@[i] is Occupied ==> slot_entry(
                self.inner@,
                i,
            ).psl <= self.max_psl
    }

    /// The table's invariant: slot bookkeeping is consistent, the Robin Hood
    /// ordering holds, keys are unique, and the counters are accurate.
    pub closed spec fn wf(&self) -> bool {
        &&& self.probe_modulus <= self.inner@.len()
        &&& (self.probe_modulus == 0 ==> self.inner@.len() == 0)
        &&& psls_wf(self.inner@, self.probe_modulus as int)
        &&& run_wf(self.inner@)
        &&& keys_distinct(self.inner@)
        &&& self.hashes_wf()
        &&& self.max_psl_wf()
        &&& self.num_items == occupied_count(self.inner@)
    }
}

impl<V> RHMap<V, FxBuildHasher> {
    /// Creates a table with the default fx hash provider and no slots.
    pub fn new() -> (r: Self)
        ensures
            r.wf(),
            r@ == Map::<usize, V>::empty(),
            r.spec_capacity() == 0,
    {
        Self {
            inner: Vec::new(),
            hasher_builder: FxBuildHasher::new(),
            num_items: 0,
            max_psl: 0,
            probe_modulus: 0,
        }
    }

    /// Creates a table with `initial_capacity` vacant slots. Sizing the table
    /// up front reduces the number of grow-and-rehash passes.
    pub fn with_capacity(initial_capacity: usize) -> (r: Self)
        ensures
            r.wf(),
            r@ == Map::<usize, V>::empty(),
            r.spec_capacity() == initial_capacity,
    {
        RHMap::with_capacity_and_hasher(initial_capacity, FxBuildHasher::new())
    }
}

impl<V, H: HashProvider> RHMap<V, H> {
    /// Creates a table with no slots that hashes with the given provider.
    pub fn with_hasher(hasher_builder: H) -> (r: Self)
        ensures
            r.wf(),
            r@ == Map::<usize, V>::empty(),
            r.spec_capacity() == 0,
            r.spec_hasher() == hasher_builder,
    {
        Self { inner: Vec::new(), hasher_builder, num_items: 0, max_psl: 0, probe_modulus: 0 }
    }

    /// Creates a table with `initial_capacity` vacant slots and the given
    /// hash provider.
    pub fn with_capacity_and_hasher(initial_capacity: usize, hasher_builder: H) -> (r: Self)
        ensures
            r.wf(),
            r@ == Map::<usize, V>::empty(),
            r.spec_capacity() == initial_capacity,
            r.spec_hasher() == hasher_builder,
    {
        let mut inner: Vec<MapEntry<V>> = Vec::with_capacity(initial_capacity);
        let mut i: usize = 0;
        while i < initial_capacity
            invariant
                i <= initial_capacity,
                inner@.len() == i,
                forall|j: int| #![trigger inner@[j]] 0 <= j < i ==> !(inner@[j] is Occupied),
            decreases initial_capacity - i,
        {
            inner.push(MapEntry::VacantEntry);
            i += 1;
        }
        proof {
            lemma_as_map_all_vacant(inner@);
        }
        Self { inner, hasher_builder, num_items: 0, max_psl: 0, probe_modulus: initial_capacity }
    }

    /// The number of entries the table holds.
    pub fn len(&self) -> (r: usize)
        requires
            self.wf(),
        ensures
            r == self@.dom().len(),
            self@.dom().finite(),
    {
        proof {
            lemma_count_is_dom_len(self.inner@);
        }
        self.num_items
    }

    /// The length of the table's slot sequence.
    pub fn capacity(&self) -> (r: usize)
        ensures
            r == self.spec_capacity(),
    {
        self.inner.len()
    }

    /// Hashes the provided key with the table's hash provider.
    fn hash_key(&self, key: &usize) -> (h: usize)
        ensures
            h == self.spec_hasher().hash_spec(*key),
    {
        self.hasher_builder.hash_key(*key)
    }

    /// A probe that walked from the key's home slot to `upto` over occupied
    /// slots with other keys, and stopped there for a sound reason (the end
    /// of the slots, a vacancy, or an entry displaced less than the probe
    /// walked), proves the key absent.
    proof fn lemma_key_absent(&self, k: usize, upto: int)
        requires
            self.wf(),
            self.probe_modulus > 0,
            self.spec_hasher().hash_spec(k) as int % self.probe_modulus as int <= upto
                <= self.inner@.len(),
            forall|j: int|
                #![trigger self.inner@[j]]
                self.spec_hasher().hash_spec(k) as int % self.probe_modulus as int <= j < upto
                    ==> self.inner@[j] is Occupied && slot_entry(self.inner@, j).key != k,
            upto < self.inner@.len() ==> (!(self.inner@[upto] is Occupied) || (slot_entry(
                self.inner@,
                upto,
            ).key != k && slot_entry(self.inner@, upto).psl < upto - self.spec_hasher().hash_spec(
                k,
            ) as int % self.probe_modulus as int)),
        ensures
            !self@.dom().contains(k),
    {
        let s = self.inner@;
        let m = self.probe_modulus as int;
        let home = self.spec_hasher().hash_spec(k) as int % m;
        if self@.dom().contains(k) {
            lemma_as_map_dom(s, k);
            let j = choose|j: int|
                0 <= j < s.len() && s[j] is Occupied && (#[trigger] slot_entry(s, j)).key == k;
            let e = slot_entry(s, j);
            assert(e.hash == self.spec_hasher().hash_spec(k));
            assert(e.psl == j - home_of(e, m));
            assert(home_of(e, m) == home);
            if j < upto {
                assert(slot_entry(s, j).key != k);
            } else if j == upto {
                assert(s[upto] is Occupied && slot_entry(s, upto).key == k && slot_entry(
                    s,
                    upto,
                ).psl == upto - home);
            } else {
                lemma_probe_path(s, m, j, upto);
            }
            assert(false);
        }
    }

    /// Runs the bounded lookup: walks forward from the key's home slot and
    /// stops at a vacancy, at an entry displaced less than the walk is long,
    /// once the walk exceeds the recorded maximum displacement, or at the end
    /// of the slots. Returns the index of the key's slot if the key is
    /// present.
    fn get_entry(&self, key: &usize) -> (r: Option<usize>)
        requires
            self.wf(),
        ensures
            match r {
                Some(i) => {
                    &&& i < self.inner@.len()
                    &&& self.inner@[i as int] is Occupied
                    &&& slot_entry(self.inner@, i as int).key == *key
                },
                None => !self@.dom().contains(*key),
            },
    {
        if self.probe_modulus == 0 {
            proof {
                lemma_as_map_all_vacant(self.inner@);
            }
            return None;
        }
        let len = self.inner.len();
        let h = self.hash_key(key);
        let home = h % self.probe_modulus;
        let mut i = home;
        loop
            invariant
                self.wf(),
                self.probe_modulus > 0,
                h == self.spec_hasher().hash_spec(*key),
                home == h as int % self.probe_modulus as int,
                home < self.probe_modulus,
                len == self.inner@.len(),
                home <= i <= len,
                forall|j: int|
                    #![trigger self.inner@[j]]
                    home <= j < i ==> self.inner@[j] is Occupied && slot_entry(self.inner@, j).key
                        != *key,
            decreases len - i,
        {
            if i >= len {
                proof {
                    self.lemma_key_absent(*key, i as int);
                }
                return None;
            }
            let slot = &self.inner[i];
            match slot {
                MapEntry::VacantEntry => {
                    proof {
                        self.lemma_key_absent(*key, i as int);
                    }
                    return None;
                },
                MapEntry::Occupied(e) => {
                    if e.key == *key {
                        return Some(i);
                    }
                    if e.psl < i - home {
                        proof {
                            self.lemma_key_absent(*key, i as int);
                        }
                        return None;
                    }
                    if i - home > self.max_psl {
                        proof {
                            // the entry here is displaced at most max_psl,
                            // hence less than the walk is long
                            self.lemma_key_absent(*key, i as int);
                        }
                        return None;
                    }
                },
            }
            i += 1;
        }
    }

    /// Looks the key up and borrows its value, or reports that no entry with
    /// this key exists.
    pub fn get(&self, key: &usize) -> (r: Option<&V>)
        requires
            self.wf(),
        ensures
            match r {
                Some(v) => self@.dom().contains(*key) && *v == self@[*key],
                None => !self@.dom().contains(*key),
            },
    {
        match self.get_entry(key) {
            Some(i) => {
                let slot = &self.inner[i];
                match slot {
                    MapEntry::Occupied(e) => {
                        proof {
                            lemma_as_map_at(self.inner@, i as int);
                        }
                        Some(&e.value)
                    },
                    MapEntry::VacantEntry => unreached(),
                }
            },
            None => None,
        }
    }

    /// A candidate that is about to be placed at `i` (a vacancy, the end of
    /// the slots, or a swap with a resident displaced less than the walk is
    /// long) has a key held by no occupied slot at all.
    proof fn lemma_candidate_unplaced(&self, entry: Entry<V>, i: int, swapped: bool)
        requires
            self.wf(),
            self.probe_modulus > 0,
            entry.hash == self.spec_hasher().hash_spec(entry.key),
            entry.hash as int % self.probe_modulus as int <= i <= self.inner@.len(),
            entry.psl == i - entry.hash as int % self.probe_modulus as int,
            forall|j: int|
                #![trigger self.inner@[j]]
                entry.hash as int % self.probe_modulus as int <= j < i ==> self.inner@[j]
                    is Occupied && slot_entry(self.inner@, j).key != entry.key,
            i < self.inner@.len() ==> (!(self.inner@[i] is Occupied) || (slot_entry(
                self.inner@,
                i,
            ).key != entry.key && slot_entry(self.inner@, i).psl < entry.psl)),
            swapped ==> !as_map(self.inner@).dom().contains(entry.key),
        ensures
            forall|j: int|
                0 <= j < self.inner@.len() && self.inner@[j] is Occupied ==> (#[trigger] slot_entry(
                    self.inner@,
                    j,
                )).key != entry.key,
    {
        let s = self.inner@;
        if !swapped {
            self.lemma_key_absent(entry.key, i);
        }
        assert forall|j: int| 0 <= j < s.len() && s[j] is Occupied implies (#[trigger] slot_entry(
            s,
            j,
        )).key != entry.key by {
            if slot_entry(s, j).key == entry.key {
                lemma_as_map_at(s, j);
                assert(false);
            }
        }
    }

    /// Re-establishes the invariant after the candidate was written into a
    /// vacancy at `i`, or appended at the end of the slots (`i` is then the
    /// old length).
    proof fn lemma_after_placement(
        &self,
        sb: Seq<MapEntry<V>>,
        s0: Seq<MapEntry<V>>,
        entry: Entry<V>,
        i: int,
        k0: usize,
        v0: V,
    )
        requires
            self.probe_modulus > 0,
            psls_wf(sb, self.probe_modulus as int),
            run_wf(sb),
            keys_distinct(sb),
            forall|j: int|
                #![trigger sb[j]]
                0 <= j < sb.len() && sb[j] is Occupied ==> slot_entry(sb, j).hash
                    == self.spec_hasher().hash_spec(slot_entry(sb, j).key),
            forall|j: int|
                #![trigger sb[j]]
                0 <= j < sb.len() && sb[j] is Occupied ==> slot_entry(sb, j).psl <= self.max_psl,
            entry.hash == self.spec_hasher().hash_spec(entry.key),
            entry.hash as int % self.probe_modulus as int <= i <= sb.len(),
            entry.psl == i - entry.hash as int % self.probe_modulus as int,
            entry.psl == 0 || entry.psl <= self.max_psl,
            forall|j: int|
                #![trigger sb[j]]
                entry.hash as int % self.probe_modulus as int <= j < i ==> sb[j] is Occupied
                    && slot_entry(sb, j).key != entry.key,
            i > entry.hash as int % self.probe_modulus as int ==> slot_entry(sb, i - 1).psl + 1
                >= entry.psl,
            forall|j: int|
                0 <= j < sb.len() && sb[j] is Occupied ==> (#[trigger] slot_entry(sb, j)).key
                    != entry.key,
            i < sb.len() ==> !(sb[i] is Occupied),
            self.inner@ == if i == sb.len() {
                sb.push(MapEntry::Occupied(entry))
            } else {
                sb.update(i, MapEntry::Occupied(entry))
            },
            self.probe_modulus <= self.inner@.len(),
            self.num_items == occupied_count(sb) + 1,
            as_map(sb).insert(entry.key, entry.value) == as_map(s0).insert(k0, v0),
        ensures
            self.wf(),
            as_map(self.inner@) == as_map(s0).insert(k0, v0),
    {
        let s2 = self.inner@;
        let m = self.probe_modulus as int;
        let home = entry.hash as int % m;
        if i == sb.len() {
            assert(s2.drop_last() =~= sb);
            assert(as_map(s2) == as_map(sb).insert(entry.key, entry.value));
            assert(occupied_count(s2) == occupied_count(sb) + 1);
        } else {
            lemma_as_map_update(sb, i, entry);
            lemma_count_update(sb, i, MapEntry::Occupied(entry));
        }
        assert forall|a: int, b: int|
            0 <= a < s2.len() && 0 <= b < s2.len() && a != b && s2[a] is Occupied && s2[b]
                is Occupied implies (#[trigger] slot_entry(s2, a)).key != (#[trigger] slot_entry(
            s2,
            b,
        )).key by {
            if a != i && b != i {
                assert(s2[a] == sb[a] && s2[b] == sb[b]);
                assert(slot_entry(sb, a).key != slot_entry(sb, b).key);
            } else if a == i {
                assert(s2[b] == sb[b]);
                assert(slot_entry(sb, b).key != entry.key);
            } else {
                assert(s2[a] == sb[a]);
                assert(slot_entry(sb, a).key != entry.key);
            }
        }
        assert forall|j: int| 0 <= j < s2.len() implies #[trigger] slot_ordered(s2, j) by {
            if j == i {
                if entry.psl > 0 {
                    assert(i > home);
                    assert(s2[i - 1] == sb[i - 1]);
                    assert(sb[i - 1] is Occupied);
                }
            } else if j == i + 1 && j < s2.len() {
                assert(slot_ordered(sb, j));
                assert(s2[j] == sb[j]);
                if sb[j] is Occupied && slot_entry(sb, j).psl > 0 {
                    assert(sb[i] is Occupied);
                    assert(false);
                }
            } else {
                assert(slot_ordered(sb, j));
                assert(s2[j] == sb[j]);
                if j >= 1 {
                    assert(s2[j - 1] == sb[j - 1]);
                }
            }
        }
        assert(psls_wf(s2, m)) by {
            assert forall|j: int|
                #![trigger s2[j]]
                0 <= j < s2.len() && s2[j] is Occupied implies slot_entry(s2, j).psl == j - home_of(
                slot_entry(s2, j),
                m,
            ) by {
                if j != i {
                    assert(s2[j] == sb[j]);
                }
            }
        }
    }

    /// Re-establishes the invariant after the resident at `i`, which held
    /// the candidate's key, had its value overwritten in place.
    proof fn lemma_after_replacement(
        &self,
        sb: Seq<MapEntry<V>>,
        s0: Seq<MapEntry<V>>,
        new_entry: Entry<V>,
        i: int,
        k0: usize,
        v0: V,
    )
        requires
            self.probe_modulus > 0,
            psls_wf(sb, self.probe_modulus as int),
            run_wf(sb),
            keys_distinct(sb),
            forall|j: int|
                #![trigger sb[j]]
                0 <= j < sb.len() && sb[j] is Occupied ==> slot_entry(sb, j).hash
                    == self.spec_hasher().hash_spec(slot_entry(sb, j).key),
            forall|j: int|
                #![trigger sb[j]]
                0 <= j < sb.len() && sb[j] is Occupied ==> slot_entry(sb, j).psl <= self.max_psl,
            0 <= i < sb.len(),
            sb[i] is Occupied,
            slot_entry(sb, i).key == new_entry.key,
            slot_entry(sb, i).psl == new_entry.psl,
            new_entry.hash == self.spec_hasher().hash_spec(new_entry.key),
            self.inner@ == sb.update(i, MapEntry::Occupied(new_entry)),
            self.probe_modulus <= self.inner@.len(),
            self.num_items == occupied_count(sb),
            as_map(sb).insert(new_entry.key, new_entry.value) == as_map(s0).insert(k0, v0),
        ensures
            self.wf(),
            as_map(self.inner@) == as_map(s0).insert(k0, v0),
    {
        let s2 = self.inner@;
        let m = self.probe_modulus as int;
        assert forall|j: int|
            0 <= j < sb.len() && j != i && sb[j] is Occupied implies (#[trigger] slot_entry(
            sb,
            j,
        )).key != new_entry.key by {
            assert(slot_entry(sb, j).key != slot_entry(sb, i).key);
        }
        lemma_as_map_update(sb, i, new_entry);
        lemma_count_update(sb, i, MapEntry::Occupied(new_entry));
        assert forall|a: int, b: int|
            0 <= a < s2.len() && 0 <= b < s2.len() && a != b && s2[a] is Occupied && s2[b]
                is Occupied implies (#[trigger] slot_entry(s2, a)).key != (#[trigger] slot_entry(
            s2,
            b,
        )).key by {
            if a != i && b != i {
                assert(s2[a] == sb[a] && s2[b] == sb[b]);
                assert(slot_entry(sb, a).key != slot_entry(sb, b).key);
            } else if a == i {
                assert(s2[b] == sb[b]);
                assert(slot_entry(sb, b).key != slot_entry(sb, i).key);
            } else {
                assert(s2[a] == sb[a]);
                assert(slot_entry(sb, a).key != slot_entry(sb, i).key);
            }
        }
        assert forall|j: int| 0 <= j < s2.len() implies #[trigger] slot_ordered(s2, j) by {
            assert(slot_ordered(sb, j));
            if j != i {
                assert(s2[j] == sb[j]);
            }
            if j >= 1 && j - 1 != i {
                assert(s2[j - 1] == sb[j - 1]);
            }
        }
        assert(psls_wf(s2, m)) by {
            assert forall|j: int|
                #![trigger s2[j]]
                0 <= j < s2.len() && s2[j] is Occupied implies slot_entry(s2, j).psl == j - home_of(
                slot_entry(s2, j),
                m,
            ) by {
                if j != i {
                    assert(s2[j] == sb[j]);
                }
            }
        }
    }

    /// Re-establishes the invariant after the candidate was swapped with a
    /// less displaced resident at `i`; the displaced resident is the new
    /// candidate.
    proof fn lemma_after_swap(
        &self,
        sb: Seq<MapEntry<V>>,
        s0: Seq<MapEntry<V>>,
        cand: Entry<V>,
        res: Entry<V>,
        i: int,
        k0: usize,
        v0: V,
    )
        requires
            self.probe_modulus > 0,
            psls_wf(sb, self.probe_modulus as int),
            run_wf(sb),
            keys_distinct(sb),
            forall|j: int|
                #![trigger sb[j]]
                0 <= j < sb.len() && sb[j] is Occupied ==> slot_entry(sb, j).hash
                    == self.spec_hasher().hash_spec(slot_entry(sb, j).key),
            forall|j: int|
                #![trigger sb[j]]
                0 <= j < sb.len() && sb[j] is Occupied ==> slot_entry(sb, j).psl <= self.max_psl,
            0 <= i < sb.len(),
            sb[i] is Occupied,
            slot_entry(sb, i) == res,
            cand.key != res.key,
            cand.hash == self.spec_hasher().hash_spec(cand.key),
            cand.hash as int % self.probe_modulus as int <= i,
            cand.psl == i - cand.hash as int % self.probe_modulus as int,
            cand.psl <= self.max_psl,
            res.psl < cand.psl,
            forall|j: int|
                #![trigger sb[j]]
                cand.hash as int % self.probe_modulus as int <= j < i ==> sb[j] is Occupied
                    && slot_entry(sb, j).key != cand.key,
            i > cand.hash as int % self.probe_modulus as int ==> slot_entry(sb, i - 1).psl + 1
                >= cand.psl,
            forall|j: int|
                0 <= j < sb.len() && sb[j] is Occupied ==> (#[trigger] slot_entry(sb, j)).key
                    != cand.key,
            self.inner@ == sb.update(i, MapEntry::Occupied(cand)),
            self.probe_modulus <= self.inner@.len(),
            self.num_items == occupied_count(sb),
            as_map(sb).insert(cand.key, cand.value) == as_map(s0).insert(k0, v0),
        ensures
            self.wf(),
            as_map(self.inner@).insert(res.key, res.value) == as_map(s0).insert(k0, v0),
            !as_map(self.inner@).dom().contains(res.key),
            res.hash == self.spec_hasher().hash_spec(res.key),
            res.psl == i - res.hash as int % self.probe_modulus as int,
            forall|j: int|
                #![trigger self.inner@[j]]
                res.hash as int % self.probe_modulus as int <= j < i ==> self.inner@[j]
                    is Occupied && slot_entry(self.inner@, j).key != res.key,
    {
        let s2 = self.inner@;
        let m = self.probe_modulus as int;
        let home_c = cand.hash as int % m;
        let home_r = res.hash as int % m;
        assert(res.psl == i - home_r);
        lemma_as_map_update_swap(sb, i, cand);
        lemma_count_update(sb, i, MapEntry::Occupied(cand));
        // the displaced resident's probe path is an unbroken occupied run
        assert forall|j: int| #![trigger s2[j]] home_r <= j < i implies s2[j] is Occupied
            && slot_entry(s2, j).key != res.key by {
            lemma_probe_path(sb, m, i, j);
            assert(s2[j] == sb[j]);
            assert(slot_entry(sb, j).key != slot_entry(sb, i).key);
        }
        assert forall|j: int|
            0 <= j < s2.len() && s2[j] is Occupied implies (#[trigger] slot_entry(s2, j)).key
            != res.key by {
            if j != i {
                assert(s2[j] == sb[j]);
                assert(slot_entry(sb, j).key != slot_entry(sb, i).key);
            }
        }
        lemma_as_map_absent(s2, res.key);
        assert forall|a: int, b: int|
            0 <= a < s2.len() && 0 <= b < s2.len() && a != b && s2[a] is Occupied && s2[b]
                is Occupied implies (#[trigger] slot_entry(s2, a)).key != (#[trigger] slot_entry(
            s2,
            b,
        )).key by {
            if a != i && b != i {
                assert(s2[a] == sb[a] && s2[b] == sb[b]);
                assert(slot_entry(sb, a).key != slot_entry(sb, b).key);
            } else if a == i {
                assert(s2[b] == sb[b]);
                assert(slot_entry(sb, b).key != cand.key);
            } else {
                assert(s2[a] == sb[a]);
                assert(slot_entry(sb, a).key != cand.key);
            }
        }
        assert forall|j: int| 0 <= j < s2.len() implies #[trigger] slot_ordered(s2, j) by {
            assert(slot_ordered(sb, j));
            if j == i {
                assert(cand.psl > 0);
                assert(i > home_c);
                assert(s2[i - 1] == sb[i - 1]);
                assert(sb[i - 1] is Occupied);
            } else {
                assert(s2[j] == sb[j]);
                if j == i + 1 {
                    if sb[j] is Occupied && slot_entry(sb, j).psl > 0 {
                        assert(slot_entry(sb, i).psl + 1 >= slot_entry(sb, j).psl);
                    }
                } else if j >= 1 {
                    assert(s2[j - 1] == sb[j - 1]);
                }
            }
        }
        assert(psls_wf(s2, m)) by {
            assert forall|j: int|
                #![trigger s2[j]]
                0 <= j < s2.len() && s2[j] is Occupied implies slot_entry(s2, j).psl == j - home_of(
                slot_entry(s2, j),
                m,
            ) by {
                if j != i {
                    assert(s2[j] == sb[j]);
                }
            }
        }
    }

    /// Places a candidate entry by Robin Hood displacement: walk forward
    /// from the candidate's home slot, filling the first vacancy,
    /// overwriting the value on an equal key, and swapping with any resident
    /// displaced less than the candidate ("steal from the rich"). If the
    /// walk runs past the last slot, the candidate is appended as a
    /// fallback, lengthening the slot sequence by one.
    #[verifier::rlimit(100)]
    fn insert_entry(&mut self, entry: Entry<V>)
        requires
            old(self).wf(),
            old(self).probe_modulus > 0,
            old(self).num_items < usize::MAX,
            entry.psl == 0,
            entry.hash == old(self).spec_hasher().hash_spec(entry.key),
        ensures
            final(self).wf(),
            final(self)@ == old(self)@.insert(entry.key, entry.value),
            final(self).spec_hasher() == old(self).spec_hasher(),
            final(self).probe_modulus == old(self).probe_modulus,
            old(self).spec_capacity() <= final(self).spec_capacity() <= old(self).spec_capacity()
                + 1,
            old(self)@.dom().len() == 0 ==> final(self).spec_capacity()
                == old(self).spec_capacity(),
            old(self)@.dom().contains(entry.key) ==> final(self).spec_capacity()
                == old(self).spec_capacity(),
    {
        let ghost s0 = self.inner@;
        let ghost k0 = entry.key;
        let ghost v0 = entry.value;
        let mut cand = entry;
        let mut home = cand.hash % self.probe_modulus;
        let mut i = home;
        let ghost mut swapped = false;
        loop
            invariant
                self.wf(),
                s0 == old(self).inner@,
                as_map(s0) == old(self)@,
                keys_distinct(s0),
                occupied_count(s0) == old(self).num_items,
                k0 == entry.key,
                v0 == entry.value,
                swapped ==> !as_map(s0).dom().contains(k0),
                self.probe_modulus == old(self).probe_modulus,
                self.probe_modulus > 0,
                self.hasher_builder == old(self).hasher_builder,
                self.num_items == old(self).num_items,
                self.num_items < usize::MAX,
                self.inner@.len() == s0.len(),
                cand.hash == self.spec_hasher().hash_spec(cand.key),
                home == cand.hash as int % self.probe_modulus as int,
                home < self.probe_modulus,
                home <= i <= self.inner@.len(),
                cand.psl == i - home,
                cand.psl == 0 || cand.psl <= self.max_psl,
                forall|j: int|
                    #![trigger self.inner@[j]]
                    home <= j < i ==> self.inner@[j] is Occupied && slot_entry(self.inner@, j).key
                        != cand.key,
                i > home ==> slot_entry(self.inner@, i - 1).psl + 1 >= cand.psl,
                as_map(self.inner@).insert(cand.key, cand.value) == as_map(s0).insert(k0, v0),
                !swapped ==> self.inner@ == s0 && cand.key == k0 && cand.value == v0,
                swapped ==> !as_map(self.inner@).dom().contains(cand.key),
            decreases self.inner@.len() - i,
        {
            let len = self.inner.len();
            let ghost sb = self.inner@;
            if i >= len {
                // the walk ran past the end: append the candidate
                proof {
                    self.lemma_candidate_unplaced(cand, i as int, swapped);
                    // an append only happens past an occupied run starting
                    // at the home slot, so the table was not empty and the
                    // key was nowhere in it
                    assert(self.inner@[home as int] is Occupied);
                    lemma_count_pos(self.inner@, home as int);
                    lemma_count_is_dom_len(s0);
                    assert(as_map(s0).dom().len() >= 1);
                    if !swapped {
                        lemma_as_map_absent(self.inner@, cand.key);
                    }
                    assert(!as_map(s0).dom().contains(k0));
                }
                self.inner.push(MapEntry::Occupied(cand));
                self.num_items = self.num_items + 1;
                proof {
                    self.lemma_after_placement(sb, s0, cand, i as int, k0, v0);
                }
                return ;
            }
            let slot = &self.inner[i];
            match slot {
                MapEntry::VacantEntry => {
                    proof {
                        self.lemma_candidate_unplaced(cand, i as int, swapped);
                    }
                    self.inner[i] = MapEntry::Occupied(cand);
                    proof {
                        lemma_count_update(sb, i as int, MapEntry::Occupied(cand));
                        lemma_count_bound(self.inner@);
                    }
                    self.num_items = self.num_items + 1;
                    proof {
                        self.lemma_after_placement(sb, s0, cand, i as int, k0, v0);
                    }
                    return ;
                },
                MapEntry::Occupied(res) => {
                    let res_key = res.key;
                    let res_psl = res.psl;
                    if res_key == cand.key {
                        // same key: overwrite the value in place
                        proof {
                            // the resident records the same hash, hence the
                            // same home and the same displacement
                            assert(slot_entry(sb, i as int).hash == cand.hash);
                            assert(res_psl == cand.psl);
                        }
                        let new_entry = Entry {
                            key: cand.key,
                            value: cand.value,
                            hash: cand.hash,
                            psl: res_psl,
                        };
                        self.inner[i] = MapEntry::Occupied(new_entry);
                        proof {
                            self.lemma_after_replacement(sb, s0, new_entry, i as int, k0, v0);
                        }
                        return ;
                    }
                    if cand.psl > res_psl {
                        // steal from the rich: the candidate takes this slot
                        // and the displaced resident walks on
                        proof {
                            self.lemma_candidate_unplaced(cand, i as int, swapped);
                            if !swapped {
                                // the first swap settles that the original
                                // key was absent from the table
                                lemma_as_map_absent(self.inner@, cand.key);
                            }
                        }
                        let ghost cand_snap = cand;
                        let mut tmp = MapEntry::Occupied(cand);
                        core::mem::swap(&mut self.inner[i], &mut tmp);
                        let res_entry = match tmp {
                            MapEntry::Occupied(e) => e,
                            MapEntry::VacantEntry => unreached(),
                        };
                        proof {
                            self.lemma_after_swap(sb, s0, cand_snap, res_entry, i as int, k0, v0);
                            swapped = true;
                        }
                        home = res_entry.hash % self.probe_modulus;
                        cand = res_entry;
                    }
                    i = i + 1;
                    cand.psl = cand.psl + 1;
                    if cand.psl > self.max_psl {
                        self.max_psl = cand.psl;
                    }
                },
            }
        }
    }

    /// Inserts a value under its key, replacing any previous value for the
    /// key. Grows the table first when it has no slots or more than three
    /// quarters of them are taken.
    pub fn insert(&mut self, key: usize, value: V)
        requires
            old(self).wf(),
            old(self)@.dom().len() < usize::MAX,
        ensures
            final(self).wf(),
            final(self)@ == old(self)@.insert(key, value),
            final(self).spec_hasher() == old(self).spec_hasher(),
            ({
                let cap0 = old(self).spec_capacity();
                let n0 = old(self)@.dom().len();
                let growing = cap0 == 0 || n0 > 3 * cap0 / 4;
                let in_place = n0 == 0 || old(self)@.dom().contains(key);
                &&& (!growing && in_place) ==> final(self).spec_capacity() == cap0
                &&& (!growing && !in_place) ==> (cap0 <= final(self).spec_capacity() <= cap0 + 1)
                &&& (growing && n0 == 0) ==> final(self).spec_capacity() == grown_capacity(cap0)
                &&& (growing && n0 > 0 && old(self)@.dom().contains(key)) ==> (grown_capacity(
                    cap0,
                ) <= final(self).spec_capacity() <= grown_capacity(cap0) + n0)
                &&& (growing && !in_place) ==> (grown_capacity(cap0)
                    <= final(self).spec_capacity() <= grown_capacity(cap0) + n0 + 1)
            }),
    {
        proof {
            lemma_count_is_dom_len(self.inner@);
        }
        // load factor ceiling of three quarters, checked before placement
        if self.inner.is_empty() || (self.num_items as u128) > 3 * (self.inner.len() as u128)
            / 4 {
            self.resize();
        }
        proof {
            lemma_count_is_dom_len(self.inner@);
        }
        let hash = self.hash_key(&key);
        self.insert_entry(Entry::new(key, value, hash, 0));
    }

    /// Grows the table: builds a fresh vacant slot sequence of the target
    /// size, then re-places every entry, keeping its stored hash but probing
    /// from scratch with a displacement of zero.
    fn resize(&mut self)
        requires
            old(self).wf(),
            old(self).num_items < usize::MAX,
        ensures
            final(self).wf(),
            final(self)@ == old(self)@,
            final(self).spec_hasher() == old(self).spec_hasher(),
            final(self).probe_modulus > 0,
            grown_capacity(old(self).spec_capacity()) <= final(self).spec_capacity()
                <= grown_capacity(old(self).spec_capacity()) + old(self)@.dom().len(),
    {
        let old_len = self.inner.len();
        let target: usize = if old_len == 0 {
            INITIAL_SIZE
        } else if old_len <= usize::MAX / 2 {
            2 * old_len
        } else {
            usize::MAX
        };
        let mut old_inner: Vec<MapEntry<V>> = Vec::with_capacity(target);
        let mut i: usize = 0;
        while i < target
            invariant
                i <= target,
                old_inner@.len() == i,
                forall|j: int| #![trigger old_inner@[j]] 0 <= j < i ==> !(old_inner@[j] is Occupied),
                *self == *old(self),
            decreases target - i,
        {
            old_inner.push(MapEntry::VacantEntry);
            i += 1;
        }
        core::mem::swap(&mut self.inner, &mut old_inner);
        // old_inner now holds the previous slots; the table is fresh
        self.probe_modulus = target;
        self.num_items = 0;
        self.max_psl = 0;
        let ghost orig = old_inner@;
        proof {
            lemma_as_map_all_vacant(self.inner@);
            lemma_count_is_dom_len(orig);
            assert(orig.subrange(0, orig.len() as int) =~= orig);
            assert(as_map(orig) =~= as_map(old_inner@).union_prefer_right(as_map(self.inner@)));
        }
        while old_inner.len() > 0
            invariant
                self.wf(),
                self.probe_modulus == target,
                target > 0,
                self.hasher_builder == old(self).hasher_builder,
                orig == old(self).inner@,
                as_map(orig) == old(self)@,
                occupied_count(orig) == old(self).num_items,
                occupied_count(orig) < usize::MAX,
                grown_capacity(orig.len()) == target,
                keys_distinct(orig),
                psls_wf(orig, old(self).probe_modulus as int),
                forall|j: int|
                    #![trigger orig[j]]
                    0 <= j < orig.len() && orig[j] is Occupied ==> slot_entry(orig, j).hash
                        == self.hasher_builder.hash_spec(slot_entry(orig, j).key),
                old_inner@.len() <= orig.len(),
                old_inner@ == orig.subrange(0, old_inner@.len() as int),
                as_map(orig) == as_map(old_inner@).union_prefer_right(as_map(self.inner@)),
                as_map(old_inner@).dom().disjoint(as_map(self.inner@).dom()),
                occupied_count(old_inner@) + occupied_count(self.inner@) == occupied_count(orig),
                target <= self.inner@.len(),
                self.inner@.len() + occupied_count(old_inner@) <= target + occupied_count(orig),
            decreases old_inner@.len(),
        {
            let ghost prefix = old_inner@;
            let popped = old_inner.pop();
            proof {
                assert(prefix.len() > 0);
                assert(old_inner@ == prefix.subrange(0, prefix.len() - 1));
                assert(prefix == orig.subrange(0, prefix.len() as int));
                assert forall|q: int| 0 <= q < prefix.len() - 1 implies old_inner@[q] == orig[q] by {
                    assert(prefix.subrange(0, prefix.len() - 1)[q] == prefix[q]);
                    assert(orig.subrange(0, prefix.len() as int)[q] == orig[q]);
                }
                assert(old_inner@ =~= orig.subrange(0, old_inner@.len() as int));
            }
            match popped {
                Some(MapEntry::Occupied(e)) => {
                    let ghost rest = old_inner@;
                    let ghost table = self.inner@;
                    proof {
                        assert(prefix[prefix.len() - 1] == orig[prefix.len() - 1]);
                        assert(e.hash == self.hasher_builder.hash_spec(e.key));
                        // the popped key is in no earlier slot, so it is
                        // absent both from the rest and from the new table
                        assert forall|j: int|
                            0 <= j < rest.len() && rest[j] is Occupied implies (
                        #[trigger] slot_entry(rest, j)).key != e.key by {
                            assert(rest[j] == orig[j]);
                            assert(slot_entry(orig, j).key != slot_entry(
                                orig,
                                prefix.len() - 1,
                            ).key);
                        }
                        lemma_as_map_absent(rest, e.key);
                        assert(as_map(prefix) == as_map(rest).insert(e.key, e.value));
                        assert(as_map(prefix).dom().contains(e.key));
                        assert(!as_map(table).dom().contains(e.key));
                        lemma_count_bound(rest);
                        assert(occupied_count(prefix) == occupied_count(rest) + 1);
                        assert(self.num_items == occupied_count(table));
                        lemma_count_is_dom_len(table);
                    }
                    self.insert_entry(Entry::new(e.key, e.value, e.hash, 0));
                    proof {
                        assert(as_map(self.inner@) == as_map(table).insert(e.key, e.value));
                        lemma_count_is_dom_len(self.inner@);
                        assert(as_map(self.inner@).dom() =~= as_map(table).dom().insert(e.key));
                        assert(as_map(self.inner@).dom().len() == as_map(table).dom().len() + 1);
                        assert(occupied_count(self.inner@) == occupied_count(table) + 1);
                        assert(as_map(orig) =~= as_map(rest).union_prefer_right(
                            as_map(self.inner@),
                        )) by {
                            assert(as_map(orig) == as_map(prefix).union_prefer_right(
                                as_map(table),
                            ));
                        }
                        assert(as_map(rest).dom().disjoint(as_map(self.inner@).dom())) by {
                            assert forall|q: usize|
                                as_map(rest).dom().contains(q) implies !as_map(
                                self.inner@,
                            ).dom().contains(q) by {
                                assert(as_map(prefix).dom().contains(q));
                            }
                        }
                    }
                },
                Some(MapEntry::VacantEntry) => {
                    proof {
                        assert(as_map(prefix) == as_map(old_inner@));
                        assert(occupied_count(prefix) == occupied_count(old_inner@));
                    }
                },
                None => {
                    proof {
                        assert(false);
                    }
                },
            }
        }
        proof {
            assert(old_inner@.len() == 0);
            assert(as_map(old_inner@) == Map::<usize, V>::empty());
            assert(as_map(orig) =~= as_map(self.inner@)) by {
                assert(as_map(orig) == as_map(old_inner@).union_prefer_right(as_map(self.inner@)));
            }
        }
    }

    /// Resets every slot to vacant, keeping the slot sequence's length.
    pub fn clear(&mut self)
        requires
            old(self).wf(),
        ensures
            final(self).wf(),
            final(self)@ == Map::<usize, V>::empty(),
            final(self).spec_capacity() == old(self).spec_capacity(),
            final(self).spec_hasher() == old(self).spec_hasher(),
    {
        let old_capacity = self.inner.len();
        self.inner.clear();
        let mut i: usize = 0;
        while i < old_capacity
            invariant
                i <= old_capacity,
                self.inner@.len() == i,
                forall|j: int| #![trigger self.inner@[j]] 0 <= j < i ==> !(self.inner@[j] is Occupied),
                self.probe_modulus == old(self).probe_modulus,
                self.hasher_builder == old(self).hasher_builder,
                old_capacity == old(self).inner@.len(),
                self.probe_modulus <= old_capacity,
            decreases old_capacity - i,
        {
            self.inner.push(MapEntry::VacantEntry);
            i += 1;
        }
        self.num_items = 0;
        self.max_psl = 0;
        proof {
            lemma_as_map_all_vacant(self.inner@);
        }
    }

    /// After the displaced run `(i, j)` of the old slots has moved one slot
    /// left (each entry's displacement reduced by one) and slot `j - 1` has
    /// been vacated, the structural parts of the invariant hold again.
    proof fn lemma_after_shift(&self, s_pre: Seq<MapEntry<V>>, i: int, j: int)
        requires
            self.probe_modulus > 0,
            psls_wf(s_pre, self.probe_modulus as int),
            run_wf(s_pre),
            forall|u: int|
                #![trigger s_pre[u]]
                0 <= u < s_pre.len() && s_pre[u] is Occupied ==> slot_entry(s_pre, u).hash
                    == self.spec_hasher().hash_spec(slot_entry(s_pre, u).key),
            forall|u: int|
                #![trigger s_pre[u]]
                0 <= u < s_pre.len() && s_pre[u] is Occupied ==> slot_entry(s_pre, u).psl
                    <= self.max_psl,
            0 <= i < j <= s_pre.len(),
            s_pre[i] is Occupied,
            self.inner@.len() == s_pre.len(),
            forall|u: int| #![trigger s_pre[u]] i < u < j ==> s_pre[u] is Occupied && slot_entry(
                s_pre,
                u,
            ).psl > 0,
            j == s_pre.len() || !(s_pre[j] is Occupied) || slot_entry(s_pre, j).psl == 0,
            forall|u: int| #![trigger self.inner@[u]] 0 <= u < i ==> self.inner@[u] == s_pre[u],
            forall|u: int|
                #![trigger self.inner@[u]]
                i <= u < j - 1 ==> self.inner@[u] == shifted_slot(s_pre[u + 1]),
            self.inner@[j - 1] is VacantEntry,
            forall|u: int|
                #![trigger self.inner@[u]]
                j <= u < s_pre.len() ==> self.inner@[u] == s_pre[u],
        ensures
            psls_wf(self.inner@, self.probe_modulus as int),
            run_wf(self.inner@),
            self.hashes_wf(),
            self.max_psl_wf(),
    {
        let f = self.inner@;
        let m = self.probe_modulus as int;
        assert(psls_wf(f, m)) by {
            assert forall|u: int|
                #![trigger f[u]]
                0 <= u < f.len() && f[u] is Occupied implies slot_entry(f, u).psl == u - home_of(
                slot_entry(f, u),
                m,
            ) by {
                if i <= u < j - 1 {
                    assert(s_pre[u + 1] is Occupied);
                }
            }
        }
        assert(self.hashes_wf() && self.max_psl_wf()) by {
            assert forall|u: int|
                #![trigger f[u]]
                0 <= u < f.len() && f[u] is Occupied implies slot_entry(f, u).hash
                == self.spec_hasher().hash_spec(slot_entry(f, u).key) && slot_entry(f, u).psl
                <= self.max_psl by {
                if i <= u < j - 1 {
                    assert(s_pre[u + 1] is Occupied);
                }
            }
        }
        assert(run_wf(f)) by {
            assert forall|u: int| 0 <= u < f.len() implies #[trigger] slot_ordered(f, u) by {
                if f[u] is Occupied && slot_entry(f, u).psl > 0 {
                    if u < i {
                        assert(slot_ordered(s_pre, u));
                        assert(f[u - 1] == s_pre[u - 1]);
                    } else if u == i {
                        // the first shifted entry: in the old slots its
                        // displacement was two more than its new
                        // predecessor's, linked through the removed entry
                        assert(f[i] == shifted_slot(s_pre[i + 1]));
                        assert(s_pre[i + 1] is Occupied);
                        let p1 = slot_entry(s_pre, i + 1).psl;
                        assert(slot_ordered(s_pre, i + 1));
                        assert(slot_entry(s_pre, i).psl + 1 >= p1);
                        assert(slot_entry(s_pre, i).psl > 0);
                        assert(slot_ordered(s_pre, i));
                        assert(f[u - 1] == s_pre[u - 1]);
                    } else if u < j - 1 {
                        assert(f[u] == shifted_slot(s_pre[u + 1]));
                        assert(s_pre[u + 1] is Occupied);
                        let p1 = slot_entry(s_pre, u + 1).psl;
                        assert(slot_ordered(s_pre, u + 1));
                        assert(s_pre[u] is Occupied && slot_entry(s_pre, u).psl + 1 >= p1);
                        if u - 1 < i {
                            assert(f[u - 1] == s_pre[u - 1]);
                            assert(u - 1 == i - 1 && u == i) by {
                                assert(i <= u - 1);
                            }
                        } else {
                            assert(f[u - 1] == shifted_slot(s_pre[u]));
                        }
                    } else if u == j - 1 {
                        assert(f[u] is VacantEntry);
                    } else if u == j {
                        assert(f[u] == s_pre[u]);
                        assert(!(s_pre[j] is Occupied) || slot_entry(s_pre, j).psl == 0);
                    } else {
                        assert(f[u] == s_pre[u]);
                        assert(f[u - 1] == s_pre[u - 1]);
                        assert(slot_ordered(s_pre, u));
                    }
                }
            }
        }
    }

    /// Deletes the entry with the given key, or fails when no such entry
    /// exists. Removal is by backward shift: the contiguous run of displaced
    /// entries after the removed slot moves one slot left, each entry's
    /// displacement reduced by one, so no tombstone is needed.
    #[verifier::rlimit(100)]
    pub fn remove(&mut self, key: &usize) -> (r: Result<(), &'static str>)
        requires
            old(self).wf(),
        ensures
            final(self).wf(),
            final(self).spec_capacity() == old(self).spec_capacity(),
            final(self).spec_hasher() == old(self).spec_hasher(),
            old(self)@.dom().contains(*key) ==> r is Ok && final(self)@ == old(self)@.remove(
                *key,
            ) && final(self)@.dom().len() == old(self)@.dom().len() - 1,
            !old(self)@.dom().contains(*key) ==> r == Err::<(), &'static str>("Entry not found")
                && *final(self) == *old(self),
    {
        let ghost s_pre = self.inner@;
        let found = self.get_entry(key);
        match found {
            None => Err("Entry not found"),
            Some(i) => {
                proof {
                    lemma_as_map_at(self.inner@, i as int);
                    lemma_count_pos(self.inner@, i as int);
                }
                let len = self.inner.len();
                let ghost removed_key = slot_entry(s_pre, i as int).key;
                // find where the displaced run after the removed slot ends:
                // at a vacant slot, at an entry sitting in its own home
                // slot, or at the end of the slots
                let mut j = i + 1;
                while j < len
                    invariant
                        self.wf(),
                        *self == *old(self),
                        s_pre == self.inner@,
                        i < len,
                        len == s_pre.len(),
                        i + 1 <= j <= len,
                        forall|u: int|
                            #![trigger s_pre[u]]
                            i < u < j ==> s_pre[u] is Occupied && slot_entry(s_pre, u).psl > 0,
                    ensures
                        self.wf(),
                        *self == *old(self),
                        s_pre == self.inner@,
                        i + 1 <= j <= len,
                        forall|u: int|
                            #![trigger s_pre[u]]
                            i < u < j ==> s_pre[u] is Occupied && slot_entry(s_pre, u).psl > 0,
                        j == len || !(s_pre[j as int] is Occupied) || slot_entry(
                            s_pre,
                            j as int,
                        ).psl == 0,
                    decreases len - j,
                {
                    let slot = &self.inner[j];
                    match slot {
                        MapEntry::Occupied(e) => {
                            if e.psl == 0 {
                                break ;
                            }
                        },
                        MapEntry::VacantEntry => {
                            break ;
                        },
                    }
                    j += 1;
                }
                let ghost m0 = as_map(s_pre);
                let ghost n0 = self.num_items;
                proof {
                    assert forall|q: int|
                        0 <= q < s_pre.len() && q != i as int && s_pre[q] is Occupied implies (
                    #[trigger] slot_entry(s_pre, q)).key != removed_key by {
                        assert(slot_entry(s_pre, q).key != slot_entry(s_pre, i as int).key);
                    }
                    lemma_as_map_update_vacate(s_pre, i as int);
                    lemma_count_update(s_pre, i as int, MapEntry::VacantEntry);
                }
                self.inner[i] = MapEntry::VacantEntry;
                proof {
                    assert(keys_distinct(self.inner@)) by {
                        let s2 = self.inner@;
                        assert forall|a: int, b: int|
                            0 <= a < s2.len() && 0 <= b < s2.len() && a != b && s2[a] is Occupied
                                && s2[b] is Occupied implies (#[trigger] slot_entry(s2, a)).key
                            != (#[trigger] slot_entry(s2, b)).key by {
                            assert(s2[a] == s_pre[a] && s2[b] == s_pre[b]);
                            assert(slot_entry(s_pre, a).key != slot_entry(s_pre, b).key);
                        }
                    }
                }
                // shift the run one slot left, pulling each entry into the
                // hole and reducing its displacement by one
                let mut t = i + 1;
                while t < j
                    invariant
                        i + 1 <= t <= j <= len,
                        i < len,
                        len == s_pre.len(),
                        self.inner@.len() == len,
                        self.probe_modulus == old(self).probe_modulus,
                        self.probe_modulus > 0,
                        self.hasher_builder == old(self).hasher_builder,
                        self.num_items == n0,
                        self.max_psl == old(self).max_psl,
                        psls_wf(s_pre, self.probe_modulus as int),
                        run_wf(s_pre),
                        keys_distinct(s_pre),
                        forall|u: int|
                            #![trigger s_pre[u]]
                            0 <= u < s_pre.len() && s_pre[u] is Occupied ==> slot_entry(
                                s_pre,
                                u,
                            ).hash == self.hasher_builder.hash_spec(slot_entry(s_pre, u).key),
                        forall|u: int|
                            #![trigger s_pre[u]]
                            0 <= u < s_pre.len() && s_pre[u] is Occupied ==> slot_entry(
                                s_pre,
                                u,
                            ).psl <= self.max_psl,
                        s_pre[i as int] is Occupied,
                        removed_key == slot_entry(s_pre, i as int).key,
                        n0 == occupied_count(s_pre),
                        m0 == as_map(s_pre),
                        forall|u: int|
                            #![trigger s_pre[u]]
                            i < u < j ==> s_pre[u] is Occupied && slot_entry(s_pre, u).psl > 0,
                        j == len || !(s_pre[j as int] is Occupied) || slot_entry(
                            s_pre,
                            j as int,
                        ).psl == 0,
                        forall|u: int|
                            #![trigger self.inner@[u]]
                            0 <= u < i ==> self.inner@[u] == s_pre[u],
                        forall|u: int|
                            #![trigger self.inner@[u]]
                            i <= u < t - 1 ==> self.inner@[u] == shifted_slot(s_pre[u + 1]),
                        self.inner@[t - 1] is VacantEntry,
                        forall|u: int|
                            #![trigger self.inner@[u]]
                            t <= u < len ==> self.inner@[u] == s_pre[u],
                        keys_distinct(self.inner@),
                        as_map(self.inner@) == m0.remove(removed_key),
                        occupied_count(self.inner@) == occupied_count(s_pre) - 1,
                    decreases j - t,
                {
                    let ghost s_cur = self.inner@;
                    let mut moved_slot = MapEntry::VacantEntry;
                    core::mem::swap(&mut self.inner[t], &mut moved_slot);
                    proof {
                        assert(s_cur[t as int] == s_pre[t as int]);
                    }
                    match moved_slot {
                        MapEntry::Occupied(e) => {
                            let ghost s_mid = self.inner@;
                            proof {
                                let ti = t as int;
                                assert forall|q: int|
                                    0 <= q < s_cur.len() && q != ti && s_cur[q]
                                        is Occupied implies (#[trigger] slot_entry(s_cur, q)).key
                                    != slot_entry(s_cur, ti).key by {
                                    assert(slot_entry(s_cur, q).key != slot_entry(s_cur, ti).key);
                                }
                                lemma_as_map_update_vacate(s_cur, ti);
                                lemma_count_update(s_cur, ti, MapEntry::VacantEntry);
                                lemma_as_map_at(s_cur, ti);
                            }
                            let shifted = Entry::new(e.key, e.value, e.hash, e.psl - 1);
                            self.inner[t - 1] = MapEntry::Occupied(shifted);
                            proof {
                                let ti = t as int;
                                assert forall|q: int|
                                    0 <= q < s_mid.len() && q != ti - 1 && s_mid[q]
                                        is Occupied implies (#[trigger] slot_entry(s_mid, q)).key
                                    != e.key by {
                                    if q != ti {
                                        assert(s_mid[q] == s_cur[q]);
                                        assert(slot_entry(s_cur, q).key != slot_entry(
                                            s_cur,
                                            ti,
                                        ).key);
                                    }
                                }
                                lemma_as_map_update(s_mid, ti - 1, shifted);
                                lemma_count_update(s_mid, ti - 1, MapEntry::Occupied(shifted));
                                assert(as_map(s_cur).remove(e.key).insert(e.key, e.value)
                                    =~= as_map(s_cur));
                                assert(as_map(self.inner@) == m0.remove(removed_key));
                                assert(keys_distinct(self.inner@)) by {
                                    let s2 = self.inner@;
                                    assert forall|a: int, b: int|
                                        0 <= a < s2.len() && 0 <= b < s2.len() && a != b && s2[a]
                                            is Occupied && s2[b] is Occupied implies (
                                    #[trigger] slot_entry(s2, a)).key != (#[trigger] slot_entry(
                                        s2,
                                        b,
                                    )).key by {
                                        if a != ti - 1 && b != ti - 1 {
                                            assert(s2[a] == s_cur[a] && s2[b] == s_cur[b]);
                                            assert(slot_entry(s_cur, a).key != slot_entry(
                                                s_cur,
                                                b,
                                            ).key);
                                        } else if a == ti - 1 {
                                            assert(s2[b] == s_cur[b]);
                                            assert(slot_entry(s_cur, b).key != slot_entry(
                                                s_cur,
                                                ti,
                                            ).key);
                                        } else {
                                            assert(s2[a] == s_cur[a]);
                                            assert(slot_entry(s_cur, a).key != slot_entry(
                                                s_cur,
                                                ti,
                                            ).key);
                                        }
                                    }
                                }
                            }
                        },
                        MapEntry::VacantEntry => {
                            proof {
                                assert(false);
                            }
                        },
                    }
                    t += 1;
                }
                proof {
                    self.lemma_after_shift(s_pre, i as int, j as int);
                }
                self.num_items = self.num_items - 1;
                proof {
                    assert(self.wf());
                    assert(self@ == m0.remove(removed_key));
                    lemma_count_is_dom_len(s_pre);
                    lemma_count_is_dom_len(self.inner@);
                    assert(self@.dom().len() == as_map(s_pre).dom().len() - 1);
                }
                Ok(())
            },
        }
    }

    /// Reports whether a value is associated with the given key.
    pub fn contains_key(&self, key: &usize) -> (r: bool)
        requires
            self.wf(),
        ensures
            r == self@.dom().contains(*key),
    {
        match self.get_entry(key) {
            Some(i) => {
                proof {
                    lemma_as_map_at(self.inner@, i as int);
                }
                true
            },
            None => false,
        }
    }
}

} // verus!

use rhmap::fx_build_hasher::FxBuildHasher;
use rhmap::fx_build_hasher::HashProvider;
use rhmap::hashmap::RHMap;
use rhmap::map_entry::Entry;
use rhmap::map_entry::MapEntry;

#[test]
fn round_trip_returns_latest_value() {
    let mut map = RHMap::new();
    map.insert(10, "first");
    map.insert(20, "second");
    map.insert(30, "third");
    map.insert(20, "overwritten");

    assert_eq!(*map.get(&10).unwrap(), "first");
    assert_eq!(*map.get(&20).unwrap(), "overwritten");
    assert_eq!(*map.get(&30).unwrap(), "third");
    assert_eq!(map.len(), 3);
}

#[test]
fn count_tracks_inserts_and_removals() {
    let mut map = RHMap::new();
    for k in 0..10 {
        map.insert(k, k * k);
    }
    assert_eq!(map.len(), 10);
    // a duplicate insert does not change the count
    map.insert(5, 99);
    assert_eq!(map.len(), 10);
    assert_eq!(map.remove(&3), Ok(()));
    assert_eq!(map.remove(&7), Ok(()));
    assert_eq!(map.len(), 8);
    // a failed removal does not change the count
    assert!(map.remove(&3).is_err());
    assert_eq!(map.len(), 8);
}

#[test]
fn resize_preserves_content() {
    let mut map = RHMap::with_capacity(4);
    for k in 0..50 {
        map.insert(k, k + 1000);
    }
    assert!(map.capacity() > 4);
    assert_eq!(map.len(), 50);
    for k in 0..50 {
        assert_eq!(*map.get(&k).unwrap(), k + 1000);
    }
}

#[test]
fn removal_leaves_other_keys_untouched() {
    let mut map = RHMap::new();
    for k in 0..20 {
        map.insert(k, 2 * k);
    }
    assert_eq!(map.remove(&11), Ok(()));
    assert!(!map.contains_key(&11));
    assert!(map.get(&11).is_none());
    for k in 0..20 {
        if k != 11 {
            assert_eq!(*map.get(&k).unwrap(), 2 * k);
        }
    }
}

#[test]
fn clear_empties_but_keeps_capacity() {
    let mut map = RHMap::with_capacity(16);
    for k in 0..9 {
        map.insert(k, ());
    }
    map.clear();
    assert_eq!(map.len(), 0);
    assert_eq!(map.capacity(), 16);
    for k in 0..9 {
        assert!(!map.contains_key(&k));
    }
    // clearing again changes nothing
    map.clear();
    assert_eq!(map.len(), 0);
    assert_eq!(map.capacity(), 16);
}

#[test]
fn probing_and_growth_scenario() {
    let mut map = RHMap::with_capacity(4);
    map.insert(1, 2);
    map.insert(4, 2);
    map.insert(7, 2);
    map.insert(3, 2);
    map.insert(9, 2);
    assert!(map.capacity() > 4);

    assert_eq!(map.remove(&4), Ok(()));
    assert_eq!(map.remove(&1), Ok(()));
    assert_eq!(map.remove(&7), Ok(()));
    assert_eq!(map.remove(&3), Ok(()));

    assert_eq!(map.len(), 1);
    assert_eq!(*map.get(&9).unwrap(), 2);
    for k in [4, 1, 7, 3] {
        assert!(map.get(&k).is_none());
        assert!(!map.contains_key(&k));
    }
}

#[test]
fn removing_an_absent_key_fails() {
    let mut map: RHMap<u8, FxBuildHasher> = RHMap::new();
    assert_eq!(map.remove(&5), Err("Entry not found"));
    map.insert(5, 1);
    assert_eq!(map.remove(&5), Ok(()));
    assert_eq!(map.remove(&5), Err("Entry not found"));
}

#[test]
fn custom_hasher_constructors_work() {
    let mut a = RHMap::with_hasher(FxBuildHasher::new());
    assert_eq!(a.capacity(), 0);
    a.insert(8, 80);
    assert_eq!(*a.get(&8).unwrap(), 80);

    let mut b = RHMap::with_capacity_and_hasher(12, FxBuildHasher::new());
    assert_eq!(b.capacity(), 12);
    b.insert(8, 80);
    assert_eq!(*b.get(&8).unwrap(), 80);
}

#[test]
fn fx_hashing_is_deterministic_and_not_identity() {
    let hasher = FxBuildHasher::new();
    assert_eq!(hasher.hash_key(7), hasher.hash_key(7));
    // the fx hash mixes its input; it is not the identity on keys
    assert_ne!(hasher.hash_key(1), 1);
    assert_ne!(hasher.hash_key(2), 2);
}

#[test]
fn entry_and_slot_accessors() {
    let entry = Entry::new(3, "v", 77, 0);
    assert_eq!(entry.key, 3);
    assert_eq!(entry.value, "v");
    assert_eq!(entry.hash, 77);
    assert_eq!(entry.psl, 0);

    let slot = MapEntry::Occupied(Entry::new(3, "v", 77, 0));
    let unwrapped = slot.unwrap();
    assert_eq!(unwrapped.key, 3);

    let vacant: MapEntry<&str> = MapEntry::default();
    assert!(matches!(vacant, MapEntry::VacantEntry));
}

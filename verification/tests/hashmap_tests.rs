use rhmap::fx_build_hasher::FxBuildHasher;
use rhmap::hashmap::RHMap;

#[test]
fn it_constructs_with_an_initial_capacity() {
    let initial_capacity = 5;
    let hashmap: RHMap<i32, FxBuildHasher> = RHMap::with_capacity(initial_capacity);

    assert_eq!(hashmap.capacity(), initial_capacity);
}

#[test]
fn it_inserts_values_without_initial_capacity() {
    let mut hashmap = RHMap::new();

    for x in 0..100 {
        hashmap.insert(x, x + 1);
    }

    assert_eq!(hashmap.len(), 100);

    for x in 100..0 {
        let val = hashmap.get(&x).unwrap();
        assert_eq!(*val, x + 1);
    }
}

#[test]
fn it_inserts_values_with_initial_capacity() {
    let mut book_reviews = RHMap::with_capacity(10);
    let key: usize = 1887;
    let value = "Eye lyked it alot.".to_string();
    book_reviews.insert(key, value);

    assert_eq!(book_reviews.capacity(), 10);
    assert_eq!(*book_reviews.get(&1887).unwrap(), String::from("Eye lyked it alot."));
}

#[test]
fn it_checks_if_entry_exists() {
    let mut hashmap = RHMap::new();
    hashmap.insert(1, 2);

    assert_eq!(hashmap.contains_key(&1), true);
    assert_eq!(hashmap.contains_key(&2), false);
}

#[test]
fn it_clears_all_entries() {
    let mut hashmap = RHMap::with_capacity(70);
    hashmap.insert(42, 0);
    hashmap.insert(42, 1);
    hashmap.clear();

    assert_eq!(hashmap.capacity(), 70);
    assert_eq!(hashmap.len(), 0);
    assert_eq!(hashmap.contains_key(&42), false);
}

#[test]
#[allow(unused_must_use)]
fn it_removes_entries() {
    let mut hashmap = RHMap::new();
    hashmap.insert(1, 2);
    hashmap.insert(4, 2);
    hashmap.insert(7, 2);
    hashmap.insert(3, 2);
    hashmap.insert(9, 2);

    hashmap.remove(&4);
    hashmap.remove(&1);
    hashmap.remove(&7);
    hashmap.remove(&3);

    assert!(!hashmap.contains_key(&4));
    assert!(!hashmap.contains_key(&1));
    assert!(!hashmap.contains_key(&7));
    assert!(!hashmap.contains_key(&3));
    assert_eq!(hashmap.len(), 1)
}

#[test]
#[allow(unused_must_use)]
fn it_removes_edge_case_entry() {
    // An edge case entry
    let mut hashmap = RHMap::with_capacity(1);
    hashmap.insert(1, 2);
    hashmap.remove(&1);
    assert!(!hashmap.contains_key(&1));
    assert_eq!(hashmap.len(), 0);
    assert_eq!(hashmap.capacity(), 1);
}

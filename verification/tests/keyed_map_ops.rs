use reconcile::keyed_map::KeyedMap;
use reconcile::toggle::Toggle;

#[test]
fn insert_get_and_replace() {
    let mut map: KeyedMap<u64, &'static str> = KeyedMap::new();
    assert!(!map.insert(2, "two"));
    assert!(!map.insert(1, "one"));
    assert_eq!(map.get(&1), Some(&"one"));
    assert_eq!(map.get(&2), Some(&"two"));
    assert_eq!(map.get(&3), None);
    assert!(map.insert(2, "zwei"));
    assert_eq!(map.get(&2), Some(&"zwei"));
    assert_eq!(map.len(), 2);
}

#[test]
fn iteration_is_in_key_order() {
    let mut map: KeyedMap<u64, u64> = KeyedMap::new();
    map.insert(30, 3);
    map.insert(10, 1);
    map.insert(20, 2);
    assert_eq!(map.keys(), vec![10, 20, 30]);
    assert_eq!(*map.key_at(0), 10);
    assert_eq!(*map.value_at(0), 1);
    assert_eq!(*map.key_at(2), 30);
}

#[test]
fn string_keys_order_lexicographically() {
    let mut map: KeyedMap<String, u64> = KeyedMap::new();
    map.insert("pear".to_string(), 3);
    map.insert("apple".to_string(), 1);
    map.insert("apricot".to_string(), 2);
    map.insert("".to_string(), 0);
    assert_eq!(
        map.keys(),
        vec!["".to_string(), "apple".to_string(), "apricot".to_string(), "pear".to_string()]
    );
    assert!(map.contains_key(&"apple".to_string()));
    assert!(!map.contains_key(&"plum".to_string()));
}

#[test]
fn remove_and_clear() {
    let mut map: KeyedMap<u64, u64> = KeyedMap::new();
    map.insert(1, 10);
    map.insert(2, 20);
    assert_eq!(map.remove(&1), Some(10));
    assert_eq!(map.remove(&1), None);
    assert_eq!(map.len(), 1);
    map.clear();
    assert!(map.is_empty());
    assert_eq!(map.get(&2), None);
}

#[test]
fn toggle_flips_and_sets() {
    let mut toggle = Toggle::new(false);
    assert!(!toggle.value());
    toggle.toggle();
    assert!(toggle.value());
    toggle.toggle();
    assert!(!toggle.value());
    toggle.set_value(true);
    assert!(toggle.value());
    let copy = toggle;
    assert_eq!(copy, Toggle(true));
}

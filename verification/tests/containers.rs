use libspecr::{Int, List, PersistentMap, PersistentSet, SharedCell};

#[test]
fn map_scenario_string_keys() {
    let mut map: PersistentMap<String, u64> = PersistentMap::new();

    assert!(map.try_insert(String::from("a"), 1).is_ok());
    assert_eq!(map.get(&String::from("a")), Some(1));
    assert_eq!(map.keys().len(), 1);

    assert!(map.try_insert(String::from("a"), 2).is_err());
    assert_eq!(map.get(&String::from("a")), Some(1));
    assert_eq!(map.keys().len(), 1);

    assert_eq!(map.insert(String::from("a"), 2), Some(1));
    assert_eq!(map.get(&String::from("a")), Some(2));

    assert_eq!(map.remove(&String::from("a")), Some(2));
    assert!(!map.contains_key(&String::from("a")));
    assert_eq!(map.keys().len(), 0);
}

#[test]
fn map_insert_then_get() {
    let mut map: PersistentMap<u64, u64> = PersistentMap::new();
    assert_eq!(map.insert(10, 100), None);
    assert_eq!(map.insert(20, 200), None);
    assert_eq!(map.get(&10), Some(100));
    assert_eq!(map.get(&20), Some(200));
    assert_eq!(map.get(&30), None);
    assert_eq!(map.index_at(&10), 100);
}

#[test]
fn map_overwrite_reports_prior() {
    let mut map: PersistentMap<u64, u64> = PersistentMap::new();
    assert_eq!(map.insert(1, 5), None);
    assert_eq!(map.insert(1, 6), Some(5));
    assert_eq!(map.get(&1), Some(6));
    assert_eq!(map.keys().len(), 1);
    assert_eq!(map.values().len(), 1);
}

#[test]
fn map_remove_clears_membership() {
    let mut map: PersistentMap<u64, u64> = PersistentMap::new();
    map.insert(1, 10);
    map.insert(2, 20);
    map.insert(3, 30);
    assert_eq!(map.remove(&2), Some(20));
    assert_eq!(map.remove(&2), None);
    assert!(!map.contains_key(&2));
    assert!(map.contains_key(&1));
    assert!(map.contains_key(&3));
    assert_eq!(map.keys().len(), 2);
}

#[test]
fn map_snapshot_is_eager() {
    let mut map: PersistentMap<u64, u64> = PersistentMap::new();
    map.insert(1, 10);
    map.insert(2, 20);
    let keys = map.keys();
    let values = map.values();
    map.insert(3, 30);
    // the snapshots reflect the map at the instant of the call
    assert_eq!(keys.len(), 2);
    assert_eq!(values.len(), 2);
    assert_eq!(map.keys().len(), 3);
}

#[test]
fn map_int_keys() {
    let mut map: PersistentMap<Int, u64> = PersistentMap::new();
    assert_eq!(map.insert(Int::from_i128(-7), 1), None);
    assert_eq!(map.get(&Int::from_i128(-7)), Some(1));
    assert_eq!(map.get(&Int::from_i128(7)), None);
}

#[test]
fn list_push_get_last() {
    let mut list: List<u64> = List::new();
    assert_eq!(list.len(), 0);
    assert!(list.last().is_none());
    list.push(5);
    list.push(6);
    assert_eq!(list.len(), 2);
    assert_eq!(*list.get(0), 5);
    assert_eq!(*list.get(1), 6);
    assert_eq!(*list.last().unwrap(), 6);
    assert_eq!(*list.index_at(&Int::from_u64(1)), 6);
}

#[test]
fn list_set_at_replaces() {
    let mut list: List<u64> = List::new();
    list.push(1);
    list.push(2);
    list.push(3);
    list.set_at(&Int::from_u64(1), 7);
    assert_eq!(*list.get(0), 1);
    assert_eq!(*list.get(1), 7);
    assert_eq!(*list.get(2), 3);
}

#[test]
fn list_last_mut_replaces() {
    let mut list: List<u64> = List::new();
    assert!(!list.last_mut(9));
    list.push(1);
    list.push(2);
    assert!(list.last_mut(9));
    assert_eq!(*list.get(0), 1);
    assert_eq!(*list.get(1), 9);
}

#[test]
fn set_membership() {
    let mut set: PersistentSet<u64> = PersistentSet::new();
    assert!(!set.contains(&3));
    assert!(set.insert(3));
    assert!(!set.insert(3));
    assert!(set.contains(&3));
    assert_eq!(set.elements().len(), 1);
    assert!(set.remove(&3));
    assert!(!set.remove(&3));
    assert!(!set.contains(&3));
    assert_eq!(set.elements().len(), 0);
}

#[test]
fn duplicates_are_independent() {
    let mut map: PersistentMap<String, u64> = PersistentMap::new();
    map.insert(String::from("a"), 1);
    let mut copy = map.duplicate();
    copy.insert(String::from("a"), 9);
    copy.insert(String::from("b"), 2);
    // mutation through one owner is never observed through another
    assert_eq!(map.get(&String::from("a")), Some(1));
    assert_eq!(map.keys().len(), 1);
    assert_eq!(copy.get(&String::from("a")), Some(9));
    assert_eq!(copy.keys().len(), 2);

    let mut list: List<u64> = List::new();
    list.push(5);
    let mut list_copy = list.duplicate();
    list_copy.push(6);
    assert_eq!(list.len(), 1);
    assert_eq!(list_copy.len(), 2);

    let mut set: PersistentSet<u64> = PersistentSet::new();
    set.insert(3);
    let mut set_copy = set.duplicate();
    set_copy.remove(&3);
    assert!(set.contains(&3));
    assert!(!set_copy.contains(&3));

    let cell: SharedCell<u64> = SharedCell::new(7);
    let mut cell_copy = cell.duplicate();
    assert_eq!(cell_copy.replace(8), 7);
    assert_eq!(*cell.read(), 7);
    assert_eq!(*cell_copy.read(), 8);
}

#[test]
fn map_values_align_with_keys() {
    let mut map: PersistentMap<String, u64> = PersistentMap::new();
    map.insert(String::from("x"), 10);
    map.insert(String::from("y"), 20);
    map.insert(String::from("z"), 30);
    let keys = map.keys();
    let values = map.values();
    assert_eq!(keys.len(), 3);
    assert_eq!(values.len(), 3);
    for i in 0..keys.len() {
        assert_eq!(map.get(keys.get(i)), Some(*values.get(i)));
    }
}

#[test]
fn shared_cell_read_and_replace() {
    let mut cell: SharedCell<u64> = SharedCell::new(7);
    assert_eq!(*cell.read(), 7);
    assert_eq!(cell.replace(8), 7);
    assert_eq!(*cell.read(), 8);
}

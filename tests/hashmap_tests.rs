use std::hash::{Hash, Hasher};

use collections::hashmap::{hash_to_path, HashMap, HashSet};

#[derive(PartialEq, Clone)]
struct K {
    x: i8,
}

impl Hash for K {
    fn hash<H: Hasher>(&self, _: &mut H) {}
}

#[test]
fn insert_and_retrieve_values() {
    let m1 = HashMap::new();
    let m2 = m1.insert(1238, 1).insert(-1, 10);
    assert_eq!(m2.get(&1238), Some(&1));
    assert_eq!(m1.get(&-1), None);
}

#[test]
fn handle_hash_collisions() {
    let m = HashMap::new().insert(K { x: 1 }, 1).insert(K { x: -1 }, 10);
    assert_eq!(m.get(&K { x: 1 }), Some(&1));
    assert_eq!(m.get(&K { x: -1 }), Some(&10));
}

#[test]
fn remove_entries() {
    let m = HashMap::new()
        .insert(K { x: 1 }, 1)
        .insert(K { x: -1 }, 10)
        .remove(K { x: 1 });
    assert!(m.is_some());
    let m2 = m.unwrap();
    assert_eq!(m2.get(&K { x: 1 }), None);
    assert_eq!(m2.get(&K { x: -1 }), Some(&10));
}

fn return_map(map: HashMap<String, u32>) -> HashMap<String, u32> {
    map
}

#[test]
fn get_map() {
    let map = HashMap::new();
    let map = return_map(map.insert("foo".to_string(), 0));

    let value = map.get(&"foo".to_string()).unwrap();
    assert_eq!(value, &0);
}

#[test]
fn repeated_insert_keeps_first_value() {
    let m = HashMap::new().insert(7, "a").insert(7, "b");
    assert_eq!(m.get(&7), Some(&"a"));
    let m2 = m.remove(7).unwrap();
    assert_eq!(m2.get(&7), None);
    assert!(m2.remove(7).is_none());
}

#[test]
fn get_before_and_after_insert_on_old_handle() {
    let h = HashMap::new().insert(1, 100);
    let before = h.get(&2).copied();
    let _h2 = h.insert(2, 200);
    assert_eq!(h.get(&2).copied(), before);
    assert_eq!(h.get(&1), h.get(&1));
}

#[test]
fn remove_missing_key_is_none() {
    let m: HashMap<i32, i32> = HashMap::new();
    assert!(m.remove(3).is_none());
}

#[test]
fn hash_bits_lowest_first() {
    let p = hash_to_path(0b101);
    assert_eq!(p.len(), 64);
    assert!(p[0]);
    assert!(!p[1]);
    assert!(p[2]);
    assert!(p[3..].iter().all(|b| !*b));
    let q = hash_to_path(u64::MAX);
    assert!(q.iter().all(|b| *b));
}

#[test]
fn explicit_paths_resolve_collisions() {
    let p = hash_to_path(42);
    let m = HashMap::new().insert_at(&p, 'a', 1).insert_at(&p, 'b', 10);
    assert_eq!(m.get_at(&p, &'a'), Some(&1));
    assert_eq!(m.get_at(&p, &'b'), Some(&10));
    let m2 = m.remove_at(&p, 'a').unwrap();
    assert_eq!(m2.get_at(&p, &'a'), None);
    assert_eq!(m2.get_at(&p, &'b'), Some(&10));
}

#[test]
fn set_membership_through_unit_values() {
    let s: HashSet<&str> = HashSet::new().insert("a", ()).insert("b", ());
    assert!(s.get(&"a").is_some());
    assert!(s.get(&"c").is_none());
}

#[test]
fn insert_makes_missing_key_found() {
    let m = HashMap::new().insert(3, 30);
    assert_eq!(m.get(&4), None);
    let m2 = m.insert(4, 40);
    assert_eq!(m2.get(&4), Some(&40));
    assert_eq!(m2.get(&3), Some(&30));
    assert_eq!(m.get(&4), None);
}

#[test]
fn remove_is_none_exactly_when_get_is_none() {
    let m = HashMap::new().insert(K { x: 1 }, 1).insert(K { x: 2 }, 2);
    assert!(m.get(&K { x: 3 }).is_none());
    assert!(m.remove(K { x: 3 }).is_none());
    assert!(m.get(&K { x: 2 }).is_some());
    let m2 = m.remove(K { x: 2 }).unwrap();
    assert_eq!(m2.get(&K { x: 1 }), Some(&1));
    assert_eq!(m2.get(&K { x: 2 }), None);
}

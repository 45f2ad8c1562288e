use collections::trie::Trie;

#[test]
fn test_trie_store() {
    let t = Trie::new().insert_store("aab".as_bytes(), 123);
    let t2 = t.insert_store("adc".as_bytes(), 459);
    assert_eq!(t.get_store("aab".as_bytes()), Some(vec![&123]));
    assert!(t.get_store("adc".as_bytes()).is_none());
    assert_eq!(t2.get_store("aab".as_bytes()), Some(vec![&123]));
    assert_eq!(t2.get_store("adc".as_bytes()), Some(vec![&459]));
}

#[test]
fn test_trie_persistance_simple() {
    let t = Trie::new().insert("aab".as_bytes()).insert("adc".as_bytes());
    assert!(t.search("aab".as_bytes()));
    assert!(t.search("adc".as_bytes()));
}

#[test]
fn test_trie_persistance() {
    let vs = vec!["aab", "adc", "acd", "dca"];
    let mut snapshots: Vec<Trie> = Vec::new();
    let mut tree = Trie::new();
    for value in vs.iter() {
        tree = tree.insert(value.as_bytes());
        snapshots.push(tree.clone());
    }
    for (index, tree) in snapshots.iter().enumerate() {
        let found = vs
            .iter()
            .map(|s| tree.search(s.as_bytes()))
            .filter(|found| *found)
            .count();
        assert_eq!(found, index + 1);
    }
}

#[test]
fn test_search_present() {
    let v = vec![1, 5, 9];
    let not_v = vec![1, 15, 9];
    let t = Trie::new().insert(&v);
    assert!(t.search(&v));
    assert!(!t.search(&not_v));
}

#[test]
fn test_search_absent() {
    let s = "test";
    let not_s = "tett";
    let t = Trie::new().insert(s.as_bytes());
    assert!(t.search(s.as_bytes()));
    assert!(!t.search(not_s.as_bytes()));
}

#[test]
fn test_trie_deletion() {
    let t = Trie::new().insert("aab".as_bytes()).remove("aab".as_bytes());
    assert!(t.is_some());
    assert_eq!(t.unwrap().search("aab".as_bytes()), false);
    let t2: Trie = Trie::new();
    assert!(t2.remove("a".as_bytes()).is_none());
}

#[test]
fn test_insert_empty_string() {
    let t = Trie::new().insert("".as_bytes());
    assert!(t.search("".as_bytes()));
}

#[test]
fn test_multiple_values_for_same_key() {
    let t = Trie::new()
        .insert_store("key".as_bytes(), 1)
        .insert_store("key".as_bytes(), 2);
    let values = t.get_store("key".as_bytes()).unwrap();
    assert!(values.contains(&&1) && values.contains(&&2));
}

#[test]
fn test_delete_internal_node() {
    let t = Trie::new()
        .insert("abc".as_bytes())
        .insert("ab".as_bytes())
        .remove("ab".as_bytes())
        .unwrap();
    assert!(!t.search("ab".as_bytes()));
    assert!(t.search("abc".as_bytes()));
}

#[test]
fn test_persistence_after_delete() {
    let t1 = Trie::new().insert("key".as_bytes());
    let t2 = t1.remove("key".as_bytes()).unwrap_or_else(|| t1.clone());
    assert!(t1.search("key".as_bytes()));
    assert!(!t2.search("key".as_bytes()));
}

#[test]
fn test_search_nonexistent_key() {
    let t = Trie::new().insert("key".as_bytes());
    assert!(!t.search("not_key".as_bytes()));
}

#[test]
fn test_delete_nonexistent_key() {
    let t = Trie::new().insert("key".as_bytes());
    assert!(t.remove("not_key".as_bytes()).is_none());
}

#[test]
fn insert_then_get_returns_value() {
    let t = Trie::new().insert_store(&[1u8, 2, 3][..], "x");
    assert_eq!(t.get_store(&[1u8, 2, 3][..]), Some(vec![&"x"]));
    assert!(t.get_store(&[1u8, 2][..]).is_none());
}

#[test]
fn remove_store_removes_every_equal_entry() {
    let t = Trie::new()
        .insert_store("k".as_bytes(), 1)
        .insert_store("k".as_bytes(), 2)
        .insert_store("k".as_bytes(), 1);
    let t2 = t.remove_store("k".as_bytes(), &1).unwrap();
    assert_eq!(t2.get_store("k".as_bytes()), Some(vec![&2]));
    assert_eq!(t.get_store("k".as_bytes()), Some(vec![&1, &2, &1]));
    assert!(t2.remove_store("k".as_bytes(), &1).is_none());
}

#[test]
fn insert_then_remove_leaves_path_absent() {
    let t = Trie::new().insert_store("p".as_bytes(), 5);
    let t2 = t.remove_store("p".as_bytes(), &5).unwrap();
    assert!(t2.get_store("p".as_bytes()).is_none());
    assert!(t2.remove_store("p".as_bytes(), &5).is_none());
}

#[test]
fn search_twice_is_the_same() {
    let t = Trie::new().insert("ab".as_bytes());
    assert_eq!(t.search("ab".as_bytes()), t.search("ab".as_bytes()));
    assert_eq!(t.search("a".as_bytes()), t.search("a".as_bytes()));
}

#[test]
fn default_trie_is_empty() {
    let t: Trie<u8, i32> = Trie::default();
    assert!(t.get_store("".as_bytes()).is_none());
}

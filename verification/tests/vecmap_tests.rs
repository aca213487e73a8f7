use stable_tabs::vecmap::VecMap;

#[test]
fn insert_get_and_overwrite() {
    let mut m: VecMap<u64> = VecMap::new();
    assert!(!m.contains_key(1));
    assert_eq!(m.get(1), None);
    m.insert(1, 10);
    m.insert(2, 20);
    assert_eq!(m.get(1), Some(&10));
    assert_eq!(m.get(2), Some(&20));
    m.insert(1, 11);
    assert_eq!(m.get(1), Some(&11));
    assert_eq!(m.get(2), Some(&20));
}

#[test]
fn take_removes_and_returns() {
    let mut m: VecMap<String> = VecMap::new();
    m.insert(5, "five".to_string());
    m.insert(6, "six".to_string());
    assert_eq!(m.take(5), Some("five".to_string()));
    assert_eq!(m.take(5), None);
    assert!(!m.contains_key(5));
    assert!(m.contains_key(6));
}

#[test]
fn keys_lists_each_key_once() {
    let mut m: VecMap<u64> = VecMap::new();
    m.insert(3, 1);
    m.insert(1, 2);
    m.insert(2, 3);
    m.insert(3, 4);
    let mut ks = m.keys();
    ks.sort();
    assert_eq!(ks, vec![1, 2, 3]);
}

#[test]
fn contains_value_scans_all_entries() {
    let mut m: VecMap<u64> = VecMap::new();
    m.insert(1, 100);
    m.insert(2, 200);
    assert!(m.contains_value(100));
    assert!(m.contains_value(200));
    assert!(!m.contains_value(300));
    m.take(1);
    assert!(!m.contains_value(100));
}

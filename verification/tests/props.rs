use mad_doc::props::PropMap;

#[test]
fn insert_and_get_round_trip() {
    let mut m = PropMap::new();
    m.insert("color".to_string(), "red".to_string());
    m.insert("size".to_string(), "big".to_string());
    assert_eq!(m.len(), 2);
    assert_eq!(m.get(&"color".to_string()).unwrap(), "red");
    assert_eq!(m.get(&"size".to_string()).unwrap(), "big");
    assert!(m.get(&"absent".to_string()).is_none());
}

#[test]
fn insert_overwrites_in_place() {
    let mut m = PropMap::new();
    m.insert("k".to_string(), "v1".to_string());
    m.insert("other".to_string(), "x".to_string());
    m.insert("k".to_string(), "v2".to_string());
    assert_eq!(m.len(), 2);
    assert_eq!(m.get(&"k".to_string()).unwrap(), "v2");
    // the overwritten key keeps its position
    assert_eq!(m.key_at(0), "k");
    assert_eq!(m.value_at(0), "v2");
    assert_eq!(m.key_at(1), "other");
}

#[test]
fn matches_requires_every_filter_entry() {
    let mut m = PropMap::new();
    m.insert("a".to_string(), "1".to_string());
    m.insert("b".to_string(), "2".to_string());
    let mut filter = PropMap::new();
    assert!(m.matches(&filter));
    filter.insert("a".to_string(), "1".to_string());
    assert!(m.matches(&filter));
    filter.insert("b".to_string(), "wrong".to_string());
    assert!(!m.matches(&filter));
    let mut missing = PropMap::new();
    missing.insert("zzz".to_string(), "1".to_string());
    assert!(!m.matches(&missing));
}

#[test]
fn duplicate_copies_all_entries() {
    let mut m = PropMap::new();
    m.insert("a".to_string(), "1".to_string());
    m.insert("b".to_string(), "2".to_string());
    let copy = m.duplicate();
    assert_eq!(copy.len(), 2);
    assert_eq!(copy.get(&"a".to_string()).unwrap(), "1");
    assert_eq!(copy.get(&"b".to_string()).unwrap(), "2");
}

use querykey_server::memory::RecordStore;

#[test]
fn upsert_replaces_in_place_and_append_keeps_all() {
    let mut s: RecordStore<u32> = RecordStore::new();
    s.upsert("a".into(), 1);
    s.upsert("b".into(), 2);
    s.upsert("a".into(), 3);
    assert_eq!(s.len(), 2);
    assert_eq!(*s.get(0), 3);
    assert_eq!(s.key(1), "b");
    assert_eq!(s.find("b"), Some(1));
    assert_eq!(s.find("z"), None);
    s.append("a".into(), 4);
    assert_eq!(s.len(), 3);
    assert_eq!(s.find("a"), Some(0));
}

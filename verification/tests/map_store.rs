use post_app_backend::map_store::{MapError, MapStore, MAX_CONTENT_LEN};

#[test]
fn create_then_get_round_trip() {
    let mut store = MapStore::new();
    let created = store.create(42, "hello".to_string(), 1000).unwrap();
    assert_eq!(created.content, "hello");
    assert_eq!(created.timestamp, 1000);
    let read = store.get(42).unwrap();
    assert_eq!(read.content, "hello");
    assert_eq!(read.timestamp, 1000);
}

#[test]
fn create_conflict_keeps_first_record() {
    let mut store = MapStore::new();
    store.create(7, "first".to_string(), 1).unwrap();
    let second = store.create(7, "second".to_string(), 2);
    assert_eq!(second, Err(MapError::KeyConflict));
    let read = store.get(7).unwrap();
    assert_eq!(read.content, "first");
    assert_eq!(read.timestamp, 1);
}

#[test]
fn create_rejects_oversize_content() {
    let mut store = MapStore::new();
    let oversize = "x".repeat(MAX_CONTENT_LEN + 1);
    let result = store.create(1, oversize, 5);
    assert_eq!(result, Err(MapError::RecordTooLarge));
    assert!(store.get(1).is_none());

    let largest = "y".repeat(MAX_CONTENT_LEN);
    assert!(store.create(1, largest.clone(), 6).is_ok());
    assert_eq!(store.get(1).unwrap().content, largest);
}

#[test]
fn update_on_absent_key_inserts() {
    let mut store = MapStore::new();
    let previous = store.update(9, "fresh".to_string(), 3).unwrap();
    assert!(previous.is_none());
    let read = store.get(9).unwrap();
    assert_eq!(read.content, "fresh");
    assert_eq!(read.timestamp, 3);
}

#[test]
fn update_on_present_key_overwrites_and_returns_previous() {
    let mut store = MapStore::new();
    store.create(9, "old".to_string(), 3).unwrap();
    let previous = store.update(9, "new".to_string(), 4).unwrap().unwrap();
    assert_eq!(previous.content, "old");
    assert_eq!(previous.timestamp, 3);
    let read = store.get(9).unwrap();
    assert_eq!(read.content, "new");
    assert_eq!(read.timestamp, 4);
}

#[test]
fn update_rejects_oversize_content() {
    let mut store = MapStore::new();
    store.create(2, "small".to_string(), 1).unwrap();
    let oversize = "z".repeat(MAX_CONTENT_LEN + 1);
    assert_eq!(store.update(2, oversize, 2), Err(MapError::RecordTooLarge));
    assert_eq!(store.get(2).unwrap().content, "small");
}

#[test]
fn delete_then_get_is_absent() {
    let mut store = MapStore::new();
    store.create(5, "gone soon".to_string(), 8).unwrap();
    let removed = store.delete(5).unwrap();
    assert_eq!(removed.content, "gone soon");
    assert!(store.get(5).is_none());
}

#[test]
fn delete_on_absent_key_returns_absent() {
    let mut store = MapStore::new();
    assert!(store.delete(5).is_none());
    store.create(1, "stay".to_string(), 1).unwrap();
    assert!(store.delete(2).is_none());
    assert_eq!(store.get(1).unwrap().content, "stay");
}

#[test]
fn list_all_is_absent_on_empty_store() {
    let store = MapStore::new();
    assert!(store.list_all().is_none());
}

#[test]
fn list_all_walks_keys_in_ascending_order() {
    let mut store = MapStore::new();
    store.create(30, "c".to_string(), 3).unwrap();
    store.create(10, "a".to_string(), 1).unwrap();
    store.create(20, "b".to_string(), 2).unwrap();
    let listed = store.list_all().unwrap();
    let keys: Vec<u64> = listed.iter().map(|entry| entry.0).collect();
    assert_eq!(keys, vec![10, 20, 30]);
    assert_eq!(listed[0].1.content, "a");
    assert_eq!(listed[1].1.content, "b");
    assert_eq!(listed[2].1.content, "c");
}

#[test]
fn repeated_reads_return_identical_results() {
    let mut store = MapStore::new();
    store.create(1, "one".to_string(), 1).unwrap();
    store.create(2, "two".to_string(), 2).unwrap();
    let first = store.get(1).unwrap();
    let second = store.get(1).unwrap();
    assert_eq!(first.content, second.content);
    assert_eq!(first.timestamp, second.timestamp);
    let listed_once: Vec<(u64, String, u64)> = store
        .list_all()
        .unwrap()
        .into_iter()
        .map(|(k, r)| (k, r.content, r.timestamp))
        .collect();
    let listed_twice: Vec<(u64, String, u64)> = store
        .list_all()
        .unwrap()
        .into_iter()
        .map(|(k, r)| (k, r.content, r.timestamp))
        .collect();
    assert_eq!(listed_once, listed_twice);
}

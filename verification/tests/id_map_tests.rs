use event_catalog::id_map::{IdMap, InvalidId};

#[test]
fn create_then_validate_then_read() {
    let mut store: IdMap<u64> = IdMap::new();
    let id = store.create(41);
    let raw = id.to_unsafe();
    let checked = store.validate(raw).expect("a fresh identifier must validate");
    assert_eq!(checked, id);
    assert_eq!(*store.read(&checked), 41);
}

#[test]
fn deleted_id_stops_validating() {
    let mut store: IdMap<String> = IdMap::new();
    let id = store.create("lindy".to_string());
    let raw = id.to_unsafe();
    assert!(store.validate(raw).is_some());
    let deleted = store.delete(id).expect("a live identifier must delete");
    assert_eq!(deleted, "lindy".to_string());
    assert!(store.validate(raw).is_none());
}

#[test]
fn delete_of_dead_id_reports_invalid_and_changes_nothing() {
    let mut store: IdMap<u64> = IdMap::new();
    let keep = store.create(1);
    let gone = store.create(2);
    assert_eq!(store.delete(gone), Ok(2));
    assert_eq!(store.delete(gone), Err(InvalidId));
    assert_eq!(*store.read(&keep), 1);
    assert_eq!(store.iter().len(), 1);
}

#[test]
fn update_replaces_and_upserts() {
    let mut store: IdMap<u64> = IdMap::new();
    let id = store.create(5);
    store.update(id, 6);
    assert_eq!(*store.read(&id), 6);
    // An update under a deleted identifier re-inserts it (upsert).
    store.delete(id).unwrap();
    assert!(store.validate(id.to_unsafe()).is_none());
    store.update(id, 7);
    let back = store.validate(id.to_unsafe()).expect("upsert must re-insert");
    assert_eq!(*store.read(&back), 7);
}

#[test]
fn from_keeps_later_pair_on_equal_keys() {
    let store: IdMap<u64> = IdMap::from(vec![(9, 1), (8, 2), (9, 3)]);
    let id9 = store.validate(9).unwrap();
    let id8 = store.validate(8).unwrap();
    assert_eq!(*store.read(&id9), 3);
    assert_eq!(*store.read(&id8), 2);
    assert_eq!(store.iter().len(), 2);
}

#[test]
fn entries_keep_insertion_order() {
    let mut store: IdMap<u64> = IdMap::new();
    let a = store.create(10);
    let b = store.create(20);
    let c = store.create(30);
    let keys: Vec<u128> = store.iter().iter().map(|e| e.0.to_unsafe()).collect();
    assert_eq!(keys, vec![a.to_unsafe(), b.to_unsafe(), c.to_unsafe()]);
    let values: Vec<u64> = store.values().into_iter().copied().collect();
    assert_eq!(values, vec![10, 20, 30]);
}

#[test]
fn fresh_identifiers_differ() {
    let mut store: IdMap<u64> = IdMap::new();
    let a = store.create(0);
    let b = store.create(0);
    assert_ne!(a.to_unsafe(), b.to_unsafe());
    assert_eq!(store.iter().len(), 2);
}

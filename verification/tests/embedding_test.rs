// Record model and store CRUD tests. Feature vectors are fixed-point: a real
// vector is scaled per vector by any positive factor, which leaves cosine
// similarity unchanged, so [0.1, 0.2, 0.3] is held exactly as [1, 2, 3].

use stylist::embedding::{DataEntry, DataEntryErrors, InMemoryVectorStore, VectorStore};

#[test]
fn test_data_entry_creation() {
    let entry = DataEntry {
        id: 1,
        name: "test".to_string(),
        vector: vec![1, 2, 3],
        descriptions: vec!["test desc".to_string()],
    };

    assert_eq!(entry.id, 1);
    assert_eq!(entry.name, "test");
    assert_eq!(entry.vector, vec![1, 2, 3]);
    assert_eq!(entry.descriptions, vec!["test desc"]);
}

#[test]
fn test_data_entry_errors_display() {
    let error = DataEntryErrors::NoDataWasFound;
    assert_eq!(error.message(), "No data entry was found!");
}

#[test]
fn test_vector_store_crud_operations() {
    let mut store = InMemoryVectorStore::new(3, vec![], vec![], 2);
    // A fixed vector stands in for the external embedding of the test image.
    let test_vector: Vec<i16> = vec![5, 3, 1];

    // Test add
    let result = store.add(
        "test_image",
        vec!["test description".to_string()],
        test_vector.clone(),
    );
    assert!(result.is_ok());

    // Test search
    let search_results = store.search(test_vector.clone(), 1);
    assert!(search_results.is_ok());
    let results = search_results.unwrap();
    assert!(!results.is_empty());
    assert_eq!(results[0].name, "test_image");

    // Test delete
    let delete_result = store.delete(1);
    assert!(delete_result.is_ok());

    // Test search after delete: an empty store signals NoDataWasFound rather
    // than returning an empty success.
    let search_after_delete = store.search(test_vector.clone(), 1);
    assert!(search_after_delete.is_err());
}

#[test]
fn add_rejects_wrong_dimension() {
    let mut store = InMemoryVectorStore::new(3, vec![], vec![], 0);
    let r = store.add("bad", vec![], vec![1, 2]);
    assert_eq!(r.unwrap_err(), DataEntryErrors::DimensionMismatch);
    assert!(store.get_all().is_empty());
}

#[test]
fn search_rejects_wrong_dimension() {
    let mut store = InMemoryVectorStore::new(3, vec![], vec![], 0);
    store.add("a", vec![], vec![1, 0, 0]).unwrap();
    let r = store.search(vec![1, 0], 1);
    assert_eq!(r.unwrap_err(), DataEntryErrors::DimensionMismatch);
}

#[test]
fn delete_removes_exactly_one_and_second_delete_fails() {
    let mut store = InMemoryVectorStore::new(2, vec![], vec![], 0);
    let id_a = store.add("a", vec![], vec![1, 0]).unwrap();
    let id_b = store.add("b", vec![], vec![0, 1]).unwrap();
    assert_eq!(store.get_all().len(), 2);

    assert!(store.delete(id_a).is_ok());
    let remaining = store.get_all();
    assert_eq!(remaining.len(), 1);
    assert_eq!(remaining[0].id, id_b);

    let second = store.delete(id_a);
    assert_eq!(second.unwrap_err(), DataEntryErrors::NoDataWasFound);
}

#[test]
fn identifiers_are_never_reused() {
    let mut store = InMemoryVectorStore::new(1, vec![], vec![], 0);
    let id_a = store.add("a", vec![], vec![1]).unwrap();
    assert_eq!(id_a, 1);
    store.delete(id_a).unwrap();
    // Length-based numbering would hand out 1 again; the monotonic counter
    // never reuses a freed identifier.
    let id_b = store.add("b", vec![], vec![2]).unwrap();
    assert_eq!(id_b, 2);
}

#[test]
fn edit_assigns_fresh_identifier() {
    let mut store = InMemoryVectorStore::new(2, vec![], vec![], 0);
    let id_a = store.add("old", vec!["d".to_string()], vec![1, 0]).unwrap();

    let replacement = DataEntry {
        id: id_a,
        name: "new".to_string(),
        vector: vec![],
        descriptions: vec!["e".to_string()],
    };
    let new_id = store.edit(vec![0, 1], replacement).unwrap();
    assert_ne!(new_id, id_a);

    let all = store.get_all();
    assert_eq!(all.len(), 1);
    assert_eq!(all[0].id, new_id);
    assert_eq!(all[0].name, "new");
    assert_eq!(all[0].vector, vec![0, 1]);
    assert_eq!(all[0].descriptions, vec!["e"]);
}

#[test]
fn edit_of_missing_identifier_fails() {
    let mut store = InMemoryVectorStore::new(2, vec![], vec![], 0);
    store.add("a", vec![], vec![1, 0]).unwrap();
    let replacement = DataEntry {
        id: 99,
        name: "x".to_string(),
        vector: vec![],
        descriptions: vec![],
    };
    let r = store.edit(vec![0, 1], replacement);
    assert_eq!(r.unwrap_err(), DataEntryErrors::NoDataWasFound);
    assert_eq!(store.get_all().len(), 1);
    assert_eq!(store.get_all()[0].name, "a");
}

#[test]
fn kv_edit_keeps_identifier_and_replaces_fields() {
    let mut store = InMemoryVectorStore::new(2, vec![], vec![], 0);
    let id_a = store.add("old", vec![], vec![1, 0]).unwrap();
    let replacement = DataEntry {
        id: 7,
        name: "new".to_string(),
        vector: vec![0, 1],
        descriptions: vec!["d".to_string()],
    };
    store.kv_edit(id_a, replacement).unwrap();
    let all = store.get_all();
    assert_eq!(all.len(), 1);
    assert_eq!(all[0].id, id_a);
    assert_eq!(all[0].name, "new");
    assert_eq!(all[0].vector, vec![0, 1]);
}

// Coordinator tests: snapshot round trip and malformed-document handling.

use stylist::embedding::{DataEntry, DataEntryErrors, InMemoryVectorStore, VectorStore};
use stylist::requests::{Gender, ImageUploadRequest};
use stylist::store::SharedStores;

fn sample_stores() -> SharedStores {
    let mut clothes = InMemoryVectorStore::new(
        3,
        vec!["annotation".to_string()],
        vec!["a prompt".to_string(), "another prompt".to_string()],
        2,
    );
    clothes
        .add("blue t-shirt", vec!["cotton".to_string()], vec![1, -2, 3])
        .unwrap();
    clothes
        .add("café jacket", vec!["wool".to_string(), "".to_string()], vec![0, 0, -32768])
        .unwrap();
    clothes.delete(1).unwrap();
    clothes
        .add("scarf", vec![], vec![32767, 1, 0])
        .unwrap();

    let mut face = InMemoryVectorStore::new(2, vec![], vec!["p".to_string()], 1);
    face.add("a face", vec![], vec![7, -7]).unwrap();

    SharedStores::new(clothes, face)
}

#[test]
fn save_then_load_reproduces_all_records() {
    let stores = sample_stores();
    let bytes = stores.save();

    let mut fresh = SharedStores::new(
        InMemoryVectorStore::new(0, vec![], vec![], 0),
        InMemoryVectorStore::new(0, vec![], vec![], 0),
    );
    fresh.load(&bytes).unwrap();

    assert_eq!(fresh.clothes.get_all(), stores.clothes.get_all());
    assert_eq!(fresh.face.get_all(), stores.face.get_all());
    assert_eq!(fresh.clothes.dimensions, stores.clothes.dimensions);
    assert_eq!(fresh.clothes.prompts, stores.clothes.prompts);
    assert_eq!(fresh.clothes.prompt_annotations, stores.clothes.prompt_annotations);
    assert_eq!(fresh.clothes.prompt_size, stores.clothes.prompt_size);
    assert_eq!(fresh.clothes.next_id, stores.clothes.next_id);
    assert_eq!(fresh.face.dimensions, stores.face.dimensions);
    assert_eq!(fresh.face.next_id, stores.face.next_id);
}

#[test]
fn load_after_save_continues_id_assignment() {
    let stores = sample_stores();
    let bytes = stores.save();
    let mut fresh = SharedStores::new(
        InMemoryVectorStore::new(0, vec![], vec![], 0),
        InMemoryVectorStore::new(0, vec![], vec![], 0),
    );
    fresh.load(&bytes).unwrap();
    // The identifier counter is part of the snapshot, so freed identifiers
    // stay retired across save/load.
    let id = fresh.clothes.add("new", vec![], vec![1, 1, 1]).unwrap();
    assert_eq!(id, 4);
}

#[test]
fn empty_stores_round_trip() {
    let stores = SharedStores::new(
        InMemoryVectorStore::new(5, vec![], vec![], 0),
        InMemoryVectorStore::new(7, vec!["x".to_string()], vec![], 3),
    );
    let bytes = stores.save();
    let mut fresh = SharedStores::new(
        InMemoryVectorStore::new(0, vec![], vec![], 0),
        InMemoryVectorStore::new(0, vec![], vec![], 0),
    );
    fresh.load(&bytes).unwrap();
    assert!(fresh.clothes.get_all().is_empty());
    assert_eq!(fresh.clothes.dimensions, 5);
    assert_eq!(fresh.face.dimensions, 7);
    assert_eq!(fresh.face.prompt_annotations, vec!["x".to_string()]);
    assert_eq!(fresh.face.prompt_size, 3);
}

#[test]
fn load_rejects_malformed_document() {
    let mut stores = SharedStores::new(
        InMemoryVectorStore::new(1, vec![], vec![], 0),
        InMemoryVectorStore::new(1, vec![], vec![], 0),
    );
    stores.clothes.add("keep", vec![], vec![9]).unwrap();

    let garbage: Vec<u8> = vec![1, 2, 3];
    let r = stores.load(&garbage);
    assert_eq!(r.unwrap_err(), DataEntryErrors::MalformedSnapshot);
    // A failed load leaves the current state untouched.
    assert_eq!(stores.clothes.get_all().len(), 1);
    assert_eq!(stores.clothes.get_all()[0].name, "keep");
}

#[test]
fn load_rejects_trailing_garbage() {
    let stores = SharedStores::new(
        InMemoryVectorStore::new(1, vec![], vec![], 0),
        InMemoryVectorStore::new(1, vec![], vec![], 0),
    );
    let mut bytes = stores.save();
    bytes.push(0);
    let mut fresh = SharedStores::new(
        InMemoryVectorStore::new(0, vec![], vec![], 0),
        InMemoryVectorStore::new(0, vec![], vec![], 0),
    );
    assert_eq!(fresh.load(&bytes).unwrap_err(), DataEntryErrors::MalformedSnapshot);
}

#[test]
fn load_rejects_duplicate_identifiers() {
    // Hand-build a snapshot whose store would carry two records with one
    // identifier; the decoder must reject it.
    let mut clothes = InMemoryVectorStore::new(1, vec![], vec![], 0);
    clothes.add("a", vec![], vec![1]).unwrap();
    clothes.add("b", vec![], vec![2]).unwrap();
    let face = InMemoryVectorStore::new(1, vec![], vec![], 0);
    let mut stores = SharedStores::new(clothes, face);
    // Corrupt the in-memory state directly: both records get identifier 1.
    stores.clothes.data_entries[1] = DataEntry {
        id: 1,
        name: "b".to_string(),
        vector: vec![2],
        descriptions: vec![],
    };
    let bytes = stores.save();
    let mut fresh = SharedStores::new(
        InMemoryVectorStore::new(0, vec![], vec![], 0),
        InMemoryVectorStore::new(0, vec![], vec![], 0),
    );
    assert_eq!(fresh.load(&bytes).unwrap_err(), DataEntryErrors::MalformedSnapshot);
}

#[test]
fn error_messages() {
    assert_eq!(
        DataEntryErrors::DimensionMismatch.message(),
        "Vector length does not match the store dimensionality!"
    );
    assert_eq!(
        DataEntryErrors::MalformedSnapshot.message(),
        "Malformed snapshot document!"
    );
}

#[test]
fn upload_request_model() {
    let request = ImageUploadRequest {
        name: "Blue T-shirt".to_string(),
        gender: Gender::Male,
        image: "bm90IGEgcmVhbCBpbWFnZQ==".to_string(),
    };
    assert_eq!(request.name, "Blue T-shirt");
    assert_eq!(request.gender, Gender::Male);
    assert_ne!(request.gender, Gender::Female);
    assert!(!request.image.is_empty());
}

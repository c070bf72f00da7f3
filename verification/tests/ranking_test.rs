// Ranking engine tests: landmark similarity values, ordering, truncation,
// tie-breaking, and the add-then-search scenario.

use stylist::embedding::{DataEntryErrors, InMemoryVectorStore, VectorStore};

#[test]
fn similarity_of_identical_vectors_is_one() {
    let store = InMemoryVectorStore::new(3, vec![], vec![], 0);
    let a: Vec<i16> = vec![3, -4, 12];
    let s = store.cosine_similarity(&a, &a.clone());
    // The score is the signed square of the cosine: one means num == den.
    assert_eq!(s.num, s.den);
}

#[test]
fn similarity_of_zero_vector_is_zero() {
    let store = InMemoryVectorStore::new(3, vec![], vec![], 0);
    let zero: Vec<i16> = vec![0, 0, 0];
    let s = store.cosine_similarity(&zero, &zero.clone());
    assert_eq!(s.num, 0);
    let t = store.cosine_similarity(&zero, &vec![1, 2, 3]);
    assert_eq!(t.num, 0);
    assert!(t.den >= 1);
}

#[test]
fn similarity_landmark_values() {
    // Store with dimensionality 3, query [1,0,0]: similarity is 1.0 against
    // [1,0,0], 0.0 against [0,1,0], and -1.0 against [-1,0,0].
    let store = InMemoryVectorStore::new(3, vec![], vec![], 0);
    let q: Vec<i16> = vec![1, 0, 0];
    let s1 = store.cosine_similarity(&q, &vec![1, 0, 0]);
    assert_eq!(s1.num, s1.den);
    let s0 = store.cosine_similarity(&q, &vec![0, 1, 0]);
    assert_eq!(s0.num, 0);
    let sm = store.cosine_similarity(&q, &vec![-1, 0, 0]);
    assert_eq!(sm.num, -sm.den);
}

#[test]
fn search_single_record_scenario() {
    // One record {id:1, name:"a", vector:[1,0,0]}; query [1,0,0] with top_n 1
    // returns exactly that record, with similarity one.
    let mut store = InMemoryVectorStore::new(3, vec![], vec![], 0);
    let id = store.add("a", vec![], vec![1, 0, 0]).unwrap();
    assert_eq!(id, 1);
    let results = store.search(vec![1, 0, 0], 1).unwrap();
    assert_eq!(results.len(), 1);
    assert_eq!(results[0].id, 1);
    let s = store.cosine_similarity(&results[0].vector, &vec![1, 0, 0]);
    assert_eq!(s.num, s.den);
}

#[test]
fn search_empty_store_fails_with_not_found() {
    let store = InMemoryVectorStore::new(3, vec![], vec![], 0);
    let r = store.search(vec![1, 0, 0], 5);
    assert_eq!(r.unwrap_err(), DataEntryErrors::NoDataWasFound);
}

#[test]
fn search_zero_top_n_fails_with_not_found() {
    let mut store = InMemoryVectorStore::new(3, vec![], vec![], 0);
    store.add("a", vec![], vec![1, 0, 0]).unwrap();
    let r = store.search(vec![1, 0, 0], 0);
    assert_eq!(r.unwrap_err(), DataEntryErrors::NoDataWasFound);
}

#[test]
fn search_orders_by_descending_similarity_and_truncates() {
    let mut store = InMemoryVectorStore::new(3, vec![], vec![], 0);
    store.add("orthogonal", vec![], vec![0, 1, 0]).unwrap();
    store.add("exact", vec![], vec![1, 0, 0]).unwrap();
    store.add("diagonal", vec![], vec![1, 1, 0]).unwrap();

    let top2 = store.search(vec![1, 0, 0], 2).unwrap();
    assert_eq!(top2.len(), 2);
    assert_eq!(top2[0].name, "exact");
    assert_eq!(top2[1].name, "diagonal");

    let all = store.search(vec![1, 0, 0], 10).unwrap();
    assert_eq!(all.len(), 3);
    assert_eq!(all[0].name, "exact");
    assert_eq!(all[1].name, "diagonal");
    assert_eq!(all[2].name, "orthogonal");

    let opposite = store.search(vec![-1, 0, 0], 3).unwrap();
    assert_eq!(opposite[2].name, "exact");
}

#[test]
fn equal_scores_keep_insertion_order() {
    // [1,0,0] and [2,0,0] have the same cosine against any query; the ranking
    // is stable, so they come back in insertion order.
    let mut store = InMemoryVectorStore::new(3, vec![], vec![], 0);
    store.add("first", vec![], vec![1, 0, 0]).unwrap();
    store.add("second", vec![], vec![2, 0, 0]).unwrap();
    store.add("third", vec![], vec![1, 0, 0]).unwrap();

    let results = store.search(vec![1, 0, 0], 3).unwrap();
    assert_eq!(results[0].name, "first");
    assert_eq!(results[1].name, "second");
    assert_eq!(results[2].name, "third");
}

#[test]
fn add_then_search_finds_new_record_with_similarity_one() {
    let mut store = InMemoryVectorStore::new(3, vec![], vec![], 0);
    store.add("other", vec![], vec![0, 1, 0]).unwrap();
    store.add("another", vec![], vec![1, 1, 1]).unwrap();

    let v: Vec<i16> = vec![3, 4, 0];
    let new_id = store.add("new", vec![], v.clone()).unwrap();
    let results = store.search(v.clone(), 10).unwrap();

    let found = results.iter().find(|e| e.id == new_id).unwrap();
    assert_eq!(found.name, "new");
    let s = store.cosine_similarity(&found.vector, &v);
    assert_eq!(s.num, s.den);
    // The new record ranks first: nothing scores above an exact match.
    assert_eq!(results[0].id, new_id);
}

use vectordb::store::{StoreError, VectorStore};

#[test]
fn test_insert_and_get_roundtrip() {
    let mut store: VectorStore<f32> = VectorStore::new(2);
    store.insert(5, &[1.0, 2.0]).unwrap();
    store.insert(7, &[3.0, 4.0]).unwrap();
    assert_eq!(store.get(5), Some(&[1.0, 2.0][..]));
    assert_eq!(store.get(7), Some(&[3.0, 4.0][..]));
    assert_eq!(store.get(99), None); // never inserted
}

#[test]
fn test_dimension_mismatch_returns_err() {
    let mut store: VectorStore<f32> = VectorStore::new(2);
    assert_eq!(
        store.insert(5, &[1.0, 2.0, 3.0]),
        Err(StoreError::DimensionMismatch {
            expected: 2,
            got: 3
        })
    );
}

#[test]
fn test_duplicate_id_returns_err() {
    let mut store: VectorStore<f32> = VectorStore::new(2);
    store.insert(5, &[1.0, 2.0]).unwrap();
    assert_eq!(
        store.insert(5, &[1.0, 2.0]),
        Err(StoreError::DuplicateId(5))
    );
}

#[test]
fn test_delete_then_get_returns_none() {
    let mut store: VectorStore<f32> = VectorStore::new(2);
    store.insert(5, &[1.0, 2.0]).unwrap();
    let _ = store.delete(5);
    assert_eq!(store.get(5), None)
}

#[test]
fn test_delete_nonexistent_returns_err() {
    let mut store: VectorStore<f32> = VectorStore::new(2);
    let _ = store.insert(5, &[1.0, 2.0]);
    assert_eq!(store.delete(4), Err(StoreError::IdNotFound(4)))
}

#[test]
fn test_len_counts_live_only() {
    let mut store: VectorStore<f32> = VectorStore::new(2);
    store.insert(5, &[1.0, 2.0]).unwrap();
    store.insert(7, &[3.0, 4.0]).unwrap();
    store.insert(2, &[3.0, 4.0]).unwrap();
    store.delete(7).unwrap();
    assert_eq!(store.len(), 2)
}

#[test]
fn new_store_is_empty() {
    let store: VectorStore<f32> = VectorStore::new(3);
    assert_eq!(store.len(), 0);
    assert_eq!(store.iter_ids(), Vec::<u64>::new());
    assert_eq!(store.get(0), None);
}

#[test]
fn dimension_is_checked_before_duplicate_id() {
    let mut store: VectorStore<f32> = VectorStore::new(2);
    store.insert(5, &[1.0, 2.0]).unwrap();
    assert_eq!(
        store.insert(5, &[1.0]),
        Err(StoreError::DimensionMismatch { expected: 2, got: 1 })
    );
}

#[test]
fn refused_insert_leaves_store_unchanged() {
    let mut store: VectorStore<f32> = VectorStore::new(2);
    store.insert(5, &[1.0, 2.0]).unwrap();
    assert!(store.insert(5, &[9.0, 9.0]).is_err());
    assert!(store.insert(6, &[9.0]).is_err());
    assert_eq!(store.get(5), Some(&[1.0, 2.0][..]));
    assert_eq!(store.get(6), None);
    assert_eq!(store.len(), 1);
    assert_eq!(store.iter_ids(), vec![5]);
}

#[test]
fn deleted_id_cannot_be_reinserted() {
    let mut store: VectorStore<f32> = VectorStore::new(2);
    store.insert(5, &[1.0, 2.0]).unwrap();
    store.delete(5).unwrap();
    assert_eq!(store.insert(5, &[3.0, 4.0]), Err(StoreError::DuplicateId(5)));
    assert_eq!(store.get(5), None);
}

#[test]
fn deleting_twice_succeeds_and_counts_once() {
    let mut store: VectorStore<f32> = VectorStore::new(1);
    store.insert(1, &[1.0]).unwrap();
    store.insert(2, &[2.0]).unwrap();
    assert_eq!(store.delete(1), Ok(()));
    assert_eq!(store.delete(1), Ok(()));
    assert_eq!(store.len(), 1);
    assert_eq!(store.get(2), Some(&[2.0][..]));
}

#[test]
fn iter_ids_lists_live_ids_in_insertion_order() {
    let mut store: VectorStore<f32> = VectorStore::new(2);
    store.insert(9, &[1.0, 2.0]).unwrap();
    store.insert(3, &[3.0, 4.0]).unwrap();
    store.insert(7, &[5.0, 6.0]).unwrap();
    store.insert(1, &[7.0, 8.0]).unwrap();
    store.delete(3).unwrap();
    assert_eq!(store.iter_ids(), vec![9, 7, 1]);
    assert_eq!(store.len(), store.iter_ids().len());
}

#[test]
fn other_ids_keep_their_vectors_after_delete() {
    let mut store: VectorStore<f32> = VectorStore::new(3);
    store.insert(1, &[1.0, 2.0, 3.0]).unwrap();
    store.insert(2, &[4.0, 5.0, 6.0]).unwrap();
    store.insert(3, &[7.0, 8.0, 9.0]).unwrap();
    store.delete(2).unwrap();
    assert_eq!(store.get(1), Some(&[1.0, 2.0, 3.0][..]));
    assert_eq!(store.get(3), Some(&[7.0, 8.0, 9.0][..]));
}

#[test]
fn zero_dimension_store_holds_empty_vectors() {
    let mut store: VectorStore<f32> = VectorStore::new(0);
    store.insert(4, &[]).unwrap();
    assert_eq!(store.get(4), Some(&[][..]));
    assert_eq!(
        store.insert(5, &[1.0]),
        Err(StoreError::DimensionMismatch { expected: 0, got: 1 })
    );
    assert_eq!(store.len(), 1);
}

#[test]
fn store_holds_integer_vectors_too() {
    let mut store: VectorStore<i32> = VectorStore::new(2);
    store.insert(10, &[-1, 1]).unwrap();
    store.insert(11, &[2, -2]).unwrap();
    assert_eq!(store.get(11), Some(&[2, -2][..]));
}

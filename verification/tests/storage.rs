use std::collections::HashMap;
use vector_store::db::{Db, Embedding};
use vector_store::similarity::Distance;
use vector_store::storage::{
    bytes_or_unwritable, distance_code, distance_from_code, StorageError, StoredCollection,
    StoredEmbedding,
};

fn as_patterns(numbers: &[f32]) -> Vec<u32> {
    numbers.iter().map(|x| x.to_bits()).collect()
}

fn row(id: &str, numbers: &[f32]) -> StoredEmbedding {
    (id.to_string(), as_patterns(numbers), None)
}

fn populated() -> Db {
    let mut db = Db::new();
    db.create_collection("docs".to_string(), 2, Distance::Cosine).unwrap();
    db.create_collection("notes".to_string(), 3, Distance::Euclidean).unwrap();
    db.create_collection("empty".to_string(), 7, Distance::DotProduct).unwrap();
    let mut metadata = HashMap::new();
    metadata.insert("lang".to_string(), "en".to_string());
    metadata.insert("source".to_string(), "wiki".to_string());
    metadata.insert("".to_string(), "".to_string());
    db.insert_into_collection(
        "docs",
        Embedding {
            id: "a".to_string(),
            vector: as_patterns(&[0.6, 0.8]),
            metadata: Some(metadata),
        },
    )
    .unwrap();
    db.insert_into_collection(
        "docs",
        Embedding {
            id: "b".to_string(),
            vector: as_patterns(&[-0.0, f32::MIN_POSITIVE]),
            metadata: Some(HashMap::new()),
        },
    )
    .unwrap();
    db.insert_into_collection(
        "notes",
        Embedding {
            id: "n".to_string(),
            vector: vec![f32::NAN.to_bits(), 0x7fc0_0001, f32::INFINITY.to_bits()],
            metadata: None,
        },
    )
    .unwrap();
    db
}

fn assert_same(left: &Db, right: &Db) {
    let mut left_names = left.collection_names();
    let mut right_names = right.collection_names();
    left_names.sort();
    right_names.sort();
    assert_eq!(left_names, right_names);
    for name in left_names {
        let a = left.get_collection(&name).unwrap();
        let b = right.get_collection(&name).unwrap();
        assert_eq!(a.dimension, b.dimension);
        assert_eq!(a.distance, b.distance);
        assert_eq!(a.embeddings.len(), b.embeddings.len());
        for (x, y) in a.embeddings.iter().zip(b.embeddings.iter()) {
            assert_eq!(x.id, y.id);
            assert_eq!(x.vector, y.vector);
            assert_eq!(x.metadata, y.metadata);
        }
    }
}

#[test]
fn a_store_written_and_read_back_is_the_same() {
    let db = populated();
    let bytes = db.to_bytes().unwrap();
    let back = Db::from_bytes(&bytes).unwrap();
    assert_same(&db, &back);
    let again = Db::from_bytes(&back.to_bytes().unwrap()).unwrap();
    assert_same(&db, &again);
}

#[test]
fn an_empty_store_written_and_read_back_is_empty() {
    let bytes = Db::new().to_bytes().unwrap();
    assert_eq!(bytes, vec![0u8; 8]);
    let back = Db::from_bytes(&bytes).unwrap();
    assert!(back.collection_names().is_empty());
}

#[test]
fn the_bytes_of_a_small_store_are_as_laid_out() {
    let mut db = Db::new();
    db.create_collection("docs".to_string(), 2, Distance::Cosine).unwrap();
    db.insert_into_collection(
        "docs",
        Embedding { id: "a".to_string(), vector: as_patterns(&[1.0, 2.0]), metadata: None },
    )
    .unwrap();
    let mut expected: Vec<u8> = Vec::new();
    expected.extend_from_slice(&1u64.to_le_bytes());
    expected.extend_from_slice(&4u64.to_le_bytes());
    expected.extend_from_slice(b"docs");
    expected.extend_from_slice(&2u64.to_le_bytes());
    expected.extend_from_slice(&1u32.to_le_bytes());
    expected.extend_from_slice(&1u64.to_le_bytes());
    expected.extend_from_slice(&1u64.to_le_bytes());
    expected.extend_from_slice(b"a");
    expected.extend_from_slice(&2u64.to_le_bytes());
    expected.extend_from_slice(&1.0f32.to_le_bytes());
    expected.extend_from_slice(&2.0f32.to_le_bytes());
    expected.push(0);
    assert_eq!(db.to_bytes().unwrap(), expected);
}

#[test]
fn known_bytes_are_read_as_the_store_they_hold() {
    let mut bytes: Vec<u8> = Vec::new();
    bytes.extend_from_slice(&1u64.to_le_bytes());
    bytes.extend_from_slice(&1u64.to_le_bytes());
    bytes.extend_from_slice(b"c");
    bytes.extend_from_slice(&1u64.to_le_bytes());
    bytes.extend_from_slice(&2u32.to_le_bytes());
    bytes.extend_from_slice(&1u64.to_le_bytes());
    bytes.extend_from_slice(&2u64.to_le_bytes());
    bytes.extend_from_slice(b"id");
    bytes.extend_from_slice(&1u64.to_le_bytes());
    bytes.extend_from_slice(&5.0f32.to_le_bytes());
    bytes.push(1);
    bytes.extend_from_slice(&1u64.to_le_bytes());
    bytes.extend_from_slice(&1u64.to_le_bytes());
    bytes.extend_from_slice(b"k");
    bytes.extend_from_slice(&1u64.to_le_bytes());
    bytes.extend_from_slice(b"v");
    let db = Db::from_bytes(&bytes).unwrap();
    assert_eq!(db.collection_names(), vec!["c".to_string()]);
    let c = db.get_collection("c").unwrap();
    assert_eq!(c.dimension, 1);
    assert_eq!(c.distance, Distance::DotProduct);
    assert_eq!(c.embeddings.len(), 1);
    assert_eq!(c.embeddings[0].id, "id");
    assert_eq!(c.embeddings[0].vector, vec![5.0f32.to_bits()]);
    let mut metadata = HashMap::new();
    metadata.insert("k".to_string(), "v".to_string());
    assert_eq!(c.embeddings[0].metadata, Some(metadata));
}

#[test]
fn bytes_that_hold_no_store_are_malformed() {
    assert_eq!(Db::from_bytes(&[]).err(), Some(StorageError::Malformed));
    assert_eq!(Db::from_bytes(&[1, 2, 3]).err(), Some(StorageError::Malformed));
    assert_eq!(Db::from_bytes(&[0xff; 8]).err(), Some(StorageError::Malformed));
    let mut cut = populated().to_bytes().unwrap();
    cut.truncate(cut.len() - 1);
    assert_eq!(Db::from_bytes(&cut).err(), Some(StorageError::Malformed));
    let mut bad_text: Vec<u8> = Vec::new();
    bad_text.extend_from_slice(&1u64.to_le_bytes());
    bad_text.extend_from_slice(&1u64.to_le_bytes());
    bad_text.push(0xff);
    bad_text.extend_from_slice(&[0u8; 20]);
    assert_eq!(Db::from_bytes(&bad_text).err(), Some(StorageError::Malformed));
}

#[test]
fn written_collections_restore_to_the_store_they_list() {
    let stored: Vec<StoredCollection> = vec![
        ("b".to_string(), 2, 0, vec![row("x", &[1.0, 2.0]), row("y", &[3.0, 4.0])]),
        ("a".to_string(), 0, 1, vec![row("x", &[])]),
        ("c".to_string(), 1, 2, vec![]),
    ];
    let db = Db::from_stored(&stored).unwrap();
    let mut listed = db.collection_names();
    listed.sort();
    assert_eq!(listed, vec!["a".to_string(), "b".to_string(), "c".to_string()]);
    let b = db.get_collection("b").unwrap();
    assert_eq!(b.distance, Distance::Euclidean);
    assert_eq!(b.dimension, 2);
    assert_eq!(b.embeddings[1].id, "y");
    assert_eq!(b.embeddings[1].vector, as_patterns(&[3.0, 4.0]));
    assert_eq!(db.get_collection("a").unwrap().distance, Distance::Cosine);
    assert_eq!(db.get_collection("c").unwrap().distance, Distance::DotProduct);
    let mut written = db.to_stored();
    written.sort_by(|left, right| left.0.cmp(&right.0));
    let mut expected = stored.clone();
    expected.sort_by(|left, right| left.0.cmp(&right.0));
    assert_eq!(written, expected);
}

#[test]
fn a_name_twice_cannot_be_restored() {
    let stored: Vec<StoredCollection> =
        vec![("a".to_string(), 1, 0, vec![]), ("b".to_string(), 1, 0, vec![]), ("a".to_string(), 2, 1, vec![])];
    assert!(Db::from_stored(&stored).is_none());
    let bytes = bincode::serialize(&stored).unwrap();
    assert_eq!(Db::from_bytes(&bytes).err(), Some(StorageError::Invalid));
}

#[test]
fn an_id_twice_cannot_be_restored() {
    let stored: Vec<StoredCollection> =
        vec![("a".to_string(), 1, 0, vec![row("x", &[1.0]), row("y", &[2.0]), row("x", &[3.0])])];
    assert!(Db::from_stored(&stored).is_none());
    let bytes = bincode::serialize(&stored).unwrap();
    assert_eq!(Db::from_bytes(&bytes).err(), Some(StorageError::Invalid));
}

#[test]
fn a_vector_of_the_wrong_length_cannot_be_restored() {
    let stored: Vec<StoredCollection> =
        vec![("a".to_string(), 2, 0, vec![row("x", &[1.0, 2.0]), row("y", &[2.0])])];
    assert!(Db::from_stored(&stored).is_none());
    let bytes = bincode::serialize(&stored).unwrap();
    assert_eq!(Db::from_bytes(&bytes).err(), Some(StorageError::Invalid));
}

#[test]
fn an_unknown_metric_cannot_be_restored() {
    let stored: Vec<StoredCollection> = vec![("a".to_string(), 2, 3, vec![])];
    assert!(Db::from_stored(&stored).is_none());
    let bytes = bincode::serialize(&stored).unwrap();
    assert_eq!(Db::from_bytes(&bytes).err(), Some(StorageError::Invalid));
}

#[test]
fn the_same_id_in_two_written_collections_is_restored() {
    let stored: Vec<StoredCollection> = vec![
        ("a".to_string(), 1, 0, vec![row("x", &[1.0])]),
        ("b".to_string(), 1, 0, vec![row("x", &[1.0])]),
    ];
    assert!(Db::from_stored(&stored).is_some());
}

#[test]
fn metrics_are_written_by_their_place() {
    assert_eq!(distance_code(Distance::Euclidean), 0);
    assert_eq!(distance_code(Distance::Cosine), 1);
    assert_eq!(distance_code(Distance::DotProduct), 2);
    assert_eq!(distance_from_code(0), Some(Distance::Euclidean));
    assert_eq!(distance_from_code(1), Some(Distance::Cosine));
    assert_eq!(distance_from_code(2), Some(Distance::DotProduct));
    assert_eq!(distance_from_code(3), None);
    assert_eq!(distance_from_code(u32::MAX), None);
}

#[test]
fn each_storage_error_has_its_sentence() {
    assert_eq!(StorageError::Unwritable.message(), "The store could not be encoded");
    assert_eq!(StorageError::Malformed.message(), "The bytes don't hold a store");
    assert_eq!(
        StorageError::Invalid.message(),
        "The bytes hold collections that break their invariants"
    );
}

#[test]
fn the_bytes_of_the_encoder_are_passed_on_as_they_are() {
    assert_eq!(bytes_or_unwritable(Ok(vec![1, 2, 3])), Ok(vec![1, 2, 3]));
    assert_eq!(bytes_or_unwritable(Ok(Vec::new())), Ok(Vec::new()));
}

#[test]
fn a_refusal_of_the_encoder_is_unwritable() {
    let refused = Err(Box::new(bincode::ErrorKind::SizeLimit));
    assert_eq!(bytes_or_unwritable(refused), Err(StorageError::Unwritable));
    let refused = Err(Box::new(bincode::ErrorKind::SequenceMustHaveLength));
    assert_eq!(bytes_or_unwritable(refused), Err(StorageError::Unwritable));
}

#[test]
fn what_is_written_reads_back_whatever_its_metadata_holds() {
    let mut db = Db::new();
    db.create_collection("docs".to_string(), 1, Distance::DotProduct).unwrap();
    for i in 0..40u32 {
        let mut metadata = HashMap::new();
        for j in 0..(i % 7) {
            metadata.insert(format!("key{}", j), format!("value{}-{}", i, j));
        }
        db.insert_into_collection(
            "docs",
            Embedding { id: format!("e{}", i), vector: vec![i], metadata: Some(metadata) },
        )
        .unwrap();
    }
    let back = Db::from_bytes(&db.to_bytes().unwrap()).unwrap();
    assert_same(&db, &back);
}

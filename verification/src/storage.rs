//! The store as bytes: what is written to durable storage and read back.
//!
//! A store is written as the list of its collections, each a tuple of plain
//! values, and read back through the store's own operations, so that bytes
//! whose collections break an invariant are refused.

use crate::db::CollectionView;
use crate::db::Db;
use crate::db::Embedding;
use crate::db::EmbeddingView;
use crate::listing::holds;
use crate::listing::lemma_store_after_push;
use crate::listing::lemma_store_at;
use crate::listing::lemma_store_is_well_formed;
use crate::listing::names_distinct;
use crate::listing::slot;
use crate::listing::store_of;
use crate::listing::Named;
use crate::similarity::Distance;
use std::collections::HashMap;
use vstd::prelude::*;

verus! {

/// Why a store could not be written or read.
#[derive(Debug, Clone, Copy, PartialEq, Eq, Structural)]
pub enum StorageError {
    /// The encoder refused the store.
    Unwritable,
    /// The bytes do not hold a list of collections.
    Malformed,
    /// The bytes hold collections that no store can hold: a name or an id
    /// twice, a vector of the wrong length, or an unknown metric.
    Invalid,
}

impl StorageError {
    /// The sentence that reports the error.
    pub fn message(&self) -> (text: String)
        ensures
            text@ == match *self {
                StorageError::Unwritable => "The store could not be encoded"@,
                StorageError::Malformed => "The bytes don't hold a store"@,
                StorageError::Invalid => "The bytes hold collections that break their invariants"@,
            },
    {
        match self {
            StorageError::Unwritable => "The store could not be encoded".to_owned(),
            StorageError::Malformed => "The bytes don't hold a store".to_owned(),
            StorageError::Invalid => "The bytes hold collections that break their invariants".to_owned(),
        }
    }
}

/// An embedding as it is written: id, vector, metadata.
pub type StoredEmbedding = (String, Vec<u32>, Option<HashMap<String, String>>);

/// A collection as it is written: name, dimension, the code of its metric,
/// embeddings.
pub type StoredCollection = (String, usize, u32, Vec<StoredEmbedding>);

/// What a written collection holds.
pub struct StoredView {
    pub name: Seq<char>,
    pub dimension: usize,
    pub metric: u32,
    pub embeddings: Seq<EmbeddingView>,
}

/// The metric that a code stands for: the codes count the metrics in the
/// order in which `Distance` lists them.
pub open spec fn metric_of(code: u32) -> Option<Distance> {
    if code == 0 {
        Some(Distance::Euclidean)
    } else if code == 1 {
        Some(Distance::Cosine)
    } else if code == 2 {
        Some(Distance::DotProduct)
    } else {
        None
    }
}

/// The code under which a metric is written.
pub open spec fn code_of(distance: Distance) -> u32 {
    match distance {
        Distance::Euclidean => 0,
        Distance::Cosine => 1,
        Distance::DotProduct => 2,
    }
}

/// Computes the code of a metric.
pub fn distance_code(distance: Distance) -> (code: u32)
    ensures
        code == code_of(distance),
        metric_of(code) == Some(distance),
{
    match distance {
        Distance::Euclidean => 0,
        Distance::Cosine => 1,
        Distance::DotProduct => 2,
    }
}

/// Finds the metric of a code; `None` for a code that stands for none.
pub fn distance_from_code(code: u32) -> (distance: Option<Distance>)
    ensures
        distance == metric_of(code),
{
    if code == 0 {
        Some(Distance::Euclidean)
    } else if code == 1 {
        Some(Distance::Cosine)
    } else if code == 2 {
        Some(Distance::DotProduct)
    } else {
        None
    }
}

/// What a written embedding holds.
pub open spec fn embedding_of(stored: StoredEmbedding) -> EmbeddingView {
    EmbeddingView {
        id: stored.0@,
        vector: stored.1@,
        metadata: match stored.2 {
            Some(pairs) => Some(pairs@),
            None => None,
        },
    }
}

/// What a written collection holds.
pub open spec fn collection_of(stored: StoredCollection) -> StoredView {
    StoredView {
        name: stored.0@,
        dimension: stored.1,
        metric: stored.2,
        embeddings: stored.3@.map_values(|e: StoredEmbedding| embedding_of(e)),
    }
}

/// What a list of written collections holds.
pub open spec fn collections_of(stored: Seq<StoredCollection>) -> Seq<StoredView> {
    stored.map_values(|c: StoredCollection| collection_of(c))
}

impl StoredView {
    /// The collection that was written, where its metric is known.
    pub open spec fn collection(self) -> CollectionView {
        CollectionView {
            dimension: self.dimension,
            distance: metric_of(self.metric).unwrap(),
            embeddings: self.embeddings,
        }
    }

    /// The first `taken` embeddings of the collection.
    pub open spec fn partial(self, taken: int) -> CollectionView {
        CollectionView {
            dimension: self.dimension,
            distance: metric_of(self.metric).unwrap(),
            embeddings: self.embeddings.take(taken),
        }
    }

    /// The metric is known and the collection keeps its invariant.
    pub open spec fn well_formed(self) -> bool {
        metric_of(self.metric) is Some && self.collection().well_formed()
    }
}

/// The written collections as a list of named collections.
pub open spec fn named(stored: Seq<StoredView>) -> Seq<Named> {
    stored.map_values(|s: StoredView| Named { name: s.name, collection: s.collection() })
}

/// No name occurs twice.
pub open spec fn names_differ(stored: Seq<StoredView>) -> bool {
    names_distinct(named(stored))
}

/// Whether written collections can be the collections of a store: each is
/// well formed, and no name occurs twice.
pub open spec fn restorable(stored: Seq<StoredView>) -> bool {
    &&& forall|i: int| 0 <= i < stored.len() ==> (#[trigger] stored[i]).well_formed()
    &&& names_differ(stored)
}

/// The store that written collections stand for.
pub open spec fn restored(stored: Seq<StoredView>) -> Map<Seq<char>, CollectionView> {
    store_of(named(stored))
}

/// Collections that can be restored make a store whose collections all keep
/// their invariant.
pub proof fn lemma_restored_is_well_formed(stored: Seq<StoredView>)
    requires
        restorable(stored),
    ensures
        crate::db::all_well_formed(restored(stored)),
{
    assert forall|i: int| 0 <= i < named(stored).len() implies (#[trigger] named(
        stored,
    )[i]).collection.well_formed() by {
        assert(stored[i].well_formed());
    }
    lemma_store_is_well_formed(named(stored));
}

#[verifier::external_type_specification]
#[verifier::external_body]
pub struct ExErrorKind(bincode::ErrorKind);

/// The collections that `bincode::deserialize` reads from `bytes`, or `None`
/// where it refuses them.
pub uninterp spec fn decoding(bytes: Seq<u8>) -> Option<Seq<StoredView>>;

/// `bincode::deserialize` on a slice, for a list of written collections. It
/// reads with fixed-width little-endian integers and returns an error for
/// bytes that do not hold such a list. What it returns depends on the bytes
/// alone, and bears the name `decoding`.
#[verifier::external_body]
fn decode(bytes: &[u8]) -> (decoded: Result<Vec<StoredCollection>, Box<bincode::ErrorKind>>)
    ensures
        match decoded {
            Ok(stored) => decoding(bytes@) == Some(collections_of(stored@)),
            Err(_) => decoding(bytes@) is None,
        },
{
    bincode::deserialize(bytes)
}

/// `bincode::serialize` on a list of written collections.
///
/// It succeeds on every such list: it runs without a byte limit, it writes
/// into a `Vec`, and it refuses only a sequence or map of unknown length,
/// while a `Vec` and a `HashMap` tell theirs. The bytes follow the order in
/// which each metadata map is walked, so they bear no name of their own;
/// whatever that order, `bincode::deserialize` reads them back as the
/// collections that were written, as the crate documents.
#[verifier::external_body]
fn encode(stored: &Vec<StoredCollection>) -> (encoded: Result<Vec<u8>, Box<bincode::ErrorKind>>)
    ensures
        encoded is Ok,
        encoded matches Ok(bytes) ==> decoding(bytes@) == Some(collections_of(stored@)),
{
    bincode::serialize(stored)
}

/// What writing a store answers for each answer of the encoder: the
/// encoder's bytes as they are, or `Unwritable` where it refused.
pub fn bytes_or_unwritable(encoded: Result<Vec<u8>, Box<bincode::ErrorKind>>) -> (bytes: Result<
    Vec<u8>,
    StorageError,
>)
    ensures
        match encoded {
            Ok(written) => bytes == Ok::<Vec<u8>, StorageError>(written),
            Err(_) => bytes == Err::<Vec<u8>, StorageError>(StorageError::Unwritable),
        },
{
    match encoded {
        Ok(written) => Ok(written),
        Err(_) => Err(StorageError::Unwritable),
    }
}

/// Copies one embedding into the form in which it is written.
fn stored_embedding(embedding: &Embedding) -> (stored: StoredEmbedding)
    ensures
        embedding_of(stored) == embedding@,
{
    let copy = embedding.clone();
    (copy.id, copy.vector, copy.metadata)
}

/// Copies one written embedding into an embedding.
fn embedding_from(stored: &StoredEmbedding) -> (embedding: Embedding)
    ensures
        embedding@ == embedding_of(*stored),
{
    let vector = stored.1.clone();
    assert(vector@ =~= stored.1@);
    let metadata = match &stored.2 {
        Some(pairs) => Some(pairs.clone()),
        None => None,
    };
    Embedding { id: stored.0.clone(), vector, metadata }
}

impl Db {
    /// The collections of the store in the form in which they are written.
    /// Restoring them gives this store.
    pub fn to_stored(&self) -> (stored: Vec<StoredCollection>)
        ensures
            restorable(collections_of(stored@)),
            restored(collections_of(stored@)) == self@,
    {
        let names = self.collection_names();
        let mut stored: Vec<StoredCollection> = Vec::new();
        let mut i: usize = 0;
        while i < names.len()
            invariant
                i <= names@.len(),
                stored@.len() == i,
                forall|name: Seq<char>|
                    self@.contains_key(name) <==> exists|i: int|
                        0 <= i < names@.len() && (#[trigger] names@[i])@ == name,
                forall|a: int|
                    0 <= a < i ==> {
                        &&& collection_of(#[trigger] stored@[a]).name == names@[a]@
                        &&& collection_of(stored@[a]).well_formed()
                        &&& collection_of(stored@[a]).collection() == self@[names@[a]@]
                    },
            decreases names@.len() - i,
        {
            assert(self@.contains_key(names@[i as int]@));
            let collection = self.get_collection(names[i].as_str()).unwrap();
            let mut embeddings: Vec<StoredEmbedding> = Vec::new();
            let mut j: usize = 0;
            while j < collection.embeddings.len()
                invariant
                    j <= collection.embeddings@.len(),
                    embeddings@.len() == j,
                    forall|a: int|
                        0 <= a < j ==> embedding_of(#[trigger] embeddings@[a])
                            == collection.embeddings@[a]@,
                decreases collection.embeddings@.len() - j,
            {
                embeddings.push(stored_embedding(&collection.embeddings[j]));
                j += 1;
            }
            let entry: StoredCollection = (
                names[i].clone(),
                collection.dimension,
                distance_code(collection.distance),
                embeddings,
            );
            proof {
                assert(collection_of(entry).embeddings =~= collection@.embeddings);
                assert(collection_of(entry).collection() == collection@);
            }
            stored.push(entry);
            i += 1;
        }
        proof {
            let held = collections_of(stored@);
            let list = named(held);
            assert forall|a: int| 0 <= a < held.len() implies (#[trigger] list[a]).name
                == names@[a]@ && held[a].well_formed() && list[a].collection
                == self@[names@[a]@] by {
                assert(held[a] == collection_of(stored@[a]));
            }
            assert forall|a: int, b: int| 0 <= a < b < list.len() implies (#[trigger] list[a]).name
                != (#[trigger] list[b]).name by {
                assert(names@[a]@ != names@[b]@);
            }
            assert forall|a: int| 0 <= a < held.len() implies (#[trigger] held[a]).well_formed() by {
                assert(list[a].name == names@[a]@);
            }
            assert forall|key: Seq<char>| #[trigger]
                restored(held).contains_key(key) == self@.contains_key(key) by {
                if holds(list, key) {
                    let a = slot(list, key);
                    assert(names@[a]@ == key);
                }
                if self@.contains_key(key) {
                    let a = choose|a: int| 0 <= a < names@.len() && (#[trigger] names@[a])@ == key;
                    assert(list[a].name == key);
                }
            }
            assert forall|key: Seq<char>| #[trigger] restored(held).contains_key(key) implies restored(
                held,
            )[key] == self@[key] by {
                let a = slot(list, key);
                lemma_store_at(list, a);
            }
            assert(restored(held) =~= self@);
        }
        stored
    }

    /// The store that written collections stand for; `None` where they are
    /// not the collections of any store.
    pub fn from_stored(stored: &Vec<StoredCollection>) -> (db: Option<Db>)
        ensures
            match db {
                Some(db) => restorable(collections_of(stored@)) && db@ == restored(
                    collections_of(stored@),
                ),
                None => !restorable(collections_of(stored@)),
            },
    {
        let ghost held = collections_of(stored@);
        let mut db = Db::new();
        let mut i: usize = 0;
        assert(restored(held.take(0)) =~= db@);
        while i < stored.len()
            invariant
                i <= stored@.len(),
                held == collections_of(stored@),
                restorable(held.take(i as int)),
                db@ == restored(held.take(i as int)),
            decreases stored@.len() - i,
        {
            let ghost before = held.take(i as int);
            let ghost next = held[i as int];
            let entry = &stored[i];
            assert(next == collection_of(*entry));
            let distance = match distance_from_code(entry.2) {
                Some(distance) => distance,
                None => {
                    assert(!next.well_formed());
                    return None;
                },
            };
            match db.create_collection(entry.0.clone(), entry.1, distance) {
                Ok(_) => {},
                Err(_) => {
                    proof {
                        let earlier = slot(named(before), next.name);
                        assert(holds(named(before), next.name));
                        assert(named(before)[earlier].name == next.name);
                        assert(named(held)[earlier].name == named(held)[i as int].name);
                    }
                    return None;
                },
            }
            assert(next.partial(0).embeddings =~= Seq::<EmbeddingView>::empty());
            let mut j: usize = 0;
            while j < entry.3.len()
                invariant
                    j <= entry.3@.len(),
                    i < stored@.len(),
                    *entry == stored@[i as int],
                    held == collections_of(stored@),
                    next == held[i as int],
                    next == collection_of(*entry),
                    metric_of(next.metric) == Some(distance),
                    next.partial(j as int).well_formed(),
                    db@ == restored(before).insert(next.name, next.partial(j as int)),
                decreases entry.3@.len() - j,
            {
                let embedding = embedding_from(&entry.3[j]);
                let ghost so_far = next.partial(j as int);
                assert(embedding@ == next.embeddings[j as int]);
                match db.insert_into_collection(entry.0.as_str(), embedding) {
                    Ok(_) => {},
                    Err(_) => {
                        proof {
                            if so_far.has_id(embedding@.id) {
                                let a = choose|a: int|
                                    0 <= a < so_far.embeddings.len() && (
                                    #[trigger] so_far.embeddings[a]).id == embedding@.id;
                                assert(next.embeddings[a].id == next.embeddings[j as int].id);
                                assert(!next.collection().well_formed());
                            } else {
                                assert(next.embeddings[j as int].vector.len() != next.dimension);
                                assert(!next.collection().well_formed());
                            }
                        }
                        return None;
                    },
                }
                proof {
                    assert(next.partial(j + 1).embeddings =~= so_far.embeddings.push(embedding@));
                    assert(next.partial(j + 1) == so_far.with(embedding@));
                    assert(db@ =~= restored(before).insert(next.name, next.partial(j + 1)));
                    let grown = next.partial(j + 1);
                    assert forall|a: int, b: int|
                        0 <= a < b < grown.embeddings.len() implies (
                    #[trigger] grown.embeddings[a]).id != (#[trigger] grown.embeddings[b]).id by {
                        if b == j {
                            assert(so_far.embeddings[a].id != embedding@.id);
                        } else {
                            assert(so_far.embeddings[a].id != so_far.embeddings[b].id);
                        }
                    }
                    assert(grown.well_formed());
                }
                j += 1;
            }
            proof {
                assert(next.partial(j as int).embeddings =~= next.embeddings);
                assert(next.partial(j as int) == next.collection());
                let entry_of_next = Named { name: next.name, collection: next.collection() };
                lemma_store_after_push(named(before), entry_of_next);
                assert(held.take(i + 1) =~= before.push(next));
                assert(named(held.take(i + 1)) =~= named(before).push(entry_of_next));
                assert forall|a: int| 0 <= a < i + 1 implies (#[trigger] held.take(
                    i + 1,
                )[a]).well_formed() by {
                    if a < i {
                        assert(before[a].well_formed());
                    }
                }
            }
            i += 1;
        }
        assert(held.take(i as int) =~= held);
        Some(db)
    }

    /// The store as bytes. Every store can be written, and the bytes hold
    /// it: read back, they are collections that can be restored, and
    /// restore to this store.
    pub fn to_bytes(&self) -> (bytes: Result<Vec<u8>, StorageError>)
        ensures
            bytes is Ok,
            bytes matches Ok(written) ==> decoding(written@) matches Some(stored) && restorable(
                stored,
            ) && restored(stored) == self@,
    {
        let stored = self.to_stored();
        bytes_or_unwritable(encode(&stored))
    }

    /// The store that bytes hold: `Malformed` where they hold no list of
    /// collections, `Invalid` where that list cannot be restored.
    pub fn from_bytes(bytes: &[u8]) -> (db: Result<Db, StorageError>)
        ensures
            match db {
                Ok(db) => decoding(bytes@) matches Some(stored) && restorable(stored) && db@
                    == restored(stored),
                Err(StorageError::Malformed) => decoding(bytes@) is None,
                Err(StorageError::Invalid) => decoding(bytes@) matches Some(stored) && !restorable(
                    stored,
                ),
                Err(StorageError::Unwritable) => false,
            },
    {
        match decode(bytes) {
            Ok(stored) => match Db::from_stored(&stored) {
                Some(db) => Ok(db),
                None => Err(StorageError::Invalid),
            },
            Err(_) => Err(StorageError::Malformed),
        }
    }
}

} // verus!

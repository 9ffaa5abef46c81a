//! Embeddings, collections and the store that owns them.

use crate::listing::holds;
use crate::listing::lemma_store_after_push;
use crate::listing::lemma_store_after_remove;
use crate::listing::lemma_store_after_update;
use crate::listing::lemma_store_at;
use crate::listing::lemma_store_is_well_formed;
use crate::listing::names_distinct;
use crate::listing::slot;
use crate::listing::store_of;
use crate::listing::Named;
use crate::similarity::Distance;
use std::collections::HashMap;
use vstd::prelude::*;

verus! {

/// What a store refuses.
#[derive(Debug, Clone, Copy, PartialEq, Eq, Structural)]
pub enum Error {
    /// The collection's name, or the embedding's id, is taken.
    UniqueViolation,
    /// No collection has the name.
    NotFound,
    /// The vector has not the collection's dimension.
    DimensionMismatch,
}

impl Error {
    /// The sentence that reports the error.
    pub fn message(&self) -> (text: String)
        ensures
            text@ == match *self {
                Error::UniqueViolation => "Collection already exists"@,
                Error::NotFound => "Collection doesn't exist"@,
                Error::DimensionMismatch => "The dimension of the vector doesn't match the dimension of the collection"@,
            },
    {
        match self {
            Error::UniqueViolation => "Collection already exists".to_owned(),
            Error::NotFound => "Collection doesn't exist".to_owned(),
            Error::DimensionMismatch => "The dimension of the vector doesn't match the dimension of the collection".to_owned(),
        }
    }
}

/// One stored vector: its id, its numbers as binary32 bit patterns, and
/// whatever the caller attached to it.
#[derive(Debug)]
pub struct Embedding {
    pub id: String,
    pub vector: Vec<u32>,
    pub metadata: Option<HashMap<String, String>>,
}

/// What an embedding holds.
pub struct EmbeddingView {
    pub id: Seq<char>,
    pub vector: Seq<u32>,
    pub metadata: Option<Map<String, String>>,
}

impl View for Embedding {
    type V = EmbeddingView;

    open spec fn view(&self) -> EmbeddingView {
        EmbeddingView {
            id: self.id@,
            vector: self.vector@,
            metadata: match self.metadata {
                Some(pairs) => Some(pairs@),
                None => None,
            },
        }
    }
}

impl Clone for Embedding {
    fn clone(&self) -> (copy: Self)
        ensures
            copy@ == self@,
    {
        let vector = self.vector.clone();
        assert(vector@ =~= self.vector@);
        let metadata = match &self.metadata {
            Some(pairs) => Some(pairs.clone()),
            None => None,
        };
        Embedding { id: self.id.clone(), vector, metadata }
    }
}

/// One answer of a search: an embedding and the score it earned.
#[derive(Debug)]
pub struct SimilarityResult {
    pub score: u32,
    pub embedding: Embedding,
}

impl Clone for SimilarityResult {
    fn clone(&self) -> (copy: Self)
        ensures
            copy.score == self.score,
            copy.embedding@ == self.embedding@,
    {
        SimilarityResult { score: self.score, embedding: self.embedding.clone() }
    }
}

/// Embeddings of one dimension, compared by one metric.
#[derive(Debug)]
pub struct Collection {
    /// Dimension of the vectors in the collection
    pub dimension: usize,
    /// Distance metric used for querying
    pub distance: Distance,
    /// Embeddings in the collection
    pub embeddings: Vec<Embedding>,
}

/// What a collection holds.
pub struct CollectionView {
    pub dimension: usize,
    pub distance: Distance,
    pub embeddings: Seq<EmbeddingView>,
}

impl CollectionView {
    /// A collection without embeddings.
    pub open spec fn empty(dimension: usize, distance: Distance) -> CollectionView {
        CollectionView { dimension, distance, embeddings: Seq::empty() }
    }

    /// Whether an embedding of the collection has this id.
    pub open spec fn has_id(self, id: Seq<char>) -> bool {
        exists|i: int| 0 <= i < self.embeddings.len() && (#[trigger] self.embeddings[i]).id == id
    }

    /// The collection with one more embedding at its end.
    pub open spec fn with(self, embedding: EmbeddingView) -> CollectionView {
        CollectionView { embeddings: self.embeddings.push(embedding), ..self }
    }

    /// The invariant of a collection: every vector has the collection's
    /// dimension, and no id occurs twice.
    pub open spec fn well_formed(self) -> bool {
        &&& forall|i: int|
            0 <= i < self.embeddings.len() ==> (#[trigger] self.embeddings[i]).vector.len()
                == self.dimension
        &&& forall|i: int, j: int|
            0 <= i < j < self.embeddings.len() ==> (#[trigger] self.embeddings[i]).id != (
            #[trigger] self.embeddings[j]).id
    }
}

impl View for Collection {
    type V = CollectionView;

    open spec fn view(&self) -> CollectionView {
        CollectionView {
            dimension: self.dimension,
            distance: self.distance,
            embeddings: self.embeddings@.map_values(|e: Embedding| e@),
        }
    }
}

impl Clone for Collection {
    fn clone(&self) -> (copy: Self)
        ensures
            copy@ == self@,
    {
        let mut embeddings: Vec<Embedding> = Vec::new();
        let mut i: usize = 0;
        while i < self.embeddings.len()
            invariant
                i <= self.embeddings@.len(),
                embeddings@.len() == i,
                forall|j: int| 0 <= j < i ==> embeddings@[j]@ == self.embeddings@[j]@,
            decreases self.embeddings@.len() - i,
        {
            embeddings.push(self.embeddings[i].clone());
            i += 1;
        }
        let copy = Collection { dimension: self.dimension, distance: self.distance, embeddings };
        assert(copy@.embeddings =~= self@.embeddings);
        copy
    }
}

/// Every collection of the store keeps the invariant of a collection.
pub open spec fn all_well_formed(store: Map<Seq<char>, CollectionView>) -> bool {
    forall|name: Seq<char>| store.contains_key(name) ==> (#[trigger] store[name]).well_formed()
}

/// What `create_collection` answers on a store.
pub open spec fn create_outcome(
    store: Map<Seq<char>, CollectionView>,
    name: Seq<char>,
    dimension: usize,
    distance: Distance,
) -> Result<CollectionView, Error> {
    if store.contains_key(name) {
        Err(Error::UniqueViolation)
    } else {
        Ok(CollectionView::empty(dimension, distance))
    }
}

/// The store after `create_collection`.
pub open spec fn created(
    store: Map<Seq<char>, CollectionView>,
    name: Seq<char>,
    dimension: usize,
    distance: Distance,
) -> Map<Seq<char>, CollectionView> {
    if store.contains_key(name) {
        store
    } else {
        store.insert(name, CollectionView::empty(dimension, distance))
    }
}

/// What `delete_collection` answers on a store.
pub open spec fn delete_outcome(store: Map<Seq<char>, CollectionView>, name: Seq<char>) -> Result<
    (),
    Error,
> {
    if store.contains_key(name) {
        Ok(())
    } else {
        Err(Error::NotFound)
    }
}

/// The store after `delete_collection`.
pub open spec fn deleted(store: Map<Seq<char>, CollectionView>, name: Seq<char>) -> Map<
    Seq<char>,
    CollectionView,
> {
    store.remove(name)
}

/// What `insert_into_collection` answers on a store: the collection is
/// looked for first, then the id, then the dimension.
pub open spec fn insert_outcome(
    store: Map<Seq<char>, CollectionView>,
    name: Seq<char>,
    embedding: EmbeddingView,
) -> Result<(), Error> {
    if !store.contains_key(name) {
        Err(Error::NotFound)
    } else if store[name].has_id(embedding.id) {
        Err(Error::UniqueViolation)
    } else if embedding.vector.len() != store[name].dimension {
        Err(Error::DimensionMismatch)
    } else {
        Ok(())
    }
}

/// The store after `insert_into_collection`.
pub open spec fn inserted(
    store: Map<Seq<char>, CollectionView>,
    name: Seq<char>,
    embedding: EmbeddingView,
) -> Map<Seq<char>, CollectionView> {
    if insert_outcome(store, name, embedding) is Ok {
        store.insert(name, store[name].with(embedding))
    } else {
        store
    }
}

/// What `get_collection` answers on a store.
pub open spec fn found(store: Map<Seq<char>, CollectionView>, name: Seq<char>) -> Option<
    CollectionView,
> {
    if store.contains_key(name) {
        Some(store[name])
    } else {
        None
    }
}

/// A name that a collection was created under is taken from then on:
/// creating under it once more is refused with `UniqueViolation`, and the
/// store, the first collection in it, stays as it was.
pub proof fn lemma_second_create_is_refused(
    store: Map<Seq<char>, CollectionView>,
    name: Seq<char>,
    dimension: usize,
    distance: Distance,
    other_dimension: usize,
    other_distance: Distance,
)
    ensures
        ({
            let once = created(store, name, dimension, distance);
            &&& create_outcome(once, name, other_dimension, other_distance) == Err::<
                CollectionView,
                Error,
            >(Error::UniqueViolation)
            &&& created(once, name, other_dimension, other_distance) == once
            &&& !store.contains_key(name) ==> found(once, name) == Some(
                CollectionView::empty(dimension, distance),
            )
        }),
{
}

/// Deleting a name that no collection has is refused with `NotFound` and
/// changes nothing. Deleting one that a collection has succeeds. Either way
/// the name is free afterwards, and every other name finds what it found.
pub proof fn lemma_delete_frees_the_name(store: Map<Seq<char>, CollectionView>, name: Seq<char>)
    ensures
        !store.contains_key(name) ==> delete_outcome(store, name) == Err::<(), Error>(
            Error::NotFound,
        ) && deleted(store, name) == store,
        store.contains_key(name) ==> delete_outcome(store, name) == Ok::<(), Error>(()),
        found(deleted(store, name), name) == None::<CollectionView>,
        forall|other: Seq<char>|
            other != name ==> #[trigger] found(deleted(store, name), other) == found(store, other),
{
    if !store.contains_key(name) {
        assert(deleted(store, name) =~= store);
    }
}

/// An insertion that is refused, for whatever reason, changes nothing.
pub proof fn lemma_refused_insert_changes_nothing(
    store: Map<Seq<char>, CollectionView>,
    name: Seq<char>,
    embedding: EmbeddingView,
)
    requires
        insert_outcome(store, name, embedding) is Err,
    ensures
        inserted(store, name, embedding) == store,
{
}

/// A vector of another length than the collection's dimension is refused
/// with `DimensionMismatch`, and the collection keeps the embeddings it had,
/// where the collection exists and the id is new to it: a missing collection
/// and a taken id are reported first.
pub proof fn lemma_wrong_dimension_is_refused(
    store: Map<Seq<char>, CollectionView>,
    name: Seq<char>,
    embedding: EmbeddingView,
)
    requires
        store.contains_key(name),
        !store[name].has_id(embedding.id),
        embedding.vector.len() != store[name].dimension,
    ensures
        insert_outcome(store, name, embedding) == Err::<(), Error>(Error::DimensionMismatch),
        inserted(store, name, embedding) == store,
        inserted(store, name, embedding)[name].embeddings.len() == store[name].embeddings.len(),
{
}

/// After an embedding went into a collection, a second one with the same id
/// is refused with `UniqueViolation`: of the two, the collection has gained
/// exactly the first.
pub proof fn lemma_second_insert_of_an_id_is_refused(
    store: Map<Seq<char>, CollectionView>,
    name: Seq<char>,
    first: EmbeddingView,
    second: EmbeddingView,
)
    requires
        insert_outcome(store, name, first) is Ok,
        second.id == first.id,
    ensures
        ({
            let once = inserted(store, name, first);
            &&& insert_outcome(once, name, second) == Err::<(), Error>(Error::UniqueViolation)
            &&& inserted(once, name, second) == once
            &&& once[name].embeddings == store[name].embeddings.push(first)
            &&& once[name].embeddings.len() == store[name].embeddings.len() + 1
        }),
{
    let once = inserted(store, name, first);
    let last = store[name].embeddings.len() as int;
    assert(once[name].embeddings[last].id == second.id);
}

/// Creating, deleting and inserting keep the invariant of every collection:
/// vectors of the collection's dimension, and no id twice.
pub proof fn lemma_store_stays_well_formed(
    store: Map<Seq<char>, CollectionView>,
    name: Seq<char>,
    dimension: usize,
    distance: Distance,
    embedding: EmbeddingView,
)
    requires
        all_well_formed(store),
    ensures
        all_well_formed(created(store, name, dimension, distance)),
        all_well_formed(deleted(store, name)),
        all_well_formed(inserted(store, name, embedding)),
{
    assert(CollectionView::empty(dimension, distance).well_formed());
    if insert_outcome(store, name, embedding) is Ok {
        let before = store[name];
        let after = before.with(embedding);
        assert(before.well_formed());
        assert forall|i: int, j: int| 0 <= i < j < after.embeddings.len() implies (
        #[trigger] after.embeddings[i]).id != (#[trigger] after.embeddings[j]).id by {
            if j == before.embeddings.len() {
                assert(before.embeddings[i].id != embedding.id);
            } else {
                assert(before.embeddings[i].id != before.embeddings[j].id);
            }
        }
        assert(after.well_formed());
    }
}

impl Collection {
    /// Whether an embedding of the collection has this id.
    fn contains_id(&self, id: &String) -> (taken: bool)
        ensures
            taken == self@.has_id(id@),
    {
        let mut i: usize = 0;
        while i < self.embeddings.len()
            invariant
                i <= self.embeddings@.len(),
                forall|j: int| 0 <= j < i ==> self.embeddings@[j].id@ != id@,
            decreases self.embeddings@.len() - i,
        {
            if self.embeddings[i].id == *id {
                assert(self@.embeddings[i as int].id == id@);
                return true;
            }
            i += 1;
        }
        assert forall|j: int| 0 <= j < self@.embeddings.len() implies (
        #[trigger] self@.embeddings[j]).id != id@ by {
            assert(self@.embeddings[j] == self.embeddings@[j]@);
        }
        false
    }
}

/// The store: collections by name, no name twice.
#[derive(Debug)]
pub struct Db {
    entries: Vec<(String, Collection)>,
}

/// The named collections that the entries of a store stand for.
spec fn listed(entries: Seq<(String, Collection)>) -> Seq<Named> {
    entries.map_values(|e: (String, Collection)| Named { name: e.0@, collection: e.1@ })
}

impl View for Db {
    type V = Map<Seq<char>, CollectionView>;

    closed spec fn view(&self) -> Map<Seq<char>, CollectionView> {
        store_of(listed(self.entries@))
    }
}

impl Db {
    #[verifier::type_invariant]
    spec fn sound(&self) -> bool {
        &&& names_distinct(listed(self.entries@))
        &&& forall|i: int|
            0 <= i < self.entries@.len() ==> (#[trigger] listed(
                self.entries@,
            )[i]).collection.well_formed()
    }

    /// The place of a name among the entries.
    fn position(&self, name: &String) -> (at: Option<usize>)
        ensures
            match at {
                Some(i) => i < self.entries@.len() && self.entries@[i as int].0@ == name@,
                None => !holds(listed(self.entries@), name@),
            },
    {
        let mut i: usize = 0;
        while i < self.entries.len()
            invariant
                i <= self.entries@.len(),
                forall|j: int| 0 <= j < i ==> (#[trigger] self.entries@[j]).0@ != name@,
            decreases self.entries@.len() - i,
        {
            if self.entries[i].0 == *name {
                return Some(i);
            }
            i += 1;
        }
        assert forall|j: int| 0 <= j < listed(self.entries@).len() implies (#[trigger] listed(
            self.entries@,
        )[j]).name != name@ by {
            assert(self.entries@[j].0@ != name@);
        }
        None
    }

    /// A store without collections.
    pub fn new() -> (db: Db)
        ensures
            db@ == Map::<Seq<char>, CollectionView>::empty(),
            all_well_formed(db@),
    {
        let db = Db { entries: Vec::new() };
        assert(db@ =~= Map::<Seq<char>, CollectionView>::empty());
        db
    }

    /// Adds an empty collection under a name that is still free, and
    /// returns a copy of it.
    pub fn create_collection(&mut self, name: String, dimension: usize, distance: Distance) -> (outcome:
        Result<Collection, Error>)
        ensures
            match outcome {
                Ok(collection) => create_outcome(old(self)@, name@, dimension, distance) == Ok::<
                    CollectionView,
                    Error,
                >(collection@),
                Err(error) => create_outcome(old(self)@, name@, dimension, distance) == Err::<
                    CollectionView,
                    Error,
                >(error),
            },
            final(self)@ == created(old(self)@, name@, dimension, distance),
            all_well_formed(final(self)@),
    {
        proof {
            use_type_invariant(&*self);
            lemma_store_is_well_formed(listed(self.entries@));
        }
        match self.position(&name) {
            Some(at) => {
                proof {
                    lemma_store_at(listed(self.entries@), at as int);
                }
                return Err(Error::UniqueViolation);
            },
            None => {},
        }
        let collection = Collection { dimension, distance, embeddings: Vec::new() };
        let copy = Collection { dimension, distance, embeddings: Vec::new() };
        assert(collection@ == CollectionView::empty(dimension, distance)) by {
            assert(collection@.embeddings =~= Seq::<EmbeddingView>::empty());
        }
        assert(copy@ == CollectionView::empty(dimension, distance)) by {
            assert(copy@.embeddings =~= Seq::<EmbeddingView>::empty());
        }
        proof {
            let next = Named { name: name@, collection: collection@ };
            let grown = listed(self.entries@).push(next);
            assert(listed(self.entries@.push((name, collection))) =~= grown);
            lemma_store_after_push(listed(self.entries@), next);
            lemma_store_is_well_formed(grown);
        }
        let mut entries: Vec<(String, Collection)> = Vec::new();
        core::mem::swap(&mut entries, &mut self.entries);
        entries.push((name, collection));
        self.entries = entries;
        Ok(copy)
    }

    /// Removes a collection with all its embeddings.
    pub fn delete_collection(&mut self, name: &str) -> (outcome: Result<(), Error>)
        ensures
            outcome == delete_outcome(old(self)@, name@),
            final(self)@ == deleted(old(self)@, name@),
            all_well_formed(final(self)@),
    {
        proof {
            use_type_invariant(&*self);
            lemma_store_is_well_formed(listed(self.entries@));
        }
        let wanted = name.to_owned();
        let at = match self.position(&wanted) {
            Some(at) => at,
            None => {
                assert(self@ =~= self@.remove(name@));
                return Err(Error::NotFound);
            },
        };
        proof {
            lemma_store_at(listed(self.entries@), at as int);
            let rest = listed(self.entries@).remove(at as int);
            assert(listed(self.entries@.remove(at as int)) =~= rest);
            lemma_store_after_remove(listed(self.entries@), at as int);
            assert forall|i: int| 0 <= i < rest.len() implies (
            #[trigger] rest[i]).collection.well_formed() by {
                let from = if i < at {
                    i
                } else {
                    i + 1
                };
                assert(listed(self.entries@)[from].collection.well_formed());
            }
            lemma_store_is_well_formed(rest);
        }
        let mut entries: Vec<(String, Collection)> = Vec::new();
        core::mem::swap(&mut entries, &mut self.entries);
        let _ = entries.remove(at);
        self.entries = entries;
        Ok(())
    }

    /// Tests whether an embedding can go into a collection, and finds the
    /// place of that collection among the entries.
    fn place_for(&self, collection_name: &str, embedding: &Embedding) -> (place: Result<
        usize,
        Error,
    >)
        ensures
            match place {
                Ok(at) => insert_outcome(self@, collection_name@, embedding@) == Ok::<(), Error>(())
                    && at < self.entries@.len() && self.entries@[at as int].0@
                    == collection_name@,
                Err(error) => insert_outcome(self@, collection_name@, embedding@) == Err::<
                    (),
                    Error,
                >(error),
            },
    {
        proof {
            use_type_invariant(self);
        }
        let wanted = collection_name.to_owned();
        let at = match self.position(&wanted) {
            Some(at) => at,
            None => {
                return Err(Error::NotFound);
            },
        };
        proof {
            lemma_store_at(listed(self.entries@), at as int);
        }
        if self.entries[at].1.contains_id(&embedding.id) {
            return Err(Error::UniqueViolation);
        }
        if embedding.vector.len() != self.entries[at].1.dimension {
            return Err(Error::DimensionMismatch);
        }
        Ok(at)
    }

    /// What `insert_into_collection` would answer for this embedding, with
    /// the store left as it is.
    pub fn check_insert(&self, collection_name: &str, embedding: &Embedding) -> (outcome: Result<
        (),
        Error,
    >)
        ensures
            outcome == insert_outcome(self@, collection_name@, embedding@),
    {
        match self.place_for(collection_name, embedding) {
            Ok(_) => Ok(()),
            Err(error) => Err(error),
        }
    }

    /// Appends an embedding to a collection, as it is handed in.
    ///
    /// The collection must exist, the id must be new to it and the vector
    /// must have its dimension; the three are tested in this order. No
    /// embedding that the collection holds is changed.
    pub fn insert_into_collection(&mut self, collection_name: &str, embedding: Embedding) -> (outcome:
        Result<(), Error>)
        ensures
            outcome == insert_outcome(old(self)@, collection_name@, embedding@),
            final(self)@ == inserted(old(self)@, collection_name@, embedding@),
            all_well_formed(final(self)@),
    {
        proof {
            use_type_invariant(&*self);
            lemma_store_is_well_formed(listed(self.entries@));
        }
        let at = match self.place_for(collection_name, &embedding) {
            Ok(at) => at,
            Err(error) => {
                return Err(error);
            },
        };
        proof {
            lemma_store_at(listed(self.entries@), at as int);
        }
        let ghost before = self.entries@;
        let mut entries: Vec<(String, Collection)> = Vec::new();
        core::mem::swap(&mut entries, &mut self.entries);
        entries[at].1.embeddings.push(embedding);
        proof {
            let changed = entries@[at as int];
            assert(entries@ =~= before.update(at as int, changed));
            assert(changed.1@.embeddings =~= before[at as int].1@.embeddings.push(embedding@));
            assert(changed.1@ == before[at as int].1@.with(embedding@));
            let next = Named { name: changed.0@, collection: changed.1@ };
            let after = listed(before).update(at as int, next);
            assert(listed(entries@) =~= after);
            lemma_store_after_update(listed(before), at as int, next);
            assert(changed.1@.well_formed()) by {
                let old_view = before[at as int].1@;
                assert(listed(before)[at as int].collection.well_formed());
                assert forall|i: int, j: int|
                    0 <= i < j < changed.1@.embeddings.len() implies (
                #[trigger] changed.1@.embeddings[i]).id != (
                #[trigger] changed.1@.embeddings[j]).id by {
                    if j == old_view.embeddings.len() {
                        assert(old_view.embeddings[i].id != embedding@.id);
                    } else {
                        assert(old_view.embeddings[i].id != old_view.embeddings[j].id);
                    }
                }
            }
            assert forall|i: int| 0 <= i < after.len() implies (
            #[trigger] after[i]).collection.well_formed() by {
                if i != at {
                    assert(listed(before)[i].collection.well_formed());
                }
            }
            lemma_store_is_well_formed(after);
        }
        self.entries = entries;
        Ok(())
    }

    /// The collection of a name, if there is one.
    pub fn get_collection(&self, name: &str) -> (collection: Option<&Collection>)
        ensures
            match collection {
                Some(c) => found(self@, name@) == Some(c@) && c@.well_formed(),
                None => found(self@, name@) == None::<CollectionView>,
            },
    {
        proof {
            use_type_invariant(self);
        }
        let wanted = name.to_owned();
        match self.position(&wanted) {
            Some(at) => {
                proof {
                    lemma_store_at(listed(self.entries@), at as int);
                }
                Some(&self.entries[at].1)
            },
            None => None,
        }
    }

    /// The names of all collections, each once.
    pub fn collection_names(&self) -> (names: Vec<String>)
        ensures
            forall|name: Seq<char>|
                self@.contains_key(name) <==> exists|i: int|
                    0 <= i < names@.len() && (#[trigger] names@[i])@ == name,
            forall|i: int, j: int|
                0 <= i < j < names@.len() ==> (#[trigger] names@[i])@ != (#[trigger] names@[j])@,
    {
        proof {
            use_type_invariant(self);
        }
        let mut names: Vec<String> = Vec::new();
        let mut i: usize = 0;
        while i < self.entries.len()
            invariant
                i <= self.entries@.len(),
                names@.len() == i,
                forall|j: int| 0 <= j < i ==> (#[trigger] names@[j])@ == self.entries@[j].0@,
            decreases self.entries@.len() - i,
        {
            names.push(self.entries[i].0.clone());
            i += 1;
        }
        proof {
            assert forall|name: Seq<char>| self@.contains_key(name) implies exists|i: int|
                0 <= i < names@.len() && (#[trigger] names@[i])@ == name by {
                let at = slot(listed(self.entries@), name);
                assert(listed(self.entries@)[at].name == name);
                assert(names@[at]@ == name);
            }
            assert forall|name: Seq<char>|
                (exists|i: int|
                    0 <= i < names@.len() && (#[trigger] names@[i])@ == name) implies self@.contains_key(
                name,
            ) by {
                let at = choose|i: int| 0 <= i < names@.len() && (#[trigger] names@[i])@ == name;
                assert(listed(self.entries@)[at].name == name);
            }
            assert forall|i: int, j: int| 0 <= i < j < names@.len() implies (#[trigger] names@[i])@
                != (#[trigger] names@[j])@ by {
                assert(listed(self.entries@)[i].name != listed(self.entries@)[j].name);
            }
        }
        names
    }
}

} // verus!

use vstd::prelude::*;

use crate::bitmaps::Bitmap;
use crate::bitmaps::bitmap_clone;
use crate::bitmaps::bits_of;
use crate::bitmaps::bitmap_subset;
use crate::bitmaps::is_projection;
use crate::bitmaps::spec_projection;
use crate::id_generator::IdGenerator;
use crate::similarity::pair_lt;
use crate::similarity::prefers;
use crate::similarity::spec_rank;
use crate::metadata::MetaObject;
use crate::metadata::MetaVal;
use crate::metadata::clone_meta_option;
use crate::metadata::meta_object_view;
use vstd::pervasive::VecAdditionalExecFns;

verus! {

/// The distance metric of a collection. Under `Euclidean` a smaller score
/// is more similar; under `Cosine` and `DotProduct` a larger score is.
#[derive(Clone, Copy, PartialEq, Eq, Structural, Debug)]
pub enum Distance {
    Euclidean,
    Cosine,
    DotProduct,
}

/// The error kinds that mutations and queries on the store report.
#[derive(Clone, Copy, PartialEq, Eq, Structural, Debug)]
pub enum DbError {
    /// A collection with the requested name already exists.
    UniqueViolation,
    /// The named collection, or the addressed embedding, does not exist.
    NotFound,
    /// A vector's length differs from its collection's dimension.
    DimensionMismatch,
}

/// A stored record: a unique id, a dense vector carried as the bit
/// patterns of its 32-bit IEEE-754 components, optional metadata, and the
/// presence bitmap derived from the metadata.
pub struct Embedding {
    pub id: u64,
    pub vector: Vec<u32>,
    pub metadata: Option<MetaObject>,
    pub bitmap: Bitmap,
}

/// The mathematical model of a stored record.
pub struct EmbeddingView {
    pub id: u64,
    pub vector: Seq<u32>,
    pub metadata: Option<Seq<(Seq<char>, MetaVal)>>,
    pub bitmap: Seq<bool>,
}

impl View for Embedding {
    type V = EmbeddingView;

    open spec fn view(&self) -> EmbeddingView {
        EmbeddingView {
            id: self.id,
            vector: self.vector@,
            metadata: meta_object_view(self.metadata),
            bitmap: bits_of(self.bitmap),
        }
    }
}

impl EmbeddingView {
    /// A record is well formed for its collection's schema when its vector
    /// has the declared dimension and its bitmap is exactly the projection
    /// of its metadata onto the declared field order.
    pub open spec fn wf(self, dimension: nat, fields: Seq<Seq<char>>) -> bool {
        &&& self.vector.len() == dimension
        &&& is_projection(self.bitmap, self.metadata, fields)
        &&& 1 <= self.id
    }
}

/// A named container of embeddings sharing a dimension, a distance metric
/// and a declared metadata field order.
pub struct Collection {
    pub name: String,
    pub dimension: usize,
    pub distance: Distance,
    pub embeddings: Vec<Embedding>,
    pub metadata_fields: Vec<String>,
}

/// The mathematical model of a collection.
pub struct CollectionView {
    pub name: Seq<char>,
    pub dimension: nat,
    pub distance: Distance,
    pub embeddings: Seq<EmbeddingView>,
    pub metadata_fields: Seq<Seq<char>>,
}

impl View for Collection {
    type V = CollectionView;

    open spec fn view(&self) -> CollectionView {
        CollectionView {
            name: self.name@,
            dimension: self.dimension as nat,
            distance: self.distance,
            embeddings: Seq::new(self.embeddings@.len(), |i: int| self.embeddings@[i]@),
            metadata_fields: self.metadata_fields.deep_view(),
        }
    }
}

impl CollectionView {
    /// Every record fits the schema, and ids are unique within the collection.
    pub open spec fn wf(self) -> bool {
        &&& forall|i: int|
            0 <= i < self.embeddings.len() ==> (#[trigger] self.embeddings[i]).wf(
                self.dimension,
                self.metadata_fields,
            )
        &&& forall|i: int, j: int|
            0 <= i < j < self.embeddings.len() ==> self.embeddings[i].id != self.embeddings[j].id
    }

    /// Whether some record carries id `id`.
    pub open spec fn has_id(self, id: u64) -> bool {
        exists|i: int| 0 <= i < self.embeddings.len() && self.embeddings[i].id == id
    }

    /// The position of the record carrying id `id`; meaningful only when
    /// `has_id(id)` holds, and unique under `wf()`.
    pub open spec fn index_of_id(self, id: u64) -> int {
        choose|i: int| 0 <= i < self.embeddings.len() && self.embeddings[i].id == id
    }
}

/// One search hit: the reported score, carried as the bit pattern of a
/// 32-bit IEEE-754 float, and a copy of the matching record.
pub struct SimilarityResult {
    pub score: u32,
    pub embedding: Embedding,
}

/// The store: a list of collections with unique names, and the generator
/// that stamps every inserted record with a fresh id.
pub struct Db {
    pub collections: Vec<Collection>,
    pub id_generator: IdGenerator,
}

/// The mathematical model of the store.
pub struct DbView {
    pub collections: Seq<CollectionView>,
    pub next_id: u64,
}

impl View for Db {
    type V = DbView;

    open spec fn view(&self) -> DbView {
        DbView {
            collections: Seq::new(self.collections@.len(), |i: int| self.collections@[i]@),
            next_id: self.id_generator.counter,
        }
    }
}

impl DbView {
    /// Collections are well formed with unique names; every stored id was
    /// issued before `next_id` and no id appears twice anywhere.
    pub open spec fn wf(self) -> bool {
        &&& forall|i: int|
            0 <= i < self.collections.len() ==> (#[trigger] self.collections[i]).wf()
        &&& forall|i: int, j: int|
            0 <= i < j < self.collections.len() ==> self.collections[i].name
                != self.collections[j].name
        &&& 1 <= self.next_id
        &&& forall|i: int, k: int|
            0 <= i < self.collections.len() && 0 <= k < self.collections[i].embeddings.len() ==> (
            #[trigger] self.collections[i].embeddings[k]).id < self.next_id
        &&& forall|i1: int, k1: int, i2: int, k2: int|
            0 <= i1 < i2 < self.collections.len() && 0 <= k1
                < self.collections[i1].embeddings.len() && 0 <= k2
                < self.collections[i2].embeddings.len() ==> (
            #[trigger] self.collections[i1].embeddings[k1]).id != (
            #[trigger] self.collections[i2].embeddings[k2]).id
    }

    /// Whether a collection of this name exists.
    pub open spec fn has_collection(self, name: Seq<char>) -> bool {
        exists|i: int| 0 <= i < self.collections.len() && self.collections[i].name == name
    }

    /// The position of the collection of this name; meaningful only when
    /// `has_collection(name)` holds, and unique under `wf()`.
    pub open spec fn collection_index(self, name: Seq<char>) -> int {
        choose|i: int| 0 <= i < self.collections.len() && self.collections[i].name == name
    }

    /// The collection of this name.
    pub open spec fn collection_named(self, name: Seq<char>) -> CollectionView {
        self.collections[self.collection_index(name)]
    }
}

impl Db {
    /// An empty store whose first issued id will be 1.
    pub fn new() -> (r: Db)
        ensures
            r@.wf(),
            r@.collections =~= Seq::<CollectionView>::empty(),
            r@.next_id == 1,
    {
        Db { collections: Vec::new(), id_generator: IdGenerator::new(1) }
    }

    /// The position of the collection named `name`, if any.
    fn find_collection(&self, name: &str) -> (r: Option<usize>)
        ensures
            match r {
                Some(i) => 0 <= i < self@.collections.len() && self@.collections[i as int].name
                    == name@ && self@.has_collection(name@),
                None => !self@.has_collection(name@),
            },
    {
        let key: String = name.to_owned();
        let n = self.collections.len();
        let mut i: usize = 0;
        while i < n
            invariant
                n == self.collections@.len(),
                0 <= i <= n,
                key@ == name@,
                forall|j: int| 0 <= j < i ==> self@.collections[j].name != name@,
            decreases n - i,
        {
            if self.collections[i].name == key {
                return Some(i);
            }
            i = i + 1;
        }
        None
    }

    /// Creates an empty collection under a fresh name, or reports
    /// `UniqueViolation` (leaving the store unchanged) when the name is
    /// taken. On success the created collection is also returned.
    pub fn create_collection(
        &mut self,
        name: String,
        dimension: usize,
        distance: Distance,
        metadata_fields: Vec<String>,
    ) -> (r: Result<Collection, DbError>)
        requires
            old(self)@.wf(),
        ensures
            final(self)@.wf(),
            old(self)@.has_collection(name@) ==> r == Err::<Collection, DbError>(
                DbError::UniqueViolation,
            ) && final(self)@ == old(self)@,
            !old(self)@.has_collection(name@) ==> {
                &&& final(self)@.collections == old(self)@.collections.push(
                    CollectionView {
                        name: name@,
                        dimension: dimension as nat,
                        distance,
                        embeddings: Seq::empty(),
                        metadata_fields: metadata_fields.deep_view(),
                    },
                )
                &&& final(self)@.next_id == old(self)@.next_id
                &&& (r matches Ok(c) && c@ == final(self)@.collections.last())
            },
    {
        if self.find_collection(name.as_str()).is_some() {
            return Err(DbError::UniqueViolation);
        }
        let returned = Collection {
            name: name.clone(),
            dimension,
            distance,
            embeddings: Vec::new(),
            metadata_fields: clone_strings(&metadata_fields),
        };
        let collection = Collection {
            name,
            dimension,
            distance,
            embeddings: Vec::new(),
            metadata_fields,
        };
        let ghost pre = self@;
        let ghost cv = collection@;
        self.collections.push(collection);
        proof {
            assert(self@.collections =~= pre.collections.push(cv));
            assert(cv.embeddings =~= Seq::<EmbeddingView>::empty());
            assert forall|i: int| 0 <= i < self@.collections.len() implies (
            #[trigger] self@.collections[i]).wf() by {
                if i < pre.collections.len() {
                    assert(pre.collections[i].wf());
                }
            }
            assert(returned@ == self@.collections.last());
        }
        Ok(returned)
    }

    /// Removes the named collection and every record in it, or reports
    /// `NotFound` (leaving the store unchanged) when no such name exists.
    pub fn delete_collection(&mut self, name: &str) -> (r: Result<(), DbError>)
        requires
            old(self)@.wf(),
        ensures
            final(self)@.wf(),
            !old(self)@.has_collection(name@) ==> r == Err::<(), DbError>(DbError::NotFound)
                && final(self)@ == old(self)@,
            old(self)@.has_collection(name@) ==> {
                &&& r == Ok::<(), DbError>(())
                &&& final(self)@.collections == old(self)@.collections.remove(
                    old(self)@.collection_index(name@),
                )
                &&& final(self)@.next_id == old(self)@.next_id
                &&& !final(self)@.has_collection(name@)
            },
    {
        match self.find_collection(name) {
            None => Err(DbError::NotFound),
            Some(i) => {
                let ghost pre = self@;
                let ghost idx = i as int;
                self.collections.remove(i);
                proof {
                    assert(pre.collection_index(name@) == idx) by {
                        let j = pre.collection_index(name@);
                        assert(0 <= j < pre.collections.len() && pre.collections[j].name == name@);
                    }
                    assert(self@.collections =~= pre.collections.remove(idx));
                    lemma_wf_remove(pre, idx);
                    assert forall|j: int|
                        0 <= j < self@.collections.len() implies self@.collections[j].name
                        != name@ by {
                        if j < idx {
                            assert(pre.collections[j].name != pre.collections[idx].name);
                        } else {
                            assert(pre.collections[j + 1].name != pre.collections[idx].name);
                        }
                    }
                }
                Ok(())
            },
        }
    }

    /// A read-only handle to the named collection; absence is not an error.
    pub fn get_collection(&self, name: &str) -> (r: Option<&Collection>)
        requires
            self@.wf(),
        ensures
            match r {
                Some(c) => self@.has_collection(name@) && c@ == self@.collection_named(name@),
                None => !self@.has_collection(name@),
            },
    {
        match self.find_collection(name) {
            Some(i) => {
                proof {
                    let j = self@.collection_index(name@);
                    assert(0 <= j < self@.collections.len() && self@.collections[j].name == name@);
                    assert(j == i as int);
                }
                Some(&self.collections[i])
            },
            None => None,
        }
    }
}

impl Clone for Embedding {
    /// A deep copy: the model of the copy equals the model of the original.
    fn clone(&self) -> (r: Self)
        ensures
            r@ == self@,
    {
        Embedding {
            id: self.id,
            vector: clone_vec_u32(&self.vector),
            metadata: clone_meta_option(&self.metadata),
            bitmap: bitmap_clone(&self.bitmap),
        }
    }
}

impl Collection {
    /// The position of the record carrying `id`, if any.
    fn find_embedding(&self, id: u64) -> (r: Option<usize>)
        ensures
            match r {
                Some(p) => 0 <= p < self@.embeddings.len() && self@.embeddings[p as int].id == id
                    && self@.has_id(id),
                None => !self@.has_id(id),
            },
    {
        let n = self.embeddings.len();
        let mut p: usize = 0;
        while p < n
            invariant
                n == self.embeddings@.len(),
                0 <= p <= n,
                forall|j: int| 0 <= j < p ==> self@.embeddings[j].id != id,
            decreases n - p,
        {
            if self.embeddings[p].id == id {
                return Some(p);
            }
            p = p + 1;
        }
        None
    }
}

impl Db {
    /// Inserts a record into the named collection. The input's id and
    /// bitmap are ignored: a fresh id is stamped on and the bitmap is
    /// projected from the metadata. Reports `NotFound` when the collection
    /// is missing and `DimensionMismatch` when the vector's length differs
    /// from the collection's dimension; on error the store is unchanged.
    /// On success the assigned id is returned. Vectors of a cosine
    /// collection are expected pre-normalized by the caller, since the
    /// store never computes with the float values it carries.
    pub fn add_embedding(&mut self, collection_name: &str, embedding: Embedding) -> (r: Result<
        u64,
        DbError,
    >)
        requires
            old(self)@.wf(),
            old(self)@.next_id < u64::MAX,
        ensures
            final(self)@.wf(),
            !old(self)@.has_collection(collection_name@) ==> r == Err::<u64, DbError>(
                DbError::NotFound,
            ) && final(self)@ == old(self)@,
            old(self)@.has_collection(collection_name@) && embedding@.vector.len() != old(self)@.collection_named(collection_name@).dimension ==> r == Err::<u64, DbError>(
                DbError::DimensionMismatch,
            ) && final(self)@ == old(self)@,
            old(self)@.has_collection(collection_name@) && embedding@.vector.len() == old(self)@.collection_named(collection_name@).dimension ==> {
                let ci = old(self)@.collection_index(collection_name@);
                let c0 = old(self)@.collections[ci];
                let c1 = final(self)@.collections[ci];
                &&& r == Ok::<u64, DbError>(old(self)@.next_id)
                &&& final(self)@.next_id == old(self)@.next_id + 1
                &&& final(self)@.collections == old(self)@.collections.update(ci, c1)
                &&& c1.name == c0.name
                &&& c1.dimension == c0.dimension
                &&& c1.distance == c0.distance
                &&& c1.metadata_fields == c0.metadata_fields
                &&& c1.embeddings == c0.embeddings.push(c1.embeddings.last())
                &&& c1.embeddings.last().id == old(self)@.next_id
                &&& c1.embeddings.last().vector == embedding@.vector
                &&& c1.embeddings.last().metadata == embedding@.metadata
                &&& is_projection(
                    c1.embeddings.last().bitmap,
                    embedding@.metadata,
                    c0.metadata_fields,
                )
            },
    {
        let i = match self.find_collection(collection_name) {
            None => {
                return Err(DbError::NotFound);
            },
            Some(i) => i,
        };
        if embedding.vector.len() != self.collections[i].dimension {
            return Err(DbError::DimensionMismatch);
        }
        let ghost pre = self@;
        let id = self.id_generator.next_id();
        let Embedding { id: _, vector, metadata, bitmap: _ } = embedding;
        let c = &mut self.collections[i];
        let bitmap = crate::bitmaps::generate_bitmap_from_metadata(&metadata, &c.metadata_fields);
        let ghost cmid = *c;
        c.embeddings.push(Embedding { id, vector, metadata, bitmap });
        proof {
            let ci = pre.collection_index(collection_name@);
            assert(0 <= ci < pre.collections.len() && pre.collections[ci].name == collection_name@);
            assert(ci == i as int);
            let c0 = pre.collections[i as int];
            let c1 = self@.collections[i as int];
            assert(cmid@ == c0);
            assert(c1.embeddings =~= c0.embeddings.push(c1.embeddings.last()));
            assert(self@.collections =~= pre.collections.update(i as int, c1));
            lemma_wf_add(pre, i as int, c1.embeddings.last());
            assert(final(self)@ == DbView {
                collections: pre.collections.update(
                    i as int,
                    CollectionView { embeddings: c0.embeddings.push(c1.embeddings.last()), ..c0 },
                ),
                next_id: (pre.next_id + 1) as u64,
            });
        }
        Ok(id)
    }

    /// Replaces the vector, metadata and bitmap of the record carrying the
    /// input's id; the id is preserved. Reports `NotFound` when the
    /// collection or the id is missing, then `DimensionMismatch` when the
    /// new vector's length differs from the collection's dimension; on
    /// error the store is unchanged. As with insertion, vectors of a
    /// cosine collection are expected pre-normalized by the caller.
    pub fn update_embedding(&mut self, collection_name: &str, updated_embedding: Embedding) -> (r:
        Result<(), DbError>)
        requires
            old(self)@.wf(),
        ensures
            final(self)@.wf(),
            !(old(self)@.has_collection(collection_name@) && old(self)@.collection_named(
                collection_name@,
            ).has_id(updated_embedding.id)) ==> r == Err::<(), DbError>(DbError::NotFound) && final(self)@ == old(self)@,
            old(self)@.has_collection(collection_name@) && old(self)@.collection_named(
                collection_name@,
            ).has_id(updated_embedding.id) && updated_embedding@.vector.len() != old(self)@.collection_named(collection_name@).dimension ==> r == Err::<(), DbError>(
                DbError::DimensionMismatch,
            ) && final(self)@ == old(self)@,
            old(self)@.has_collection(collection_name@) && old(self)@.collection_named(
                collection_name@,
            ).has_id(updated_embedding.id) && updated_embedding@.vector.len() == old(self)@.collection_named(collection_name@).dimension ==> {
                let ci = old(self)@.collection_index(collection_name@);
                let c0 = old(self)@.collections[ci];
                let pos = c0.index_of_id(updated_embedding.id);
                let c1 = final(self)@.collections[ci];
                &&& r == Ok::<(), DbError>(())
                &&& final(self)@.next_id == old(self)@.next_id
                &&& final(self)@.collections == old(self)@.collections.update(ci, c1)
                &&& c1.name == c0.name
                &&& c1.dimension == c0.dimension
                &&& c1.distance == c0.distance
                &&& c1.metadata_fields == c0.metadata_fields
                &&& c1.embeddings == c0.embeddings.update(pos, c1.embeddings[pos])
                &&& c1.embeddings[pos].id == updated_embedding.id
                &&& c1.embeddings[pos].vector == updated_embedding@.vector
                &&& c1.embeddings[pos].metadata == updated_embedding@.metadata
                &&& is_projection(
                    c1.embeddings[pos].bitmap,
                    updated_embedding@.metadata,
                    c0.metadata_fields,
                )
            },
    {
        let i = match self.find_collection(collection_name) {
            None => {
                return Err(DbError::NotFound);
            },
            Some(i) => i,
        };
        let pos = match self.collections[i].find_embedding(updated_embedding.id) {
            None => {
                return Err(DbError::NotFound);
            },
            Some(p) => p,
        };
        if updated_embedding.vector.len() != self.collections[i].dimension {
            return Err(DbError::DimensionMismatch);
        }
        let ghost pre = self@;
        let Embedding { id, vector, metadata, bitmap: _ } = updated_embedding;
        let c = &mut self.collections[i];
        let bitmap = crate::bitmaps::generate_bitmap_from_metadata(&metadata, &c.metadata_fields);
        let ghost cmid = *c;
        c.embeddings.set(pos, Embedding { id, vector, metadata, bitmap });
        proof {
            let ci = pre.collection_index(collection_name@);
            assert(0 <= ci < pre.collections.len() && pre.collections[ci].name == collection_name@);
            assert(ci == i as int);
            let c0 = pre.collections[i as int];
            assert(cmid@ == c0);
            assert(c0.index_of_id(id) == pos as int) by {
                let q = c0.index_of_id(id);
                assert(0 <= q < c0.embeddings.len() && c0.embeddings[q].id == id);
            }
            let c1 = self@.collections[i as int];
            assert(c1.embeddings =~= c0.embeddings.update(pos as int, c1.embeddings[pos as int]));
            assert(self@.collections =~= pre.collections.update(i as int, c1));
            lemma_wf_update(pre, i as int, pos as int, c1.embeddings[pos as int]);
            assert(final(self)@ == DbView {
                collections: pre.collections.update(
                    i as int,
                    CollectionView {
                        embeddings: c0.embeddings.update(pos as int, c1.embeddings[pos as int]),
                        ..c0
                    },
                ),
                next_id: pre.next_id,
            });
        }
        Ok(())
    }

    /// Removes the record carrying `id` from the named collection; the
    /// storage order of the remaining records is preserved. Reports
    /// `NotFound`, leaving the store unchanged, when the collection or the
    /// id is missing.
    pub fn remove_embedding(&mut self, collection_name: &str, id: u64) -> (r: Result<(), DbError>)
        requires
            old(self)@.wf(),
        ensures
            final(self)@.wf(),
            !(old(self)@.has_collection(collection_name@) && old(self)@.collection_named(
                collection_name@,
            ).has_id(id)) ==> r == Err::<(), DbError>(DbError::NotFound) && final(self)@ == old(self)@,
            old(self)@.has_collection(collection_name@) && old(self)@.collection_named(
                collection_name@,
            ).has_id(id) ==> {
                let ci = old(self)@.collection_index(collection_name@);
                let c0 = old(self)@.collections[ci];
                let pos = c0.index_of_id(id);
                let c1 = final(self)@.collections[ci];
                &&& r == Ok::<(), DbError>(())
                &&& final(self)@.next_id == old(self)@.next_id
                &&& final(self)@.collections == old(self)@.collections.update(ci, c1)
                &&& c1.name == c0.name
                &&& c1.dimension == c0.dimension
                &&& c1.distance == c0.distance
                &&& c1.metadata_fields == c0.metadata_fields
                &&& c1.embeddings == c0.embeddings.remove(pos)
            },
    {
        let i = match self.find_collection(collection_name) {
            None => {
                return Err(DbError::NotFound);
            },
            Some(i) => i,
        };
        let pos = match self.collections[i].find_embedding(id) {
            None => {
                return Err(DbError::NotFound);
            },
            Some(p) => p,
        };
        let ghost pre = self@;
        let c = &mut self.collections[i];
        let ghost cmid = *c;
        c.embeddings.remove(pos);
        proof {
            let ci = pre.collection_index(collection_name@);
            assert(0 <= ci < pre.collections.len() && pre.collections[ci].name == collection_name@);
            assert(ci == i as int);
            let c0 = pre.collections[i as int];
            assert(cmid@ == c0);
            assert(c0.index_of_id(id) == pos as int) by {
                let q = c0.index_of_id(id);
                assert(0 <= q < c0.embeddings.len() && c0.embeddings[q].id == id);
            }
            let c1 = self@.collections[i as int];
            assert(c1.embeddings =~= c0.embeddings.remove(pos as int));
            assert(self@.collections =~= pre.collections.update(i as int, c1));
            lemma_wf_remove_embedding(pre, i as int, pos as int);
            assert(final(self)@ == DbView {
                collections: pre.collections.update(
                    i as int,
                    CollectionView { embeddings: c0.embeddings.remove(pos as int), ..c0 },
                ),
                next_id: pre.next_id,
            });
        }
        Ok(())
    }
}

/// Whether the record at position `j` survives an optional presence
/// filter: with no filter every record survives; with a filter, the
/// record's bitmap must cover every bit the filter sets.
pub open spec fn admit_of(c: CollectionView, filt: Option<Seq<bool>>, j: int) -> bool {
    match filt {
        None => true,
        Some(f) => bitmap_subset(c.embeddings[j].bitmap, f),
    }
}

/// What a top-k search returns: `sel` lists the storage positions of the
/// retained candidates, best first. The retained candidates all survive
/// the filter; they are strictly ordered by rank with earlier-stored
/// records ahead on ties; at most `k` and at most one per record are
/// retained; everything admitted but not retained is ranked behind every
/// retained record; and only a full selection leaves anything out.
pub open spec fn is_top_k(
    metric: Distance,
    scores: Seq<u32>,
    c: CollectionView,
    filt: Option<Seq<bool>>,
    k: int,
    sel: Seq<int>,
) -> bool {
    &&& forall|m: int|
        0 <= m < sel.len() ==> 0 <= #[trigger] sel[m] < scores.len() && admit_of(c, filt, sel[m])
    &&& forall|m1: int, m2: int|
        0 <= m1 < m2 < sel.len() ==> prefers(metric, scores, sel[m1], sel[m2])
    &&& sel.len() <= k
    &&& sel.len() <= scores.len()
    &&& forall|j: int|
        0 <= j < scores.len() && admit_of(c, filt, j) && !sel.contains(j) ==> forall|m: int|
            0 <= m < sel.len() ==> prefers(metric, scores, #[trigger] sel[m], j)
    &&& sel.len() < k ==> forall|j: int|
        0 <= j < scores.len() && admit_of(c, filt, j) ==> sel.contains(j)
}

/// What a filter-only search returns: the first `k` surviving records in
/// storage order, each reported with score zero by the caller.
pub open spec fn is_first_k(c: CollectionView, filt: Seq<bool>, k: int, sel: Seq<int>) -> bool {
    &&& forall|m: int|
        0 <= m < sel.len() ==> 0 <= #[trigger] sel[m] < c.embeddings.len() && bitmap_subset(
            c.embeddings[sel[m]].bitmap,
            filt,
        )
    &&& forall|m1: int, m2: int| 0 <= m1 < m2 < sel.len() ==> sel[m1] < sel[m2]
    &&& sel.len() <= k
    &&& sel.len() <= c.embeddings.len()
    &&& forall|j: int|
        0 <= j < c.embeddings.len() && bitmap_subset(c.embeddings[j].bitmap, filt)
            && !sel.contains(j) ==> forall|m: int| 0 <= m < sel.len() ==> #[trigger] sel[m] < j
    &&& sel.len() < k ==> forall|j: int|
        0 <= j < c.embeddings.len() && bitmap_subset(c.embeddings[j].bitmap, filt)
            ==> sel.contains(j)
}

/// The rendered hits follow the selection: hit `m` reports the score of
/// the record at position `sel[m]` and carries a copy of that record.
pub open spec fn results_match(
    r: Seq<SimilarityResult>,
    sel: Seq<int>,
    c: CollectionView,
    scores: Seq<u32>,
) -> bool {
    &&& r.len() == sel.len()
    &&& forall|m: int|
        0 <= m < r.len() ==> (#[trigger] r[m]).score == scores[sel[m]] && r[m].embedding@
            == c.embeddings[sel[m]]
}

/// The rendered hits of a filter-only search: score zero (the bit pattern
/// of 0.0) and a copy of the record at each selected position.
pub open spec fn filter_results_match(
    r: Seq<SimilarityResult>,
    sel: Seq<int>,
    c: CollectionView,
) -> bool {
    &&& r.len() == sel.len()
    &&& forall|m: int|
        0 <= m < r.len() ==> (#[trigger] r[m]).score == 0 && r[m].embedding@
            == c.embeddings[sel[m]]
}

impl Collection {
    /// The shared top-k scan: ranks every surviving candidate under this
    /// collection's metric and retains the `k` best through the bounded
    /// selection buffer.
    fn top_k_scored(&self, scores: &Vec<u32>, filter_bitmap: Option<&Bitmap>, k: usize) -> (r: Vec<
        SimilarityResult,
    >)
        requires
            scores@.len() == self@.embeddings.len(),
        ensures
            exists|sel: Seq<int>|
                #![auto]
                is_top_k(
                    self@.distance,
                    scores@,
                    self@,
                    spec_filter_view(filter_bitmap),
                    k as int,
                    sel,
                ) && results_match(r@, sel, self@, scores@),
    {
        let ghost fv = spec_filter_view(filter_bitmap);
        let metric = self.distance;
        let n = self.embeddings.len();
        let mut cand: Vec<(u32, usize)> = Vec::new();
        let mut i: usize = 0;
        while i < n
            invariant
                n == self.embeddings@.len(),
                scores@.len() == n,
                metric == self@.distance,
                fv == spec_filter_view(filter_bitmap),
                0 <= i <= n,
                cand@.len() <= i,
                forall|q: int|
                    0 <= q < cand@.len() ==> 0 <= (#[trigger] cand@[q]).1 < i && admit_of(
                        self@,
                        fv,
                        cand@[q].1 as int,
                    ) && cand@[q].0 == spec_rank(metric, scores@[cand@[q].1 as int]),
                forall|q1: int, q2: int| 0 <= q1 < q2 < cand@.len() ==> cand@[q1].1 < cand@[q2].1,
                forall|j: int|
                    0 <= j < i && admit_of(self@, fv, j) ==> cand@.contains(
                        (spec_rank(metric, scores@[j]), j as usize),
                    ),
            decreases n - i,
        {
            let admitted = match filter_bitmap {
                None => true,
                Some(f) => crate::bitmaps::bitmap_matches(&self.embeddings[i].bitmap, f),
            };
            if admitted {
                let rk = crate::similarity::rank_of(metric, scores[i]);
                let ghost pre = cand@;
                cand.push((rk, i));
                proof {
                    assert(cand@[pre.len() as int] == (
                        spec_rank(metric, scores@[i as int]),
                        i as usize,
                    ));
                    assert forall|j: int| 0 <= j < i + 1 && admit_of(self@, fv, j) implies cand@
                        .contains((spec_rank(metric, scores@[j]), j as usize)) by {
                        if j < i {
                            let q = choose|q: int|
                                0 <= q < pre.len() && pre[q] == (
                                    spec_rank(metric, scores@[j]),
                                    j as usize,
                                );
                            assert(cand@[q] == (spec_rank(metric, scores@[j]), j as usize));
                        }
                    }
                }
            } else {
                proof {
                    assert(self.embeddings@[i as int]@ == self@.embeddings[i as int]);
                }
            }
            i = i + 1;
        }
        let best = crate::similarity::select_top_k(&cand, k);
        let ghost sel = Seq::new(best@.len(), |m: int| best@[m].1 as int);
        proof {
            assert forall|m: int| 0 <= m < best@.len() implies 0 <= (#[trigger] best@[m]).1 < n
                && admit_of(self@, fv, best@[m].1 as int) && best@[m].0 == spec_rank(
                metric,
                scores@[best@[m].1 as int],
            ) by {
                assert(cand@.contains(best@[m]));
                let q = choose|q: int| 0 <= q < cand@.len() && cand@[q] == best@[m];
                assert(cand@[q].1 < n);
            }
            assert(is_top_k(metric, scores@, self@, fv, k as int, sel)) by {
                assert forall|m1: int, m2: int| 0 <= m1 < m2 < sel.len() implies prefers(
                    metric,
                    scores@,
                    sel[m1],
                    sel[m2],
                ) by {
                    assert(pair_lt(best@[m1], best@[m2]));
                }
                assert forall|j: int|
                    0 <= j < scores@.len() && admit_of(self@, fv, j) && !sel.contains(j) implies
                    forall|m: int|
                        0 <= m < sel.len() ==> prefers(metric, scores@, #[trigger] sel[m], j) by {
                    let cj = (spec_rank(metric, scores@[j]), j as usize);
                    assert(cand@.contains(cj));
                    assert(!best@.contains(cj)) by {
                        if best@.contains(cj) {
                            let p = choose|p: int| 0 <= p < best@.len() && best@[p] == cj;
                            assert(sel[p] == j);
                            assert(sel.contains(j));
                        }
                    }
                    let q = choose|q: int| 0 <= q < cand@.len() && cand@[q] == cj;
                    assert forall|m: int| 0 <= m < sel.len() implies prefers(
                        metric,
                        scores@,
                        #[trigger] sel[m],
                        j,
                    ) by {
                        assert(pair_lt(best@[m], cand@[q]));
                    }
                }
                if sel.len() < k {
                    assert forall|j: int|
                        0 <= j < scores@.len() && admit_of(self@, fv, j) implies sel.contains(
                        j,
                    ) by {
                        let cj = (spec_rank(metric, scores@[j]), j as usize);
                        assert(cand@.contains(cj));
                        let q = choose|q: int| 0 <= q < cand@.len() && cand@[q] == cj;
                        assert(best@.contains(cand@[q]));
                        let p = choose|p: int| 0 <= p < best@.len() && best@[p] == cj;
                        assert(sel[p] == j);
                    }
                }
            }
        }
        let mut out: Vec<SimilarityResult> = Vec::new();
        let mut m: usize = 0;
        while m < best.len()
            invariant
                n == self.embeddings@.len(),
                scores@.len() == n,
                0 <= m <= best@.len(),
                forall|p: int|
                    0 <= p < best@.len() ==> 0 <= (#[trigger] best@[p]).1 < n,
                out@.len() == m,
                forall|p: int|
                    0 <= p < m ==> (#[trigger] out@[p]).score == scores@[best@[p].1 as int]
                        && out@[p].embedding@ == self@.embeddings[best@[p].1 as int],
            decreases best@.len() - m,
        {
            let idx = best[m].1;
            let e = self.embeddings[idx].clone();
            proof {
                assert(self.embeddings@[idx as int]@ == self@.embeddings[idx as int]);
            }
            out.push(SimilarityResult { score: scores[idx], embedding: e });
            m = m + 1;
        }
        proof {
            assert(results_match(out@, sel, self@, scores@));
        }
        out
    }

    /// Top-k by score alone: every record is a candidate. The caller
    /// supplies one score per record, in storage order, as the bit
    /// patterns of the 32-bit floats its distance kernel produced; the
    /// collection ranks them under its own metric.
    pub fn get_similarity(&self, scores: &Vec<u32>, k: usize) -> (r: Vec<SimilarityResult>)
        requires
            scores@.len() == self@.embeddings.len(),
        ensures
            exists|sel: Seq<int>|
                #![auto]
                is_top_k(self@.distance, scores@, self@, None, k as int, sel) && results_match(
                    r@,
                    sel,
                    self@,
                    scores@,
                ),
    {
        self.top_k_scored(scores, None, k)
    }

    /// Top-k among the records whose bitmap covers the filter's bits.
    pub fn get_similarity_hybrid(&self, scores: &Vec<u32>, filter_bitmap: Bitmap, k: usize) -> (r:
        Vec<SimilarityResult>)
        requires
            scores@.len() == self@.embeddings.len(),
        ensures
            exists|sel: Seq<int>|
                #![auto]
                is_top_k(
                    self@.distance,
                    scores@,
                    self@,
                    Some(bits_of(filter_bitmap)),
                    k as int,
                    sel,
                ) && results_match(r@, sel, self@, scores@),
    {
        self.top_k_scored(scores, Some(&filter_bitmap), k)
    }

    /// The first `k` records, in storage order, whose bitmap covers the
    /// filter's bits; no distance is computed and every hit reports score
    /// zero.
    pub fn get_similarity_filters(&self, filter_bitmap: Bitmap, k: usize) -> (r: Vec<
        SimilarityResult,
    >)
        ensures
            exists|sel: Seq<int>|
                #![auto]
                is_first_k(self@, bits_of(filter_bitmap), k as int, sel) && filter_results_match(
                    r@,
                    sel,
                    self@,
                ),
    {
        let ghost fb = bits_of(filter_bitmap);
        let n = self.embeddings.len();
        let mut out: Vec<SimilarityResult> = Vec::new();
        let ghost sel = Seq::<int>::empty();
        let mut i: usize = 0;
        while i < n
            invariant
                n == self.embeddings@.len(),
                fb == bits_of(filter_bitmap),
                0 <= i <= n,
                sel.len() == out@.len(),
                sel.len() <= k,
                sel.len() <= i,
                forall|m: int|
                    0 <= m < sel.len() ==> 0 <= #[trigger] sel[m] < i && bitmap_subset(
                        self@.embeddings[sel[m]].bitmap,
                        fb,
                    ),
                forall|m1: int, m2: int| 0 <= m1 < m2 < sel.len() ==> sel[m1] < sel[m2],
                forall|j: int|
                    0 <= j < i && bitmap_subset(self@.embeddings[j].bitmap, fb) && !sel.contains(
                        j,
                    ) ==> forall|m: int| 0 <= m < sel.len() ==> #[trigger] sel[m] < j,
                sel.len() < k ==> forall|j: int|
                    0 <= j < i && bitmap_subset(self@.embeddings[j].bitmap, fb) ==> sel.contains(j),
                forall|m: int|
                    0 <= m < out@.len() ==> (#[trigger] out@[m]).score == 0 && out@[m].embedding@
                        == self@.embeddings[sel[m]],
            decreases n - i,
        {
            proof {
                assert(self.embeddings@[i as int]@ == self@.embeddings[i as int]);
            }
            if out.len() < k && crate::bitmaps::bitmap_matches(
                &self.embeddings[i].bitmap,
                &filter_bitmap,
            ) {
                let e = self.embeddings[i].clone();
                out.push(SimilarityResult { score: 0, embedding: e });
                proof {
                    let pre = sel;
                    sel = sel.push(i as int);
                    assert(sel[pre.len() as int] == i as int);
                    assert forall|j: int|
                        0 <= j < i + 1 && bitmap_subset(self@.embeddings[j].bitmap, fb)
                            && !sel.contains(j) implies forall|m: int|
                            0 <= m < sel.len() ==> #[trigger] sel[m] < j by {
                        if j < i {
                            assert(!pre.contains(j)) by {
                                if pre.contains(j) {
                                    let q = choose|q: int| 0 <= q < pre.len() && pre[q] == j;
                                    assert(sel[q] == j);
                                }
                            }
                            assert(sel.len() - 1 < k);
                            assert(pre.contains(j));
                        }
                    }
                    if sel.len() < k {
                        assert forall|j: int|
                            0 <= j < i + 1 && bitmap_subset(self@.embeddings[j].bitmap, fb) implies
                            sel.contains(j) by {
                            if j < i {
                                assert(pre.len() < k);
                                assert(pre.contains(j));
                                let q = choose|q: int| 0 <= q < pre.len() && pre[q] == j;
                                assert(sel[q] == j);
                            } else {
                                assert(sel[pre.len() as int] == j);
                            }
                        }
                    }
                }
            } else {
                proof {
                    if bitmap_subset(self@.embeddings[i as int].bitmap, fb) {
                        assert(sel.len() == k);
                    }
                }
            }
            i = i + 1;
        }
        proof {
            assert(is_first_k(self@, fb, k as int, sel));
            assert(filter_results_match(out@, sel, self@));
        }
        out
    }
}

impl Db {
    /// Top-k by score alone over the named collection. The caller supplies
    /// one score per stored record, in storage order, as 32-bit float bit
    /// patterns from its distance kernel. Reports `NotFound` when the
    /// collection is missing.
    pub fn get_similarity_vectors_only(
        &self,
        collection_name: &str,
        scores: &Vec<u32>,
        k: usize,
    ) -> (r: Result<Vec<SimilarityResult>, DbError>)
        requires
            self@.wf(),
            self@.has_collection(collection_name@) ==> scores@.len() == self@.collection_named(
                collection_name@,
            ).embeddings.len(),
        ensures
            !self@.has_collection(collection_name@) ==> r == Err::<
                Vec<SimilarityResult>,
                DbError,
            >(DbError::NotFound),
            self@.has_collection(collection_name@) ==> (r matches Ok(v) && exists|sel: Seq<int>|
                (#[trigger] is_top_k(
                    self@.collection_named(collection_name@).distance,
                    scores@,
                    self@.collection_named(collection_name@),
                    None,
                    k as int,
                    sel,
                )) && results_match(v@, sel, self@.collection_named(collection_name@), scores@)),
    {
        match self.find_collection(collection_name) {
            None => Err(DbError::NotFound),
            Some(i) => {
                proof {
                    let j = self@.collection_index(collection_name@);
                    assert(0 <= j < self@.collections.len() && self@.collections[j].name
                        == collection_name@);
                    assert(j == i as int);
                }
                Ok(self.collections[i].get_similarity(scores, k))
            },
        }
    }

    /// The first `k` records of the named collection, in storage order,
    /// whose metadata holds every key of the filter object; each hit
    /// reports score zero. Reports `NotFound` when the collection is
    /// missing.
    pub fn get_similarity_filters_only(
        &self,
        collection_name: &str,
        filters: Option<MetaObject>,
        k: usize,
    ) -> (r: Result<Vec<SimilarityResult>, DbError>)
        requires
            self@.wf(),
        ensures
            !self@.has_collection(collection_name@) ==> r == Err::<
                Vec<SimilarityResult>,
                DbError,
            >(DbError::NotFound),
            self@.has_collection(collection_name@) ==> (r matches Ok(v) && exists|sel: Seq<int>|
                (#[trigger] is_first_k(
                    self@.collection_named(collection_name@),
                    spec_projection(
                        meta_object_view(filters),
                        self@.collection_named(collection_name@).metadata_fields,
                    ),
                    k as int,
                    sel,
                )) && filter_results_match(v@, sel, self@.collection_named(collection_name@))),
    {
        match self.find_collection(collection_name) {
            None => Err(DbError::NotFound),
            Some(i) => {
                proof {
                    let j = self@.collection_index(collection_name@);
                    assert(0 <= j < self@.collections.len() && self@.collections[j].name
                        == collection_name@);
                    assert(j == i as int);
                }
                let collection = &self.collections[i];
                let ghost c = self@.collection_named(collection_name@);
                let ghost mv = meta_object_view(filters);
                let filter_bitmap = crate::bitmaps::generate_bitmap_from_filters(
                    filters,
                    &collection.metadata_fields,
                );
                let ghost fb = bits_of(filter_bitmap);
                let v = collection.get_similarity_filters(filter_bitmap, k);
                proof {
                    assert(c == collection@);
                    assert(fb == spec_projection(mv, c.metadata_fields));
                    let sel = choose|sel: Seq<int>|
                        (#[trigger] is_first_k(c, fb, k as int, sel)) && filter_results_match(
                            v@,
                            sel,
                            c,
                        );
                    assert(is_first_k(c, spec_projection(mv, c.metadata_fields), k as int, sel)
                        && filter_results_match(v@, sel, c));
                }
                Ok(v)
            },
        }
    }

    /// Top-k among the records of the named collection whose metadata
    /// holds every key of the filter object, ranked by the supplied
    /// per-record scores under the collection's metric. Reports `NotFound`
    /// when the collection is missing.
    pub fn get_similarity_hybrid(
        &self,
        collection_name: &str,
        scores: &Vec<u32>,
        filters: Option<MetaObject>,
        k: usize,
    ) -> (r: Result<Vec<SimilarityResult>, DbError>)
        requires
            self@.wf(),
            self@.has_collection(collection_name@) ==> scores@.len() == self@.collection_named(
                collection_name@,
            ).embeddings.len(),
        ensures
            !self@.has_collection(collection_name@) ==> r == Err::<
                Vec<SimilarityResult>,
                DbError,
            >(DbError::NotFound),
            self@.has_collection(collection_name@) ==> (r matches Ok(v) && exists|sel: Seq<int>|
                (#[trigger] is_top_k(
                    self@.collection_named(collection_name@).distance,
                    scores@,
                    self@.collection_named(collection_name@),
                    Some(
                        spec_projection(
                            meta_object_view(filters),
                            self@.collection_named(collection_name@).metadata_fields,
                        ),
                    ),
                    k as int,
                    sel,
                )) && results_match(v@, sel, self@.collection_named(collection_name@), scores@)),
    {
        match self.find_collection(collection_name) {
            None => Err(DbError::NotFound),
            Some(i) => {
                proof {
                    let j = self@.collection_index(collection_name@);
                    assert(0 <= j < self@.collections.len() && self@.collections[j].name
                        == collection_name@);
                    assert(j == i as int);
                }
                let collection = &self.collections[i];
                let ghost c = self@.collection_named(collection_name@);
                let ghost mv = meta_object_view(filters);
                let filter_bitmap = crate::bitmaps::generate_bitmap_from_filters(
                    filters,
                    &collection.metadata_fields,
                );
                let ghost fb = bits_of(filter_bitmap);
                let v = collection.get_similarity_hybrid(scores, filter_bitmap, k);
                proof {
                    assert(c == collection@);
                    assert(fb == spec_projection(mv, c.metadata_fields));
                    let sel = choose|sel: Seq<int>|
                        (#[trigger] is_top_k(c.distance, scores@, c, Some(fb), k as int, sel))
                            && results_match(v@, sel, c, scores@);
                    assert(is_top_k(
                        c.distance,
                        scores@,
                        c,
                        Some(spec_projection(mv, c.metadata_fields)),
                        k as int,
                        sel,
                    ) && results_match(v@, sel, c, scores@));
                }
                Ok(v)
            },
        }
    }
}

/// The bits of an optional filter bitmap.
pub open spec fn spec_filter_view(filter_bitmap: Option<&Bitmap>) -> Option<Seq<bool>> {
    match filter_bitmap {
        None => None,
        Some(f) => Some(bits_of(*f)),
    }
}

/// Inserting a freshly stamped, schema-conforming record into a
/// well-formed store leaves it well formed.
proof fn lemma_wf_add(db: DbView, idx: int, e: EmbeddingView)
    requires
        db.wf(),
        0 <= idx < db.collections.len(),
        db.next_id < u64::MAX,
        e.id == db.next_id,
        e.wf(db.collections[idx].dimension, db.collections[idx].metadata_fields),
    ensures
        (DbView {
            collections: db.collections.update(
                idx,
                CollectionView { embeddings: db.collections[idx].embeddings.push(e), ..db.collections[idx] },
            ),
            next_id: (db.next_id + 1) as u64,
        }).wf(),
{
    let c1 = CollectionView {
        embeddings: db.collections[idx].embeddings.push(e),
        ..db.collections[idx]
    };
    let post = DbView { collections: db.collections.update(idx, c1), next_id: (db.next_id + 1) as u64 };
    assert(c1.wf()) by {
        let c0 = db.collections[idx];
        assert(c0.wf());
        assert forall|i: int|
            0 <= i < c1.embeddings.len() implies (#[trigger] c1.embeddings[i]).wf(
            c1.dimension,
            c1.metadata_fields,
        ) by {
            if i < c0.embeddings.len() {
                assert(c0.embeddings[i].wf(c0.dimension, c0.metadata_fields));
            }
        }
        assert forall|i: int, j: int|
            0 <= i < j < c1.embeddings.len() implies c1.embeddings[i].id != c1.embeddings[j].id by {
            if j < c0.embeddings.len() {
                assert(c0.embeddings[i].id != c0.embeddings[j].id);
            } else {
                assert(c0.embeddings[i].id < db.next_id);
            }
        }
    }
    assert forall|i: int| 0 <= i < post.collections.len() implies (
    #[trigger] post.collections[i]).wf() by {
        if i != idx {
            assert(db.collections[i].wf());
        }
    }
    assert forall|i: int, k: int|
        0 <= i < post.collections.len() && 0 <= k < post.collections[i].embeddings.len() implies (
    #[trigger] post.collections[i].embeddings[k]).id < post.next_id by {
        if i != idx || k < db.collections[idx].embeddings.len() {
            assert(db.collections[i].embeddings[k].id < db.next_id);
        }
    }
    assert forall|i1: int, k1: int, i2: int, k2: int|
        0 <= i1 < i2 < post.collections.len() && 0 <= k1 < post.collections[i1].embeddings.len()
            && 0 <= k2 < post.collections[i2].embeddings.len() implies (
    #[trigger] post.collections[i1].embeddings[k1]).id != (
    #[trigger] post.collections[i2].embeddings[k2]).id by {
        if (i1 != idx || k1 < db.collections[idx].embeddings.len()) && (i2 != idx || k2
            < db.collections[idx].embeddings.len()) {
            assert(db.collections[i1].embeddings[k1].id != db.collections[i2].embeddings[k2].id);
        } else if i1 == idx && k1 == db.collections[idx].embeddings.len() {
            assert(db.collections[i2].embeddings[k2].id < db.next_id);
        } else {
            assert(db.collections[i1].embeddings[k1].id < db.next_id);
        }
    }
}

/// Replacing a record with one that keeps its id and fits the schema
/// leaves a well-formed store well formed.
proof fn lemma_wf_update(db: DbView, idx: int, pos: int, e: EmbeddingView)
    requires
        db.wf(),
        0 <= idx < db.collections.len(),
        0 <= pos < db.collections[idx].embeddings.len(),
        e.id == db.collections[idx].embeddings[pos].id,
        e.wf(db.collections[idx].dimension, db.collections[idx].metadata_fields),
    ensures
        (DbView {
            collections: db.collections.update(
                idx,
                CollectionView {
                    embeddings: db.collections[idx].embeddings.update(pos, e),
                    ..db.collections[idx]
                },
            ),
            next_id: db.next_id,
        }).wf(),
{
    let c0 = db.collections[idx];
    let c1 = CollectionView { embeddings: c0.embeddings.update(pos, e), ..c0 };
    let post = DbView { collections: db.collections.update(idx, c1), next_id: db.next_id };
    assert(c1.wf()) by {
        assert(c0.wf());
        assert forall|i: int|
            0 <= i < c1.embeddings.len() implies (#[trigger] c1.embeddings[i]).wf(
            c1.dimension,
            c1.metadata_fields,
        ) by {
            if i != pos {
                assert(c0.embeddings[i].wf(c0.dimension, c0.metadata_fields));
            }
        }
        assert forall|i: int, j: int|
            0 <= i < j < c1.embeddings.len() implies c1.embeddings[i].id != c1.embeddings[j].id by {
            assert(c0.embeddings[i].id != c0.embeddings[j].id);
        }
    }
    assert forall|i: int| 0 <= i < post.collections.len() implies (
    #[trigger] post.collections[i]).wf() by {
        if i != idx {
            assert(db.collections[i].wf());
        }
    }
    assert forall|i: int, k: int|
        0 <= i < post.collections.len() && 0 <= k < post.collections[i].embeddings.len() implies (
    #[trigger] post.collections[i].embeddings[k]).id < post.next_id by {
        assert(db.collections[i].embeddings[k].id < db.next_id);
    }
    assert forall|i1: int, k1: int, i2: int, k2: int|
        0 <= i1 < i2 < post.collections.len() && 0 <= k1 < post.collections[i1].embeddings.len()
            && 0 <= k2 < post.collections[i2].embeddings.len() implies (
    #[trigger] post.collections[i1].embeddings[k1]).id != (
    #[trigger] post.collections[i2].embeddings[k2]).id by {
        assert(db.collections[i1].embeddings[k1].id != db.collections[i2].embeddings[k2].id);
    }
}

/// Removing a record leaves a well-formed store well formed.
proof fn lemma_wf_remove_embedding(db: DbView, idx: int, pos: int)
    requires
        db.wf(),
        0 <= idx < db.collections.len(),
        0 <= pos < db.collections[idx].embeddings.len(),
    ensures
        (DbView {
            collections: db.collections.update(
                idx,
                CollectionView {
                    embeddings: db.collections[idx].embeddings.remove(pos),
                    ..db.collections[idx]
                },
            ),
            next_id: db.next_id,
        }).wf(),
{
    let c0 = db.collections[idx];
    let c1 = CollectionView { embeddings: c0.embeddings.remove(pos), ..c0 };
    let post = DbView { collections: db.collections.update(idx, c1), next_id: db.next_id };
    assert(c1.wf()) by {
        assert(c0.wf());
        assert forall|i: int|
            0 <= i < c1.embeddings.len() implies (#[trigger] c1.embeddings[i]).wf(
            c1.dimension,
            c1.metadata_fields,
        ) by {
            let i0 = if i < pos { i } else { i + 1 };
            assert(c0.embeddings[i0].wf(c0.dimension, c0.metadata_fields));
        }
        assert forall|i: int, j: int|
            0 <= i < j < c1.embeddings.len() implies c1.embeddings[i].id != c1.embeddings[j].id by {
            let i0 = if i < pos { i } else { i + 1 };
            let j0 = if j < pos { j } else { j + 1 };
            assert(c0.embeddings[i0].id != c0.embeddings[j0].id);
        }
    }
    assert forall|i: int| 0 <= i < post.collections.len() implies (
    #[trigger] post.collections[i]).wf() by {
        if i != idx {
            assert(db.collections[i].wf());
        }
    }
    assert forall|i: int, k: int|
        0 <= i < post.collections.len() && 0 <= k < post.collections[i].embeddings.len() implies (
    #[trigger] post.collections[i].embeddings[k]).id < post.next_id by {
        if i == idx {
            let k0 = if k < pos { k } else { k + 1 };
            assert(db.collections[idx].embeddings[k0].id < db.next_id);
        } else {
            assert(db.collections[i].embeddings[k].id < db.next_id);
        }
    }
    assert forall|i1: int, k1: int, i2: int, k2: int|
        0 <= i1 < i2 < post.collections.len() && 0 <= k1 < post.collections[i1].embeddings.len()
            && 0 <= k2 < post.collections[i2].embeddings.len() implies (
    #[trigger] post.collections[i1].embeddings[k1]).id != (
    #[trigger] post.collections[i2].embeddings[k2]).id by {
        let k10 = if i1 == idx && k1 >= pos { k1 + 1 } else { k1 };
        let k20 = if i2 == idx && k2 >= pos { k2 + 1 } else { k2 };
        assert(db.collections[i1].embeddings[k10].id != db.collections[i2].embeddings[k20].id);
    }
}

/// A copy of a vector of component bit patterns.
pub fn clone_vec_u32(v: &Vec<u32>) -> (r: Vec<u32>)
    ensures
        r@ == v@,
{
    let n = v.len();
    let mut out: Vec<u32> = Vec::new();
    let mut i: usize = 0;
    while i < n
        invariant
            n == v@.len(),
            0 <= i <= n,
            out@.len() == i,
            forall|j: int| 0 <= j < i ==> out@[j] == v@[j],
        decreases n - i,
    {
        let x = v[i];
        out.push(x);
        i = i + 1;
    }
    proof {
        assert(out@ =~= v@);
    }
    out
}

/// Removing one collection from a well-formed store leaves it well formed.
proof fn lemma_wf_remove(db: DbView, idx: int)
    requires
        db.wf(),
        0 <= idx < db.collections.len(),
    ensures
        (DbView { collections: db.collections.remove(idx), next_id: db.next_id }).wf(),
{
    let post = DbView { collections: db.collections.remove(idx), next_id: db.next_id };
    assert forall|i: int| 0 <= i < post.collections.len() implies (
    #[trigger] post.collections[i]).wf() by {
        if i < idx {
            assert(db.collections[i].wf());
        } else {
            assert(db.collections[i + 1].wf());
        }
    }
    assert forall|i: int, j: int|
        0 <= i < j < post.collections.len() implies post.collections[i].name
        != post.collections[j].name by {
        let i0 = if i < idx { i } else { i + 1 };
        let j0 = if j < idx { j } else { j + 1 };
        assert(db.collections[i0].name != db.collections[j0].name);
    }
    assert forall|i: int, k: int|
        0 <= i < post.collections.len() && 0 <= k < post.collections[i].embeddings.len() implies (
    #[trigger] post.collections[i].embeddings[k]).id < post.next_id by {
        let i0 = if i < idx { i } else { i + 1 };
        assert(db.collections[i0].embeddings[k].id < db.next_id);
    }
    assert forall|i1: int, k1: int, i2: int, k2: int|
        0 <= i1 < i2 < post.collections.len() && 0 <= k1 < post.collections[i1].embeddings.len()
            && 0 <= k2 < post.collections[i2].embeddings.len() implies (
    #[trigger] post.collections[i1].embeddings[k1]).id != (
    #[trigger] post.collections[i2].embeddings[k2]).id by {
        let i10 = if i1 < idx { i1 } else { i1 + 1 };
        let i20 = if i2 < idx { i2 } else { i2 + 1 };
        assert(db.collections[i10].embeddings[k1].id != db.collections[i20].embeddings[k2].id);
    }
}

/// A copy of a list of field names, element by element.
pub fn clone_strings(v: &Vec<String>) -> (r: Vec<String>)
    ensures
        r.deep_view() == v.deep_view(),
        r@.len() == v@.len(),
{
    let n = v.len();
    let mut out: Vec<String> = Vec::new();
    let mut i: usize = 0;
    while i < n
        invariant
            n == v@.len(),
            0 <= i <= n,
            out@.len() == i,
            forall|j: int| 0 <= j < i ==> out@[j]@ == v@[j]@,
        decreases n - i,
    {
        let s = v[i].clone();
        out.push(s);
        i = i + 1;
    }
    proof {
        assert(out.deep_view() =~= v.deep_view());
    }
    out
}

} // verus!

use edge_vectordb::bitmaps::bitmap_get;
use edge_vectordb::bitmaps::bitmap_len;
use edge_vectordb::bitmaps::bitmap_matches;
use edge_vectordb::bitmaps::bitmap_new;
use edge_vectordb::bitmaps::generate_bitmap_from_metadata;
use edge_vectordb::db::Db;
use edge_vectordb::db::DbError;
use edge_vectordb::db::Distance;
use edge_vectordb::db::Embedding;
use edge_vectordb::db::SimilarityResult;
use edge_vectordb::metadata::MetaValue;

fn expect_err<T, E>(r: Result<T, E>) -> E {
    match r {
        Err(e) => e,
        Ok(_) => panic!("expected an error"),
    }
}

fn bits_of_f32s(v: &[f32]) -> Vec<u32> {
    v.iter().map(|x| x.to_bits()).collect()
}

fn f32s_of_bits(v: &[u32]) -> Vec<f32> {
    v.iter().map(|x| f32::from_bits(*x)).collect()
}

fn normalize(v: &[f32]) -> Vec<f32> {
    let magnitude = v.iter().fold(0.0f32, |acc, &x| acc + x * x).sqrt();
    if magnitude > f32::EPSILON {
        v.iter().map(|&x| x / magnitude).collect()
    } else {
        v.to_vec()
    }
}

fn euclidean_distance(a: &[f32], b: &[f32]) -> f32 {
    let a_sum_squares = a.iter().map(|x| x * x).sum::<f32>();
    let mut cross_terms = 0.0f32;
    let mut b_sum_squares = 0.0f32;
    for (i, j) in a.iter().zip(b) {
        cross_terms += i * j;
        b_sum_squares += j * j;
    }
    (a_sum_squares + b_sum_squares - 2.0 * cross_terms).max(0.0).sqrt()
}

fn dot_product(a: &[f32], b: &[f32]) -> f32 {
    a.iter().zip(b).fold(0.0, |acc, (x, y)| acc + x * y)
}

fn new_embedding(vector: &[f32], metadata: Option<Vec<(String, MetaValue)>>) -> Embedding {
    Embedding { id: 0, vector: bits_of_f32s(vector), metadata, bitmap: bitmap_new() }
}

/// Per-record scores for a query, in storage order, as the store expects.
fn scores_for(db: &Db, name: &str, query: &[f32]) -> Vec<u32> {
    let collection = db.get_collection(name).expect("collection must exist");
    collection
        .embeddings
        .iter()
        .map(|e| {
            let v = f32s_of_bits(&e.vector);
            let score = match collection.distance {
                Distance::Euclidean => euclidean_distance(query, &v),
                Distance::Cosine | Distance::DotProduct => dot_product(query, &v),
            };
            score.to_bits()
        })
        .collect()
}

fn result_vector(r: &SimilarityResult) -> Vec<f32> {
    f32s_of_bits(&r.embedding.vector)
}

#[test]
fn cosine_normalization_scenario() {
    let mut db = Db::new();
    db.create_collection("c".to_string(), 3, Distance::Cosine, vec![]).unwrap();
    // vectors of a cosine collection are normalized before insertion
    let normalized = normalize(&[3.0, 0.0, 4.0]);
    db.add_embedding("c", new_embedding(&normalized, None)).unwrap();
    let stored = f32s_of_bits(&db.get_collection("c").unwrap().embeddings[0].vector);
    assert!((stored[0] - 0.6).abs() < 1e-6);
    assert!((stored[1] - 0.0).abs() < 1e-6);
    assert!((stored[2] - 0.8).abs() < 1e-6);
    let norm = stored.iter().fold(0.0f32, |acc, &x| acc + x * x).sqrt();
    assert!((norm - 1.0).abs() < 1e-5);
}

#[test]
fn euclidean_top_k_scenario() {
    let mut db = Db::new();
    db.create_collection("e".to_string(), 2, Distance::Euclidean, vec![]).unwrap();
    db.add_embedding("e", new_embedding(&[0.0, 0.0], None)).unwrap();
    db.add_embedding("e", new_embedding(&[3.0, 4.0], None)).unwrap();
    db.add_embedding("e", new_embedding(&[1.0, 1.0], None)).unwrap();
    let scores = scores_for(&db, "e", &[0.0, 0.0]);
    let results = db.get_similarity_vectors_only("e", &scores, 2).unwrap();
    assert_eq!(results.len(), 2);
    assert_eq!(f32::from_bits(results[0].score), 0.0);
    assert_eq!(result_vector(&results[0]), vec![0.0, 0.0]);
    assert!((f32::from_bits(results[1].score) - 2.0f32.sqrt()).abs() < 1e-6);
    assert_eq!(result_vector(&results[1]), vec![1.0, 1.0]);
}

#[test]
fn dot_product_top_k_scenario() {
    let mut db = Db::new();
    db.create_collection("d".to_string(), 2, Distance::DotProduct, vec![]).unwrap();
    db.add_embedding("d", new_embedding(&[1.0, 0.0], None)).unwrap();
    db.add_embedding("d", new_embedding(&[0.0, 1.0], None)).unwrap();
    db.add_embedding("d", new_embedding(&[2.0, 2.0], None)).unwrap();
    let scores = scores_for(&db, "d", &[1.0, 1.0]);
    let results = db.get_similarity_vectors_only("d", &scores, 2).unwrap();
    assert_eq!(results.len(), 2);
    assert_eq!(f32::from_bits(results[0].score), 4.0);
    assert_eq!(result_vector(&results[0]), vec![2.0, 2.0]);
    // both remaining score 1.0; the earlier-stored record wins the tie
    assert_eq!(f32::from_bits(results[1].score), 1.0);
    assert_eq!(result_vector(&results[1]), vec![1.0, 0.0]);
}

fn filter_fixture() -> Db {
    let mut db = Db::new();
    db.create_collection(
        "f".to_string(),
        1,
        Distance::DotProduct,
        vec!["a".to_string(), "b".to_string()],
    )
    .unwrap();
    db.add_embedding(
        "f",
        new_embedding(&[10.0], Some(vec![("a".to_string(), MetaValue::Num(1.0f64.to_bits()))])),
    )
    .unwrap();
    db.add_embedding(
        "f",
        new_embedding(&[20.0], Some(vec![("b".to_string(), MetaValue::Num(2.0f64.to_bits()))])),
    )
    .unwrap();
    db.add_embedding(
        "f",
        new_embedding(
            &[30.0],
            Some(vec![
                ("a".to_string(), MetaValue::Num(1.0f64.to_bits())),
                ("b".to_string(), MetaValue::Num(2.0f64.to_bits())),
            ]),
        ),
    )
    .unwrap();
    db
}

#[test]
fn filter_only_scenario() {
    let db = filter_fixture();
    let filters = Some(vec![("b".to_string(), MetaValue::Null)]);
    let results = db.get_similarity_filters_only("f", filters, 10).unwrap();
    assert_eq!(results.len(), 2);
    assert_eq!(f32::from_bits(results[0].score), 0.0);
    assert_eq!(result_vector(&results[0]), vec![20.0]);
    assert_eq!(result_vector(&results[1]), vec![30.0]);
}

#[test]
fn hybrid_scenario() {
    let db = filter_fixture();
    let scores = scores_for(&db, "f", &[1.0]);
    let filters = Some(vec![("a".to_string(), MetaValue::Null)]);
    let results = db.get_similarity_hybrid("f", &scores, filters, 5).unwrap();
    assert_eq!(results.len(), 2);
    assert_eq!(result_vector(&results[0]), vec![30.0]);
    assert_eq!(f32::from_bits(results[0].score), 30.0);
    assert_eq!(result_vector(&results[1]), vec![10.0]);
    assert_eq!(f32::from_bits(results[1].score), 10.0);
}

#[test]
fn add_embedding_returns_strictly_increasing_ids() {
    let mut db = Db::new();
    db.create_collection("ids".to_string(), 1, Distance::DotProduct, vec![]).unwrap();
    db.create_collection("other".to_string(), 1, Distance::DotProduct, vec![]).unwrap();
    let id1 = db.add_embedding("ids", new_embedding(&[1.0], None)).unwrap();
    let id2 = db.add_embedding("other", new_embedding(&[2.0], None)).unwrap();
    let id3 = db.add_embedding("ids", new_embedding(&[3.0], None)).unwrap();
    assert!(id1 >= 1);
    assert!(id2 > id1);
    assert!(id3 > id2);
}

#[test]
fn create_collection_rejects_duplicate_names() {
    let mut db = Db::new();
    db.create_collection("twice".to_string(), 2, Distance::Euclidean, vec![]).unwrap();
    let err = expect_err(db.create_collection("twice".to_string(), 3, Distance::Cosine, vec![]));
    assert_eq!(err, DbError::UniqueViolation);
    // the original collection is untouched
    assert_eq!(db.get_collection("twice").unwrap().dimension, 2);
}

#[test]
fn missing_collection_is_not_found() {
    let mut db = Db::new();
    assert_eq!(db.delete_collection("nope").unwrap_err(), DbError::NotFound);
    assert!(db.get_collection("nope").is_none());
    assert_eq!(
        db.add_embedding("nope", new_embedding(&[1.0], None)).unwrap_err(),
        DbError::NotFound
    );
    assert_eq!(db.remove_embedding("nope", 1).unwrap_err(), DbError::NotFound);
    let scores: Vec<u32> = vec![];
    assert_eq!(
        expect_err(db.get_similarity_vectors_only("nope", &scores, 3)),
        DbError::NotFound
    );
}

#[test]
fn dimension_mismatch_leaves_store_unchanged() {
    let mut db = Db::new();
    db.create_collection("dim".to_string(), 2, Distance::Euclidean, vec![]).unwrap();
    db.add_embedding("dim", new_embedding(&[1.0, 2.0], None)).unwrap();
    let too_short = db.add_embedding("dim", new_embedding(&[1.0], None)).unwrap_err();
    assert_eq!(too_short, DbError::DimensionMismatch);
    let too_long = db
        .add_embedding("dim", new_embedding(&[1.0, 2.0, 3.0], None))
        .unwrap_err();
    assert_eq!(too_long, DbError::DimensionMismatch);
    assert_eq!(db.get_collection("dim").unwrap().embeddings.len(), 1);
}

#[test]
fn update_rewrites_vector_and_metadata() {
    let mut db = Db::new();
    db.create_collection(
        "u".to_string(),
        1,
        Distance::DotProduct,
        vec!["tag".to_string()],
    )
    .unwrap();
    let id = db
        .add_embedding("u", new_embedding(&[5.0], None))
        .unwrap();
    let mut replacement = new_embedding(
        &[7.0],
        Some(vec![("tag".to_string(), MetaValue::Str("fresh".to_string()))]),
    );
    replacement.id = id;
    db.update_embedding("u", replacement).unwrap();
    let scores = scores_for(&db, "u", &[1.0]);
    let results = db.get_similarity_vectors_only("u", &scores, 1).unwrap();
    assert_eq!(results.len(), 1);
    assert_eq!(results[0].embedding.id, id);
    assert_eq!(result_vector(&results[0]), vec![7.0]);
    let meta = results[0].embedding.metadata.as_ref().unwrap();
    assert_eq!(meta.len(), 1);
    assert_eq!(meta[0].0, "tag");
    assert!(matches!(meta[0].1, MetaValue::Str(ref s) if s == "fresh"));
    // the filter now sees the record: the bitmap was regenerated
    let filtered = db
        .get_similarity_filters_only(
            "u",
            Some(vec![("tag".to_string(), MetaValue::Null)]),
            10,
        )
        .unwrap();
    assert_eq!(filtered.len(), 1);
    // updating an unknown id is NotFound
    let mut ghost_record = new_embedding(&[9.0], None);
    ghost_record.id = id + 100;
    assert_eq!(db.update_embedding("u", ghost_record).unwrap_err(), DbError::NotFound);
    // a wrong dimension is rejected without change
    let wrong = Embedding {
        id,
        vector: bits_of_f32s(&[1.0, 2.0]),
        metadata: None,
        bitmap: bitmap_new(),
    };
    assert_eq!(db.update_embedding("u", wrong).unwrap_err(), DbError::DimensionMismatch);
    assert_eq!(result_vector(&db.get_similarity_vectors_only("u", &scores, 1).unwrap()[0]), vec![
        7.0
    ]);
}

#[test]
fn remove_embedding_keeps_storage_order() {
    let mut db = Db::new();
    db.create_collection("r".to_string(), 1, Distance::DotProduct, vec![]).unwrap();
    let id1 = db.add_embedding("r", new_embedding(&[1.0], None)).unwrap();
    let id2 = db.add_embedding("r", new_embedding(&[2.0], None)).unwrap();
    let id3 = db.add_embedding("r", new_embedding(&[3.0], None)).unwrap();
    db.remove_embedding("r", id2).unwrap();
    let collection = db.get_collection("r").unwrap();
    assert_eq!(collection.embeddings.len(), 2);
    assert_eq!(collection.embeddings[0].id, id1);
    assert_eq!(collection.embeddings[1].id, id3);
    assert_eq!(db.remove_embedding("r", id2).unwrap_err(), DbError::NotFound);
}

#[test]
fn k_zero_returns_nothing_and_large_k_returns_all() {
    let mut db = Db::new();
    db.create_collection("k".to_string(), 1, Distance::Euclidean, vec![]).unwrap();
    db.add_embedding("k", new_embedding(&[1.0], None)).unwrap();
    db.add_embedding("k", new_embedding(&[2.0], None)).unwrap();
    let scores = scores_for(&db, "k", &[0.0]);
    assert_eq!(db.get_similarity_vectors_only("k", &scores, 0).unwrap().len(), 0);
    assert_eq!(db.get_similarity_vectors_only("k", &scores, 100).unwrap().len(), 2);
}

#[test]
fn empty_collection_search_is_empty_not_an_error() {
    let mut db = Db::new();
    db.create_collection("void".to_string(), 4, Distance::Cosine, vec![]).unwrap();
    let scores: Vec<u32> = vec![];
    assert_eq!(db.get_similarity_vectors_only("void", &scores, 5).unwrap().len(), 0);
    assert_eq!(db.get_similarity_filters_only("void", None, 5).unwrap().len(), 0);
}

#[test]
fn empty_filter_object_matches_every_embedding() {
    let db = filter_fixture();
    let results = db.get_similarity_filters_only("f", Some(vec![]), 10).unwrap();
    assert_eq!(results.len(), 3);
    let absent = db.get_similarity_filters_only("f", None, 10).unwrap();
    assert_eq!(absent.len(), 3);
}

#[test]
fn bitmap_projection_follows_key_presence() {
    let fields = vec!["x".to_string(), "y".to_string(), "z".to_string()];
    let metadata = Some(vec![
        ("y".to_string(), MetaValue::Bool(true)),
        ("w".to_string(), MetaValue::Null),
    ]);
    let bitmap = generate_bitmap_from_metadata(&metadata, &fields);
    assert_eq!(bitmap_len(&bitmap), 3);
    assert!(!bitmap_get(&bitmap, 0));
    assert!(bitmap_get(&bitmap, 1));
    assert!(!bitmap_get(&bitmap, 2));
    let empty = generate_bitmap_from_metadata(&None, &fields);
    assert_eq!(bitmap_len(&empty), 3);
    assert!(!bitmap_get(&empty, 0) && !bitmap_get(&empty, 1) && !bitmap_get(&empty, 2));
}

#[test]
fn bitmap_subset_test_matches_quantifier() {
    let fields = vec!["a".to_string(), "b".to_string()];
    let both = generate_bitmap_from_metadata(
        &Some(vec![
            ("a".to_string(), MetaValue::Null),
            ("b".to_string(), MetaValue::Null),
        ]),
        &fields,
    );
    let only_a = generate_bitmap_from_metadata(
        &Some(vec![("a".to_string(), MetaValue::Null)]),
        &fields,
    );
    let neither = generate_bitmap_from_metadata(&None, &fields);
    assert!(bitmap_matches(&both, &only_a));
    assert!(!bitmap_matches(&only_a, &both));
    assert!(bitmap_matches(&only_a, &neither));
    assert!(bitmap_matches(&both, &both));
    // a length mismatch never matches and never panics
    let short = generate_bitmap_from_metadata(&None, &vec!["a".to_string()]);
    assert!(!bitmap_matches(&both, &short));
    assert!(!bitmap_matches(&short, &both));
}

#[test]
fn delete_collection_removes_it() {
    let mut db = Db::new();
    db.create_collection("gone".to_string(), 2, Distance::Euclidean, vec![]).unwrap();
    db.create_collection("kept".to_string(), 3, Distance::Cosine, vec![]).unwrap();
    db.delete_collection("gone").unwrap();
    assert!(db.get_collection("gone").is_none());
    assert_eq!(db.get_collection("kept").unwrap().dimension, 3);
    // the name is free again
    db.create_collection("gone".to_string(), 7, Distance::DotProduct, vec![]).unwrap();
    assert_eq!(db.get_collection("gone").unwrap().dimension, 7);
}

#[test]
fn hybrid_with_unmatched_filter_is_empty() {
    let db = filter_fixture();
    let scores = scores_for(&db, "f", &[1.0]);
    // no stored record carries both declared fields and a third unknown one
    let filters = Some(vec![
        ("a".to_string(), MetaValue::Null),
        ("b".to_string(), MetaValue::Null),
    ]);
    let results = db.get_similarity_hybrid("f", &scores, filters, 5).unwrap();
    assert_eq!(results.len(), 1);
    assert_eq!(result_vector(&results[0]), vec![30.0]);
}

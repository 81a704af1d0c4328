use edge_vectordb::bitmaps::bitmap_new;
use edge_vectordb::db::Db;
use edge_vectordb::db::Distance;
use edge_vectordb::db::Embedding;
use edge_vectordb::errors::Error;
use edge_vectordb::metadata::MetaValue;

fn bits_of_f32s(v: &[f32]) -> Vec<u32> {
    v.iter().map(|x| x.to_bits()).collect()
}

fn f32s_of_bits(v: &[u32]) -> Vec<f32> {
    v.iter().map(|x| f32::from_bits(*x)).collect()
}

fn normalize(v: &[f32]) -> Vec<f32> {
    let magnitude = v.iter().fold(0.0f32, |acc, &x| acc + x * x).sqrt();
    if magnitude > f32::EPSILON {
        v.iter().map(|&x| x / magnitude).collect()
    } else {
        v.to_vec()
    }
}

fn euclidean_distance(a: &[f32], b: &[f32]) -> f32 {
    let mut cross_terms = 0.0f32;
    let mut b_sum_squares = 0.0f32;
    let a_sum_squares = a.iter().map(|x| x * x).sum::<f32>();
    for (i, j) in a.iter().zip(b) {
        cross_terms += i * j;
        b_sum_squares += j * j;
    }
    (a_sum_squares + b_sum_squares - 2.0 * cross_terms).max(0.0).sqrt()
}

fn new_embedding(vector: &[f32], metadata: Option<Vec<(String, MetaValue)>>) -> Embedding {
    Embedding { id: 0, vector: bits_of_f32s(vector), metadata, bitmap: bitmap_new() }
}

fn euclidean_scores(db: &Db, name: &str, query: &[f32]) -> Vec<u32> {
    db.get_collection(name)
        .unwrap()
        .embeddings
        .iter()
        .map(|e| euclidean_distance(query, &f32s_of_bits(&e.vector)).to_bits())
        .collect()
}

#[test]
fn snapshot_round_trip_scenario() {
    let mut db = Db::new();
    db.create_collection("c".to_string(), 3, Distance::Cosine, vec![]).unwrap();
    db.add_embedding("c", new_embedding(&normalize(&[3.0, 0.0, 4.0]), None)).unwrap();
    db.create_collection("e".to_string(), 2, Distance::Euclidean, vec![]).unwrap();
    db.add_embedding("e", new_embedding(&[0.0, 0.0], None)).unwrap();
    db.add_embedding("e", new_embedding(&[3.0, 4.0], None)).unwrap();
    db.add_embedding("e", new_embedding(&[1.0, 1.0], None)).unwrap();

    let blob = db.to_snapshot();
    drop(db);
    let restored = Db::from_snapshot(&blob).unwrap();

    let stored = f32s_of_bits(&restored.get_collection("c").unwrap().embeddings[0].vector);
    assert!((stored[0] - 0.6).abs() < 1e-6);
    assert!((stored[1] - 0.0).abs() < 1e-6);
    assert!((stored[2] - 0.8).abs() < 1e-6);

    let scores = euclidean_scores(&restored, "e", &[0.0, 0.0]);
    let results = restored.get_similarity_vectors_only("e", &scores, 2).unwrap();
    assert_eq!(results.len(), 2);
    assert_eq!(f32::from_bits(results[0].score), 0.0);
    assert_eq!(f32s_of_bits(&results[0].embedding.vector), vec![0.0, 0.0]);
    assert!((f32::from_bits(results[1].score) - 2.0f32.sqrt()).abs() < 1e-6);
    assert_eq!(f32s_of_bits(&results[1].embedding.vector), vec![1.0, 1.0]);
}

#[test]
fn snapshot_preserves_every_persisted_field() {
    let mut db = Db::new();
    db.create_collection(
        "deep".to_string(),
        2,
        Distance::DotProduct,
        vec!["kind".to_string(), "notes".to_string()],
    )
    .unwrap();
    let metadata = Some(vec![
        ("kind".to_string(), MetaValue::Str("census \u{263a}".to_string())),
        ("notes".to_string(), MetaValue::List(vec![
            MetaValue::Null,
            MetaValue::Bool(true),
            MetaValue::Num(2.5f64.to_bits()),
            MetaValue::Obj(vec![("nested".to_string(), MetaValue::Str("deep".to_string()))]),
        ])),
    ]);
    let id = db.add_embedding("deep", new_embedding(&[1.5, -2.5], metadata)).unwrap();

    let blob = db.to_snapshot();
    let restored = Db::from_snapshot(&blob).unwrap();
    let collection = restored.get_collection("deep").unwrap();
    assert_eq!(collection.dimension, 2);
    assert_eq!(collection.distance, Distance::DotProduct);
    assert_eq!(collection.metadata_fields, vec!["kind".to_string(), "notes".to_string()]);
    let e = &collection.embeddings[0];
    assert_eq!(e.id, id);
    assert_eq!(f32s_of_bits(&e.vector), vec![1.5, -2.5]);
    let meta = e.metadata.as_ref().unwrap();
    assert_eq!(meta.len(), 2);
    assert_eq!(meta[0].0, "kind");
    assert!(matches!(meta[0].1, MetaValue::Str(ref s) if s == "census \u{263a}"));
    assert_eq!(meta[1].0, "notes");
    match &meta[1].1 {
        MetaValue::List(items) => {
            assert_eq!(items.len(), 4);
            assert!(matches!(items[0], MetaValue::Null));
            assert!(matches!(items[1], MetaValue::Bool(true)));
            assert!(matches!(items[2], MetaValue::Num(n) if f64::from_bits(n) == 2.5));
            match &items[3] {
                MetaValue::Obj(entries) => {
                    assert_eq!(entries.len(), 1);
                    assert_eq!(entries[0].0, "nested");
                    assert!(matches!(entries[0].1, MetaValue::Str(ref s) if s == "deep"));
                },
                other => panic!("expected an object, got {:?}", mval_tag(other)),
            }
        },
        other => panic!("expected a list, got {:?}", mval_tag(other)),
    }
    // the rebuilt bitmap still drives the filter
    let filtered = restored
        .get_similarity_filters_only(
            "deep",
            Some(vec![("kind".to_string(), MetaValue::Null)]),
            10,
        )
        .unwrap();
    assert_eq!(filtered.len(), 1);
}

fn mval_tag(v: &MetaValue) -> &'static str {
    match v {
        MetaValue::Null => "null",
        MetaValue::Bool(_) => "bool",
        MetaValue::Num(_) => "num",
        MetaValue::Str(_) => "str",
        MetaValue::List(_) => "list",
        MetaValue::Obj(_) => "obj",
    }
}

#[test]
fn ids_issued_after_reload_stay_above_stored_ids() {
    let mut db = Db::new();
    db.create_collection("ids".to_string(), 1, Distance::Euclidean, vec![]).unwrap();
    let id1 = db.add_embedding("ids", new_embedding(&[1.0], None)).unwrap();
    let id2 = db.add_embedding("ids", new_embedding(&[2.0], None)).unwrap();
    let blob = db.to_snapshot();
    let mut restored = Db::from_snapshot(&blob).unwrap();
    let id3 = restored.add_embedding("ids", new_embedding(&[3.0], None)).unwrap();
    assert!(id1 < id2);
    assert!(id3 > id2);
}

#[test]
fn empty_store_round_trips() {
    let db = Db::new();
    let blob = db.to_snapshot();
    let restored = Db::from_snapshot(&blob).unwrap();
    assert!(restored.get_collection("anything").is_none());
}

#[test]
fn undecodable_bytes_fail_loudly() {
    let garbage: Vec<u8> = vec![7, 7, 7];
    assert!(matches!(Db::from_snapshot(&garbage), Err(Error::SerializationError(_))));
    // a truncated but well-versioned header still fails
    let db = Db::new();
    let mut blob = db.to_snapshot();
    blob.pop();
    assert!(matches!(Db::from_snapshot(&blob), Err(Error::SerializationError(_))));
    // trailing bytes after a valid snapshot fail too
    let mut padded = Db::new().to_snapshot();
    padded.push(0);
    assert!(matches!(Db::from_snapshot(&padded), Err(Error::SerializationError(_))));
}

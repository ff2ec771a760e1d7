use nano_vectordb::codec::serialize;
use nano_vectordb::constants;
use nano_vectordb::engine::{Data, NanoVectorDB};
use nano_vectordb::error::DbError;
use nano_vectordb::score::ScoredIndex;
use std::collections::HashMap;

fn unit(v: &[f32]) -> Vec<f32> {
    let norm = v.iter().fold(0.0f32, |acc, &x| x.mul_add(x, acc)).sqrt();
    v.iter().map(|x| x / norm).collect()
}

fn bits(v: &[f32]) -> Vec<u32> {
    v.iter().map(|x| x.to_bits()).collect()
}

fn record(id: &str, v: &[f32]) -> Data {
    Data { id: id.to_string(), vector: bits(&unit(v)), fields: HashMap::new() }
}

fn all_ids(db: &NanoVectorDB) -> Vec<String> {
    db.records().iter().map(|d| d.id.clone()).collect()
}

fn scores(db: &NanoVectorDB, probe: &[f32]) -> Vec<u32> {
    let p = unit(probe);
    db.get(&all_ids(db))
        .iter()
        .map(|d| {
            let s: f32 = d.vector.iter().zip(p.iter()).map(|(a, b)| f32::from_bits(*a) * b).sum();
            s.to_bits()
        })
        .collect()
}

fn query(db: &NanoVectorDB, probe: &[f32], k: usize, better_than: Option<f32>) -> Vec<(String, f32)> {
    let s = scores(db, probe);
    let admitted = vec![true; db.len()];
    let ranked = db.rank(&s, k, better_than.map(|t| t.to_bits()), &admitted);
    ranked
        .iter()
        .map(|c| (db.records()[c.index].id.clone(), f32::from_bits(c.score)))
        .collect()
}

#[test]
fn test_basic_operations() {
    let mut db = NanoVectorDB::new(128, "unused.json");
    let (updates, inserts) = db.upsert(vec![record("test", &vec![0.1; 128])]);
    assert_eq!(inserts.len(), 1);
    assert_eq!(updates.len(), 0);
    let results = query(&db, &vec![0.1; 128], 1, None);
    assert!(!results.is_empty());
    assert!(results[0].1 > 0.99);
}

#[test]
fn test_persistence() {
    let mut db = NanoVectorDB::new(128, "store.json");
    db.upsert(vec![record("test", &vec![0.1; 128])]);
    let text = db.matrix_base64();
    let data: Vec<Data> = db
        .records()
        .iter()
        .map(|d| Data { id: d.id.clone(), vector: Vec::new(), fields: d.fields.clone() })
        .collect();
    let db2 = NanoVectorDB::from_snapshot(128, "store.json", data, &text, HashMap::new()).unwrap();
    assert_eq!(db2.len(), 1);
    assert_eq!(db2.vector_bytes_len(), 128);
    assert_eq!(db2.get(&all_ids(&db2))[0].vector, db.get(&all_ids(&db))[0].vector);
}

#[test]
fn test_additional_data_handling() {
    let mut db = NanoVectorDB::new(128, "store.json");
    let mut test_data = HashMap::new();
    test_data.insert("version".to_string(), serde_json::Value::from("1.0.0"));
    let mut config = serde_json::Map::new();
    config.insert("max_size".to_string(), serde_json::Value::from(1000));
    test_data.insert("config".to_string(), serde_json::Value::Object(config));

    db.store_additional_data(test_data);
    let additional_data = db.get_additional_data();
    assert_eq!(additional_data.get("version").unwrap(), "1.0.0");
    assert_eq!(additional_data["config"]["max_size"], 1000);

    let db2 = NanoVectorDB::from_snapshot(
        128,
        "store.json",
        Vec::new(),
        &db.matrix_base64(),
        db.get_additional_data().clone(),
    )
    .unwrap();
    let loaded_data = db2.get_additional_data();
    assert_eq!(loaded_data.get("version").unwrap(), "1.0.0");
    assert!(!loaded_data.is_empty());
}

#[test]
fn test_get_method() {
    let mut db = NanoVectorDB::new(128, "store.json");
    let mut data1 = record("test1", &vec![0.1; 128]);
    data1.fields = [("color".to_string(), "red".into())].into();
    let mut data2 = record("test2", &vec![0.2; 128]);
    data2.fields = [("color".to_string(), "blue".into())].into();
    db.upsert(vec![data1, data2]);

    let results = db.get(&["test1".to_string(), "missing".to_string()]);
    assert_eq!(results.len(), 1);
    assert_eq!(results[0].id, "test1");
    assert_eq!(results[0].fields["color"], "red");
}

#[test]
fn test_delete_method() {
    let mut db = NanoVectorDB::new(128, "store.json");
    db.upsert(vec![record("test1", &vec![0.1; 128]), record("test2", &vec![0.2; 128])]);
    assert_eq!(db.len(), 2);

    db.delete(&["test1".to_string()]);
    assert_eq!(db.len(), 1);
    assert_eq!(db.vector_bytes_len(), 128);

    let results = query(&db, &vec![0.2; 128], 1, None);
    assert!(!results.is_empty());
    assert_eq!(results[0].0, "test2");
}

#[test]
fn test_empty_state_checks() {
    let mut db = NanoVectorDB::new(128, "store.json");
    assert!(db.is_empty());
    assert_eq!(db.len(), 0);

    db.upsert(vec![record("test", &vec![0.1; 128])]);
    assert!(!db.is_empty());
    assert_eq!(db.len(), 1);

    db.delete(&["test".to_string()]);
    assert!(db.is_empty());
    assert_eq!(db.len(), 0);

    let text = db.matrix_base64();
    assert_eq!(text, "");
    let db2 = NanoVectorDB::from_snapshot(128, "store.json", Vec::new(), &text, HashMap::new()).unwrap();
    assert!(db2.is_empty());
}

#[test]
fn test_large_dataset() {
    let mut db = NanoVectorDB::new(128, "store.json");
    let vectors = (0..1000).map(|i| record(&format!("vec_{i}"), &vec![0.1; 128])).collect();
    let (updates, inserts) = db.upsert(vectors);
    assert_eq!(inserts.len(), 1000);
    assert_eq!(updates.len(), 0);

    let results = query(&db, &vec![0.1; 128], 5, None);
    assert_eq!(results.len(), 5);
    assert!(results[0].1 > 0.99);
}

#[test]
fn test_update_operations() {
    let mut db = NanoVectorDB::new(128, "store.json");
    let (_, inserts) = db.upsert(vec![record("vec_0", &vec![0.1; 128])]);
    assert_eq!(inserts.len(), 1);
    let (updates, _) = db.upsert(vec![record("vec_0", &vec![0.2; 128])]);
    assert_eq!(updates.len(), 1);
}

#[test]
fn test_matrix_size_validation() {
    let text = serialize(&vec![1.0f32.to_bits()]);
    let data = vec![Data { id: "bad_entry".to_string(), vector: vec![], fields: HashMap::new() }];
    let result = NanoVectorDB::from_snapshot(2, "store.json", data, &text, HashMap::new());
    assert_eq!(result.err(), Some(DbError::CorruptStore { expected: 2, actual: 1 }));
}

#[test]
fn test_scored_index_ordering() {
    // A NaN score ranks below every real score, so it compares as the worse one.
    let cases = vec![
        (0.9f32, 0.8f32, std::cmp::Ordering::Less),
        (0.5, 0.5, std::cmp::Ordering::Equal),
        (0.3, 0.4, std::cmp::Ordering::Greater),
        (f32::NAN, 0.5, std::cmp::Ordering::Greater),
        (0.5, f32::NAN, std::cmp::Ordering::Less),
        (f32::NAN, f32::NAN, std::cmp::Ordering::Equal),
    ];
    for (a, b, order) in cases {
        let x = ScoredIndex { score: a.to_bits(), index: 0 };
        let y = ScoredIndex { score: b.to_bits(), index: 1 };
        assert_eq!(x.cmp(&y), order);
    }
}

#[test]
fn scenario_upsert_query_delete() {
    let mut db = NanoVectorDB::new(3, "store.json");
    let (updates, inserts) = db.upsert(vec![record("a", &[1.0, 0.0, 0.0]), record("b", &[0.0, 1.0, 0.0])]);
    assert_eq!(inserts, vec!["a".to_string(), "b".to_string()]);
    assert!(updates.is_empty());
    let r = query(&db, &[1.0, 0.0, 0.0], 1, None);
    assert_eq!(r.len(), 1);
    assert_eq!(r[0].0, "a");
    assert!((r[0].1 - 1.0).abs() < 1e-6);
    db.delete(&["a".to_string()]);
    assert_eq!(db.len(), 1);
    let r = query(&db, &[0.0, 1.0, 0.0], 1, None);
    assert_eq!(r.len(), 1);
    assert_eq!(r[0].0, "b");
    assert!((r[0].1 - 1.0).abs() < 1e-6);
}

#[test]
fn filter_rejecting_everything_gives_no_result() {
    let mut db = NanoVectorDB::new(3, "store.json");
    db.upsert(vec![record("a", &[1.0, 0.0, 0.0]), record("b", &[0.0, 1.0, 0.0])]);
    let s = scores(&db, &[1.0, 1.0, 0.0]);
    let admitted = db.admitted(&|_: &Data| false);
    assert_eq!(admitted, vec![false, false]);
    for k in [0usize, 1, 2, 10] {
        assert!(db.rank(&s, k, None, &admitted).is_empty());
    }
    let only_b = db.admitted(&|d: &Data| d.id == "b");
    let r = db.rank(&s, 10, None, &only_b);
    assert_eq!(r.len(), 1);
    assert_eq!(r[0].index, 1);
}

#[test]
fn snapshot_with_wrong_matrix_length_is_corrupt() {
    let mut db = NanoVectorDB::new(2, "store.json");
    db.upsert(vec![record("a", &[1.0, 0.0]), record("b", &[0.0, 1.0])]);
    let text = db.matrix_base64();
    let data: Vec<Data> = (0..3)
        .map(|i| Data { id: format!("r{i}"), vector: Vec::new(), fields: HashMap::new() })
        .collect();
    let r = NanoVectorDB::from_snapshot(2, "store.json", data, &text, HashMap::new());
    assert_eq!(r.err(), Some(DbError::CorruptStore { expected: 6, actual: 4 }));
}

#[test]
fn snapshot_with_bad_base64_is_an_io_error() {
    let r = NanoVectorDB::from_snapshot(2, "store.json", Vec::new(), "INVALID_BASE64!!", HashMap::new());
    assert_eq!(r.err(), Some(DbError::Io));
}

#[test]
fn upserting_same_id_twice_replaces() {
    let mut db = NanoVectorDB::new(2, "store.json");
    let mut first = record("a", &[1.0, 0.0]);
    first.fields.insert("v".to_string(), serde_json::Value::from(1));
    db.upsert(vec![first, record("b", &[0.0, 1.0])]);
    let mut second = record("a", &[0.0, 1.0]);
    second.fields.insert("w".to_string(), serde_json::Value::from(2));
    let (updates, inserts) = db.upsert(vec![second]);
    assert_eq!(updates, vec!["a".to_string()]);
    assert!(inserts.is_empty());
    assert_eq!(db.len(), 2);
    assert_eq!(db.vector_bytes_len(), 4);
    let got = db.get(&["a".to_string()]);
    assert_eq!(got[0].vector, bits(&[0.0, 1.0]));
    assert!(got[0].fields.get("v").is_none());
    assert_eq!(got[0].fields["w"], 2);
    assert_eq!(all_ids(&db), vec!["a".to_string(), "b".to_string()]);
}

#[test]
fn repeated_new_id_in_one_batch_is_inserted_then_updated() {
    let mut db = NanoVectorDB::new(2, "store.json");
    let (updates, inserts) = db.upsert(vec![record("a", &[1.0, 0.0]), record("a", &[0.0, 1.0])]);
    assert_eq!(inserts, vec!["a".to_string()]);
    assert_eq!(updates, vec!["a".to_string()]);
    assert_eq!(db.len(), 1);
    assert_eq!(db.get(&["a".to_string()])[0].vector, bits(&[0.0, 1.0]));
}

#[test]
fn query_respects_k_order_and_threshold() {
    let mut db = NanoVectorDB::new(2, "store.json");
    db.upsert(vec![
        record("x", &[1.0, 0.0]),
        record("y", &[0.0, 1.0]),
        record("z", &[1.0, 1.0]),
        record("w", &[-1.0, 0.0]),
    ]);
    let r = query(&db, &[1.0, 0.2], 3, None);
    let ids: Vec<&str> = r.iter().map(|(i, _)| i.as_str()).collect();
    assert_eq!(ids, vec!["x", "z", "y"]);
    assert!(r.windows(2).all(|w| w[0].1 >= w[1].1));
    let r = query(&db, &[1.0, 0.2], 10, Some(0.5));
    let ids: Vec<&str> = r.iter().map(|(i, _)| i.as_str()).collect();
    assert_eq!(ids, vec!["x", "z"]);
    assert!(r.iter().all(|(_, s)| *s >= 0.5));
    assert!(query(&db, &[1.0, 0.2], 0, None).is_empty());
}

#[test]
fn nan_scores_rank_last() {
    let mut db = NanoVectorDB::new(1, "store.json");
    db.upsert(vec![record("a", &[1.0]), record("b", &[1.0]), record("c", &[1.0])]);
    let s = vec![f32::NAN.to_bits(), (-1.0f32).to_bits(), f32::NEG_INFINITY.to_bits()];
    // Without a bound, the bound is f32::MIN: NaN and -inf are dropped.
    let r = db.rank(&s, 3, None, &vec![true; 3]);
    let idx: Vec<usize> = r.iter().map(|c| c.index).collect();
    assert_eq!(idx, vec![1]);
    let r = db.rank(&s, 3, Some(f32::NEG_INFINITY.to_bits()), &vec![true; 3]);
    let idx: Vec<usize> = r.iter().map(|c| c.index).collect();
    assert_eq!(idx, vec![1, 2]);
    // A NaN bound admits everything, and NaN ranks below every other score.
    let r = db.rank(&s, 3, Some(f32::NAN.to_bits()), &vec![true; 3]);
    let idx: Vec<usize> = r.iter().map(|c| c.index).collect();
    assert_eq!(idx, vec![1, 2, 0]);
    let r = db.rank(&s, 3, Some((-2.0f32).to_bits()), &vec![true; 3]);
    assert_eq!(r.len(), 1);
    assert_eq!(r[0].index, 1);
}

#[test]
fn metric_and_dimension() {
    let db = NanoVectorDB::new(7, "some/path.json");
    assert_eq!(db.get_metric(), "cosine");
    assert_eq!(db.get_embedding_dim(), 7);
    assert_eq!(db.storage_file(), "some/path.json");
    assert_eq!(constants::F_ID, "__id__");
    assert_eq!(constants::F_METRICS, "__metrics__");
}

#[test]
fn candidates_follow_filter_and_threshold() {
    let mut db = NanoVectorDB::new(1, "store.json");
    db.upsert(vec![record("a", &[1.0]), record("b", &[1.0]), record("c", &[1.0]), record("d", &[1.0])]);
    let s = vec![0.9f32.to_bits(), 0.1f32.to_bits(), 0.5f32.to_bits(), 0.7f32.to_bits()];
    let admitted = vec![true, true, false, true];
    let c = db.candidates(&s, Some(0.2f32.to_bits()), &admitted);
    assert_eq!(c, vec![ScoredIndex { score: s[0], index: 0 }, ScoredIndex { score: s[3], index: 3 }]);
    let c = db.candidates(&s, None, &vec![true; 4]);
    assert_eq!(c.len(), 4);
}

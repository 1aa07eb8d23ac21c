use vecdb::filter_index::{FilterOp, IntFilterInput};
use vecdb::index::{HnswIndexOption, HnswIndexSetting, IndexType, MetricType, SearchQuery};
use vecdb::flat::FlatIndex;
use vecdb::json::JsonValue;
use vecdb::merror::DBError;
use vecdb::persistence::{WALOperation, WALRecord};
use vecdb::vecdb::{DatabaseParams, DocMap, VectorDatabase, VectorInsertArgs, VectorSearchArgs};

type DistFn = fn(&Vec<u32>, &Vec<u32>) -> u32;

fn sortable(f: f32) -> u32 {
    let b = f.to_bits();
    if b & 0x8000_0000 != 0 {
        !b
    } else {
        b | 0x8000_0000
    }
}

fn l2_key(a: &Vec<u32>, b: &Vec<u32>) -> u32 {
    let mut s: f32 = 0.0;
    for i in 0..a.len() {
        let d = f32::from_bits(a[i]) - f32::from_bits(b[i]);
        s += d * d;
    }
    sortable(s)
}

// Inner product with "smaller is closer": the negated dot product.
fn ip_key(a: &Vec<u32>, b: &Vec<u32>) -> u32 {
    let mut s: f32 = 0.0;
    for i in 0..a.len() {
        s += f32::from_bits(a[i]) * f32::from_bits(b[i]);
    }
    sortable(-s)
}

fn bits(v: Vec<f32>) -> Vec<u32> {
    v.into_iter().map(|x| x.to_bits()).collect()
}

fn params(dim: u32, metric: MetricType) -> DatabaseParams {
    DatabaseParams {
        dim,
        metric_type: metric,
        index_type: IndexType::Flat,
        hnsw_params: None,
        version: "0.1.0".to_string(),
    }
}

fn flat_db(dim: u32, metric: MetricType) -> VectorDatabase<FlatIndex<DistFn>> {
    let distf: DistFn = match metric {
        MetricType::L2 => l2_key,
        MetricType::IP => ip_key,
    };
    let index = FlatIndex::new(dim, metric, distf).unwrap();
    VectorDatabase::new(params(dim, metric), index).unwrap()
}

fn doc(key: &str, value: &str) -> DocMap {
    vec![(key.to_string(), JsonValue::Str(value.to_string()))]
}

fn parse(bytes: &[u8]) -> serde_json::Value {
    serde_json::from_slice(bytes).unwrap()
}

fn upsert_two(db: &mut VectorDatabase<FlatIndex<DistFn>>, rows: Vec<f32>, attrs: Vec<Option<DocMap>>) {
    let result = db.upsert(VectorInsertArgs {
        flat_data: bits(rows),
        data_row: 2,
        data_dim: 3,
        docs: vec![Some(doc("key", "value1")), Some(doc("key", "value2"))],
        attributes: attrs,
        hnsw_params: None,
    });
    assert!(result.is_ok());
}

#[test]
fn upsert_then_query_flat_l2() {
    let mut db = flat_db(3, MetricType::L2);
    upsert_two(&mut db, vec![0.1, 0.2, 0.3, 0.4, 0.5, 0.6], vec![]);
    let result = db.query(VectorSearchArgs {
        query: bits(vec![0.1, 0.2, 0.3]),
        k: 10,
        filter_inputs: None,
        hnsw_params: None,
    });
    assert!(result.is_ok());
    let docs = result.unwrap();
    assert_eq!(docs.len(), 2);
    let first = parse(&docs[0]);
    assert_eq!(first["key"], serde_json::Value::from("value1"));
    // the facade injected the id and the (empty) attributes
    assert_eq!(first["id"], serde_json::Value::from(1u64));
    assert!(first["attributes"].is_object());
}

#[test]
fn round_trip_exact_vector_is_first_both_metrics() {
    for metric in [MetricType::L2, MetricType::IP] {
        let mut db = flat_db(3, metric);
        upsert_two(&mut db, vec![0.27, 0.53, 0.80, 0.46, 0.57, 0.69], vec![]);
        let res = db
            .query(VectorSearchArgs {
                query: bits(vec![0.46, 0.57, 0.69]),
                k: 1,
                filter_inputs: None,
                hnsw_params: None,
            })
            .unwrap();
        assert_eq!(res.len(), 1);
        assert_eq!(parse(&res[0])["id"], serde_json::Value::from(2u64));
    }
}

#[test]
fn upsert_with_wrong_dim_fails() {
    let mut db = flat_db(3, MetricType::L2);
    let result = db.upsert(VectorInsertArgs {
        flat_data: bits(vec![0.1, 0.2, 0.3, 0.4, 0.4, 0.5, 0.6, 0.7]),
        data_row: 2,
        data_dim: 4,
        docs: vec![None, None],
        attributes: vec![],
        hnsw_params: None,
    });
    assert!(result.is_err());

    let result = db.upsert(VectorInsertArgs {
        flat_data: bits(vec![0.1, 0.2, 0.3, 0.4, 0.5, 0.6]),
        data_row: 3,
        data_dim: 3,
        docs: vec![None, None, None],
        attributes: vec![],
        hnsw_params: None,
    });
    assert!(result.is_err());
    // no state change: an empty query still sees an empty database, no ids
    // were allocated, and nothing reached the WAL
    let res = db
        .query(VectorSearchArgs {
            query: bits(vec![0.1, 0.2, 0.3]),
            k: 5,
            filter_inputs: None,
            hnsw_params: None,
        })
        .unwrap();
    assert!(res.is_empty());
    assert_eq!(db.persistence.take_pending(), Vec::<u8>::new());
    assert_eq!(db.scalar_storage.gen_incr_ids(1).unwrap(), vec![1]);
}

#[test]
fn query_empty_database() {
    let mut db = flat_db(3, MetricType::L2);
    let result = db.query(VectorSearchArgs {
        query: bits(vec![0.1, 0.2, 0.3]),
        k: 1,
        filter_inputs: None,
        hnsw_params: None,
    });
    assert!(result.is_ok());
    assert!(result.unwrap().is_empty());
}

#[test]
fn query_wrong_dim_fails() {
    let mut db = flat_db(3, MetricType::L2);
    let result = db.query(VectorSearchArgs {
        query: bits(vec![0.1, 0.2]),
        k: 1,
        filter_inputs: None,
        hnsw_params: None,
    });
    match result {
        Err(DBError::GetError(_)) => {}
        _ => panic!("expected a GetError"),
    }
}

fn age_attrs() -> Vec<Option<DocMap>> {
    vec![
        Some(vec![("age".to_string(), JsonValue::Int(10))]),
        Some(vec![("age".to_string(), JsonValue::Int(20))]),
    ]
}

#[test]
fn query_with_equal_filter() {
    let mut db = flat_db(3, MetricType::L2);
    upsert_two(&mut db, vec![0.1, 0.2, 0.3, 0.1, -0.2, 0.3], age_attrs());
    let result = db
        .query(VectorSearchArgs {
            query: bits(vec![0.1, 0.2, 0.3]),
            k: 10,
            filter_inputs: Some(vec![IntFilterInput {
                field: "age".to_string(),
                op: FilterOp::Equal,
                target: 20,
            }]),
            hnsw_params: None,
        })
        .unwrap();
    assert_eq!(result.len(), 1);
    assert_eq!(parse(&result[0])["key"], serde_json::Value::from("value2"));
}

#[test]
fn query_with_not_equal_filter() {
    let mut db = flat_db(3, MetricType::L2);
    upsert_two(&mut db, vec![0.1, 0.2, 0.3, 0.1, -0.2, 0.3], age_attrs());
    let result = db
        .query(VectorSearchArgs {
            query: bits(vec![0.1, 0.2, 0.3]),
            k: 10,
            filter_inputs: Some(vec![IntFilterInput {
                field: "age".to_string(),
                op: FilterOp::NotEqual,
                target: 20,
            }]),
            hnsw_params: None,
        })
        .unwrap();
    assert_eq!(result.len(), 1);
    assert_eq!(parse(&result[0])["key"], serde_json::Value::from("value1"));
}

#[test]
fn query_with_unknown_filter_field_returns_nothing_extra() {
    let mut db = flat_db(3, MetricType::L2);
    upsert_two(&mut db, vec![0.1, 0.2, 0.3, 0.1, -0.2, 0.3], age_attrs());
    let result = db
        .query(VectorSearchArgs {
            query: bits(vec![0.1, 0.2, 0.3]),
            k: 10,
            filter_inputs: Some(vec![IntFilterInput {
                field: "color".to_string(),
                op: FilterOp::Equal,
                target: 20,
            }]),
            hnsw_params: None,
        })
        .unwrap();
    // an unknown field composes the empty restriction, which admits nothing
    assert!(result.is_empty());
}

#[test]
fn upsert_rejects_non_integer_numeric_attribute() {
    let mut db = flat_db(3, MetricType::L2);
    let result = db.upsert(VectorInsertArgs {
        flat_data: bits(vec![0.1, 0.2, 0.3]),
        data_row: 1,
        data_dim: 3,
        docs: vec![None],
        attributes: vec![Some(vec![(
            "score".to_string(),
            JsonValue::Num("1.5".to_string()),
        )])],
        hnsw_params: None,
    });
    match result {
        Err(DBError::PutError(_)) => {}
        _ => panic!("expected a PutError"),
    }
    // rejected before any side effect: nothing pending in the WAL
    assert_eq!(db.persistence.take_pending(), Vec::<u8>::new());
}

#[test]
fn upsert_rejects_non_numeric_attribute() {
    let mut db = flat_db(3, MetricType::L2);
    let result = db.upsert(VectorInsertArgs {
        flat_data: bits(vec![0.1, 0.2, 0.3]),
        data_row: 1,
        data_dim: 3,
        docs: vec![None],
        attributes: vec![Some(vec![(
            "age".to_string(),
            JsonValue::Str("old".to_string()),
        )])],
        hnsw_params: None,
    });
    match result {
        Err(DBError::PutError(_)) => {}
        _ => panic!("expected a PutError"),
    }
}

#[test]
fn caller_supplied_id_field_is_overwritten() {
    let mut db = flat_db(3, MetricType::L2);
    let result = db.upsert(VectorInsertArgs {
        flat_data: bits(vec![0.1, 0.2, 0.3]),
        data_row: 1,
        data_dim: 3,
        docs: vec![Some(vec![
            ("id".to_string(), JsonValue::Int(999)),
            ("key".to_string(), JsonValue::Str("v".to_string())),
        ])],
        attributes: vec![],
        hnsw_params: None,
    });
    assert!(result.is_ok());
    let docs = db
        .query(VectorSearchArgs {
            query: bits(vec![0.1, 0.2, 0.3]),
            k: 1,
            filter_inputs: None,
            hnsw_params: None,
        })
        .unwrap();
    assert_eq!(parse(&docs[0])["id"], serde_json::Value::from(1u64));
}

fn records_from_pending(bytes: Vec<u8>) -> Vec<WALRecord> {
    bytes
        .split(|b| *b == b'\n')
        .filter(|l| !l.is_empty())
        .map(|line| {
            let v: serde_json::Value = serde_json::from_slice(line).unwrap();
            WALRecord {
                log_id: v["log_id"].as_u64().unwrap(),
                version: v["version"].as_str().unwrap().to_string(),
                operation: match v["operation"].as_str().unwrap() {
                    "Upsert" => WALOperation::Upsert,
                    _ => WALOperation::Delete,
                },
                data: v["data"]
                    .as_array()
                    .unwrap()
                    .iter()
                    .map(|b| b.as_u64().unwrap() as u8)
                    .collect(),
            }
        })
        .collect()
}

#[test]
fn recovery_replays_upserts_at_recorded_ids() {
    let mut db = flat_db(3, MetricType::L2);
    upsert_two(&mut db, vec![0.1, 0.2, 0.3, 0.4, 0.5, 0.6], age_attrs());
    let pending = db.persistence.take_pending();
    let records = records_from_pending(pending);
    assert_eq!(records.len(), 1);

    let mut db2 = flat_db(3, MetricType::L2);
    db2.recover_database(records).unwrap();
    let docs = db2
        .query(VectorSearchArgs {
            query: bits(vec![0.1, 0.2, 0.3]),
            k: 10,
            filter_inputs: None,
            hnsw_params: None,
        })
        .unwrap();
    assert_eq!(docs.len(), 2);
    assert_eq!(parse(&docs[0])["key"], serde_json::Value::from("value1"));
    assert_eq!(parse(&docs[0])["id"], serde_json::Value::from(1u64));
    // replay restored the attribute index too
    let filtered = db2
        .query(VectorSearchArgs {
            query: bits(vec![0.1, 0.2, 0.3]),
            k: 10,
            filter_inputs: Some(vec![IntFilterInput {
                field: "age".to_string(),
                op: FilterOp::Equal,
                target: 20,
            }]),
            hnsw_params: None,
        })
        .unwrap();
    assert_eq!(filtered.len(), 1);
    assert_eq!(parse(&filtered[0])["key"], serde_json::Value::from("value2"));
    // replay did not append to the WAL and ids continue above the recorded ones
    assert_eq!(db2.persistence.take_pending(), Vec::<u8>::new());
    let mut st = db2.scalar_storage;
    assert_eq!(st.gen_incr_ids(1).unwrap(), vec![3]);
}

#[test]
fn recovery_rejects_delete_records() {
    let mut db = flat_db(3, MetricType::L2);
    let records = vec![WALRecord {
        log_id: 1,
        version: "0.1.0".to_string(),
        operation: WALOperation::Delete,
        data: vec![],
    }];
    match db.recover_database(records) {
        Err(DBError::CreateError(_)) => {}
        _ => panic!("expected a CreateError"),
    }
}

#[test]
fn recovery_rejects_malformed_payload() {
    let mut db = flat_db(3, MetricType::L2);
    let records = vec![WALRecord {
        log_id: 1,
        version: "0.1.0".to_string(),
        operation: WALOperation::Upsert,
        data: vec![7, 7, 7],
    }];
    match db.recover_database(records) {
        Err(DBError::CreateError(_)) => {}
        _ => panic!("expected a CreateError"),
    }
}

#[test]
fn hnsw_settings_take_defaults() {
    let setting = HnswIndexSetting::from_option(&HnswIndexOption {
        ef_construction: None,
        max_elements: Some(1000),
        max_nb_connection: None,
        max_layer: None,
    });
    assert_eq!(setting.ef_construction, 200);
    assert_eq!(setting.max_elements, 1000);
    assert_eq!(setting.max_nb_connection, 16);
    assert_eq!(setting.max_layer, 3);
}

#[test]
fn hnsw_query_without_options_is_an_error() {
    let q = SearchQuery::new(bits(vec![0.1]));
    assert!(q.get_hnsw().is_err());
}

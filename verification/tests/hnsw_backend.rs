// The approximate (HNSW) side of the index contract, exercised through an
// implementation of the library's `Index` trait over the hnsw_rs graph — the
// same shape the host program uses for its HNSW backend.

use anndists::dist::DistL2;
use hnsw_rs::api::AnnT;
use hnsw_rs::hnsw::Hnsw;

use vecdb::index::{
    HnswSearchOption, Index, IndexType, InsertParams, MetricType, SearchQuery, SearchResult,
};
use vecdb::json::JsonValue;
use vecdb::merror::IndexError;
use vecdb::vecdb::{DatabaseParams, DocMap, VectorDatabase, VectorInsertArgs, VectorSearchArgs};

struct HnswBackend {
    dim: u32,
    inner: Hnsw<'static, f32, DistL2>,
}

fn sortable(f: f32) -> u32 {
    let b = f.to_bits();
    if b & 0x8000_0000 != 0 {
        !b
    } else {
        b | 0x8000_0000
    }
}

fn floats_of(bits: &[u32]) -> Vec<f32> {
    bits.iter().map(|b| f32::from_bits(*b)).collect()
}

impl Index for HnswBackend {
    fn insert(&mut self, params: &InsertParams) -> Result<(), IndexError> {
        if params.labels.len() != params.rows || params.dim != self.dim as usize {
            return Err(IndexError::InsertionError("bad shape".to_string()));
        }
        for t in 0..params.rows {
            let row = floats_of(&params.data[t * params.dim..(t + 1) * params.dim]);
            self.inner.insert_data(&row, params.labels[t] as usize);
        }
        Ok(())
    }

    fn search(&mut self, query: &SearchQuery, k: usize) -> Result<SearchResult, IndexError> {
        let ef_search = match &query.hnsw {
            Some(o) => o.ef_search as usize,
            None => {
                return Err(IndexError::QueryError(
                    "HNSW search option is not set".to_string(),
                ));
            }
        };
        let neighbours = self.inner.search_neighbours(&floats_of(&query.vector), k, ef_search);
        let kept: Vec<_> = neighbours
            .into_iter()
            .filter(|n| match &query.id_filter {
                Some(f) => f.filter(&(n.d_id as u64)),
                None => true,
            })
            .collect();
        Ok(SearchResult {
            distances: kept.iter().map(|n| sortable(n.distance)).collect(),
            labels: kept.iter().map(|n| n.d_id as u64).collect(),
        })
    }
}

fn hnsw_db(dim: u32) -> VectorDatabase<HnswBackend> {
    let backend = HnswBackend { dim, inner: Hnsw::new(16, 500, 3, 200, DistL2) };
    let params = DatabaseParams {
        dim,
        metric_type: MetricType::L2,
        index_type: IndexType::Hnsw,
        hnsw_params: None,
        version: "0.1.0".to_string(),
    };
    VectorDatabase::new(params, backend).unwrap()
}

fn bits(v: Vec<f32>) -> Vec<u32> {
    v.into_iter().map(|x| x.to_bits()).collect()
}

fn doc(value: &str) -> DocMap {
    vec![("key".to_string(), JsonValue::Str(value.to_string()))]
}

#[test]
fn hnsw_round_trip_finds_first_row() {
    let mut db = hnsw_db(3);
    let res = db.upsert(VectorInsertArgs {
        flat_data: bits(vec![1.0, 0.0, 0.0, 0.0, 1.0, 0.0]),
        data_row: 2,
        data_dim: 3,
        docs: vec![Some(doc("value1")), Some(doc("value2"))],
        attributes: vec![],
        hnsw_params: None,
    });
    assert!(res.is_ok());

    let result = db
        .query(VectorSearchArgs {
            query: bits(vec![1.0, 0.0, 0.0]),
            k: 10,
            filter_inputs: None,
            hnsw_params: Some(HnswSearchOption { ef_search: 200 }),
        })
        .unwrap();
    assert!(!result.is_empty());
    let first: serde_json::Value = serde_json::from_slice(&result[0]).unwrap();
    assert_eq!(first["id"], serde_json::Value::from(1u64));
    assert_eq!(first["key"], serde_json::Value::from("value1"));
}

#[test]
fn hnsw_query_without_ef_search_fails() {
    let mut db = hnsw_db(3);
    db.upsert(VectorInsertArgs {
        flat_data: bits(vec![1.0, 0.0, 0.0]),
        data_row: 1,
        data_dim: 3,
        docs: vec![None],
        attributes: vec![],
        hnsw_params: None,
    })
    .unwrap();
    let result = db.query(VectorSearchArgs {
        query: bits(vec![1.0, 0.0, 0.0]),
        k: 1,
        filter_inputs: None,
        hnsw_params: None,
    });
    assert!(result.is_err());
}

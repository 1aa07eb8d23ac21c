use vecdb::filter::IdFilter;
use vecdb::index::{Index, InsertParams, MetricType, SearchQuery};
use vecdb::flat::FlatIndex;

type DistFn = fn(&Vec<u32>, &Vec<u32>) -> u32;

// An order-preserving key for an f32: ascending keys mean ascending floats.
fn sortable(f: f32) -> u32 {
    let b = f.to_bits();
    if b & 0x8000_0000 != 0 {
        !b
    } else {
        b | 0x8000_0000
    }
}

fn l2_key(a: &Vec<u32>, b: &Vec<u32>) -> u32 {
    let mut s: f32 = 0.0;
    for i in 0..a.len() {
        let d = f32::from_bits(a[i]) - f32::from_bits(b[i]);
        s += d * d;
    }
    sortable(s)
}

fn bits(v: Vec<f32>) -> Vec<u32> {
    v.into_iter().map(|x| x.to_bits()).collect()
}

fn setup(nrow: u32, dim: u32) -> (FlatIndex<DistFn>, Vec<u32>, Vec<u64>) {
    let index = FlatIndex::new(dim, MetricType::L2, l2_key as DistFn)
        .expect("Failed to initialize index");
    let data: Vec<u32> = (1..(dim * nrow + 1)).map(|e| (e as f32).to_bits()).collect();
    let labels: Vec<u64> = (1u64..(nrow + 1) as u64).collect();
    (index, data, labels)
}

#[test]
fn flat_test_insert_many() {
    let (mut index, data, labels) = setup(2, 4);
    let insert_result = index.insert(&InsertParams::new(data, 2, 4, labels));
    assert!(insert_result.is_ok());
    let query = SearchQuery::new(bits(vec![1.0, 2.0, 3.0, 4.0]));
    let res = index.search(&query, 10).unwrap();
    assert!(res.labels.len() == 2);
}

#[test]
fn flat_test_search() {
    let (mut index, data, labels) = setup(2, 4);
    let insert_result = index.insert(&InsertParams::new(data, 2, 4, labels.clone()));
    assert!(insert_result.is_ok());

    let query = bits(vec![1.1, 2.1, 2.9, 3.9]);
    let k: usize = 2;
    let result = index.search(&SearchQuery::new(query), k);

    assert!(result.is_ok());
    let search_result = result.unwrap();
    assert_eq!(search_result.labels.len(), k);
    assert_eq!(search_result.labels[0], labels[0]);
}

#[test]
fn flat_test_search_with_params() {
    let (mut index, data, labels) = setup(4, 5);
    let insert_result = index.insert(&InsertParams::new(data, 4, 5, labels.clone()));
    assert!(insert_result.is_ok(), "error from insert");

    let query = bits(vec![1.1, 2.1, 2.9, 3.9, 5.0]);
    let k: usize = 3;
    let original_result = index.search(&SearchQuery::new(query.clone()), k);
    assert!(original_result.is_ok(), "error from search");
    assert_eq!(original_result.unwrap().labels[0], labels[0]);

    let mut filter = IdFilter::new();
    filter.add_all(&labels[1..]);
    let result = index.search(&SearchQuery::new(query).with(&filter), k);

    assert!(result.is_ok(), "error from search");
    let search_result = result.unwrap();
    assert_eq!(search_result.labels.len(), k);
    assert_ne!(search_result.labels[0], labels[0]);
}

#[test]
fn flat_clamps_k_to_held_rows() {
    let (mut index, data, labels) = setup(2, 4);
    index.insert(&InsertParams::new(data, 2, 4, labels)).unwrap();
    let res = index.search(&SearchQuery::new(bits(vec![0.0, 0.0, 0.0, 0.0])), 100).unwrap();
    assert_eq!(res.labels.len(), 2);
    assert_eq!(res.distances.len(), 2);
    let res1 = index.search(&SearchQuery::new(bits(vec![0.0, 0.0, 0.0, 0.0])), 1).unwrap();
    assert_eq!(res1.labels.len(), 1);
}

#[test]
fn flat_empty_index_answers_empty() {
    let mut index = FlatIndex::new(3, MetricType::L2, l2_key as DistFn).unwrap();
    let res = index.search(&SearchQuery::new(bits(vec![0.1, 0.2, 0.3])), 5);
    assert!(res.is_ok());
    let res = res.unwrap();
    assert!(res.labels.is_empty());
    assert!(res.distances.is_empty());
}

#[test]
fn flat_ties_break_toward_lower_label() {
    let mut index = FlatIndex::new(2, MetricType::L2, l2_key as DistFn).unwrap();
    let row = vec![1.0f32, 2.0];
    let mut data = bits(row.clone());
    data.extend(bits(row.clone()));
    index.insert(&InsertParams::new(data, 2, 2, vec![9, 4])).unwrap();
    let res = index.search(&SearchQuery::new(bits(row)), 2).unwrap();
    assert_eq!(res.labels, vec![4, 9]);
    assert_eq!(res.distances[0], res.distances[1]);
}

#[test]
fn flat_rejects_bad_shapes() {
    let (mut index, data, labels) = setup(2, 4);
    assert!(index.insert(&InsertParams::new(data.clone(), 2, 3, labels.clone())).is_err());
    assert!(index.insert(&InsertParams::new(data.clone(), 3, 4, vec![1, 2, 3])).is_err());
    assert!(index.insert(&InsertParams::new(data, 2, 4, vec![1])).is_err());
    let res = index.search(&SearchQuery::new(bits(vec![1.0])), 1);
    assert!(res.is_err());
}

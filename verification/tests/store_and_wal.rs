use vecdb::merror::DBError;
use vecdb::persistence::{Persistence, RollbackGuard, WALOperation};
use vecdb::scalar::new_scalar_storage;

#[test]
fn store_put_get() {
    let mut st = new_scalar_storage();
    assert_eq!(st.get(b"missing").unwrap(), None);
    st.put(b"k1", b"v1").unwrap();
    st.put(b"k2", b"v2").unwrap();
    assert_eq!(st.get(b"k1").unwrap(), Some(b"v1".to_vec()));
    st.put(b"k1", b"v3").unwrap();
    assert_eq!(st.get(b"k1").unwrap(), Some(b"v3".to_vec()));
    assert_eq!(st.get(b"k2").unwrap(), Some(b"v2".to_vec()));
}

#[test]
fn store_multi_get_value() {
    let mut st = new_scalar_storage();
    st.put(&1u64.to_be_bytes(), b"{\"msg\":\"Hello, world\"}").unwrap();
    st.put(&2u64.to_be_bytes(), b"{\"msg\":\"Goodbye, world\"}").unwrap();
    let docs = st.multi_get_value(&[1, 2, 9]).unwrap();
    assert_eq!(docs.len(), 3);
    let d0: serde_json::Value = serde_json::from_slice(&docs[0]).unwrap();
    assert_eq!(d0["msg"], serde_json::Value::from("Hello, world"));
    let d1: serde_json::Value = serde_json::from_slice(&docs[1]).unwrap();
    assert_eq!(d1["msg"], serde_json::Value::from("Goodbye, world"));
    // a missing document surfaces as the empty object
    assert_eq!(docs[2], b"{}".to_vec());
}

#[test]
fn store_get_value_by_id() {
    let mut st = new_scalar_storage();
    st.put(&3u64.to_be_bytes(), b"{\"name\":\"Alice\"}").unwrap();
    assert_eq!(st.get_value(3).unwrap(), Some(b"{\"name\":\"Alice\"}".to_vec()));
    assert_eq!(st.get_value(4).unwrap(), None);
}

#[test]
fn id_allocation_monotonic() {
    let mut st = new_scalar_storage();
    let first = st.gen_incr_ids(3).unwrap();
    assert_eq!(first, vec![1, 2, 3]);
    let second = st.gen_incr_ids(2).unwrap();
    assert_eq!(second, vec![4, 5]);
    for a in &first {
        for b in &second {
            assert!(a < b);
        }
    }
    let third = st.gen_incr_ids(1).unwrap();
    assert_eq!(third, vec![6]);
}

#[test]
fn id_allocation_rejects_bad_mark() {
    let mut st = new_scalar_storage();
    st.put(b"__id_max__", b"short").unwrap();
    match st.gen_incr_ids(1) {
        Err(DBError::GetError(_)) => {}
        other => panic!("expected a GetError, got {:?}", other.is_ok()),
    }
}

#[test]
fn wal_log_ids_increase_gap_free() {
    let st = new_scalar_storage();
    let mut p = Persistence::new("0.1.0".to_string(), &st).unwrap();
    assert_eq!(p.get_log_id(), 0);
    let id1 = p.write_wal(WALOperation::Upsert, vec![1]).unwrap();
    let id2 = p.write_wal(WALOperation::Upsert, vec![2]).unwrap();
    let id3 = p.write_wal(WALOperation::Delete, vec![]).unwrap();
    assert_eq!(id1, 1);
    assert_eq!(id2, 2);
    assert_eq!(id3, 3);
    assert_eq!(p.get_log_id(), 3);
    let bytes = p.take_pending();
    let lines: Vec<&[u8]> = bytes.split(|b| *b == b'\n').filter(|l| !l.is_empty()).collect();
    assert_eq!(lines.len(), 3);
    assert_eq!(p.take_pending(), Vec::<u8>::new());
}

#[test]
fn wal_counter_starts_from_stored_mark() {
    let mut st = new_scalar_storage();
    st.put(b"__wal_id__", &9u64.to_be_bytes()).unwrap();
    let mut p = Persistence::new("0.1.0".to_string(), &st).unwrap();
    assert_eq!(p.get_log_id(), 9);
    let id = p.write_wal(WALOperation::Upsert, vec![]).unwrap();
    assert_eq!(id, 10);
}

#[test]
fn wal_rejects_malformed_stored_mark() {
    let mut st = new_scalar_storage();
    st.put(b"__wal_id__", b"bad").unwrap();
    assert!(Persistence::new("0.1.0".to_string(), &st).is_err());
}

#[test]
fn rollback_guard_commit() {
    let guard = RollbackGuard::new(|| {});
    guard.commit();
}

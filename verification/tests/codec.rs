use vecdb::bytes::{i64_to_dec, u64_from_be_bytes, u64_to_be_bytes, u64_to_dec};
use vecdb::json::{json_check_wf, json_to_bytes, JsonValue};
use vecdb::persistence::{WALOperation, WALRecord};
use vecdb::wal_payload::{decode_payload, UpsertPayload};

#[test]
fn be64_roundtrip() {
    for v in [0u64, 1, 255, 256, 0xdead_beef, u64::MAX] {
        let b = u64_to_be_bytes(v);
        assert_eq!(b.len(), 8);
        assert_eq!(u64_from_be_bytes(b.as_slice()), v);
    }
    assert_eq!(u64_to_be_bytes(1), vec![0, 0, 0, 0, 0, 0, 0, 1]);
}

#[test]
fn decimal_rendering() {
    assert_eq!(u64_to_dec(0), b"0".to_vec());
    assert_eq!(u64_to_dec(12345), b"12345".to_vec());
    assert_eq!(u64_to_dec(u64::MAX), b"18446744073709551615".to_vec());
    assert_eq!(i64_to_dec(-42), b"-42".to_vec());
    assert_eq!(i64_to_dec(7), b"7".to_vec());
    assert_eq!(i64_to_dec(i64::MIN), b"-9223372036854775808".to_vec());
}

#[test]
fn json_encoding_exact() {
    let doc = JsonValue::Obj(vec![
        ("a".to_string(), JsonValue::Int(-3)),
        ("b".to_string(), JsonValue::Str("x\"y\\z".to_string())),
        (
            "c".to_string(),
            JsonValue::Arr(vec![
                JsonValue::Null,
                JsonValue::Bool(true),
                JsonValue::Bool(false),
                JsonValue::UInt(7),
                JsonValue::Num("1.5".to_string()),
            ]),
        ),
    ]);
    let bytes = json_to_bytes(&doc);
    assert_eq!(
        String::from_utf8(bytes.clone()).unwrap(),
        "{\"a\":-3,\"b\":\"x\\\"y\\\\z\",\"c\":[null,true,false,7,1.5]}"
    );
    // what the encoder produces is real JSON
    let parsed: serde_json::Value = serde_json::from_slice(&bytes).unwrap();
    assert_eq!(parsed["a"], serde_json::Value::from(-3i64));
    assert_eq!(parsed["c"][3], serde_json::Value::from(7u64));
}

#[test]
fn json_control_chars_escaped() {
    let v = JsonValue::Str("a\nb\u{1}".to_string());
    let bytes = json_to_bytes(&v);
    assert_eq!(String::from_utf8(bytes).unwrap(), "\"a\\u000ab\\u0001\"");
}

#[test]
fn json_unicode_passthrough() {
    let v = JsonValue::Str("héllo\u{1F600}".to_string());
    let bytes = json_to_bytes(&v);
    let parsed: serde_json::Value = serde_json::from_slice(&bytes).unwrap();
    assert_eq!(parsed, serde_json::Value::from("héllo\u{1F600}"));
}

#[test]
fn json_wf_checks_numeric_literals() {
    assert!(json_check_wf(&JsonValue::Num("1.5e-3".to_string())));
    assert!(!json_check_wf(&JsonValue::Num(String::new())));
    assert!(!json_check_wf(&JsonValue::Num("nope".to_string())));
    assert!(!json_check_wf(&JsonValue::Arr(vec![JsonValue::Num("x".to_string())])));
    assert!(json_check_wf(&JsonValue::Obj(vec![(
        "n".to_string(),
        JsonValue::Num("-2E+8".to_string()),
    )])));
}

#[test]
fn payload_roundtrip() {
    let payload = UpsertPayload {
        ids: vec![5, 6],
        dim: 3,
        flat: vec![1, 2, 3, 4, 5, 6],
        docs: vec![b"{\"k\":1}".to_vec(), b"{}".to_vec()],
        attrs: vec![vec![("age".to_string(), 10i64), ("size".to_string(), -2i64)], vec![]],
    };
    let bytes = payload.encode();
    let decoded = decode_payload(bytes.as_slice()).expect("payload must decode");
    assert_eq!(decoded.ids, vec![5, 6]);
    assert_eq!(decoded.dim, 3);
    assert_eq!(decoded.flat, vec![1, 2, 3, 4, 5, 6]);
    assert_eq!(decoded.docs[0], b"{\"k\":1}".to_vec());
    assert_eq!(decoded.docs[1], b"{}".to_vec());
    assert_eq!(decoded.attrs[0][0].0, "age");
    assert_eq!(decoded.attrs[0][0].1, 10);
    assert_eq!(decoded.attrs[0][1].1, -2);
    assert!(decoded.attrs[1].is_empty());
}

#[test]
fn payload_rejects_truncation() {
    let payload = UpsertPayload {
        ids: vec![1],
        dim: 1,
        flat: vec![9],
        docs: vec![b"{}".to_vec()],
        attrs: vec![vec![]],
    };
    let bytes = payload.encode();
    assert!(decode_payload(&bytes.as_slice()[..bytes.len() - 1]).is_none());
    let mut extended = bytes.clone();
    extended.push(0);
    assert!(decode_payload(extended.as_slice()).is_none());
}

#[test]
fn wal_line_is_json() {
    let record = WALRecord {
        log_id: 7,
        version: "0.1.0".to_string(),
        operation: WALOperation::Upsert,
        data: vec![1, 255, 0],
    };
    let line = record.to_line_bytes();
    assert_eq!(*line.last().unwrap(), b'\n');
    let parsed: serde_json::Value = serde_json::from_slice(&line[..line.len() - 1]).unwrap();
    assert_eq!(parsed["log_id"], serde_json::Value::from(7u64));
    assert_eq!(parsed["version"], serde_json::Value::from("0.1.0"));
    assert_eq!(parsed["operation"], serde_json::Value::from("Upsert"));
    let data: Vec<u8> = parsed["data"]
        .as_array()
        .unwrap()
        .iter()
        .map(|v| v.as_u64().unwrap() as u8)
        .collect();
    assert_eq!(data, vec![1, 255, 0]);
}

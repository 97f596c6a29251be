use mini_db::codec::Cursor;
use mini_db::schema::{RangeRecord, Record, TableDef, Value, ValueType};

#[test]
fn test_record_creation() {
    let rec = Record::new()
        .add_str("name", b"Alice".to_vec())
        .add_int64("age", 30);

    assert_eq!(rec.len(), 2);
    assert!(rec.is_valid());
    assert_eq!(rec.get("name"), Some(&Value::Bytes(b"Alice".to_vec())));
    assert_eq!(rec.get("age"), Some(&Value::Int64(30)));
}

#[test]
fn test_record_get() {
    let rec = Record::new()
        .add_str("key", b"value".to_vec())
        .add_int64("count", 42);

    assert_eq!(rec.get("key"), Some(&Value::Bytes(b"value".to_vec())));
    assert_eq!(rec.get("count"), Some(&Value::Int64(42)));
    assert_eq!(rec.get("nonexistent"), None);
}

#[test]
fn test_range_record() {
    let range = RangeRecord::new().add_int64_range("age", 20, 30);

    assert!(range.is_valid());
    assert_eq!(range.cols, vec!["age"]);
    assert_eq!(range.val_starts, vec![Value::Int64(20)]);
    assert_eq!(range.val_ends, vec![Value::Int64(30)]);
}

#[test]
fn test_table_def_creation() {
    let tdef = TableDef::new("users", 10)
        .add_column("name", ValueType::Bytes)
        .add_column("age", ValueType::Int64)
        .with_pkeys(1);

    assert_eq!(tdef.name, "users");
    assert_eq!(tdef.cols.len(), 2);
    assert_eq!(tdef.pkeys, 1);
    assert_eq!(tdef.prefix, 10);
}

#[test]
fn test_encode_decode_key() {
    let tdef = TableDef::new("test", 5)
        .add_column("id", ValueType::Int64)
        .add_column("name", ValueType::Bytes);

    let vals = vec![Value::Int64(42), Value::Bytes(b"test".to_vec())];
    let encoded = tdef.encode_key(&vals).unwrap();

    let decoded = tdef.decode_values(&encoded).unwrap();
    assert_eq!(vals, decoded);
}

#[test]
fn test_serialize_deserialize() {
    let tdef = TableDef::new("users", 10)
        .add_column("name", ValueType::Bytes)
        .add_column("age", ValueType::Int64)
        .with_pkeys(1);

    let serialized = tdef.serialize().unwrap();
    let deserialized = TableDef::deserialize(&serialized).unwrap();

    assert_eq!(tdef, deserialized);
}

#[test]
fn test_check_record() {
    let tdef = TableDef::new("users", 10)
        .add_column("name", ValueType::Bytes)
        .add_column("age", ValueType::Int64)
        .with_pkeys(1);

    let mut rec = Record::new()
        .add_int64("age", 30)
        .add_str("name", b"Alice".to_vec());

    tdef.check_record(&mut rec).unwrap();

    // After reordering, name should come first
    assert_eq!(rec.cols[0], "name");
    assert_eq!(rec.cols[1], "age");
}

#[test]
fn test_value_int64() {
    let val = Value::Int64(42);
    assert_eq!(val.value_type(), ValueType::Int64);
    assert_eq!(val.as_i64(), Some(42));
}

#[test]
fn test_value_bytes() {
    let val = Value::Bytes(b"hello".to_vec());
    assert_eq!(val.value_type(), ValueType::Bytes);
    assert_eq!(val.as_bytes(), Some(b"hello".as_ref()));
}

#[test]
fn test_value_serialization() {
    let val = Value::Int64(12345);
    let mut buffer = Vec::new();
    val.write_to(&mut buffer).unwrap();

    let mut cursor = Cursor::new(buffer);
    let deserialized = Value::read_from(&mut cursor).unwrap();

    assert_eq!(val, deserialized);
}

#[test]
fn test_value_from_conversions() {
    let v1: Value = 42i64.into();
    assert_eq!(v1, Value::Int64(42));

    let v2: Value = "hello".into();
    assert_eq!(v2, Value::Bytes(b"hello".to_vec()));
}

use kvstore::fileformat::{snapshot_file_name, FileFormat};
use kvstore::store::{get_store, KeyValueStore, StoreError};
use kvstore::value::Value;

#[test]
fn test_snapshot_file_name() {
    assert_eq!(snapshot_file_name("test-file", &FileFormat::JSON), "test-file.json");
    assert_eq!(snapshot_file_name("test-file", &FileFormat::CSV), "test-file.csv");
    assert_eq!(FileFormat::JSON.extension(), "json");
    assert_eq!(FileFormat::CSV.extension(), "csv");
}

#[test]
fn test_json_exact_text() {
    let mut store = get_store();
    store.set("age".to_string(), Value::Number("26".to_string()));
    store.set("name".to_string(), Value::String("John".to_string()));
    let text = store.save_to_string(&FileFormat::JSON).unwrap();
    assert_eq!(text, "{\"age\":26,\"name\":\"John\"}");
}

#[test]
fn test_csv_exact_text() {
    let mut store = get_store();
    store.set("age".to_string(), Value::Number("26".to_string()));
    let text = store.save_to_string(&FileFormat::CSV).unwrap();
    assert_eq!(text, "Key,Value\nage,26\n");
}

#[test]
fn test_json_round_trip_full_fidelity() {
    let mut store = get_store();
    store.set("name".to_string(), Value::String("John".to_string()));
    store.set("age".to_string(), Value::Number("26".to_string()));
    store.set("married".to_string(), Value::Bool(true));
    store.set("job".to_string(), Value::Null);
    store.set(
        "citizenships".to_string(),
        Value::Array(vec![
            Value::String("American".to_string()),
            Value::String("Swiss".to_string()),
        ]),
    );
    store.set(
        "address".to_string(),
        Value::Object(vec![
            ("city".to_string(), Value::String("NYC".to_string())),
            ("number".to_string(), Value::Number("12".to_string())),
        ]),
    );

    let text = store.save_to_string(&FileFormat::JSON).unwrap();
    let loaded = KeyValueStore::load_from_string(&text, &FileFormat::JSON).unwrap();

    assert_eq!(loaded.len(), store.len());
    for key in ["name", "age", "married", "job", "citizenships", "address"] {
        assert_eq!(loaded.get(key.to_string()), store.get(key.to_string()));
    }
}

#[test]
fn test_json_example_number() {
    let mut store = get_store();
    store.set("age".to_string(), Value::Number("26".to_string()));
    let text = store.save_to_string(&FileFormat::JSON).unwrap();
    let loaded = KeyValueStore::load_from_string(&text, &FileFormat::JSON).unwrap();
    assert_eq!(
        loaded.get("age".to_string()),
        Some(Value::Number("26".to_string()))
    );
}

#[test]
fn test_csv_example_number_lossy() {
    let mut store = get_store();
    store.set("age".to_string(), Value::Number("26".to_string()));
    let text = store.save_to_string(&FileFormat::CSV).unwrap();
    let loaded = KeyValueStore::load_from_string(&text, &FileFormat::CSV).unwrap();
    assert_eq!(
        loaded.get("age".to_string()),
        Some(Value::String("26".to_string()))
    );
}

#[test]
fn test_csv_round_trip_strings() {
    let mut store = get_store();
    store.set("plain".to_string(), Value::String("hello".to_string()));
    store.set(
        "with,comma".to_string(),
        Value::String("a,b and \"quotes\"".to_string()),
    );
    store.set(
        "newline".to_string(),
        Value::String("line one\nline two".to_string()),
    );
    let text = store.save_to_string(&FileFormat::CSV).unwrap();
    let loaded = KeyValueStore::load_from_string(&text, &FileFormat::CSV).unwrap();
    assert_eq!(loaded.len(), 3);
    for key in ["plain", "with,comma", "newline"] {
        assert_eq!(loaded.get(key.to_string()), store.get(key.to_string()));
    }
}

#[test]
fn test_csv_lossy_structured_values() {
    let mut store = get_store();
    store.set("married".to_string(), Value::Bool(true));
    store.set("job".to_string(), Value::Null);
    store.set(
        "citizenships".to_string(),
        Value::Array(vec![
            Value::String("American".to_string()),
            Value::String("Swiss".to_string()),
        ]),
    );
    let text = store.save_to_string(&FileFormat::CSV).unwrap();
    let loaded = KeyValueStore::load_from_string(&text, &FileFormat::CSV).unwrap();
    assert_eq!(
        loaded.get("married".to_string()),
        Some(Value::String("true".to_string()))
    );
    assert_eq!(
        loaded.get("job".to_string()),
        Some(Value::String("null".to_string()))
    );
    assert_eq!(
        loaded.get("citizenships".to_string()),
        Some(Value::String("[\"American\",\"Swiss\"]".to_string()))
    );
}

#[test]
fn test_json_escapes_round_trip() {
    let mut store = get_store();
    store.set(
        "quote\"backslash\\".to_string(),
        Value::String("she said \"hi\\there\"".to_string()),
    );
    let text = store.save_to_string(&FileFormat::JSON).unwrap();
    let loaded = KeyValueStore::load_from_string(&text, &FileFormat::JSON).unwrap();
    assert_eq!(
        loaded.get("quote\"backslash\\".to_string()),
        Some(Value::String("she said \"hi\\there\"".to_string()))
    );
}

#[test]
fn test_empty_store_round_trips() {
    let store = get_store();
    let json = store.save_to_string(&FileFormat::JSON).unwrap();
    assert_eq!(json, "{}");
    let loaded = KeyValueStore::load_from_string(&json, &FileFormat::JSON).unwrap();
    assert_eq!(loaded.len(), 0);

    let csv = store.save_to_string(&FileFormat::CSV).unwrap();
    assert_eq!(csv, "Key,Value\n");
    let loaded = KeyValueStore::load_from_string(&csv, &FileFormat::CSV).unwrap();
    assert_eq!(loaded.len(), 0);
}

#[test]
fn test_json_load_accepts_whitespace() {
    let text = " {\n  \"name\" : \"John\" ,\n  \"tags\" : [ 1 , true , null ]\n}\n";
    let loaded = KeyValueStore::load_from_string(text, &FileFormat::JSON).unwrap();
    assert_eq!(
        loaded.get("name".to_string()),
        Some(Value::String("John".to_string()))
    );
    assert_eq!(
        loaded.get("tags".to_string()),
        Some(Value::Array(vec![
            Value::Number("1".to_string()),
            Value::Bool(true),
            Value::Null,
        ]))
    );
}

#[test]
fn test_json_parse_errors() {
    assert_eq!(
        KeyValueStore::load_from_string("not json", &FileFormat::JSON).unwrap_err(),
        StoreError::ParseError
    );
    assert_eq!(
        KeyValueStore::load_from_string("{\"a\":1", &FileFormat::JSON).unwrap_err(),
        StoreError::ParseError
    );
    // A top-level value that is not an object is rejected.
    assert_eq!(
        KeyValueStore::load_from_string("[1,2]", &FileFormat::JSON).unwrap_err(),
        StoreError::ParseError
    );
    // Trailing content after the object is rejected.
    assert_eq!(
        KeyValueStore::load_from_string("{}x", &FileFormat::JSON).unwrap_err(),
        StoreError::ParseError
    );
}

#[test]
fn test_csv_parse_error_unclosed_quote() {
    assert_eq!(
        KeyValueStore::load_from_string("Key,Value\n\"abc,1\n", &FileFormat::CSV).unwrap_err(),
        StoreError::ParseError
    );
}

#[test]
fn test_csv_skips_short_rows() {
    let loaded =
        KeyValueStore::load_from_string("Key,Value\njustakey\nk,v\n", &FileFormat::CSV).unwrap();
    assert_eq!(loaded.len(), 1);
    assert_eq!(
        loaded.get("k".to_string()),
        Some(Value::String("v".to_string()))
    );
    assert_eq!(loaded.get("justakey".to_string()), None);
}

#[test]
fn test_json_encode_error_for_malformed_number() {
    let mut store = get_store();
    store.set("bad".to_string(), Value::Number("not-a-number".to_string()));
    assert_eq!(
        store.save_to_string(&FileFormat::JSON).unwrap_err(),
        StoreError::EncodeError
    );
    // The CSV export renders the raw text and cannot fail.
    assert_eq!(
        store.save_to_string(&FileFormat::CSV).unwrap(),
        "Key,Value\nbad,not-a-number\n"
    );
}

#[test]
fn test_load_replaces_never_merges() {
    let text = "{\"only\":1}";
    let loaded = KeyValueStore::load_from_string(text, &FileFormat::JSON).unwrap();
    assert_eq!(loaded.len(), 1);
    assert_eq!(
        loaded.get("only".to_string()),
        Some(Value::Number("1".to_string()))
    );
    assert_eq!(loaded.get("other".to_string()), None);
}

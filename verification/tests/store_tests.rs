use std::sync::Mutex;

use kvstore::store::{get_store, KeyValueStore};
use kvstore::value::Value;

fn setup_store(store: &mut KeyValueStore) {
    store.set("name".to_string(), Value::String("John".to_string()));
    store.set("age".to_string(), Value::Number("26".to_string()));
    store.set("married".to_string(), Value::Bool(true));
    store.set(
        "citizenships".to_string(),
        Value::Array(vec![
            Value::String("American".to_string()),
            Value::String("Swiss".to_string()),
        ]),
    );
    store.set(
        "address".to_string(),
        Value::String("(NYC, Karlston 12)".to_string()),
    );
    store.set("job_occupation".to_string(), Value::Null);
}

#[test]
fn test_set_and_get() {
    let mut store = get_store();
    setup_store(&mut store);

    // String
    assert_eq!(
        store.get("name".to_string()),
        Some(Value::String("John".to_string()))
    );
    // Number
    assert_eq!(
        store.get("age".to_string()),
        Some(Value::Number("26".to_string()))
    );
    // Bool
    assert_eq!(store.get("married".to_string()), Some(Value::Bool(true)));
    // Array
    assert_eq!(
        store.get("citizenships".to_string()),
        Some(Value::Array(vec![
            Value::String("American".to_string()),
            Value::String("Swiss".to_string()),
        ]))
    );
    // Object rendered as text
    assert_eq!(
        store.get("address".to_string()),
        Some(Value::String("(NYC, Karlston 12)".to_string()))
    );
    // Null
    assert_eq!(store.get("job_occupation".to_string()), Some(Value::Null));
}

#[test]
fn test_remove() {
    let mut store = get_store();
    setup_store(&mut store);

    let keys: [&str; 6] = [
        "name",
        "age",
        "married",
        "citizenships",
        "address",
        "job_occupation",
    ];

    for key in keys {
        store.remove(&key.to_string());
        assert_eq!(store.get(key.to_string()), None);
    }
}

#[test]
fn test_overwrite_keeps_latest() {
    let mut store = get_store();
    store.set("k".to_string(), Value::String("first".to_string()));
    store.set("k".to_string(), Value::String("second".to_string()));
    assert_eq!(
        store.get("k".to_string()),
        Some(Value::String("second".to_string()))
    );
    assert_eq!(store.len(), 1);
}

#[test]
fn test_remove_absent_is_noop() {
    let mut store = get_store();
    store.set("kept".to_string(), Value::Bool(false));
    store.remove(&"missing".to_string());
    assert_eq!(store.get("kept".to_string()), Some(Value::Bool(false)));
    assert_eq!(store.get("missing".to_string()), None);
    assert_eq!(store.len(), 1);
}

#[test]
fn test_get_returns_copy() {
    let mut store = get_store();
    store.set("k".to_string(), Value::Array(vec![Value::Null]));
    let mut copy = store.get("k".to_string()).unwrap();
    if let Value::Array(elems) = &mut copy {
        elems.push(Value::Bool(true));
    }
    // Mutating the copy must not disturb what the store holds.
    assert_eq!(
        store.get("k".to_string()),
        Some(Value::Array(vec![Value::Null]))
    );
}

#[test]
fn test_locked_disjoint_writers_lose_no_updates() {
    // Two writers take turns on disjoint keys, taking the lock for each
    // operation; afterwards every update must be visible.
    let shared = Mutex::new(get_store());
    for i in 0..1000u32 {
        {
            let mut st = shared.lock().unwrap();
            st.set(format!("a{}", i), Value::Number(format!("{}", i)));
            assert_eq!(
                st.get(format!("a{}", i)),
                Some(Value::Number(format!("{}", i)))
            );
        }
        {
            let mut st = shared.lock().unwrap();
            st.set(format!("b{}", i), Value::Number(format!("{}", i)));
            assert_eq!(
                st.get(format!("b{}", i)),
                Some(Value::Number(format!("{}", i)))
            );
        }
    }
    let st = shared.lock().unwrap();
    assert_eq!(st.len(), 2000);
}

#[test]
fn test_number_from_text() {
    assert_eq!(
        Value::number_from_text("26".to_string()),
        Some(Value::Number("26".to_string()))
    );
    assert_eq!(
        Value::number_from_text("-2.5e3".to_string()),
        Some(Value::Number("-2.5e3".to_string()))
    );
    assert_eq!(Value::number_from_text("".to_string()), None);
    assert_eq!(Value::number_from_text("abc".to_string()), None);
    assert_eq!(Value::number_from_text("+1".to_string()), None);
}

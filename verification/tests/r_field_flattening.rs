//! Flattening the `r` field into `r_*` fields and rebuilding it.

use ditto_cot::json::{JsonMap, JsonNumber, JsonValue};
use ditto_cot::r_field::{flatten_document_r_field, flatten_r_field, unflatten_document_r_field, unflatten_r_field};

fn from_serde(v: &serde_json::Value) -> JsonValue {
    match v {
        serde_json::Value::Null => JsonValue::Null,
        serde_json::Value::Bool(b) => JsonValue::Bool(*b),
        serde_json::Value::Number(n) => JsonValue::Number(JsonNumber {
            text: n.to_string(),
            display: n.as_f64().map(|f| f.to_string()).unwrap_or_default(),
        }),
        serde_json::Value::String(s) => JsonValue::Str(s.clone()),
        serde_json::Value::Array(a) => JsonValue::Array(a.iter().map(from_serde).collect()),
        serde_json::Value::Object(o) => {
            let mut m = JsonMap::new();
            for (k, v) in o {
                m.insert(k.clone(), from_serde(v));
            }
            JsonValue::Object(m)
        }
    }
}

fn to_serde(v: &JsonValue) -> serde_json::Value {
    match v {
        JsonValue::Null => serde_json::Value::Null,
        JsonValue::Bool(b) => serde_json::Value::Bool(*b),
        JsonValue::Number(n) => serde_json::from_str(&n.text).unwrap(),
        JsonValue::Str(s) => serde_json::Value::String(s.clone()),
        JsonValue::Array(a) => serde_json::Value::Array(a.iter().map(to_serde).collect()),
        JsonValue::Object(m) => serde_json::Value::Object(map_to_serde(m)),
    }
}

fn map_to_serde(m: &JsonMap) -> serde_json::Map<String, serde_json::Value> {
    let mut o = serde_json::Map::new();
    for i in 0..m.len() {
        let (k, v) = m.entry_at(i);
        o.insert(k.clone(), to_serde(v));
    }
    o
}

fn json(text: &str) -> JsonValue {
    from_serde(&serde_json::from_str(text).unwrap())
}

fn object(text: &str) -> JsonMap {
    match json(text) {
        JsonValue::Object(m) => m,
        _ => panic!("not an object"),
    }
}

fn value(text: &str) -> serde_json::Value {
    serde_json::from_str(text).unwrap()
}

fn get(m: &JsonMap, k: &str) -> Option<serde_json::Value> {
    m.get(k).map(to_serde)
}

#[test]
fn test_flatten_simple_r_field() {
    let r_map = object(r#"{"simple": "test_value"}"#);
    let flattened = flatten_r_field(&r_map);
    assert_eq!(get(&flattened, "r_simple"), Some(value(r#""test_value""#)));
}

#[test]
fn test_flatten_nested_r_field() {
    let r_map = object(
        r#"{
        "takv": {"os": "35", "version": "5.4.0.11", "device": "GOOGLE PIXEL 7"},
        "contact": {"endpoint": "192.168.5.241:4242:tcp", "callsign": "BRAMA"}
    }"#,
    );
    let flattened = flatten_r_field(&r_map);
    assert_eq!(get(&flattened, "r_takv_os"), Some(value(r#""35""#)));
    assert_eq!(get(&flattened, "r_takv_version"), Some(value(r#""5.4.0.11""#)));
    assert_eq!(get(&flattened, "r_takv_device"), Some(value(r#""GOOGLE PIXEL 7""#)));
    assert_eq!(get(&flattened, "r_contact_endpoint"), Some(value(r#""192.168.5.241:4242:tcp""#)));
    assert_eq!(get(&flattened, "r_contact_callsign"), Some(value(r#""BRAMA""#)));
}

#[test]
fn test_unflatten_r_field() {
    let flattened = object(
        r#"{
        "r_takv_os": "35",
        "r_takv_version": "5.4.0.11",
        "r_contact_endpoint": "192.168.5.241:4242:tcp",
        "r_contact_callsign": "BRAMA",
        "other_field": "not_an_r_field"
    }"#,
    );
    let r_map = unflatten_r_field(&flattened);
    assert_eq!(get(&r_map, "takv"), Some(value(r#"{"os": "35", "version": "5.4.0.11"}"#)));
    assert_eq!(
        get(&r_map, "contact"),
        Some(value(r#"{"endpoint": "192.168.5.241:4242:tcp", "callsign": "BRAMA"}"#))
    );
    assert!(!r_map.contains_key("other_field"));
}

#[test]
fn test_round_trip_flattening() {
    let original_r_map = object(
        r#"{
        "takv": {"os": "35", "version": "5.4.0.11"},
        "contact": {"endpoint": "192.168.5.241:4242:tcp", "callsign": "BRAMA"}
    }"#,
    );
    let flattened = flatten_r_field(&original_r_map);
    let reconstructed = unflatten_r_field(&flattened);
    assert_eq!(get(&reconstructed, "takv"), Some(value(r#"{"os": "35", "version": "5.4.0.11"}"#)));
    assert_eq!(
        get(&reconstructed, "contact"),
        Some(value(r#"{"endpoint": "192.168.5.241:4242:tcp", "callsign": "BRAMA"}"#))
    );
}

#[test]
fn document_fields_round_trip() {
    let r = object(r#"{"__group": {"name": "Blue", "role": "Lead"}, "status": "ok"}"#);
    let mut doc = object(r#"{"_id": "x", "w": "a-f-G-U-C", "r": {"old": "gone"}}"#);
    flatten_document_r_field(&mut doc, &r);
    assert_eq!(
        serde_json::Value::Object(map_to_serde(&doc)),
        value(r#"{"_id": "x", "w": "a-f-G-U-C", "r___group_name": "Blue", "r___group_role": "Lead", "r_status": "ok"}"#)
    );
    let rebuilt = unflatten_document_r_field(&mut doc);
    assert_eq!(
        serde_json::Value::Object(map_to_serde(&rebuilt)),
        value(r#"{"__group": {"name": "Blue", "role": "Lead"}, "status": "ok"}"#)
    );
    assert_eq!(
        serde_json::Value::Object(map_to_serde(&doc)),
        value(r#"{"_id": "x", "w": "a-f-G-U-C", "r": {"__group": {"name": "Blue", "role": "Lead"}, "status": "ok"}}"#)
    );
}

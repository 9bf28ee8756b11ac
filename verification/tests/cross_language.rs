//! Stable keys across peers and implementations: the same detail section
//! read the same way, and an element added by one peer after another's
//! changes.

use base64::engine::general_purpose::URL_SAFE_NO_PAD;
use base64::Engine;
use ditto_cot::crdt::parse_detail_section_with_stable_keys;
use ditto_cot::json::{JsonMap, JsonNumber, JsonValue};
use ditto_cot::stable_keys::get_next_available_index;
use serde_json::Value;
use std::collections::hash_map::DefaultHasher;
use std::hash::{Hash, Hasher};

fn from_serde(v: &serde_json::Value) -> JsonValue {
    match v {
        serde_json::Value::Null => JsonValue::Null,
        serde_json::Value::Bool(b) => JsonValue::Bool(*b),
        serde_json::Value::Number(n) => JsonValue::Number(JsonNumber {
            text: n.to_string(),
            display: n.as_f64().map(|f| f.to_string()).unwrap_or_default(),
        }),
        serde_json::Value::String(s) => JsonValue::Str(s.clone()),
        serde_json::Value::Array(a) => JsonValue::Array(a.iter().map(from_serde).collect()),
        serde_json::Value::Object(o) => {
            let mut m = JsonMap::new();
            for (k, v) in o {
                m.insert(k.clone(), from_serde(v));
            }
            JsonValue::Object(m)
        }
    }
}

fn to_serde(v: &JsonValue) -> serde_json::Value {
    match v {
        JsonValue::Null => serde_json::Value::Null,
        JsonValue::Bool(b) => serde_json::Value::Bool(*b),
        JsonValue::Number(n) => serde_json::from_str(&n.text).unwrap(),
        JsonValue::Str(s) => serde_json::Value::String(s.clone()),
        JsonValue::Array(a) => serde_json::Value::Array(a.iter().map(to_serde).collect()),
        JsonValue::Object(m) => serde_json::Value::Object(map_to_serde(m)),
    }
}

fn map_to_serde(m: &JsonMap) -> serde_json::Map<String, serde_json::Value> {
    let mut o = serde_json::Map::new();
    for i in 0..m.len() {
        let (k, v) = m.entry_at(i);
        o.insert(k.clone(), to_serde(v));
    }
    o
}

fn state(xml: &str, doc_id: &str) -> serde_json::Map<String, Value> {
    map_to_serde(&parse_detail_section_with_stable_keys(xml, doc_id))
}

fn as_library(m: &serde_json::Map<String, Value>) -> JsonMap {
    match from_serde(&Value::Object(m.clone())) {
        JsonValue::Object(o) => o,
        _ => unreachable!(),
    }
}

fn base64_url_no_pad(bytes: &[u8]) -> String {
    URL_SAFE_NO_PAD.encode(bytes)
}

fn count_tag(m: &serde_json::Map<String, Value>, tag: &str) -> usize {
    m.values()
        .filter(|v| match v {
            Value::Object(obj) => obj.get("_tag") == Some(&Value::String(tag.to_string())),
            _ => false,
        })
        .count()
}

#[test]
fn test_cross_language_key_compatibility() {
    let detail = r#"<detail>
        <sensor type="optical" id="sensor-1"/>
        <sensor type="thermal" id="sensor-2"/>
        <contact callsign="ALPHA-01" endpoint="192.168.1.100:8080"/>
        <contact callsign="BRAVO-02" endpoint="192.168.1.101:8080"/>
        <status operational="true"/>
    </detail>"#;
    let result = state(detail, "test-doc-123");
    assert!(result.contains_key("status"), "Single element should use direct key");
    assert_eq!(count_tag(&result, "sensor"), 2, "Should have 2 sensor elements");
    assert_eq!(count_tag(&result, "contact"), 2, "Should have 2 contact elements");
}

#[test]
fn test_cross_language_stable_key_compatibility() {
    let test_xml = r#"<detail>
        <sensor type="optical" id="sensor-1" resolution="4K"/>
        <sensor type="thermal" id="sensor-2" resolution="1080p"/>
        <sensor type="radar" id="sensor-3" range="50km"/>
        <contact callsign="ALPHA-01" endpoint="192.168.1.100:8080" role="primary"/>
        <contact callsign="BRAVO-02" endpoint="192.168.1.101:8080" role="backup"/>
        <track course="45.0" speed="2.5" timestamp="2025-07-05T20:55:00Z"/>
        <track course="50.0" speed="3.0" timestamp="2025-07-05T20:58:00Z"/>
        <status operational="true" last_maintenance="2025-07-01T10:00:00Z"/>
        <acquisition method="manual" operator="SENSOR_OP_001"/>
    </detail>"#;
    let rust_keys: Vec<String> = state(test_xml, "cross-lang-test-doc").keys().cloned().collect();
    assert_eq!(rust_keys.len(), 9, "Should have 9 keys total");
    assert!(rust_keys.contains(&"status".to_string()), "Should have direct status key");
    assert!(rust_keys.contains(&"acquisition".to_string()), "Should have direct acquisition key");
    let duplicate_count = rust_keys.iter().filter(|k| *k != "status" && *k != "acquisition").count();
    assert_eq!(duplicate_count, 7, "Should have 7 duplicate elements with stable keys");
}

#[test]
fn test_cross_language_data_structure_compatibility() {
    let test_xml = r#"<detail>
        <sensor type="optical" id="sensor-1" zoom="10x"/>
        <sensor type="thermal" id="sensor-2" zoom="5x"/>
        <status operational="true"/>
    </detail>"#;
    let rust_result = state(test_xml, "test-doc");
    assert!(rust_result.contains_key("status"));
    let sensors: Vec<&Value> = rust_result
        .values()
        .filter(|v| match v {
            Value::Object(obj) => obj.get("_tag") == Some(&Value::String("sensor".to_string())),
            _ => false,
        })
        .collect();
    assert_eq!(sensors.len(), 2, "Should have 2 sensor entries");
    match sensors[0] {
        Value::Object(sensor_map) => {
            assert_eq!(sensor_map.get("_tag").unwrap(), &Value::String("sensor".to_string()));
            assert!(sensor_map.contains_key("type"), "Sensor should have a type");
        }
        _ => panic!("sensor_0 should be an object with metadata"),
    }
}

#[test]
fn test_cross_language_p2p_convergence() {
    let initial_xml = r#"<detail>
        <sensor type="optical" id="sensor-1"/>
        <sensor type="thermal" id="sensor-2"/>
        <contact callsign="ALPHA-01" endpoint="192.168.1.100:8080"/>
    </detail>"#;
    let mut rust_state = state(initial_xml, "conv-test");
    let sensor_1_key = rust_state
        .iter()
        .find(|(k, v)| match v {
            Value::Object(obj) => {
                obj.get("_tag") == Some(&Value::String("sensor".to_string())) && k.ends_with("_1")
            }
            _ => false,
        })
        .map(|(k, _)| k.clone())
        .unwrap();
    if let Some(Value::Object(sensor_map)) = rust_state.get_mut(&sensor_1_key) {
        sensor_map.insert("resolution".to_string(), Value::String("4K".to_string()));
    }
    rust_state.remove("contact");
    let next_index = get_next_available_index(&as_library(&rust_state), "conv-test", "sensor");
    assert_eq!(next_index, 2, "Next sensor index should be 2");

    let mut hasher = DefaultHasher::new();
    format!("{}{}{}", "conv-test", "sensor", "stable_key_salt").hash(&mut hasher);
    let b64_hash = base64_url_no_pad(&hasher.finish().to_be_bytes());
    let new_sensor_key = format!("{}_{}", b64_hash, next_index);
    let mut new_sensor = serde_json::Map::new();
    new_sensor.insert("_tag".to_string(), Value::String("sensor".to_string()));
    new_sensor.insert("type".to_string(), Value::String("lidar".to_string()));
    rust_state.insert(new_sensor_key, Value::Object(new_sensor));

    assert_eq!(rust_state.len(), 3);
    assert_eq!(count_tag(&rust_state, "sensor"), 3, "Should have 3 sensors after adding new one");
    assert!(!rust_state.contains_key("contact"));
    if let Some(Value::Object(updated_sensor)) = rust_state.get(&sensor_1_key) {
        assert_eq!(updated_sensor.get("resolution").unwrap(), &Value::String("4K".to_string()));
    }
}

#[test]
fn base64_of_known_bytes() {
    assert_eq!(base64_url_no_pad(b"Man"), "TWFu");
    assert_eq!(base64_url_no_pad(b"Ma"), "TWE");
    assert_eq!(base64_url_no_pad(&[0xfb, 0xff]), "-_8");
}

//! The detail section read with stable keys, written back, and the index
//! of the next repeated element.

use ditto_cot::crdt::{count_elements, parse_detail_section_with_stable_keys, parse_detail_section_with_stable_keys_checked};
use ditto_cot::json::{JsonMap, JsonNumber, JsonValue};
use ditto_cot::stable_keys::{generate_stable_key, get_next_available_index, is_stable_key, parse_stable_key};
use ditto_cot::writeback::convert_stable_keys_to_xml;

fn from_serde(v: &serde_json::Value) -> JsonValue {
    match v {
        serde_json::Value::Null => JsonValue::Null,
        serde_json::Value::Bool(b) => JsonValue::Bool(*b),
        serde_json::Value::Number(n) => JsonValue::Number(JsonNumber {
            text: n.to_string(),
            display: n.as_f64().map(|f| f.to_string()).unwrap_or_default(),
        }),
        serde_json::Value::String(s) => JsonValue::Str(s.clone()),
        serde_json::Value::Array(a) => JsonValue::Array(a.iter().map(from_serde).collect()),
        serde_json::Value::Object(o) => {
            let mut m = JsonMap::new();
            for (k, v) in o {
                m.insert(k.clone(), from_serde(v));
            }
            JsonValue::Object(m)
        }
    }
}

fn to_serde(v: &JsonValue) -> serde_json::Value {
    match v {
        JsonValue::Null => serde_json::Value::Null,
        JsonValue::Bool(b) => serde_json::Value::Bool(*b),
        JsonValue::Number(n) => serde_json::from_str(&n.text).unwrap(),
        JsonValue::Str(s) => serde_json::Value::String(s.clone()),
        JsonValue::Array(a) => serde_json::Value::Array(a.iter().map(to_serde).collect()),
        JsonValue::Object(m) => serde_json::Value::Object(map_to_serde(m)),
    }
}

fn map_to_serde(m: &JsonMap) -> serde_json::Map<String, serde_json::Value> {
    let mut o = serde_json::Map::new();
    for i in 0..m.len() {
        let (k, v) = m.entry_at(i);
        o.insert(k.clone(), to_serde(v));
    }
    o
}

fn json(text: &str) -> JsonValue {
    from_serde(&serde_json::from_str(text).unwrap())
}

fn object(text: &str) -> JsonMap {
    match json(text) {
        JsonValue::Object(m) => m,
        _ => panic!("not an object"),
    }
}

fn value(text: &str) -> serde_json::Value {
    serde_json::from_str(text).unwrap()
}

#[test]
fn test_parse_simple_detail() {
    let detail = r#"<detail><status operational="true"/></detail>"#;
    let result = parse_detail_section_with_stable_keys(detail, "test-doc");

    assert_eq!(result.len(), 1);
    assert!(result.contains_key("status"));

    let status = to_serde(result.get("status").unwrap());
    assert_eq!(status["operational"], serde_json::Value::String("true".to_string()));
}

#[test]
fn test_parse_duplicate_elements() {
    let detail = r#"<detail>
            <sensor type="optical" id="sensor-1"/>
            <sensor type="thermal" id="sensor-2"/>
            <sensor type="radar" id="sensor-3"/>
            <status operational="true"/>
        </detail>"#;

    let result = parse_detail_section_with_stable_keys(detail, "test-doc");

    assert_eq!(result.len(), 4);
    assert!(result.contains_key("status"));
    assert!(result.contains_key("test-doc_sensor_0"));
    assert!(result.contains_key("test-doc_sensor_1"));
    assert!(result.contains_key("test-doc_sensor_2"));

    let sensor0 = to_serde(result.get("test-doc_sensor_0").unwrap());
    assert_eq!(sensor0["_tag"], serde_json::Value::String("sensor".to_string()));
    assert_eq!(sensor0["_docId"], serde_json::Value::String("test-doc".to_string()));
    assert_eq!(sensor0["_elementIndex"], value("0"));
    assert_eq!(sensor0["type"], serde_json::Value::String("optical".to_string()));
}

#[test]
fn test_round_trip_conversion() {
    let detail = r#"<detail>
            <sensor type="optical" id="sensor-1"/>
            <sensor type="thermal" id="sensor-2"/>
            <status operational="true"/>
        </detail>"#;

    let parsed = parse_detail_section_with_stable_keys(detail, "test-doc");
    let reconstructed = convert_stable_keys_to_xml(&parsed);

    assert!(reconstructed.contains("<sensor"));
    assert!(reconstructed.contains("type=\"optical\""));
    assert!(reconstructed.contains("type=\"thermal\""));
    assert!(reconstructed.contains("<status"));
    assert!(reconstructed.contains("operational=\"true\""));
}

#[test]
fn crdt_detail_parser_test_get_next_available_index() {
    let mut detail_map = JsonMap::new();
    detail_map.insert("test-doc_sensor_0".to_string(), JsonValue::Null);
    detail_map.insert("test-doc_sensor_2".to_string(), JsonValue::Null);

    let next = get_next_available_index(&detail_map, "test-doc", "sensor");
    assert_eq!(next, 3);

    let next_contact = get_next_available_index(&detail_map, "test-doc", "contact");
    assert_eq!(next_contact, 0);
}

#[test]
fn stable_key_reads_back_as_its_tag_and_index() {
    let key = generate_stable_key("doc-1", "sensor", 7);
    assert_eq!(key, "doc-1_sensor_7");
    assert!(is_stable_key(&key));
    assert_eq!(parse_stable_key(&key), Some(("sensor".to_string(), 7)));
    assert!(!is_stable_key("status"));
    assert!(!is_stable_key("a_b_c"));
    assert_eq!(parse_stable_key("status"), None);
    // The tag is the piece before the index.
    assert_eq!(parse_stable_key("my_doc_track_12"), Some(("track".to_string(), 12)));
}

#[test]
fn next_index_is_not_taken() {
    let mut m = JsonMap::new();
    m.insert("doc_track_4".to_string(), JsonValue::Null);
    m.insert("doc_track_1".to_string(), JsonValue::Null);
    m.insert("doc_track_x".to_string(), JsonValue::Null);
    m.insert("other_track_9".to_string(), JsonValue::Null);
    let next = get_next_available_index(&m, "doc", "track");
    assert_eq!(next, 5);
    assert!(!m.contains_key(&generate_stable_key("doc", "track", next)));
}

#[test]
fn repeated_elements_carry_their_metadata() {
    let detail = r#"<detail><track course="1"/><track course="2">moving</track><remarks>hello</remarks><remarks>   </remarks></detail>"#;
    let result = parse_detail_section_with_stable_keys(detail, "d");
    let got = serde_json::Value::Object(map_to_serde(&result));
    let expected = value(
        r#"{
        "d_track_0": {"course": "1", "_tag": "track", "_docId": "d", "_elementIndex": 0},
        "d_track_1": {"course": "2", "_text": "moving", "_tag": "track", "_docId": "d", "_elementIndex": 1},
        "d_remarks_0": {"_text": "hello", "_tag": "remarks", "_docId": "d", "_elementIndex": 0},
        "d_remarks_1": {"_tag": "remarks", "_docId": "d", "_elementIndex": 1}
    }"#,
    );
    assert_eq!(got, expected);
}

#[test]
fn written_back_in_key_order_then_by_tag_and_index() {
    let detail = r#"<detail><sensor id="b"/><status ok="1"/><sensor id="a"/><contact cs="x"/><contact cs="y"/></detail>"#;
    let parsed = parse_detail_section_with_stable_keys(detail, "doc");
    let xml = convert_stable_keys_to_xml(&parsed);
    assert_eq!(
        xml,
        r#"<detail><status ok="1"/><contact cs="x"/><contact cs="y"/><sensor id="b"/><sensor id="a"/></detail>"#
    );
}

#[test]
fn written_back_values_of_every_kind() {
    let m = object(
        r#"{"note": {"_text": "hi", "level": "2", "inner": {"x": "1"}}, "n": 5, "flag": true, "plain": "text", "doc_item_0": {"_tag": "item", "v": "z"}}"#,
    );
    let xml = convert_stable_keys_to_xml(&m);
    assert_eq!(
        xml,
        r#"<detail><flag>true</flag><n>5</n><note level="2">hi<inner x="1"/></note><plain>text</plain><item v="z"/></detail>"#
    );
}

#[test]
fn every_repeated_element_is_kept_under_its_own_key() {
    let detail = r#"<detail><sensor id="1"/><status ok="1"/><sensor id="2"/><sensor id="3"/></detail>"#;
    let result = parse_detail_section_with_stable_keys(detail, "doc");
    assert_eq!(result.len(), 4);
    for (i, id) in ["1", "2", "3"].iter().enumerate() {
        let k = generate_stable_key("doc", "sensor", i as u32);
        let v = to_serde(result.get(&k).unwrap());
        assert_eq!(v["id"], value(&format!("\"{}\"", id)));
        assert_eq!(v["_elementIndex"], value(&i.to_string()));
    }
    assert_eq!(to_serde(result.get("status").unwrap()), value(r#"{"ok":"1"}"#));
}

#[test]
fn a_single_tag_spelled_like_a_stable_key_can_be_replaced() {
    let detail = r#"<detail><d_track_0 x="1"/><track a="1"/><track a="2"/></detail>"#;
    let result = parse_detail_section_with_stable_keys(detail, "d");
    let v = to_serde(result.get("d_track_0").unwrap());
    assert_eq!(v["a"], value(r#""1""#));
    assert_eq!(v["_tag"], value(r#""track""#));
}

#[test]
fn elements_are_counted_and_the_checked_reader_agrees() {
    let xml = r#"<detail><a/><b><c/></b><a x="1"/></detail>"#;
    assert_eq!(count_elements(xml.as_bytes()), 5);
    assert_eq!(count_elements(b""), 0);
    let checked = parse_detail_section_with_stable_keys_checked(xml, "doc").unwrap();
    let direct = parse_detail_section_with_stable_keys(xml, "doc");
    assert_eq!(map_to_serde(&checked), map_to_serde(&direct));
}

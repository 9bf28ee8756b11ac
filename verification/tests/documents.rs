//! Ditto documents: their kinds, reading stored documents, and making
//! documents of CoT events.

use ditto_cot::document::{
    get_document_id_from_value, get_document_type_from_value, observer_json_to_cot_document,
    observer_json_to_json_with_r_fields, CotDocument, DocKind, DocumentError,
};
use ditto_cot::from_ditto::{event_source_from_ditto, event_source_from_flattened_json};
use ditto_cot::json::{JsonMap, JsonNumber, JsonValue};
use ditto_cot::transforms::{
    cot_to_document, cot_to_flattened_document, file_size_source, split_words, transform_chat_event_flattened,
    transform_location_event_flattened, EventFields,
};

fn from_serde(v: &serde_json::Value) -> JsonValue {
    match v {
        serde_json::Value::Null => JsonValue::Null,
        serde_json::Value::Bool(b) => JsonValue::Bool(*b),
        serde_json::Value::Number(n) => JsonValue::Number(JsonNumber {
            text: n.to_string(),
            display: n.as_f64().map(|f| f.to_string()).unwrap_or_default(),
        }),
        serde_json::Value::String(s) => JsonValue::Str(s.clone()),
        serde_json::Value::Array(a) => JsonValue::Array(a.iter().map(from_serde).collect()),
        serde_json::Value::Object(o) => {
            let mut m = JsonMap::new();
            for (k, v) in o {
                m.insert(k.clone(), from_serde(v));
            }
            JsonValue::Object(m)
        }
    }
}

fn to_serde(v: &JsonValue) -> serde_json::Value {
    match v {
        JsonValue::Null => serde_json::Value::Null,
        JsonValue::Bool(b) => serde_json::Value::Bool(*b),
        JsonValue::Number(n) => serde_json::from_str(&n.text).unwrap(),
        JsonValue::Str(s) => serde_json::Value::String(s.clone()),
        JsonValue::Array(a) => serde_json::Value::Array(a.iter().map(to_serde).collect()),
        JsonValue::Object(m) => serde_json::Value::Object(map_to_serde(m)),
    }
}

fn map_to_serde(m: &JsonMap) -> serde_json::Map<String, serde_json::Value> {
    let mut o = serde_json::Map::new();
    for i in 0..m.len() {
        let (k, v) = m.entry_at(i);
        o.insert(k.clone(), to_serde(v));
    }
    o
}

fn json(text: &str) -> JsonValue {
    from_serde(&serde_json::from_str(text).unwrap())
}

fn object(text: &str) -> JsonMap {
    match json(text) {
        JsonValue::Object(m) => m,
        _ => panic!("not an object"),
    }
}

fn value(text: &str) -> serde_json::Value {
    serde_json::from_str(text).unwrap()
}

fn number(text: &str, display: &str) -> JsonNumber {
    JsonNumber { text: text.to_string(), display: display.to_string() }
}

fn event(event_type: &str, detail: &str) -> EventFields {
    EventFields {
        version: "2.0".to_string(),
        uid: "U-1".to_string(),
        event_type: event_type.to_string(),
        how: "h-g-i-g-o".to_string(),
        detail: detail.to_string(),
        time: "2024-01-15T10:30:00+00:00".to_string(),
        start: "2024-01-15T10:30:00+00:00".to_string(),
        stale: "2024-01-15T12:30:00+00:00".to_string(),
        lat: number("37.7749", "37.7749"),
        lon: number("-122.4194", "-122.4194"),
        hae: number("100.5", "100.5"),
        ce: number("10.0", "10"),
        le: number("5.0", "5"),
        lat_text: "37.7749".to_string(),
        lon_text: "-122.4194".to_string(),
        hae_text: "100.5".to_string(),
        time_micros: number("1705314600000000.0", "1705314600000000"),
        start_micros: number("1705314600000000.0", "1705314600000000"),
        stale_micros: number("1705321800000000.0", "1705321800000000"),
        time_millis: number("1705314600000.0", "1705314600000"),
        time_millis_int: number("1705314600000", "1705314600000"),
    }
}

fn fields(d: &CotDocument) -> serde_json::Value {
    serde_json::Value::Object(map_to_serde(d.fields()))
}

#[test]
fn test_json_value_extraction() {
    let doc_value = json(r#"{"_id": "test-doc-123", "w": "a-u-r-loc-g"}"#);
    let id = get_document_id_from_value(&doc_value);
    assert_eq!(id, Some("test-doc-123".to_string()));
}

#[test]
fn test_document_type_extraction() {
    let doc_value = json(r#"{"_id": "test-doc-123", "w": "a-u-r-loc-g"}"#);
    let doc_type = get_document_type_from_value(&doc_value);
    assert_eq!(doc_type, Some("a-u-r-loc-g".to_string()));
}

#[test]
fn test_observer_json_to_cot_document() {
    let map_item_json = json(
        r#"{
        "_id": "test-map-001", "w": "a-u-r-loc-g", "a": "test-peer", "b": 1642248600000000.0,
        "d": "test-map-001", "_c": 1, "_r": false, "_v": 2, "e": "TestUnit", "g": "2.0",
        "h": 5.0, "i": 10.0, "j": 37.7749, "k": 2.0, "l": -122.4194,
        "n": 1642248600000000.0, "o": 1642252200000000.0, "p": "h-g-i-g-o",
        "q": "", "s": "", "t": "", "u": "", "v": "",
        "r_contact_callsign": "TestUnit", "r_track_speed": "15.0"
    }"#,
    );
    let result = observer_json_to_cot_document(&map_item_json);
    assert!(result.is_ok());
    if let Ok(CotDocument::MapItem(item)) = result {
        let item = serde_json::Value::Object(map_to_serde(&item));
        assert_eq!(item["_id"], "test-map-001");
        assert_eq!(item["w"], "a-u-r-loc-g");
        assert_eq!(item["j"], value("37.7749"));
        assert_eq!(item["l"], value("-122.4194"));
    } else {
        panic!("Expected MapItem variant");
    }
}

#[test]
fn test_get_document_id_from_json() {
    let doc = json(r#"{"_id": "test-doc-123", "w": "a-u-r-loc-g"}"#);
    assert_eq!(get_document_id_from_value(&doc), Some("test-doc-123".to_string()));
    // `id` stands in where there is no `_id`; a value that is not text gives none.
    assert_eq!(get_document_id_from_value(&json(r#"{"id": "alt"}"#)), Some("alt".to_string()));
    assert_eq!(get_document_id_from_value(&json(r#"{"_id": 5, "id": "alt"}"#)), None);
    assert_eq!(get_document_id_from_value(&json(r#"[1]"#)), None);
}

#[test]
fn test_get_document_type_from_json() {
    let doc = json(r#"{"_id": "test-doc-123", "w": "a-u-r-loc-g"}"#);
    assert_eq!(get_document_type_from_value(&doc), Some("a-u-r-loc-g".to_string()));
    assert_eq!(get_document_type_from_value(&json(r#"{"w": 3}"#)), None);
}

#[test]
fn test_observer_json_to_json_with_r_fields() {
    let doc = json(
        r#"{
        "_id": "test-r-reconstruction", "w": "a-u-r-loc-g", "a": "test-peer", "b": 1642248600000000.0,
        "r_contact_callsign": "TestUnit", "r_track_speed": "15.0", "r_track_course": "90.0"
    }"#,
    );
    let reconstructed = to_serde(&observer_json_to_json_with_r_fields(&doc));
    let r_obj = reconstructed["r"].as_object().unwrap();
    assert!(r_obj.contains_key("contact"));
    assert!(r_obj.contains_key("track"));
    assert_eq!(r_obj["contact"]["callsign"].as_str(), Some("TestUnit"));
    assert_eq!(r_obj["track"]["speed"].as_str(), Some("15.0"));
    assert_eq!(r_obj["track"]["course"].as_str(), Some("90.0"));
    assert!(reconstructed.get("r_track_speed").is_none());
    // A value that is not an object comes back as it is.
    assert_eq!(to_serde(&observer_json_to_json_with_r_fields(&json("7"))), value("7"));
}

#[test]
fn stored_documents_are_read_by_type() {
    let kind = |w: &str| observer_json_to_cot_document(&json(&format!(r#"{{"w": "{}"}}"#, w))).unwrap().kind();
    assert!(kind("a-f-G-U-C") == DocKind::MapItem);
    assert!(kind("b-t-f") == DocKind::Chat);
    assert!(kind("a-u-emergency-g") == DocKind::Api);
    assert!(kind("b-f-t-a") == DocKind::File);
    assert!(kind("t-x-c-t") == DocKind::File);
    assert!(matches!(observer_json_to_cot_document(&json(r#"{"_id": "x"}"#)), Err(DocumentError::MissingType)));
    assert!(matches!(observer_json_to_cot_document(&json(r#"{"w": 1}"#)), Err(DocumentError::MissingType)));
    // A location document without a counter gets counter 1.
    let d = observer_json_to_cot_document(&json(r#"{"w": "a-u-G"}"#)).unwrap();
    assert_eq!(fields(&d), value(r#"{"w": "a-u-G", "_c": 1}"#));
    let d = observer_json_to_cot_document(&json(r#"{"w": "a-u-G", "_c": 0}"#)).unwrap();
    assert_eq!(fields(&d), value(r#"{"w": "a-u-G", "_c": 0}"#));
}

#[test]
fn documents_answer_for_their_common_keys() {
    let api = observer_json_to_cot_document(&json(r#"{"w": "a-u-emergency-g"}"#)).unwrap();
    let map = observer_json_to_cot_document(&json(r#"{"w": "a-f-G-U-C"}"#)).unwrap();
    for k in ["_id", "a", "b", "d"] {
        assert!(api.has_key(k));
        assert!(map.has_key(k));
    }
    assert!(!api.has_key("e"));
    assert!(map.has_key("e"));
    assert!(!map.has_key("w"));
    assert!(map.is_map_item());
    assert!(map.as_map_item().is_some());
    assert!(!api.is_map_item());
    assert!(api.as_map_item().is_none());
    assert_eq!(to_serde(&map.to_flattened_json()), value(r#"{"w": "a-f-G-U-C", "_c": 1}"#));
}

#[test]
fn location_document_of_an_event() {
    let e = event("a-f-G-U-C", "<detail><contact callsign='ALPHA'/><status battery='85'/></detail>");
    let d = transform_location_event_flattened(&e, "peer-1");
    assert_eq!(
        serde_json::Value::Object(map_to_serde(&d)),
        value(
            r#"{
            "_id": "U-1", "a": "peer-1", "b": 1705314600000000.0, "d": "U-1", "_c": 0, "_r": false, "_v": 2,
            "e": "", "g": "2.0", "h": 10.0, "i": 100.5, "j": 37.7749, "k": 5.0, "l": -122.4194,
            "n": 1705314600000000.0, "o": 1705321800000000.0, "p": "h-g-i-g-o",
            "q": "", "s": "", "t": "", "u": "", "v": "", "w": "a-f-G-U-C",
            "r_contact_callsign": "ALPHA", "r_status_battery": "85"
        }"#
        )
    );
}

#[test]
fn chat_document_takes_its_message_from_the_detail_words() {
    assert_eq!(split_words("  hello \t big  world "), vec!["hello", "big", "world"]);
    assert_eq!(split_words("a\u{3000}b\u{85}c\u{200B}d"), vec!["a", "b", "c\u{200B}d"]);
    let e = event("b-t-f", "hello big world");
    let d = transform_chat_event_flattened(&e, "p").unwrap();
    let d = serde_json::Value::Object(map_to_serde(&d));
    assert_eq!(d["message"], "hello big");
    assert_eq!(d["room"], "world");
    assert_eq!(d["location"], "37.7749,-122.4194,100.5");
    assert_eq!(d["authorUid"], "U-1");
    assert_eq!(d["authorType"], "user");
    assert_eq!(d["time"], "2024-01-15T10:30:00+00:00");
    assert!(d.get("roomId").is_none());
    assert_eq!(d["e"], "");
    assert!(transform_chat_event_flattened(&event("b-t-f", "   "), "p").is_none());
    // A chat without a message becomes a generic document.
    let doc = cot_to_document(&event("b-t-f", ""), "p", None);
    assert!(doc.kind() == DocKind::Generic);
    assert_eq!(fields(&doc)["r__time"], "2024-01-15T10:30:00+00:00");
}

#[test]
fn events_become_documents_by_type() {
    let kind = |t: &str| cot_to_document(&event(t, "<detail/>"), "p", None).kind();
    assert!(kind("a-u-emergency-g") == DocKind::Api);
    assert!(kind("b-t-f-chat") == DocKind::Chat);
    assert!(kind("a-f-G-U-C") == DocKind::MapItem);
    assert!(kind("b-f-t-file") == DocKind::File);
    assert!(kind("t-x-c-t") == DocKind::Generic);
    let api = cot_to_flattened_document(&event("a-u-emergency-g", ""), "p", None);
    let api = serde_json::Value::Object(map_to_serde(&api));
    assert_eq!(api["b"], value("1705314600000.0"));
    assert_eq!(api["timeMillis"], value("1705314600000"));
    assert_eq!(api["h"], value("37.7749"));
    assert_eq!(api["i"], value("-122.4194"));
    assert_eq!(api["j"], value("100.5"));
    assert!(api.get("k").is_none());
    assert!(api.get("l").is_none());
    assert_eq!(api["mime"], "application/vnd.cot.emergency+json");
}

#[test]
fn file_document_takes_its_name_and_type_from_the_fileshare() {
    let e = event("b-f-t-file", "<detail><fileshare filename='a.txt' mime='text/plain' size='12'/></detail>");
    let size = file_size_source(&e).map(|v| to_serde(&v));
    assert_eq!(size, Some(value(r#""12""#)));
    let d = cot_to_flattened_document(&e, "p", Some(number("12.0", "12")));
    let d = serde_json::Value::Object(map_to_serde(&d));
    assert_eq!(d["file"], "a.txt");
    assert_eq!(d["mime"], "text/plain");
    assert_eq!(d["sz"], value("12.0"));
    assert_eq!(d["itemId"], "U-1");
    assert_eq!(d["r_fileshare_filename"], "a.txt");
    assert_eq!(d["r__stale"], "2024-01-15T12:30:00+00:00");
    let plain = cot_to_flattened_document(&event("b-f-t-file", ""), "p", None);
    let plain = serde_json::Value::Object(map_to_serde(&plain));
    assert_eq!(plain["file"], "U-1");
    assert_eq!(plain["mime"], "application/octet-stream");
    assert!(plain.get("sz").is_none());
}

#[test]
fn chat_document_reads_the_chat_element() {
    let e = event(
        "b-t-f",
        r#"<detail><chat from="DELTA-4" room="Operations Room" roomId="ops-room-001" msg="Test message content"/></detail>"#,
    );
    let doc = cot_to_document(&e, "test-peer", None);
    assert!(doc.kind() == DocKind::Chat);
    let d = fields(&doc);
    assert_eq!(d["_id"], "U-1");
    assert_eq!(d["message"], "Test message content");
    assert_eq!(d["room"], "Operations Room");
    assert_eq!(d["roomId"], "ops-room-001");
    assert_eq!(d["e"], "DELTA-4");
    assert_eq!(d["authorCallsign"], "DELTA-4");
    assert_eq!(d["r_chat_from"], "DELTA-4");
}

#[test]
fn documents_keep_version_time_and_point_by_kind() {
    // Location and generic documents: `b` time, `j` `l` `i` latitude,
    // longitude, height, `h` circular error.
    for t in ["a-f-G-U-C", "x-custom-generic-type"] {
        let d = fields(&cot_to_document(&event(t, "hello"), "p", None));
        assert_eq!(d["g"], "2.0", "{}", t);
        assert_eq!(d["b"], value("1705314600000000.0"), "{}", t);
        assert_eq!(d["n"], value("1705314600000000.0"), "{}", t);
        assert_eq!(d["o"], value("1705321800000000.0"), "{}", t);
        assert_eq!(d["j"], value("37.7749"), "{}", t);
        assert_eq!(d["l"], value("-122.4194"), "{}", t);
        assert_eq!(d["i"], value("100.5"), "{}", t);
        assert_eq!(d["h"], value("10.0"), "{}", t);
        assert_eq!(d["k"], value("5.0"), "{}", t);
    }
    // Chat and file documents: `b` circular error, `h` `i` `j` latitude,
    // longitude, height.
    for t in ["b-t-f", "b-f-t-file"] {
        let d = fields(&cot_to_document(&event(t, "hello"), "p", None));
        assert_eq!(d["g"], "2.0", "{}", t);
        assert_eq!(d["b"], value("10.0"), "{}", t);
        assert_eq!(d["h"], value("37.7749"), "{}", t);
        assert_eq!(d["i"], value("-122.4194"), "{}", t);
        assert_eq!(d["j"], value("100.5"), "{}", t);
        assert!(d.get("l").is_none(), "{}", t);
    }
    let file = fields(&cot_to_document(&event("b-f-t-file", ""), "p", None));
    assert_eq!(file["k"], value("5.0"));
    assert_eq!(file["n"], value("1705314600000000.0"));
    let chat = fields(&cot_to_document(&event("b-t-f", "hello"), "p", None));
    assert!(chat.get("k").is_none());
}

#[test]
fn flattened_documents_read_back_to_their_event() {
    let text = |n: &Option<JsonNumber>| n.as_ref().map(|x| x.text.clone());
    // A location document gives back the whole event.
    let e = event("a-f-G-U-C", "<detail><contact callsign='ALPHA'/></detail>");
    let s = event_source_from_flattened_json(&JsonValue::Object(cot_to_flattened_document(&e, "p", None)));
    assert!(s.from_object);
    assert_eq!(s.version, "2.0");
    assert_eq!(s.uid, "U-1");
    assert_eq!(s.how, "h-g-i-g-o");
    assert_eq!(text(&s.time_micros), Some("1705314600000000.0".to_string()));
    assert_eq!(text(&s.start_micros), Some("1705314600000000.0".to_string()));
    assert_eq!(text(&s.stale_micros), Some("1705321800000000.0".to_string()));
    assert_eq!(text(&s.lat), Some("37.7749".to_string()));
    assert_eq!(text(&s.lon), Some("-122.4194".to_string()));
    assert_eq!(text(&s.hae), Some("100.5".to_string()));
    assert_eq!(text(&s.le), Some("5.0".to_string()));
    assert_eq!(s.ce.as_ref().map(to_serde), Some(value("10.0")));
    // Emergency, chat and file documents give back their point from `h`
    // `i` `j`; a file its linear error and its circular error from `_ce`.
    for t in ["a-u-emergency-g", "b-t-f", "b-f-t-file"] {
        let e = event(t, "<detail><contact callsign='ALPHA'/></detail>");
        let flat = ditto_cot::from_ditto::flat_source_from_flattened_json(&JsonValue::Object(
            cot_to_flattened_document(&e, "p", None),
        ));
        let s = event_source_from_flattened_json(&JsonValue::Object(cot_to_flattened_document(&e, "p", None)));
        assert_eq!(s.version, "2.0", "{}", t);
        assert_eq!(s.uid, "U-1", "{}", t);
        assert_eq!(s.event_type, t);
        assert_eq!(text(&s.stale_micros), Some("1705321800000000.0".to_string()), "{}", t);
        assert_eq!(text(&s.lat), Some("37.7749".to_string()), "{}", t);
        assert_eq!(text(&s.lon), Some("-122.4194".to_string()), "{}", t);
        assert_eq!(text(&s.hae), Some("100.5".to_string()), "{}", t);
        if t == "b-f-t-file" {
            assert_eq!(text(&s.le), Some("5.0".to_string()));
            assert_eq!(s.ce.as_ref().map(to_serde), Some(value("10.0")));
        } else {
            assert_eq!(text(&s.start_micros), Some("1705314600000000.0".to_string()), "{}", t);
        }
        if t != "a-u-emergency-g" {
            assert_eq!(text(&flat.ce), Some("10.0".to_string()), "{}", t);
        }
    }
}

#[test]
fn stored_documents_read_back_to_their_event() {
    let text = |n: &Option<JsonNumber>| n.as_ref().map(|x| x.text.clone());
    for t in ["a-f-G-U-C", "x-custom-generic-type", "b-t-f"] {
        // A chat without a message is stored as a generic document.
        let detail = if t == "b-t-f" { "" } else { "hello" };
        let d = cot_to_document(&event(t, detail), "p", None);
        let s = event_source_from_ditto(&d);
        assert_eq!(s.version, "2.0", "{}", t);
        assert_eq!(s.uid, "U-1", "{}", t);
        assert_eq!(s.event_type, t);
        assert_eq!(text(&s.time_micros), Some("1705314600000000.0".to_string()), "{}", t);
        assert_eq!(text(&s.start_micros), Some("1705314600000000.0".to_string()), "{}", t);
        assert_eq!(text(&s.lat), Some("37.7749".to_string()), "{}", t);
        assert_eq!(text(&s.lon), Some("-122.4194".to_string()), "{}", t);
        assert_eq!(text(&s.hae), Some("100.5".to_string()), "{}", t);
        assert_eq!(text(&s.le), Some("5.0".to_string()), "{}", t);
        assert_eq!(s.ce.as_ref().map(to_serde), Some(value("10.0")), "{}", t);
    }
}

//! CoT events mapped onto Ditto documents and read back, with events built
//! from `f64` coordinates and `chrono` times as a program would.

use chrono::{DateTime, TimeZone, Utc};
use ditto_cot::cot_parse::scan_event_xml;
use ditto_cot::detail::parse_detail_section;
use ditto_cot::document::{CotDocument, DocKind};
use ditto_cot::from_ditto::{event_source_from_ditto, event_source_from_flattened_json, EventSource};
use ditto_cot::json::{JsonMap, JsonNumber, JsonValue};
use ditto_cot::transforms::{cot_to_document, cot_to_flattened_document, file_size_source, EventFields};
use std::str::FromStr;

#[derive(Clone, Debug, PartialEq)]
struct Point {
    lat: f64,
    lon: f64,
    hae: f64,
    ce: f64,
    le: f64,
}

#[derive(Clone, Debug)]
struct Event {
    version: String,
    uid: String,
    event_type: String,
    time: DateTime<Utc>,
    start: DateTime<Utc>,
    stale: DateTime<Utc>,
    how: String,
    point: Point,
    detail: String,
}

fn origin() -> Point {
    Point { lat: 0.0, lon: 0.0, hae: 0.0, ce: 999999.0, le: 999999.0 }
}

fn number(n: &serde_json::Number) -> JsonNumber {
    JsonNumber { text: n.to_string(), display: n.as_f64().map(|f| f.to_string()).unwrap_or_default() }
}

fn f64_number(x: f64) -> JsonNumber {
    number(&serde_json::Number::from_f64(x).unwrap_or(serde_json::Number::from(0)))
}

fn fields(e: &Event) -> EventFields {
    EventFields {
        version: e.version.clone(),
        uid: e.uid.clone(),
        event_type: e.event_type.clone(),
        how: e.how.clone(),
        detail: e.detail.clone(),
        time: e.time.to_rfc3339(),
        start: e.start.to_rfc3339(),
        stale: e.stale.to_rfc3339(),
        lat: f64_number(e.point.lat),
        lon: f64_number(e.point.lon),
        hae: f64_number(e.point.hae),
        ce: f64_number(e.point.ce),
        le: f64_number(e.point.le),
        lat_text: e.point.lat.to_string(),
        lon_text: e.point.lon.to_string(),
        hae_text: e.point.hae.to_string(),
        time_micros: f64_number(e.time.timestamp_micros() as f64),
        start_micros: f64_number(e.start.timestamp_micros() as f64),
        stale_micros: f64_number(e.stale.timestamp_micros() as f64),
        time_millis: f64_number(e.time.timestamp_millis() as f64),
        time_millis_int: number(&serde_json::Number::from(e.time.timestamp_millis())),
    }
}

fn file_size(f: &EventFields) -> Option<JsonNumber> {
    let size = match file_size_source(f) {
        Some(JsonValue::Str(s)) => s.parse::<f64>().ok(),
        Some(JsonValue::Number(n)) => n.text.parse::<f64>().ok(),
        _ => None,
    };
    size.map(f64_number)
}

fn to_document(e: &Event, peer: &str) -> CotDocument {
    let f = fields(e);
    let size = file_size(&f);
    cot_to_document(&f, peer, size)
}

fn to_flattened(e: &Event, peer: &str) -> JsonMap {
    let f = fields(e);
    let size = file_size(&f);
    cot_to_flattened_document(&f, peer, size)
}

fn to_serde(v: &JsonValue) -> serde_json::Value {
    match v {
        JsonValue::Null => serde_json::Value::Null,
        JsonValue::Bool(b) => serde_json::Value::Bool(*b),
        JsonValue::Number(n) => serde_json::from_str(&n.text).unwrap(),
        JsonValue::Str(s) => serde_json::Value::String(s.clone()),
        JsonValue::Array(a) => serde_json::Value::Array(a.iter().map(to_serde).collect()),
        JsonValue::Object(m) => serde_json::Value::Object(map_to_serde(m)),
    }
}

fn map_to_serde(m: &JsonMap) -> serde_json::Map<String, serde_json::Value> {
    let mut o = serde_json::Map::new();
    for i in 0..m.len() {
        let (k, v) = m.entry_at(i);
        o.insert(k.clone(), to_serde(v));
    }
    o
}

fn members(d: &CotDocument) -> serde_json::Value {
    serde_json::Value::Object(map_to_serde(d.fields()))
}

fn f(v: &serde_json::Value, k: &str) -> Option<f64> {
    v.get(k).and_then(|x| x.as_f64())
}

fn s(v: &serde_json::Value, k: &str) -> String {
    v.get(k).and_then(|x| x.as_str()).unwrap_or("").to_string()
}

fn parse_time(t: &str) -> DateTime<Utc> {
    DateTime::parse_from_rfc3339(t)
        .map(|d| d.with_timezone(&Utc))
        .or_else(|_| DateTime::parse_from_str(t, "%Y-%m-%dT%H:%M:%S%.fZ").map(|d| d.with_timezone(&Utc)))
        .unwrap()
}

fn from_xml(xml: &str) -> Event {
    let scan = scan_event_xml(xml);
    assert!(scan.error.is_none(), "{:?}", scan.error);
    let now = Utc::now();
    let mut e = Event {
        version: scan.version.clone(),
        uid: scan.uid.clone(),
        event_type: scan.event_type.clone(),
        time: now,
        start: now,
        stale: now,
        how: scan.how.clone(),
        point: origin(),
        detail: scan.detail.clone(),
    };
    for (k, v) in &scan.fields {
        match k.as_str() {
            "time" => e.time = parse_time(v),
            "start" => e.start = parse_time(v),
            "stale" => e.stale = parse_time(v),
            "lat" => e.point.lat = v.parse().unwrap(),
            "lon" => e.point.lon = v.parse().unwrap(),
            "hae" => e.point.hae = v.parse().unwrap(),
            "ce" => e.point.ce = v.parse().unwrap(),
            _ => e.point.le = v.parse().unwrap(),
        }
    }
    e
}

fn micros(n: &Option<JsonNumber>) -> DateTime<Utc> {
    let m = num(n) as i64;
    Utc.timestamp_opt(m / 1_000_000, ((m % 1_000_000) * 1_000) as u32).single().unwrap()
}

fn num(n: &Option<JsonNumber>) -> f64 {
    n.as_ref().and_then(|x| x.text.parse::<f64>().ok()).unwrap_or(0.0)
}

fn ce_of(s: &EventSource) -> f64 {
    match &s.ce {
        Some(JsonValue::Number(x)) => x.text.parse().unwrap_or(0.0),
        Some(JsonValue::Str(t)) => t.parse().unwrap_or(0.0),
        _ => 0.0,
    }
}

/// The event of a source, times from `b`, `n`, `o` (a file document's
/// start and stale from its detail where it has them).
fn event_of(s: &EventSource) -> Event {
    let time = micros(&s.time_micros);
    let start = match &s.file_start {
        Some(t) => parse_time(t),
        None if s.is_file => time,
        None => micros(&s.start_micros),
    };
    let stale = match &s.file_stale {
        Some(t) => parse_time(t),
        None => micros(&s.stale_micros),
    };
    Event {
        version: s.version.clone(),
        uid: s.uid.clone(),
        event_type: s.event_type.clone(),
        time,
        start,
        stale,
        how: s.how.clone(),
        point: Point { lat: num(&s.lat), lon: num(&s.lon), hae: num(&s.hae), ce: ce_of(s), le: num(&s.le) },
        detail: String::new(),
    }
}

/// What `new_chat_message` makes.
fn chat_message(sender_uid: &str, callsign: &str, message: &str, room: &str, room_id: &str) -> Event {
    let now = Utc::now();
    Event {
        version: "2.0".to_string(),
        uid: sender_uid.to_string(),
        event_type: "b-t-f".to_string(),
        time: now,
        start: now,
        stale: now + chrono::Duration::minutes(5),
        how: "h-g-i-g-o".to_string(),
        point: origin(),
        detail: format!(
            r#"<detail><chat from="{}" room="{}" roomId="{}" msg="{}"/></detail>"#,
            callsign, room, room_id, message
        ),
    }
}

/// What `new_emergency` makes.
fn emergency(uid: &str, lat: f64, lon: f64, kind: &str, message: &str) -> Event {
    let now = Utc::now();
    Event {
        version: "2.0".to_string(),
        uid: uid.to_string(),
        event_type: "b-a-o-can".to_string(),
        time: now,
        start: now,
        stale: now + chrono::Duration::minutes(5),
        how: "h-g-i-g-o".to_string(),
        point: Point { lat, lon, hae: 0.0, ce: 10.0, le: 10.0 },
        detail: format!("<detail>emergency: type={} msg={}</detail>", kind, message),
    }
}

/// What `new_location_update` makes.
fn location_update(uid: &str, callsign: &str, team: &str, lat: f64, lon: f64, hae: f64) -> Event {
    let now = Utc::now();
    Event {
        version: "2.0".to_string(),
        uid: uid.to_string(),
        event_type: "a-f-G-U-C".to_string(),
        time: now,
        start: now,
        stale: now + chrono::Duration::minutes(5),
        how: "h-g-i-g-o".to_string(),
        point: Point { lat, lon, hae, ce: 10.0, le: 10.0 },
        detail: format!("location update: callsign={}, team={}", callsign, team),
    }
}

#[test]
fn test_cot_to_ditto_field_mapping() {
    let event = Event {
        version: "2.0".to_string(),
        uid: "TEST-UID-123".to_string(),
        event_type: "a-f-G-U-C".to_string(),
        time: Utc::now(),
        start: Utc::now(),
        stale: Utc::now() + chrono::Duration::minutes(5),
        how: "m-g".to_string(),
        point: Point { lat: 34.12345, lon: -118.12345, hae: 150.0, ce: 10.0, le: 20.0 },
        detail: "<detail><contact callsign=\"ALPHA-1\"/></detail>".to_string(),
    };
    let doc = to_document(&event, "test-peer-key");
    assert!(doc.kind() == DocKind::MapItem, "Expected MapItem document for location event");
    let m = members(&doc);
    assert_eq!(s(&m, "_id"), "TEST-UID-123");
    assert_eq!(s(&m, "a"), "test-peer-key");
    assert_eq!(s(&m, "w"), "a-f-G-U-C");
    assert_eq!(s(&m, "p"), "m-g");
    assert_eq!(f(&m, "j"), Some(34.12345));
    assert_eq!(f(&m, "l"), Some(-118.12345));
    assert_eq!(f(&m, "i"), Some(150.0));
    assert_eq!(f(&m, "h"), Some(10.0));
    assert_eq!(f(&m, "k"), Some(20.0));
    assert_eq!(s(&m, "g"), "2.0");
}

#[test]
fn test_ditto_to_cot_field_mapping() {
    let doc: serde_json::Value = serde_json::from_str(
        r#"{"_id": "REVERSE-TEST-001", "a": "peer-key", "b": 1234567890000.0, "c": "Test Unit", "d": "USER-123",
            "_c": 0, "_r": false, "_v": 2, "e": "BRAVO-2", "f": true, "g": "2.0", "h": 15.0, "i": 200.0,
            "j": 35.6789, "k": 25.0, "l": -119.6789, "n": 1234567890000.0, "o": 1234568490000.0,
            "p": "h-g-i-g-o", "q": "", "r": {}, "s": "", "t": "", "u": "", "v": "", "w": "a-f-G-U-C"}"#,
    )
    .unwrap();
    let mut m = JsonMap::new();
    for (k, v) in doc.as_object().unwrap() {
        m.insert(k.clone(), from_serde(v));
    }
    let event = event_of(&event_source_from_ditto(&CotDocument::MapItem(m)));
    assert_eq!(event.uid, "REVERSE-TEST-001");
    assert_eq!(event.event_type, "a-f-G-U-C");
    assert_eq!(event.how, "h-g-i-g-o");
    assert_eq!(event.version, "2.0");
    assert_eq!(event.point.lat, 35.6789);
    assert_eq!(event.point.lon, -119.6789);
    assert_eq!(event.point.hae, 200.0);
    assert_eq!(event.point.ce, 15.0);
    assert_eq!(event.point.le, 25.0);
}

fn from_serde(v: &serde_json::Value) -> JsonValue {
    match v {
        serde_json::Value::Null => JsonValue::Null,
        serde_json::Value::Bool(b) => JsonValue::Bool(*b),
        serde_json::Value::Number(n) => JsonValue::Number(number(n)),
        serde_json::Value::String(s) => JsonValue::Str(s.clone()),
        serde_json::Value::Array(a) => JsonValue::Array(a.iter().map(from_serde).collect()),
        serde_json::Value::Object(o) => {
            let mut m = JsonMap::new();
            for (k, v) in o {
                m.insert(k.clone(), from_serde(v));
            }
            JsonValue::Object(m)
        }
    }
}

#[test]
fn test_timestamp_field_conversions() {
    let now = Utc::now();
    let start = now - chrono::Duration::minutes(1);
    let stale = now + chrono::Duration::minutes(10);
    let event = Event {
        version: "2.0".to_string(),
        uid: "TIME-TEST-001".to_string(),
        event_type: "a-f-G-U-C".to_string(),
        time: now,
        start,
        stale,
        how: "m-g".to_string(),
        point: origin(),
        detail: "<detail/>".to_string(),
    };
    let doc = to_document(&event, "test-peer");
    assert!(doc.kind() == DocKind::MapItem, "Expected MapItem document");
    let m = members(&doc);
    let expected_micros = now.timestamp_micros() as f64;
    assert!((f(&m, "b").unwrap() - expected_micros).abs() < 1000.0);
    assert_eq!(f(&m, "n"), Some(start.timestamp_micros() as f64));
    assert_eq!(f(&m, "o"), Some(stale.timestamp_micros() as f64));
}

#[test]
fn test_custom_field_preservation() {
    let detail_xml = r#"<detail>
        <contact callsign="CHARLIE-3" phone="123-456-7890"/>
        <__group name="Blue" role="Team Lead"/>
        <status battery="85" readiness="green"/>
        <custom_field value="preserve_me" important="true"/>
    </detail>"#;
    let event = Event {
        version: "2.0".to_string(),
        uid: "CUSTOM-TEST-001".to_string(),
        event_type: "a-f-G-U-C".to_string(),
        time: Utc::now(),
        start: Utc::now(),
        stale: Utc::now() + chrono::Duration::minutes(5),
        how: "m-g".to_string(),
        point: origin(),
        detail: detail_xml.to_string(),
    };
    let doc = to_document(&event, "test-peer");
    assert!(doc.kind() == DocKind::MapItem, "Expected MapItem document");
    let m = members(&doc);
    // The detail members are kept, as `r_*` fields.
    let kept: Vec<&String> = m.as_object().unwrap().keys().filter(|k| k.starts_with("r_")).collect();
    assert!(!kept.is_empty(), "r field should contain detail elements");
    assert_eq!(s(&m, "r_custom_field_value"), "preserve_me");
}

#[test]
fn test_field_type_conversions() {
    let xml = r#"<?xml version="1.0"?>
    <event version="2.0" uid="TYPE-CONV-001" type="a-f-G-U-C" 
           time="2023-01-01T12:00:00Z" start="2023-01-01T12:00:00Z" 
           stale="2023-01-01T12:05:00Z" how="m-g">
        <point lat="34.12345" lon="-118.12345" hae="150.0" ce="10.0" le="20.0"/>
        <detail/>
    </event>"#;
    let event = from_xml(xml);
    let doc = to_document(&event, "test-peer");
    assert!(doc.kind() == DocKind::MapItem, "Expected MapItem document");
    let m = members(&doc);
    assert_eq!(f(&m, "j"), Some(34.12345));
    assert_eq!(f(&m, "l"), Some(-118.12345));
    assert_eq!(f(&m, "i"), Some(150.0));
    assert_eq!(f(&m, "h"), Some(10.0));
    assert_eq!(f(&m, "k"), Some(20.0));
    assert!(f(&m, "j").is_some());
    assert!(f(&m, "l").is_some());
}

#[test]
fn test_chat_message_field_mapping() {
    let chat_event = chat_message("CHAT-MAP-001", "DELTA-4", "Test message content", "Operations Room", "ops-room-001");
    let doc = to_document(&chat_event, "test-peer");
    assert!(doc.kind() == DocKind::Chat, "Expected Chat document for chat event");
    let m = members(&doc);
    assert_eq!(s(&m, "_id"), "CHAT-MAP-001");
    assert_eq!(s(&m, "message"), "Test message content");
    assert_eq!(s(&m, "room"), "Operations Room");
    assert_eq!(s(&m, "roomId"), "ops-room-001");
    assert_eq!(s(&m, "e"), "DELTA-4");
    assert_eq!(s(&m, "authorCallsign"), "DELTA-4");
}

#[test]
fn test_emergency_event_field_mapping() {
    let emrg_event = emergency("EMRG-MAP-001", 36.0, -121.0, "Emergency-911", "Medical assistance required");
    let doc = to_document(&emrg_event, "test-peer");
    // "b-a-o-can" is not the emergency type: a generic document.
    assert!(doc.kind() == DocKind::Generic, "Expected Generic document for emergency event with b-a-o-can type");
    let m = members(&doc);
    assert_eq!(s(&m, "_id"), "EMRG-MAP-001");
    assert_eq!(s(&m, "w"), "b-a-o-can");
    assert_eq!(f(&m, "j"), Some(36.0));
    assert_eq!(f(&m, "l"), Some(-121.0));
    // The detail and its metadata are kept, as `r_*` fields.
    assert!(m.as_object().unwrap().keys().any(|k| k.starts_with("r_")));
}

#[test]
fn test_file_event_field_mapping() {
    let file_xml = r#"<?xml version="1.0"?>
    <event version="2.0" uid="FILE-MAP-001" type="b-f-t-file" 
           time="2023-01-01T12:00:00Z" start="2023-01-01T12:00:00Z" 
           stale="2023-01-01T12:05:00Z" how="h-e">
        <point lat="0" lon="0" hae="0" ce="0" le="0"/>
        <detail>
            <file name="test_document.pdf" size="2048000" hash="abc123def456"/>
        </detail>
    </event>"#;
    let event = from_xml(file_xml);
    let doc = to_document(&event, "test-peer");
    assert!(doc.kind() == DocKind::File, "Expected File document for file event");
    let m = members(&doc);
    assert_eq!(s(&m, "_id"), "FILE-MAP-001");
    assert_eq!(s(&m, "w"), "b-f-t-file");
    assert_eq!(s(&m, "p"), "h-e");
}

#[test]
fn test_special_cot_field_mapping() {
    let xml = r#"<?xml version="1.0"?>
    <event version="2.0" uid="SPECIAL-001" type="a-f-G-U-C" 
           time="2023-01-01T12:00:00Z" start="2023-01-01T12:00:00Z" 
           stale="2023-01-01T12:05:00Z" how="m-g"
           access="Unclassified" qos="priority" opex="OPERATION-BLUE"
           caveat="FOUO" releasableTo="USA,GBR,CAN,AUS,NZL">
        <point lat="34.0" lon="-118.0" hae="100" ce="10" le="10"/>
        <detail/>
    </event>"#;
    let event = from_xml(xml);
    let doc = to_document(&event, "test-peer");
    assert!(doc.kind() == DocKind::MapItem, "Expected MapItem document");
    let m = members(&doc);
    assert_eq!(s(&m, "q"), "");
    assert_eq!(s(&m, "t"), "");
    assert_eq!(s(&m, "s"), "");
    assert_eq!(s(&m, "u"), "");
    assert_eq!(s(&m, "v"), "");
}

#[test]
fn test_unknown_type_to_generic_mapping() {
    let unknown_event = Event {
        version: "2.0".to_string(),
        uid: "UNKNOWN-001".to_string(),
        event_type: "x-custom-special-type".to_string(),
        time: Utc::now(),
        start: Utc::now(),
        stale: Utc::now() + chrono::Duration::minutes(5),
        how: "m-g".to_string(),
        point: origin(),
        detail: "<detail><custom>Special data</custom></detail>".to_string(),
    };
    let doc = to_document(&unknown_event, "test-peer");
    assert!(doc.kind() == DocKind::Generic, "Expected Generic document for unknown event type");
    let m = members(&doc);
    assert_eq!(s(&m, "_id"), "UNKNOWN-001");
    assert_eq!(s(&m, "w"), "x-custom-special-type");
    assert_eq!(s(&m, "p"), "m-g");
    assert_eq!(s(&m, "g"), "2.0");
}

#[test]
fn test_sensor_event_type_mapping() {
    for event_type in ["a-u-S", "a-u-A", "a-u-G"] {
        let mut event = location_update(&format!("SENSOR-{}", event_type), "SENSOR-1", "Blue", 35.0, -120.0, 500.0);
        event.event_type = event_type.to_string();
        let doc = to_document(&event, "test-peer");
        assert!(doc.kind() == DocKind::MapItem, "Expected MapItem for sensor event type {}", event_type);
        let m = members(&doc);
        assert_eq!(s(&m, "w"), event_type);
        assert_eq!(s(&m, "_id"), format!("SENSOR-{}", event_type));
    }
}

#[test]
fn test_round_trip_field_preservation() {
    let original_event = Event {
        version: "2.0".to_string(),
        uid: "ROUND-TRIP-001".to_string(),
        event_type: "a-f-G-U-C".to_string(),
        time: DateTime::from_str("2023-06-15T14:30:00Z").unwrap(),
        start: DateTime::from_str("2023-06-15T14:30:00Z").unwrap(),
        stale: DateTime::from_str("2023-06-15T14:35:00Z").unwrap(),
        how: "m-g".to_string(),
        point: Point { lat: 37.123456, lon: -122.123456, hae: 123.45, ce: 5.5, le: 10.5 },
        detail: r#"<detail><contact callsign="FOXTROT-6"/></detail>"#.to_string(),
    };
    let doc = to_document(&original_event, "test-peer");
    let recovered_event = event_of(&event_source_from_ditto(&doc));
    assert_eq!(original_event.uid, recovered_event.uid);
    assert_eq!(original_event.event_type, recovered_event.event_type);
    assert_eq!(original_event.version, recovered_event.version);
    assert_eq!(original_event.how, recovered_event.how);
    assert!((original_event.point.lat - recovered_event.point.lat).abs() < 0.000001);
    assert!((original_event.point.lon - recovered_event.point.lon).abs() < 0.000001);
    assert!((original_event.point.hae - recovered_event.point.hae).abs() < 0.01);
    assert!((original_event.point.ce - recovered_event.point.ce).abs() < 0.1);
    assert!((original_event.point.le - recovered_event.point.le).abs() < 0.1);
    let time_diff = (original_event.time - recovered_event.time).num_seconds().abs();
    assert!(time_diff <= 1);
}

#[test]
fn test_chat_callsign_extraction() {
    let chat_event = chat_message("CHAT-MAP-001", "DELTA-4", "Test message content", "Operations Room", "ops-room-001");
    let parsed_detail = parse_detail_section(&chat_event.detail);
    let chat = parsed_detail.get("chat");
    assert!(chat.is_some(), "Detail should contain 'chat' key");
    let chat_map = match chat {
        Some(JsonValue::Object(o)) => o,
        _ => panic!("Chat value should be an object"),
    };
    assert!(chat_map.get("from").is_some(), "Chat object should contain 'from' key");
    assert!(matches!(chat_map.get("from"), Some(JsonValue::Str(v)) if v == "DELTA-4"), "From value should be 'DELTA-4'");
    let ditto_doc = to_document(&chat_event, "test-peer");
    assert!(ditto_doc.kind() == DocKind::Chat, "Document should be converted to Chat type");
    assert_eq!(s(&members(&ditto_doc), "e"), "DELTA-4", "Chat document should have correct callsign in 'e' field");
}

#[test]
fn test_chat_detail_parsing_with_spaces() {
    let chat_event = chat_message("CHAT-001", "BRAVO-2", "Hello world", "Command Center Alpha", "cmd-center-001");
    let parsed_detail = parse_detail_section(&chat_event.detail);
    let chat_obj = match parsed_detail.get("chat") {
        Some(JsonValue::Object(o)) => o,
        _ => panic!("chat is an object"),
    };
    let text = |k: &str| match chat_obj.get(k) {
        Some(JsonValue::Str(v)) => v.clone(),
        _ => panic!("{} is a text", k),
    };
    assert_eq!(text("from"), "BRAVO-2");
    assert_eq!(text("room"), "Command Center Alpha");
    assert_eq!(text("roomId"), "cmd-center-001");
    assert_eq!(text("msg"), "Hello world");
}

#[test]
fn test_file_roundtrip() {
    let cot_xml = r#"
    <event version="2.0" 
          uid="FILE-123456789" 
          type="b-f-t-file" 
          time="2023-05-01T12:00:00Z" 
          start="2023-05-01T12:00:00Z" 
          stale="2023-05-01T12:30:00Z" 
          how="h-g-i-g-o">
        <point lat="37.7749" lon="-122.4194" hae="0.0" ce="50.0" le="0.0" />
        <detail>
            <fileshare filename="test_file.txt" mime="text/plain" size="1024" sha256="abc123" senderCallsign="TestUser">
                <keywords>
                    <keyword value="test" />
                    <keyword value="file" />
                </keywords>
            </fileshare>
        </detail>
    </event>
    "#;
    let cot_event = from_xml(cot_xml);
    let ditto_doc = to_document(&cot_event, "test-peer");
    assert!(ditto_doc.kind() == DocKind::File, "Expected File variant for file type");
    let m = members(&ditto_doc);
    assert_eq!(s(&m, "_id"), "FILE-123456789");
    assert_eq!(s(&m, "file"), "test_file.txt");
    assert_eq!(s(&m, "mime"), "text/plain");
    assert_eq!(f(&m, "sz"), Some(1024.0));
    let flattened = serde_json::Value::Object(map_to_serde(&to_flattened(&cot_event, "test-peer")));
    assert_eq!(s(&flattened, "r_fileshare_filename"), "test_file.txt");
    assert_eq!(s(&flattened, "r_fileshare_mime"), "text/plain");
    assert_eq!(s(&flattened, "r_fileshare_size"), "1024");
    assert_eq!(s(&flattened, "r_fileshare_senderCallsign"), "TestUser");
    let source = event_source_from_flattened_json(&JsonValue::Object(to_flattened(&cot_event, "test-peer")));
    let roundtrip_event = event_of(&source);
    assert_eq!(cot_event.uid, roundtrip_event.uid, "UID mismatch");
    assert_eq!(cot_event.event_type, roundtrip_event.event_type, "Event type mismatch");
    assert!((cot_event.point.lat - roundtrip_event.point.lat).abs() < 0.0001, "Lat mismatch");
    assert!((cot_event.point.lon - roundtrip_event.point.lon).abs() < 0.0001, "Lon mismatch");
    assert!((cot_event.point.hae - roundtrip_event.point.hae).abs() < 0.0001, "HAE mismatch");
    assert!((cot_event.point.ce - roundtrip_event.point.ce).abs() < 0.0001, "CE mismatch");
    assert!((cot_event.point.le - roundtrip_event.point.le).abs() < 0.0001, "LE mismatch");
}

#[test]
fn test_generic_roundtrip() {
    let cot_xml = r#"<?xml version="1.0" encoding="UTF-8"?>
<event version="2.0" uid="generic-test-123456789" type="x-custom-generic-type" time="2023-05-01T12:00:00.000Z" start="2023-05-01T12:00:00.000Z" stale="2023-05-01T12:30:00.000Z" how="m-g">
  <point lat="37.7749" lon="-122.4194" hae="100.0" ce="50.0" le="25.0" />
  <detail>
    <custom_field>custom value</custom_field>
    <test_field>test value</test_field>
    <nested>
      <field1>value1</field1>
      <field2>value2</field2>
    </nested>
    <numeric_field>123</numeric_field>
    <boolean_field>true</boolean_field>
  </detail>
</event>"#;
    let cot_event = from_xml(cot_xml);
    let ditto_doc = to_document(&cot_event, "test-peer");
    // A type that matches no known pattern becomes a generic document (as
    // `test_unknown_type_to_generic_mapping` asks).
    assert!(ditto_doc.kind() == DocKind::Generic);
    let roundtrip_event = event_of(&event_source_from_ditto(&ditto_doc));
    assert_eq!(cot_event.uid, roundtrip_event.uid, "UID mismatch");
    assert_eq!(cot_event.event_type, roundtrip_event.event_type, "Event type mismatch");
    assert_eq!(cot_event.how, roundtrip_event.how, "How mismatch");
    assert!((cot_event.time - roundtrip_event.time).num_seconds().abs() < 1, "Time mismatch");
    assert!((cot_event.stale - roundtrip_event.stale).num_seconds().abs() < 1, "Stale mismatch");
    assert!((cot_event.start - roundtrip_event.start).num_seconds().abs() < 1, "Start mismatch");
    assert!((cot_event.point.lat - roundtrip_event.point.lat).abs() < 0.0001, "Lat mismatch");
    assert!((cot_event.point.lon - roundtrip_event.point.lon).abs() < 0.0001, "Lon mismatch");
    assert!((cot_event.point.hae - roundtrip_event.point.hae).abs() < 0.0001, "HAE mismatch");
    assert!((cot_event.point.ce - roundtrip_event.point.ce).abs() < 0.0001, "CE mismatch");
    assert!((cot_event.point.le - roundtrip_event.point.le).abs() < 0.0001, "LE mismatch");
}

#[test]
fn test_cot_document_enum_resolution() {
    let emergency_event = emergency("EMRG-001", 34.12345, -118.12345, "Emergency-911", "Medical emergency");
    let emergency_doc = to_document(&emergency_event, "test-peer");
    // "b-a-o-can" is not the emergency type: a generic document.
    assert!(emergency_doc.kind() == DocKind::Generic);
    let chat_event = chat_message("CHAT-001", "BRAVO-2", "Hello team", "All Chat Rooms", "AllChatRooms");
    assert!(to_document(&chat_event, "test-peer").kind() == DocKind::Chat);
    let location_event = location_update("LOC-001", "CHARLIE-3", "Cyan", 35.0, -120.0, 100.0);
    assert!(to_document(&location_event, "test-peer").kind() == DocKind::MapItem);
    let mut generic_event = location_update("GENERIC-001", "DELTA-4", "Red", 36.0, -121.0, 50.0);
    generic_event.event_type = "x-custom-unknown".to_string();
    assert!(to_document(&generic_event, "test-peer").kind() == DocKind::Generic);
}

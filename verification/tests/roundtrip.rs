//! CoT events written as XML and read back, and carried through Ditto
//! documents, with events built from `f64` coordinates and `chrono` times as
//! a program would.

use chrono::{DateTime, TimeZone, Utc};
use ditto_cot::cot_parse::scan_event_xml;
use ditto_cot::cot_xml::EventText;
use ditto_cot::document::{CotDocument, DocKind};
use ditto_cot::from_ditto::{event_source_from_ditto, EventSource};
use ditto_cot::json::{JsonMap, JsonNumber, JsonValue};
use ditto_cot::transforms::{cot_to_document, file_size_source, EventFields};

#[derive(Clone, Debug, PartialEq)]
struct Point {
    lat: f64,
    lon: f64,
    hae: f64,
    ce: f64,
    le: f64,
}

#[derive(Clone, Debug)]
struct Event {
    version: String,
    uid: String,
    event_type: String,
    time: DateTime<Utc>,
    start: DateTime<Utc>,
    stale: DateTime<Utc>,
    how: String,
    point: Point,
    detail: String,
}

fn origin() -> Point {
    Point { lat: 0.0, lon: 0.0, hae: 0.0, ce: 999999.0, le: 999999.0 }
}

fn number(n: &serde_json::Number) -> JsonNumber {
    JsonNumber { text: n.to_string(), display: n.as_f64().map(|f| f.to_string()).unwrap_or_default() }
}

fn f64_number(x: f64) -> JsonNumber {
    number(&serde_json::Number::from_f64(x).unwrap_or(serde_json::Number::from(0)))
}

fn fields(e: &Event) -> EventFields {
    EventFields {
        version: e.version.clone(),
        uid: e.uid.clone(),
        event_type: e.event_type.clone(),
        how: e.how.clone(),
        detail: e.detail.clone(),
        time: e.time.to_rfc3339(),
        start: e.start.to_rfc3339(),
        stale: e.stale.to_rfc3339(),
        lat: f64_number(e.point.lat),
        lon: f64_number(e.point.lon),
        hae: f64_number(e.point.hae),
        ce: f64_number(e.point.ce),
        le: f64_number(e.point.le),
        lat_text: e.point.lat.to_string(),
        lon_text: e.point.lon.to_string(),
        hae_text: e.point.hae.to_string(),
        time_micros: f64_number(e.time.timestamp_micros() as f64),
        start_micros: f64_number(e.start.timestamp_micros() as f64),
        stale_micros: f64_number(e.stale.timestamp_micros() as f64),
        time_millis: f64_number(e.time.timestamp_millis() as f64),
        time_millis_int: number(&serde_json::Number::from(e.time.timestamp_millis())),
    }
}

fn file_size(f: &EventFields) -> Option<JsonNumber> {
    let size = match file_size_source(f) {
        Some(JsonValue::Str(s)) => s.parse::<f64>().ok(),
        Some(JsonValue::Number(n)) => n.text.parse::<f64>().ok(),
        _ => None,
    };
    size.map(f64_number)
}

fn to_document(e: &Event, peer: &str) -> CotDocument {
    let f = fields(e);
    let size = file_size(&f);
    cot_to_document(&f, peer, size)
}

fn to_serde(v: &JsonValue) -> serde_json::Value {
    match v {
        JsonValue::Null => serde_json::Value::Null,
        JsonValue::Bool(b) => serde_json::Value::Bool(*b),
        JsonValue::Number(n) => serde_json::from_str(&n.text).unwrap(),
        JsonValue::Str(s) => serde_json::Value::String(s.clone()),
        JsonValue::Array(a) => serde_json::Value::Array(a.iter().map(to_serde).collect()),
        JsonValue::Object(m) => serde_json::Value::Object(map_to_serde(m)),
    }
}

fn map_to_serde(m: &JsonMap) -> serde_json::Map<String, serde_json::Value> {
    let mut o = serde_json::Map::new();
    for i in 0..m.len() {
        let (k, v) = m.entry_at(i);
        o.insert(k.clone(), to_serde(v));
    }
    o
}

fn members(d: &CotDocument) -> serde_json::Value {
    serde_json::Value::Object(map_to_serde(d.fields()))
}

fn f(v: &serde_json::Value, k: &str) -> Option<f64> {
    v.get(k).and_then(|x| x.as_f64())
}

fn s(v: &serde_json::Value, k: &str) -> String {
    v.get(k).and_then(|x| x.as_str()).unwrap_or("").to_string()
}

fn parse_time(t: &str) -> DateTime<Utc> {
    DateTime::parse_from_rfc3339(t)
        .map(|d| d.with_timezone(&Utc))
        .or_else(|_| DateTime::parse_from_str(t, "%Y-%m-%dT%H:%M:%S%.fZ").map(|d| d.with_timezone(&Utc)))
        .unwrap()
}

fn from_xml(xml: &str) -> Event {
    let scan = scan_event_xml(xml);
    assert!(scan.error.is_none(), "{:?}", scan.error);
    let now = Utc::now();
    let mut e = Event {
        version: scan.version.clone(),
        uid: scan.uid.clone(),
        event_type: scan.event_type.clone(),
        time: now,
        start: now,
        stale: now,
        how: scan.how.clone(),
        point: origin(),
        detail: scan.detail.clone(),
    };
    for (k, v) in &scan.fields {
        match k.as_str() {
            "time" => e.time = parse_time(v),
            "start" => e.start = parse_time(v),
            "stale" => e.stale = parse_time(v),
            "lat" => e.point.lat = v.parse().unwrap(),
            "lon" => e.point.lon = v.parse().unwrap(),
            "hae" => e.point.hae = v.parse().unwrap(),
            "ce" => e.point.ce = v.parse().unwrap(),
            _ => e.point.le = v.parse().unwrap(),
        }
    }
    e
}

fn micros(n: &Option<JsonNumber>) -> DateTime<Utc> {
    let m = num(n) as i64;
    Utc.timestamp_opt(m / 1_000_000, ((m % 1_000_000) * 1_000) as u32).single().unwrap()
}

fn num(n: &Option<JsonNumber>) -> f64 {
    n.as_ref().and_then(|x| x.text.parse::<f64>().ok()).unwrap_or(0.0)
}

fn ce_of(s: &EventSource) -> f64 {
    match &s.ce {
        Some(JsonValue::Number(x)) => x.text.parse().unwrap_or(0.0),
        Some(JsonValue::Str(t)) => t.parse().unwrap_or(0.0),
        _ => 0.0,
    }
}

/// The event of a source, times from `b`, `n`, `o` (a file document's
/// start and stale from its detail where it has them).
fn event_of(s: &EventSource) -> Event {
    let time = micros(&s.time_micros);
    let start = match &s.file_start {
        Some(t) => parse_time(t),
        None if s.is_file => time,
        None => micros(&s.start_micros),
    };
    let stale = match &s.file_stale {
        Some(t) => parse_time(t),
        None => micros(&s.stale_micros),
    };
    Event {
        version: s.version.clone(),
        uid: s.uid.clone(),
        event_type: s.event_type.clone(),
        time,
        start,
        stale,
        how: s.how.clone(),
        point: Point { lat: num(&s.lat), lon: num(&s.lon), hae: num(&s.hae), ce: ce_of(s), le: num(&s.le) },
        detail: String::new(),
    }
}

/// What `new_chat_message` makes.
fn chat_message(sender_uid: &str, callsign: &str, message: &str, room: &str, room_id: &str) -> Event {
    let now = Utc::now();
    Event {
        version: "2.0".to_string(),
        uid: sender_uid.to_string(),
        event_type: "b-t-f".to_string(),
        time: now,
        start: now,
        stale: now + chrono::Duration::minutes(5),
        how: "h-g-i-g-o".to_string(),
        point: origin(),
        detail: format!(
            r#"<detail><chat from="{}" room="{}" roomId="{}" msg="{}"/></detail>"#,
            callsign, room, room_id, message
        ),
    }
}

/// What `new_emergency` makes.
fn emergency(uid: &str, lat: f64, lon: f64, kind: &str, message: &str) -> Event {
    let now = Utc::now();
    Event {
        version: "2.0".to_string(),
        uid: uid.to_string(),
        event_type: "b-a-o-can".to_string(),
        time: now,
        start: now,
        stale: now + chrono::Duration::minutes(5),
        how: "h-g-i-g-o".to_string(),
        point: Point { lat, lon, hae: 0.0, ce: 10.0, le: 10.0 },
        detail: format!("<detail>emergency: type={} msg={}</detail>", kind, message),
    }
}

/// What `new_location_update` makes.
fn location_update(uid: &str, callsign: &str, team: &str, lat: f64, lon: f64, hae: f64) -> Event {
    let now = Utc::now();
    Event {
        version: "2.0".to_string(),
        uid: uid.to_string(),
        event_type: "a-f-G-U-C".to_string(),
        time: now,
        start: now,
        stale: now + chrono::Duration::minutes(5),
        how: "h-g-i-g-o".to_string(),
        point: Point { lat, lon, hae, ce: 10.0, le: 10.0 },
        detail: format!("location update: callsign={}, team={}", callsign, team),
    }
}

fn from_serde(v: &serde_json::Value) -> JsonValue {
    match v {
        serde_json::Value::Null => JsonValue::Null,
        serde_json::Value::Bool(b) => JsonValue::Bool(*b),
        serde_json::Value::Number(n) => JsonValue::Number(number(n)),
        serde_json::Value::String(s) => JsonValue::Str(s.clone()),
        serde_json::Value::Array(a) => JsonValue::Array(a.iter().map(from_serde).collect()),
        serde_json::Value::Object(o) => {
            let mut m = JsonMap::new();
            for (k, v) in o {
                m.insert(k.clone(), from_serde(v));
            }
            JsonValue::Object(m)
        }
    }
}

/// A coordinate as CoT XML writes it.
fn coordinate(val: f64) -> String {
    if val.fract() == 0.0 {
        format!("{:.1}", val)
    } else {
        let s = ryu::Buffer::new().format(val).to_string();
        if s.contains('.') { s } else { format!("{:.1}", val) }
    }
}

fn to_xml(e: &Event) -> String {
    EventText {
        version: e.version.clone(),
        event_type: e.event_type.clone(),
        uid: e.uid.clone(),
        time: e.time.to_rfc3339(),
        start: e.start.to_rfc3339(),
        stale: e.stale.to_rfc3339(),
        how: e.how.clone(),
        lat: coordinate(e.point.lat),
        lon: coordinate(e.point.lon),
        hae: coordinate(e.point.hae),
        ce: coordinate(e.point.ce),
        le: coordinate(e.point.le),
        detail: e.detail.clone(),
    }
    .to_xml()
}

#[test]
fn test_location_update_roundtrip() {
    let mut event = location_update("USER-123", "ALPHA-1", "Cyan", 34.12345, -118.12345, 150.0);
    let test_time = Utc.with_ymd_and_hms(2023, 1, 1, 12, 0, 0).unwrap();
    event.time = test_time;
    event.start = test_time;
    event.stale = test_time + chrono::Duration::minutes(5);
    let xml = to_xml(&event);
    let parsed = from_xml(&xml);
    let ditto_doc = to_document(&parsed, "test-peer");
    assert!(ditto_doc.is_map_item());
    assert!(ditto_doc.as_map_item().is_some());
    assert!(ditto_doc.has_key("_id"));
    let json = serde_json::to_string(&members(&ditto_doc)).unwrap();
    assert!(json.contains("_id"));
    let mut cot_from_ditto = event_of(&event_source_from_ditto(&ditto_doc));
    cot_from_ditto.detail = String::new();
    let xml_roundtrip = to_xml(&cot_from_ditto);
    let parsed_roundtrip = from_xml(&xml_roundtrip);
    assert_eq!(event.uid, parsed_roundtrip.uid);
    assert_eq!(event.event_type, parsed_roundtrip.event_type);
    assert_eq!(event.time, parsed_roundtrip.time);
    assert_eq!(event.start, parsed_roundtrip.start);
    assert_eq!(event.stale, parsed_roundtrip.stale);
    assert_eq!(event.how, parsed_roundtrip.how);
    assert!((event.point.lat - parsed_roundtrip.point.lat).abs() < 1e-6);
    assert!((event.point.lon - parsed_roundtrip.point.lon).abs() < 1e-6);
    assert!((event.point.hae - parsed_roundtrip.point.hae).abs() < 1e-3);
}

#[test]
fn test_chat_message_roundtrip() {
    let event = chat_message("USER-123", "ALPHA-1", "Test message", "All Chat Rooms", "All Chat Rooms");
    let xml = to_xml(&event);
    let parsed = from_xml(&xml);
    assert_eq!(event.event_type, parsed.event_type);
    assert!(!event.detail.is_empty());
    assert_eq!(event.detail, parsed.detail);
    assert!(event.detail.trim_start().starts_with("<detail"), "Detail should start with <detail>");
    assert!(event.detail.trim_end().ends_with("</detail>"), "Detail should end with </detail>");
}

#[test]
fn test_emergency_roundtrip() {
    let event = emergency("USER-123", 34.12345, -118.12345, "Emergency-911", "Need immediate assistance!");
    let xml = to_xml(&event);
    let parsed = from_xml(&xml);
    assert_eq!(event.event_type, parsed.event_type);
    assert_eq!(event.point.lat, parsed.point.lat);
    assert_eq!(event.point.lon, parsed.point.lon);
    assert!(!event.detail.is_empty());
    assert_eq!(event.detail, parsed.detail);
    assert!(event.detail.trim_start().starts_with("<detail"), "Detail should start with <detail>");
    assert!(event.detail.trim_end().ends_with("</detail>"), "Detail should end with </detail>");
}

#[test]
fn test_complete_cot_parsing() {
    let xml = r#"
    <event version="2.0" 
          uid="TEST-123" 
          type="a-f-G-U-C" 
          time="2023-01-01T12:00:00Z" 
          start="2023-01-01T12:00:00Z" 
          stale="2023-01-01T12:05:00Z" 
          how="h-g-i-g-o">
        <point lat="34.12345" lon="-118.12345" hae="150.0" ce="10.0" le="20.0"/>
    <detail>
    <contact callsign="ALPHA-1" phone="123-456-7890"/>
    <__group name="Cyan" role="Team Member"/>
    <track course="123.45" speed="5.0"/>
    <status battery="85"/>
    <usericon iconsetpath="COT_MAPPING_2525B/..."/>
    </detail>
    </event>"#;
    let event = from_xml(xml);
    assert_eq!(event.uid, "TEST-123");
    assert_eq!(event.event_type, "a-f-G-U-C");
    assert_eq!(event.point.lat, 34.12345);
    assert_eq!(event.point.lon, -118.12345);
    let normalized_detail = event.detail.replace(['\n', '\r', ' '], "");
    assert!(
        normalized_detail.contains("<contactcallsign=\"ALPHA-1\"phone=\"123-456-7890\"/>"),
        "Detail should contain contact element as raw string"
    );
    assert!(event.detail.contains("<__group name=\"Cyan\""));
    assert!(event.detail.contains("<track course=\"123.45\""));
    assert!(event.detail.contains("<status battery=\"85\""));
    assert!(event.detail.contains("<usericon iconsetpath=\"COT_MAPPING_2525B/...\""));
    let xml_roundtrip = to_xml(&event);
    let event_roundtrip = from_xml(&xml_roundtrip);
    assert_eq!(event.uid, event_roundtrip.uid);
    assert_eq!(event.detail.trim(), event_roundtrip.detail.trim(), "Detail string should roundtrip");
}

const SENSOR_XML: &str = r#"<?xml version="1.0" standalone="yes"?>
<event
how="m-d-a"
stale="2025-07-05T21:30:00Z"
start="2025-07-05T21:00:00Z"
time="2025-07-05T21:00:00Z"
type="a-u-S"
uid="sensor-unmanned-001"
version="2.0">
<detail>
<sensor type="thermal" status="active" temperature="85.5"/>
<platform name="UAV-SENSOR-01" model="Predator"/>
<battery level="78" voltage="24.2"/>
<remarks>Thermal sensor platform on patrol route Alpha</remarks>
</detail>
</event>
<track course="30.86376880675669" speed="1.3613854354920412" />
<point ce="500.0" hae="0.0" lat="37.32699544764403" le="100.0" lon="-75.2905272033264" />"#;

#[test]
fn test_sensor_unmanned_system_roundtrip() {
    let event = from_xml(SENSOR_XML);
    assert_eq!(event.event_type, "a-u-S");
    assert_eq!(event.uid, "sensor-unmanned-001");
    assert_eq!(event.how, "m-d-a");
    assert_eq!(event.version, "2.0");
    assert_eq!(event.point.lat, 37.32699544764403);
    assert_eq!(event.point.lon, -75.2905272033264);
    assert_eq!(event.point.hae, 0.0);
    assert_eq!(event.point.ce, 500.0);
    assert_eq!(event.point.le, 100.0);
    assert!(event.detail.contains("sensor type=\"thermal\""));
    assert!(event.detail.contains("platform name=\"UAV-SENSOR-01\""));
    assert!(event.detail.contains("battery level=\"78\""));
    let ditto_doc = to_document(&event, "test-source");
    assert!(ditto_doc.kind() == DocKind::MapItem, "Expected MapItem document for a-u-S CoT format");
    let m = members(&ditto_doc);
    assert_eq!(s(&m, "w"), "a-u-S");
    assert_eq!(s(&m, "p"), "m-d-a");
    assert_eq!(f(&m, "j"), Some(37.32699544764403));
    assert_eq!(f(&m, "l"), Some(-75.2905272033264));
    assert_eq!(f(&m, "i"), Some(0.0));
    let recovered_event = event_of(&event_source_from_ditto(&ditto_doc));
    assert_eq!(recovered_event.event_type, "a-u-S");
    assert_eq!(recovered_event.how, "m-d-a");
    assert_eq!(recovered_event.point.lat, 37.32699544764403);
    assert_eq!(recovered_event.point.lon, -75.2905272033264);
    let xml_output = to_xml(&event);
    let parsed_again = from_xml(&xml_output);
    assert_eq!(event.event_type, parsed_again.event_type);
    assert_eq!(event.uid, parsed_again.uid);
    assert_eq!(event.how, parsed_again.how);
}

#[test]
fn test_manual_data_acquisition_sensors() {
    for (event_type, description) in
        [("a-u-S", "Unmanned System - Sensor"), ("a-u-A", "Unmanned System - Air"), ("a-u-G", "Unmanned System - Ground")]
    {
        let xml = format!(
            r#"<event version="2.0" type="{}" uid="test-{}" time="2023-01-01T12:00:00Z" start="2023-01-01T12:00:00Z" stale="2023-01-01T12:30:00Z" how="m-d-a">
  <point lat="35.0" lon="-120.0" hae="100.0" ce="50.0" le="25.0"/>
  <detail>
    <sensor type="optical" status="active"/>
    <acquisition method="manual"/>
    <remarks>{}</remarks>
  </detail>
</event>"#,
            event_type,
            event_type.replace("-", "_"),
            description
        );
        let event = from_xml(&xml);
        assert_eq!(event.event_type, event_type);
        assert_eq!(event.how, "m-d-a");
        let ditto_doc = to_document(&event, "test-source");
        assert!(ditto_doc.kind() == DocKind::MapItem, "Expected MapItem for {}", event_type);
        let m = members(&ditto_doc);
        assert_eq!(s(&m, "w"), event_type);
        assert_eq!(s(&m, "p"), "m-d-a");
        let parsed_again = from_xml(&to_xml(&event));
        assert_eq!(event.event_type, parsed_again.event_type);
        assert_eq!(event.how, parsed_again.how);
    }
}

#[test]
fn test_sensor_unmanned_system_a_u_s_format() {
    let now = Utc::now();
    let start_time = now.to_rfc3339();
    let stale_time = (now + chrono::Duration::minutes(30)).to_rfc3339();
    let event_uid = "sensor-test-001";
    let cot_xml = format!(
        r#"<?xml version="1.0" standalone="yes"?>
<event
how="m-d-a"
stale="{}"
start="{}"
time="{}"
type="a-u-S"
uid="{}"
version="2.0">
<detail>
</detail>
</event>
<track course="30.86376880675669" speed="1.3613854354920412" />
<point ce="500.0" hae="0.0" lat="37.32699544764403" le="100.0" lon="-75.2905272033264" />"#,
        stale_time, start_time, start_time, event_uid
    );
    let cot_event = from_xml(&cot_xml);
    assert_eq!(cot_event.event_type, "a-u-S");
    assert_eq!(cot_event.uid, event_uid);
    assert_eq!(cot_event.how, "m-d-a");
    assert_eq!(cot_event.version, "2.0");
    assert_eq!(cot_event.point.lat, 37.32699544764403);
    assert_eq!(cot_event.point.lon, -75.2905272033264);
    assert_eq!(cot_event.point.hae, 0.0);
    assert_eq!(cot_event.point.ce, 500.0);
    assert_eq!(cot_event.point.le, 100.0);
    let ditto_doc = to_document(&cot_event, "test_source");
    assert!(ditto_doc.kind() == DocKind::MapItem, "Expected MapItem document for a-u-S CoT format");
    let m = members(&ditto_doc);
    assert_eq!(s(&m, "_id"), event_uid);
    assert_eq!(s(&m, "w"), "a-u-S");
    assert_eq!(s(&m, "p"), "m-d-a");
    assert_eq!(f(&m, "j"), Some(37.32699544764403));
    assert_eq!(f(&m, "l"), Some(-75.2905272033264));
    assert_eq!(f(&m, "i"), Some(0.0));
}

#[test]
fn test_sensor_manual_data_acquisition_variants() {
    for (event_type, _description) in [
        ("a-u-S", "Unmanned System - Sensor"),
        ("a-u-A", "Unmanned System - Air"),
        ("a-u-G", "Unmanned System - Ground"),
        ("a-u-S-T", "Unmanned System - Sensor - Thermal"),
    ] {
        let cot_xml = format!(
            r#"<event version="2.0" type="{}" uid="test-{}" time="2023-01-01T12:00:00Z" start="2023-01-01T12:00:00Z" stale="2023-01-01T12:30:00Z" how="m-d-a">
  <point lat="35.0" lon="-120.0" hae="100.0" ce="50.0" le="25.0"/>
  <detail>
    <sensor type="thermal" status="active"/>
  </detail>
</event>"#,
            event_type,
            event_type.replace("-", "_")
        );
        let cot_event = from_xml(&cot_xml);
        let ditto_doc = to_document(&cot_event, "test_source");
        assert!(ditto_doc.kind() == DocKind::MapItem, "Expected MapItem for {}", event_type);
        let m = members(&ditto_doc);
        assert_eq!(s(&m, "w"), event_type);
        assert_eq!(s(&m, "p"), "m-d-a");
    }
}

#[derive(Debug)]
enum ReadError {
    InvalidNumeric { field: String, value: String },
    InvalidDateTime { field: String, value: String },
    Xml(String),
}

/// Reads an event as a program does: times and coordinates in the order
/// the scan hands them out, the first that does not convert failing.
fn try_from_xml(xml: &str) -> Result<Event, ReadError> {
    let scan = scan_event_xml(xml);
    let now = Utc::now();
    let mut e = Event {
        version: scan.version.clone(),
        uid: scan.uid.clone(),
        event_type: scan.event_type.clone(),
        time: now,
        start: now,
        stale: now,
        how: scan.how.clone(),
        point: origin(),
        detail: scan.detail.clone(),
    };
    for (k, v) in &scan.fields {
        let time = || {
            DateTime::parse_from_rfc3339(v)
                .map(|d| d.with_timezone(&Utc))
                .map_err(|_| ReadError::InvalidDateTime { field: "datetime".to_string(), value: v.clone() })
        };
        let coordinate =
            || v.parse::<f64>().map_err(|_| ReadError::InvalidNumeric { field: k.clone(), value: v.clone() });
        match k.as_str() {
            "time" => e.time = time()?,
            "start" => e.start = time()?,
            "stale" => e.stale = time()?,
            "lat" => e.point.lat = coordinate()?,
            "lon" => e.point.lon = coordinate()?,
            "hae" => e.point.hae = coordinate()?,
            "ce" => e.point.ce = coordinate()?,
            _ => e.point.le = coordinate()?,
        }
    }
    match scan.error {
        Some(m) => Err(ReadError::Xml(m)),
        None => Ok(e),
    }
}

#[test]
fn test_xml_format_with_external_elements() {
    let now = Utc::now();
    let start_time = now.to_rfc3339();
    let stale_time = (now + chrono::Duration::minutes(30)).to_rfc3339();
    let event_uid = format!("TEST-{}", uuid::Uuid::new_v4());
    let cot_xml = format!(
        r#"<?xml version="1.0" standalone="yes"?>
<event how="m-d-a" stale="{}" start="{}" time="{}" type="a-u-S" uid="{}" version="2.0">
<detail>
</detail>
</event>
<track course="30.86376880675669" speed="1.3613854354920412" />
<point ce="500.0" hae="0.0" lat="37.32699544764403" le="100.0" lon="-75.2905272033264" />"#,
        stale_time, start_time, start_time, event_uid
    );
    let cot_event = try_from_xml(&cot_xml).unwrap();
    assert_eq!(cot_event.event_type, "a-u-S");
    assert_eq!(cot_event.how, "m-d-a");
    assert_eq!(cot_event.point.lat, 37.32699544764403);
    assert_eq!(cot_event.point.lon, -75.2905272033264);
    assert_eq!(cot_event.point.hae, 0.0);
    assert_eq!(cot_event.point.ce, 500.0);
    assert_eq!(cot_event.point.le, 100.0);
}

#[test]
fn test_xml_parsing_with_timestamps() {
    let now = Utc::now();
    let start_time = now.to_rfc3339();
    let stale_time = (now + chrono::Duration::minutes(30)).to_rfc3339();
    let event_uid = format!("MULTI-PEER-TEST-{}", uuid::Uuid::new_v4());
    let cot_xml = format!(
        r#"<event version="2.0" uid="{}" type="a-u-S" time="{}" start="{}" stale="{}" how="m-d-a"><point ce="500.0" hae="0.0" lat="37.32699544764403" le="100.0" lon="-75.2905272033264" /><detail><track course="30.86376880675669" speed="1.3613854354920412" /></detail></event>"#,
        event_uid, start_time, start_time, stale_time
    );
    match try_from_xml(&cot_xml) {
        Ok(event) => assert_eq!(event.uid, event_uid),
        Err(e) => panic!("XML parsing failed: {:?}", e),
    }
}

#[test]
fn test_invalid_numeric_error_handling() {
    let xml = r#"<event version="2.0" uid="TEST-123" type="a-f-G-U-C" time="2023-01-01T12:00:00Z" start="2023-01-01T12:00:00Z" stale="2023-01-01T12:05:00Z" how="h-g-i-g-o"><point lat="invalid" lon="0.0" hae="0.0" ce="10.0" le="20.0"/><detail></detail></event>"#;
    match try_from_xml(xml) {
        Err(ReadError::InvalidNumeric { field, value }) => {
            assert_eq!(field, "lat");
            assert_eq!(value, "invalid");
        }
        other => panic!("Expected InvalidNumeric error, got {:?}", other),
    }
}

#[test]
fn test_invalid_datetime_error_handling() {
    let xml = r#"<event version="2.0" uid="TEST-123" type="a-f-G-U-C" time="not-a-date" start="2023-01-01T12:00:00Z" stale="2023-01-01T12:05:00Z" how="h-g-i-g-o"><point lat="0.0" lon="0.0" hae="0.0" ce="10.0" le="20.0"/><detail></detail></event>"#;
    match try_from_xml(xml) {
        Err(ReadError::InvalidDateTime { field, value }) => {
            assert_eq!(field, "datetime");
            assert_eq!(value, "not-a-date");
        }
        other => panic!("Expected InvalidDateTime error, got {:?}", other),
    }
}

#[test]
fn test_parse_cot_invalid_numeric() {
    let xml = r#"<event version="2.0" uid="TEST-123" type="a-f-G-U-C" time="2023-01-01T12:00:00Z" start="2023-01-01T12:00:00Z" stale="2023-01-01T12:05:00Z" how="h-g-i-g-o" lat="0.0" lon="not-a-number" hae="0.0" ce="10.0" le="20.0"><detail></detail></event>"#;
    let scan = ditto_cot::cot_parse::parse_cot(xml);
    // The coordinates come in the order read; the first that is not a
    // number is the error.
    let bad = scan.numbers.iter().find(|(_, v)| v.parse::<f64>().is_err());
    match bad {
        Some((field, value)) => {
            assert_eq!(field, "lon");
            assert_eq!(value, "not-a-number");
        }
        None => panic!("Expected InvalidNumeric error"),
    }
}

#[test]
fn test_valid_parsing_still_works() {
    let xml = r#"<event version="2.0" uid="TEST-123" type="a-f-G-U-C" time="2023-01-01T12:00:00Z" start="2023-01-01T12:00:00Z" stale="2023-01-01T12:05:00Z" how="h-g-i-g-o"><point lat="34.12345" lon="-118.12345" hae="150.0" ce="10.0" le="20.0"/><detail></detail></event>"#;
    let result = try_from_xml(xml);
    assert!(result.is_ok());
    let event = result.unwrap();
    assert_eq!(event.uid, "TEST-123");
    assert_eq!(event.point.lat, 34.12345);
    assert_eq!(event.point.lon, -118.12345);
}

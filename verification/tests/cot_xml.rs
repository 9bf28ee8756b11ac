//! CoT events as XML text: writing, reading, and comparing times.

use ditto_cot::cot_parse::{parse_cot, scan_event_xml, scan_event_xml_from};
use ditto_cot::cot_xml::{replace_all, to_cot_xml, write_detail_xml, EventText, FlatCotEvent};
use ditto_cot::json::{JsonMap, JsonNumber, JsonValue};
use ditto_cot::plugins::{DetailPlugin, GroupPlugin, PluginRegistry};
use ditto_cot::xml_compare::normalize_datetime;

fn from_serde(v: &serde_json::Value) -> JsonValue {
    match v {
        serde_json::Value::Null => JsonValue::Null,
        serde_json::Value::Bool(b) => JsonValue::Bool(*b),
        serde_json::Value::Number(n) => JsonValue::Number(JsonNumber {
            text: n.to_string(),
            display: n.as_f64().map(|f| f.to_string()).unwrap_or_default(),
        }),
        serde_json::Value::String(s) => JsonValue::Str(s.clone()),
        serde_json::Value::Array(a) => JsonValue::Array(a.iter().map(from_serde).collect()),
        serde_json::Value::Object(o) => {
            let mut m = JsonMap::new();
            for (k, v) in o {
                m.insert(k.clone(), from_serde(v));
            }
            JsonValue::Object(m)
        }
    }
}

fn to_serde(v: &JsonValue) -> serde_json::Value {
    match v {
        JsonValue::Null => serde_json::Value::Null,
        JsonValue::Bool(b) => serde_json::Value::Bool(*b),
        JsonValue::Number(n) => serde_json::from_str(&n.text).unwrap(),
        JsonValue::Str(s) => serde_json::Value::String(s.clone()),
        JsonValue::Array(a) => serde_json::Value::Array(a.iter().map(to_serde).collect()),
        JsonValue::Object(m) => serde_json::Value::Object(map_to_serde(m)),
    }
}

fn map_to_serde(m: &JsonMap) -> serde_json::Map<String, serde_json::Value> {
    let mut o = serde_json::Map::new();
    for i in 0..m.len() {
        let (k, v) = m.entry_at(i);
        o.insert(k.clone(), to_serde(v));
    }
    o
}

fn json(text: &str) -> JsonValue {
    from_serde(&serde_json::from_str(text).unwrap())
}

fn object(text: &str) -> JsonMap {
    match json(text) {
        JsonValue::Object(m) => m,
        _ => panic!("not an object"),
    }
}

fn value(text: &str) -> serde_json::Value {
    serde_json::from_str(text).unwrap()
}

fn flat(callsign: Option<&str>, group: Option<&str>, extra: JsonMap) -> FlatCotEvent {
    FlatCotEvent {
        uid: "ANDROID-deadbeef".to_string(),
        type_: "a-f-G-U-C".to_string(),
        time: "2023-01-01T00:00:00Z".to_string(),
        start: "2023-01-01T00:00:00Z".to_string(),
        stale: "2023-01-01T00:00:00Z".to_string(),
        how: "h-g-i-g-o".to_string(),
        lat: "0".to_string(),
        lon: "0".to_string(),
        hae: "0".to_string(),
        ce: "0".to_string(),
        le: "0".to_string(),
        callsign: callsign.map(|s| s.to_string()),
        group_name: group.map(|s| s.to_string()),
        detail_extra: extra,
    }
}

#[test]
fn flat_event_written_as_cot_xml() {
    let xml = to_cot_xml(&flat(Some("TestUser"), Some("Blue"), JsonMap::new()));
    assert!(xml.contains("<event version=\"2.0\""));
    assert!(xml.contains("<contact callsign=\"TestUser\""));
    let expected = [
        r#"<?xml version="1.0" encoding="UTF-8"?>"#,
        r#"<event version="2.0" uid="ANDROID-deadbeef" type="a-f-G-U-C" time="2023-01-01T00:00:00Z" start="2023-01-01T00:00:00Z" stale="2023-01-01T00:00:00Z" how="h-g-i-g-o">"#,
        r#"<point lat="0" lon="0" hae="0" ce="0" le="0"/>"#,
        r#"<detail><contact callsign="TestUser"/><__group name="Blue"/></detail></event>"#,
    ]
    .concat();
    assert_eq!(xml, expected);
    let empty_names = to_cot_xml(&flat(Some(""), None, JsonMap::new()));
    assert!(empty_names.contains("<detail></detail>"));
}

#[test]
fn detail_members_written_back_as_elements() {
    let extra = object(
        r#"{
        "sensor": {"name": "ThermalCam-X"},
        "track": {"course": "90", "speed": 2.5, "ok": true, "skip": null},
        "remarks": {"_text": "hello", "to": "all", "link": {"uid": "x"}},
        "items": ["a", {"k": "v"}],
        "count": 3,
        "gone": null
    }"#,
    );
    let xml = to_cot_xml(&flat(None, None, extra));
    let start = xml.find("<detail>").unwrap();
    let expected = [
        r#"<detail><count>3</count><items>a</items><items k="v"/>"#,
        r#"<remarks to="all">hello<link uid="x"/></remarks><sensor><n>ThermalCam-X</n></sensor>"#,
        r#"<track course="90" ok="true" speed="2.5"/></detail></event>"#,
    ]
    .concat();
    assert_eq!(&xml[start..], expected);
    let mut out = String::new();
    write_detail_xml(&mut out, "platform", &json(r#"{"name": "MQ-9", "x": "1"}"#));
    assert_eq!(out, r#"<platform name="MQ-9" x="1"/>"#);
}

#[test]
fn event_written_with_utc_as_z() {
    let e = EventText {
        version: "2.0".to_string(),
        event_type: "a-f-G-U-C".to_string(),
        uid: "U".to_string(),
        time: "2023-01-01T12:00:00+00:00".to_string(),
        start: "2023-01-01T12:00:00+00:00".to_string(),
        stale: "2023-01-01T12:05:00+01:00".to_string(),
        how: "h-e".to_string(),
        lat: "1.5".to_string(),
        lon: "2.0".to_string(),
        hae: "3.0".to_string(),
        ce: "4.0".to_string(),
        le: "5.0".to_string(),
        detail: "<detail></detail>".to_string(),
    };
    let expected = "<event version=\"2.0\"\n              type=\"a-f-G-U-C\"\n              uid=\"U\"\n              time=\"2023-01-01T12:00:00Z\"\n              start=\"2023-01-01T12:00:00Z\"\n              stale=\"2023-01-01T12:05:00+01:00\"\n              how=\"h-e\">\n            <point lat=\"1.5\" lon=\"2.0\" hae=\"3.0\" ce=\"4.0\" le=\"5.0\"/>\n            <detail></detail>\n        </event>";
    assert_eq!(e.to_xml(), expected);
    assert_eq!(replace_all("a+00:00b+00:00", "+00:00", "Z"), "aZbZ");
    assert_eq!(replace_all("aaa", "aa", "b"), "ba");
}

#[test]
fn event_xml_read_as_texts() {
    let xml = r#"<event version="2.0" uid="TEST-123" type="a-f-G-U-C" time="2023-01-01T12:00:00Z" start="2023-01-01T12:00:00Z" stale="2023-01-01T12:05:00Z" how="h-g-i-g-o"><point lat="34.12345" lon="-118.12345" hae="150.0" ce="10.0" le="20.0"/><detail><contact callsign="A"/></detail></event>"#;
    let s = scan_event_xml(xml);
    assert_eq!(s.version, "2.0");
    assert_eq!(s.uid, "TEST-123");
    assert_eq!(s.event_type, "a-f-G-U-C");
    assert_eq!(s.how, "h-g-i-g-o");
    assert_eq!(s.detail, r#"<detail><contact callsign="A"/></detail>"#);
    assert!(s.error.is_none());
    let fields: Vec<(&str, &str)> = s.fields.iter().map(|(k, v)| (k.as_str(), v.as_str())).collect();
    assert_eq!(
        fields,
        vec![
            ("time", "2023-01-01T12:00:00Z"),
            ("start", "2023-01-01T12:00:00Z"),
            ("stale", "2023-01-01T12:05:00Z"),
            ("lat", "34.12345"),
            ("lon", "-118.12345"),
            ("hae", "150.0"),
            ("ce", "10.0"),
            ("le", "20.0"),
        ]
    );
}

#[test]
fn event_xml_read_until_an_error() {
    let s = scan_event_xml(r#"<event uid="A&bad;"><point lat="1"/></event>"#);
    assert!(s.error.is_some());
    assert!(s.fields.is_empty());
    let s = scan_event_xml(r#"<event uid="A"><point lat="1"></b></event>"#);
    assert_eq!(s.uid, "A");
    assert_eq!(s.error.as_deref(), Some("Expecting </point> found </b>"));
    let s = scan_event_xml(r#"<event uid="A"><detail><x/></detail"#);
    assert_eq!(s.detail, r#"<detail><x/></detail"#);
    let s = scan_event_xml(r#"<event uid="A"><detail><x/>"#);
    assert_eq!(s.detail, "");
    assert!(s.error.is_none());
}

#[test]
fn flat_read_of_event_attributes() {
    let xml = r#"<event version="2.0" uid="TEST-123" type="a-f-G-U-C" time="2023-01-01T12:00:00Z" start="2023-01-01T12:00:00Z" stale="2023-01-01T12:05:00Z" how="h-g-i-g-o" lat="0.0" lon="not-a-number" hae="0.0" ce="10.0" le="20.0"><detail><contact callsign="A"/></detail></event>"#;
    let s = parse_cot(xml);
    assert_eq!(s.uid, "TEST-123");
    assert_eq!(s.type_, "a-f-G-U-C");
    assert_eq!(s.stale, "2023-01-01T12:05:00Z");
    let numbers: Vec<(&str, &str)> = s.numbers.iter().map(|(k, v)| (k.as_str(), v.as_str())).collect();
    assert_eq!(numbers, vec![("lat", "0.0"), ("lon", "not-a-number"), ("hae", "0.0"), ("ce", "10.0"), ("le", "20.0")]);
    assert_eq!(s.detail_extra.len(), 1);
    match s.detail_extra.get("contact") {
        Some(JsonValue::Object(c)) => assert!(matches!(c.get("callsign"), Some(JsonValue::Str(v)) if v == "A")),
        _ => panic!("the contact element is a member"),
    }
}

#[test]
fn flat_read_keeps_the_detail_elements() {
    let xml = r#"<event uid="U-1" type="a-f-G-U-C" time="T1" start="T2" stale="T3" how="h-e"><detail><__group name="Blue"/><status battery="90"/></detail></event>"#;
    let s = parse_cot(xml);
    assert_eq!(s.uid, "U-1");
    assert_eq!(s.time, "T1");
    assert_eq!(s.how, "h-e");
    match s.detail_extra.get("__group") {
        Some(JsonValue::Object(g)) => assert!(matches!(g.get("name"), Some(JsonValue::Str(v)) if v == "Blue")),
        _ => panic!("the group element is a member"),
    }
    assert!(s.detail_extra.get("status").is_some());
    // A section left open is read as far as it goes.
    let s = parse_cot(r#"<event uid="U"><detail><a k="v"/>"#);
    assert!(s.detail_extra.get("a").is_some());
}

#[test]
fn a_point_after_the_closed_event_is_read() {
    let xml = r#"<event version="2.0" uid="s-1" type="a-u-S" how="m-d-a" time="2025-07-05T21:00:00Z" start="2025-07-05T21:00:00Z" stale="2025-07-05T21:30:00Z"><detail><sensor type="thermal"/></detail></event><point ce="500.0" hae="0.0" lat="37.32699544764403" le="100.0" lon="-75.2905272033264"/>"#;
    let s = scan_event_xml(xml);
    assert_eq!(s.uid, "s-1");
    assert_eq!(s.event_type, "a-u-S");
    assert!(s.detail.contains(r#"sensor type="thermal""#));
    let fields: Vec<(&str, &str)> = s.fields.iter().map(|(k, v)| (k.as_str(), v.as_str())).collect();
    assert_eq!(
        fields,
        vec![
            ("time", "2025-07-05T21:00:00Z"),
            ("start", "2025-07-05T21:00:00Z"),
            ("stale", "2025-07-05T21:30:00Z"),
            ("ce", "500.0"),
            ("hae", "0.0"),
            ("lat", "37.32699544764403"),
            ("le", "100.0"),
            ("lon", "-75.2905272033264"),
        ]
    );
}

#[test]
fn times_compared_with_utc_forms_alike() {
    assert_eq!(normalize_datetime("2023-01-01T12:00:00+00:00"), "2023-01-01T12:00:00Z");
    assert_eq!(normalize_datetime("2023-01-01T12:00:00Z"), "2023-01-01T12:00:00Z");
    assert_eq!(normalize_datetime("2023-01-01T12:00:00+01:00"), "2023-01-01T12:00:00+01:00");
    assert_eq!(normalize_datetime("noon"), "noon");
    let once = normalize_datetime("2023-01-01T12:00:00+00:00");
    assert_eq!(normalize_datetime(&once), once);
}

#[test]
fn group_plugin_reads_the_group_name() {
    let p = GroupPlugin;
    assert!(p.matches("__group"));
    assert!(!p.matches("contact"));
    let attrs = object(r#"{"name": "Blue", "role": "Lead"}"#);
    let (key, val) = p.parse(&attrs).unwrap();
    assert_eq!(key, "group_name");
    let mut e = flat(None, None, JsonMap::new());
    p.enrich_flat(&mut e, &key, &val);
    assert_eq!(e.group_name.as_deref(), Some("Blue"));
    p.enrich_flat(&mut e, "other", &json(r#""Red""#));
    assert_eq!(e.group_name.as_deref(), Some("Blue"));
    assert!(p.parse(&object(r#"{"role": "Lead"}"#)).is_none());

    let mut registry = PluginRegistry::new();
    registry.register(Box::new(GroupPlugin));
    let mut e = flat(None, None, JsonMap::new());
    registry.handle("__group", &object(r#"{"name": "Green"}"#), &mut e);
    assert_eq!(e.group_name.as_deref(), Some("Green"));
    registry.handle("contact", &object(r#"{"name": "Red"}"#), &mut e);
    assert_eq!(e.group_name.as_deref(), Some("Green"));
}

#[test]
fn event_xml_read_over_given_texts() {
    let s = scan_event_xml_from(r#"<event uid="B"><detail/></event>"#, "2.0", "A", "a-f-G-U-C", "h-g-i-g-o");
    assert_eq!(s.version, "2.0");
    assert_eq!(s.uid, "B");
    assert_eq!(s.event_type, "a-f-G-U-C");
    assert_eq!(s.how, "h-g-i-g-o");
}

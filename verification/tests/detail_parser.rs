//! The detail section read into members.

use ditto_cot::detail::parse_detail_section;
use ditto_cot::json::{JsonMap, JsonNumber, JsonValue};

fn from_serde(v: &serde_json::Value) -> JsonValue {
    match v {
        serde_json::Value::Null => JsonValue::Null,
        serde_json::Value::Bool(b) => JsonValue::Bool(*b),
        serde_json::Value::Number(n) => JsonValue::Number(JsonNumber {
            text: n.to_string(),
            display: n.as_f64().map(|f| f.to_string()).unwrap_or_default(),
        }),
        serde_json::Value::String(s) => JsonValue::Str(s.clone()),
        serde_json::Value::Array(a) => JsonValue::Array(a.iter().map(from_serde).collect()),
        serde_json::Value::Object(o) => {
            let mut m = JsonMap::new();
            for (k, v) in o {
                m.insert(k.clone(), from_serde(v));
            }
            JsonValue::Object(m)
        }
    }
}

fn to_serde(v: &JsonValue) -> serde_json::Value {
    match v {
        JsonValue::Null => serde_json::Value::Null,
        JsonValue::Bool(b) => serde_json::Value::Bool(*b),
        JsonValue::Number(n) => serde_json::from_str(&n.text).unwrap(),
        JsonValue::Str(s) => serde_json::Value::String(s.clone()),
        JsonValue::Array(a) => serde_json::Value::Array(a.iter().map(to_serde).collect()),
        JsonValue::Object(m) => serde_json::Value::Object(map_to_serde(m)),
    }
}

fn map_to_serde(m: &JsonMap) -> serde_json::Map<String, serde_json::Value> {
    let mut o = serde_json::Map::new();
    for i in 0..m.len() {
        let (k, v) = m.entry_at(i);
        o.insert(k.clone(), to_serde(v));
    }
    o
}

fn json(text: &str) -> JsonValue {
    from_serde(&serde_json::from_str(text).unwrap())
}

fn object(text: &str) -> JsonMap {
    match json(text) {
        JsonValue::Object(m) => m,
        _ => panic!("not an object"),
    }
}

fn value(text: &str) -> serde_json::Value {
    serde_json::from_str(text).unwrap()
}

fn parsed(detail: &str) -> serde_json::Value {
    serde_json::Value::Object(map_to_serde(&parse_detail_section(detail)))
}

#[test]
fn test_detail_parsing() {
    let detail = r#"<detail><contact callsign='RAVEN'/><__group name='Blue'/></detail>"#;
    let extras = parsed(detail);
    assert_eq!(extras["contact"]["callsign"], serde_json::Value::String("RAVEN".to_string()));
    assert_eq!(extras["__group"]["name"], serde_json::Value::String("Blue".to_string()));
}

#[test]
fn test_nested_detail_parsing() {
    let detail = r#"<detail><foo bar='baz'><child x='1'><subchild>abc</subchild></child></foo></detail>"#;
    let extras = parsed(detail);
    let foo = &extras["foo"];
    assert_eq!(foo["bar"], serde_json::Value::String("baz".to_string()));
    let child = &foo["child"];
    assert_eq!(child["x"], serde_json::Value::String("1".to_string()));
    let subchild = &child["subchild"];
    assert_eq!(subchild, "abc");
}

#[test]
fn test_mixed_text_and_attributes() {
    let detail = r#"<detail><note importance='high'>Check this</note></detail>"#;
    let extras = parsed(detail);
    let note = &extras["note"];
    assert_eq!(note["importance"], serde_json::Value::String("high".to_string()));
    assert_eq!(note["_text"], serde_json::Value::String("Check this".to_string()));
}

#[test]
fn test_repeated_elements() {
    let detail = r#"<detail><item id='1'/><item id='2'/><item id='3'/></detail>"#;
    let extras = parsed(detail);
    assert_eq!(extras["item"]["id"], serde_json::Value::String("3".to_string()));
}

#[test]
fn detail_example_from_the_documentation() {
    let detail = r#"<contact callsign="TEST-123"/><__group name="Blue"/><status readiness="true"/>"#;
    // Without a <detail> root the top-level elements are read.
    assert_eq!(
        parsed(detail),
        value(r#"{"contact": {"callsign": "TEST-123"}, "__group": {"name": "Blue"}, "status": {"readiness": "true"}}"#)
    );
    let wrapped = format!("<detail>{}</detail>", detail);
    assert_eq!(
        parsed(&wrapped),
        value(r#"{"contact": {"callsign": "TEST-123"}, "__group": {"name": "Blue"}, "status": {"readiness": "true"}}"#)
    );
}

#[test]
fn text_is_unescaped_and_attributes_are_not() {
    let detail = r#"<detail><remarks to="a&amp;b">x &lt; y</remarks><empty/></detail>"#;
    assert_eq!(
        parsed(detail),
        value(r#"{"remarks": {"to": "a&amp;b", "_text": "x < y"}, "empty": {}}"#)
    );
}

#[test]
fn reading_stops_at_the_end_of_the_section_or_input() {
    assert_eq!(parsed(r#"<detail><b/></detail><c/>"#), value(r#"{"b": {}}"#));
    // Where the text does not begin with <detail>, a later <detail> is an
    // element like any other.
    assert_eq!(
        parsed(r#"<a x="1"/><detail><b/></detail><c/>"#),
        value(r#"{"a": {"x": "1"}, "detail": {"b": {}}, "c": {}}"#)
    );
    // An empty <detail/> has no members.
    assert_eq!(parsed(r#"<detail/>"#), value("{}"));
    // An element left open at the end of the input is closed there.
    assert_eq!(parsed(r#"<detail><a k="v"><b>t"#), value(r#"{"a": {"k": "v", "b": "t"}}"#));
    // A closing tag that does not match ends the reading; the open element
    // is closed there.
    assert_eq!(parsed(r#"<detail><a/><b></c><d/></detail>"#), value(r#"{"a": {}, "b": {}}"#));
}

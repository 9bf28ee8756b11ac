//! Comparing XML texts by meaning.

use ditto_cot::minimize::{minimize_xml, sort_pairs};
use ditto_cot::xml_compare::{attrs_match, nodes_equal, semantic_xml_eq, semantic_xml_eq_legacy, DomNode};

fn node(id: usize, parent: Option<usize>, name: &str, attrs: &[(&str, &str)]) -> DomNode {
    DomNode {
        id,
        parent,
        element: true,
        name: name.to_string(),
        attrs: attrs.iter().map(|(k, v)| (k.to_string(), v.to_string())).collect(),
    }
}

#[test]
fn attribute_order_is_ignored() {
    let a = r#"<event uid="U1" type="a-f-G" how="m-g"><point lat="1.0" lon="2.0"/></event>"#;
    let b = r#"<event how="m-g" type="a-f-G" uid="U1"><point lon="2.0" lat="1.0"/></event>"#;
    assert!(semantic_xml_eq(a, b, false));
    assert!(semantic_xml_eq_legacy(a, b));
}

#[test]
fn strict_mode_requires_attribute_order() {
    let a = r#"<a x="1" y="2"/>"#;
    let b = r#"<a y="2" x="1"/>"#;
    assert!(!semantic_xml_eq(a, b, true));
    assert!(semantic_xml_eq(a, b, false));
    assert!(semantic_xml_eq(a, a, true));
    let c = r#"<a x="1" y="2" time="2024-01-01T00:00:00Z"/>"#;
    let d = r#"<a x="1" y="2" time="2024-01-01T00:00:00+00:00"/>"#;
    assert!(semantic_xml_eq(c, d, true));
}

#[test]
fn detail_comparison_is_symmetric() {
    let a = r#"<event><detail><s x="1"/><s x="1"/></detail></event>"#;
    let b = r#"<event><detail><s x="1"/><s x="2"/></detail></event>"#;
    assert!(!semantic_xml_eq(a, b, false));
    assert!(!semantic_xml_eq(b, a, false));
    let c = r#"<event><detail><t/><s x="1"/></detail></event>"#;
    let d = r#"<event><detail><s x="1"/><t/></detail></event>"#;
    assert!(semantic_xml_eq(c, d, false));
    assert!(semantic_xml_eq(d, c, false));
}

#[test]
fn different_attribute_values_differ() {
    let a = r#"<event uid="U1"><point lat="1.0"/></event>"#;
    let b = r#"<event uid="U1"><point lat="1.5"/></event>"#;
    assert!(!semantic_xml_eq(a, b, false));
}

#[test]
fn missing_attribute_differs() {
    let a = r#"<event uid="U1" how="m-g"/>"#;
    let b = r#"<event uid="U1"/>"#;
    assert!(!semantic_xml_eq(a, b, false));
    assert!(!semantic_xml_eq(b, a, false));
}

#[test]
fn utc_offset_and_zulu_times_agree() {
    let a = r#"<event time="2024-01-01T00:00:00+00:00" start="2024-01-01T00:00:00Z" stale="2024-01-01T01:00:00+00:00"/>"#;
    let b = r#"<event time="2024-01-01T00:00:00Z" start="2024-01-01T00:00:00+00:00" stale="2024-01-01T01:00:00Z"/>"#;
    assert!(semantic_xml_eq(a, b, false));
}

#[test]
fn offsets_are_normalized_only_on_time_attributes() {
    let a = r#"<event note="2024-01-01T00:00:00+00:00"/>"#;
    let b = r#"<event note="2024-01-01T00:00:00Z"/>"#;
    assert!(!semantic_xml_eq(a, b, false));
}

#[test]
fn detail_children_in_any_order() {
    let a = r#"<event><detail><contact callsign="A"/><__group name="Cyan"/><remarks>x</remarks></detail></event>"#;
    let b = r#"<event><detail><remarks>y</remarks><__group name="Cyan"/><contact callsign="A"/></detail></event>"#;
    assert!(semantic_xml_eq(a, b, false));
}

#[test]
fn detail_child_counts_must_match() {
    let a = r#"<event><detail><sensor id="1"/><sensor id="1"/></detail></event>"#;
    let b = r#"<event><detail><sensor id="1"/></detail></event>"#;
    assert!(!semantic_xml_eq(a, b, false));
}

#[test]
fn detail_children_must_find_an_equal() {
    let a = r#"<event><detail><sensor id="1"/><sensor id="2"/></detail></event>"#;
    let b = r#"<event><detail><sensor id="2"/><sensor id="3"/></detail></event>"#;
    assert!(!semantic_xml_eq(a, b, false));
    let c = r#"<event><detail><sensor id="2"/><sensor id="1"/></detail></event>"#;
    assert!(semantic_xml_eq(a, c, false));
}

#[test]
fn other_children_in_order() {
    let a = r#"<root><x/><y/></root>"#;
    let b = r#"<root><y/><x/></root>"#;
    assert!(!semantic_xml_eq(a, b, false));
    assert!(semantic_xml_eq(a, a, false));
}

#[test]
fn whitespace_and_text_are_ignored() {
    let a = "<root>\n  <x a=\"1\"/>\n  text\n</root>";
    let b = "<root><x a=\"1\"/></root>";
    assert!(semantic_xml_eq(a, b, false));
}

#[test]
fn unparsable_xml_is_never_equal() {
    let a = "<root><x></root>";
    assert!(!semantic_xml_eq(a, a, false));
    assert!(!semantic_xml_eq("<root/>", a, false));
}

#[test]
fn root_names_must_match() {
    assert!(!semantic_xml_eq("<a/>", "<b/>", false));
}

#[test]
fn nodes_equal_on_built_nodes() {
    let a = vec![node(1, Some(0), "event", &[("uid", "U")]), node(2, Some(1), "point", &[("lat", "1")])];
    let b = vec![node(7, Some(0), "event", &[("uid", "U")]), node(8, Some(7), "point", &[("lat", "1")])];
    assert!(nodes_equal(&a, 0, &b, 0, false));
    let c = vec![node(7, Some(0), "event", &[("uid", "U")]), node(8, Some(7), "point", &[("lat", "2")])];
    assert!(!nodes_equal(&a, 0, &c, 0, false));
    assert!(!nodes_equal(&a, 5, &b, 0, false));
}

#[test]
fn attrs_match_uses_last_occurrence_and_normalizes_times() {
    let a = vec![("time".to_string(), "T+00:00".to_string()), ("k".to_string(), "1".to_string())];
    let b = vec![("k".to_string(), "0".to_string()), ("k".to_string(), "1".to_string()), ("time".to_string(), "TZ".to_string())];
    assert!(attrs_match(&a, &b));
    let c = vec![("k".to_string(), "1".to_string())];
    assert!(!attrs_match(&a, &c));
}

#[test]
fn minimize_removes_layout_and_sorts_attributes() {
    let xml = "<a  b=\"2\" a=\"1\">\n  <c/>\n  text  \n</a>";
    assert_eq!(minimize_xml(xml), "<a a=\"1\" b=\"2\"><c/>text</a>");
}

#[test]
fn minimize_keeps_declarations_out_and_cdata_in() {
    let xml = "<?xml version=\"1.0\"?>\n<a><!-- note --><![CDATA[x y]]></a>";
    assert_eq!(minimize_xml(xml), "<a>x y</a>");
}

#[test]
fn minimize_keeps_raw_attribute_values() {
    assert_eq!(minimize_xml("<a x=\"&amp;\" />"), "<a x=\"&amp;\"/>");
}

#[test]
fn minimize_stops_at_an_error() {
    assert_eq!(minimize_xml("<a><b></a><c/>"), "<a><b>");
}

#[test]
fn minimize_of_equal_documents_with_reordered_attributes_agree() {
    let a = "<event uid=\"1\" how=\"h\"><point lat=\"1\" lon=\"2\"/></event>";
    let b = "<event how=\"h\" uid=\"1\">\n  <point lon=\"2\" lat=\"1\"/>\n</event>";
    assert_eq!(minimize_xml(a), minimize_xml(b));
}

#[test]
fn sort_pairs_is_stable() {
    let v: Vec<(String, String)> = vec![
        ("b".to_string(), "1".to_string()),
        ("a".to_string(), "2".to_string()),
        ("b".to_string(), "3".to_string()),
        ("A".to_string(), "4".to_string()),
    ];
    let r = sort_pairs(&v);
    let keys: Vec<(&str, &str)> = r.iter().map(|(k, v)| (k.as_str(), v.as_str())).collect();
    assert_eq!(keys, vec![("A", "4"), ("a", "2"), ("b", "1"), ("b", "3")]);
}

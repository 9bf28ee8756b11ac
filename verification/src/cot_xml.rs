//! CoT events as XML text: the flattened form of an event and the XML it
//! is written as, with the members of its detail section written back as
//! elements.
use vstd::prelude::*;
use crate::json::{JsonMap, JsonV, JsonValue, key_order, lemma_values_view_index, lemma_values_view_len, values_view};
use crate::text::{push_char, str_eq, string_of};

verus! {

/// A CoT event in flattened form: its attributes as texts (the point's
/// coordinates as the decimal texts they are written as), the callsign and
/// group, and the other members of its detail section.
pub struct FlatCotEvent {
    pub uid: String,
    pub type_: String,
    pub time: String,
    pub start: String,
    pub stale: String,
    pub how: String,
    pub lat: String,
    pub lon: String,
    pub hae: String,
    pub ce: String,
    pub le: String,
    pub callsign: Option<String>,
    pub group_name: Option<String>,
    pub detail_extra: JsonMap,
}

/// The view of a flattened event: its texts, callsign, group and members.
pub struct FlatCotEventV {
    pub uid: Seq<char>,
    pub type_: Seq<char>,
    pub time: Seq<char>,
    pub start: Seq<char>,
    pub stale: Seq<char>,
    pub how: Seq<char>,
    pub lat: Seq<char>,
    pub lon: Seq<char>,
    pub hae: Seq<char>,
    pub ce: Seq<char>,
    pub le: Seq<char>,
    pub callsign: Option<Seq<char>>,
    pub group_name: Option<Seq<char>>,
    pub detail_extra: Map<Seq<char>, JsonV>,
}

/// An optional text as characters.
pub open spec fn opt_chars(s: Option<String>) -> Option<Seq<char>> {
    match s {
        Some(t) => Some(t@),
        None => None,
    }
}

impl View for FlatCotEvent {
    type V = FlatCotEventV;

    open spec fn view(&self) -> FlatCotEventV {
        FlatCotEventV {
            uid: self.uid@,
            type_: self.type_@,
            time: self.time@,
            start: self.start@,
            stale: self.stale@,
            how: self.how@,
            lat: self.lat@,
            lon: self.lon@,
            hae: self.hae@,
            ce: self.ce@,
            le: self.le@,
            callsign: opt_chars(self.callsign),
            group_name: opt_chars(self.group_name),
            detail_extra: self.detail_extra@,
        }
    }
}

/// The text that a member value gives as an attribute: a text as it is, a
/// number as its `f64` text, a boolean as `true` or `false`; none for null.
pub open spec fn attr_text(v: JsonV) -> Option<Seq<char>> {
    match v {
        JsonV::Str(s) => Some(s),
        JsonV::Number(_, d) => Some(d),
        JsonV::Bool(b) => Some(
            if b {
                "true"@
            } else {
                "false"@
            },
        ),
        _ => None,
    }
}

/// Whether a member value is written as a child element.
pub open spec fn is_nested(v: JsonV) -> bool {
    v is Object || v is Array
}

/// The attributes ` k="t"` of the members among the first `n` keys of `ks`
/// (other than `_text`) whose values are neither objects nor arrays.
pub open spec fn entry_attrs(m: Map<Seq<char>, JsonV>, ks: Seq<Seq<char>>, n: int) -> Seq<char>
    decreases n,
{
    if n <= 0 || n > ks.len() {
        Seq::empty()
    } else {
        let k = ks[n - 1];
        let rest = entry_attrs(m, ks, n - 1);
        if k != "_text"@ && m.contains_key(k) && !is_nested(m[k]) && attr_text(m[k]) is Some {
            rest + seq![' '] + k + seq!['=', '"'] + attr_text(m[k])->0 + seq!['"']
        } else {
            rest
        }
    }
}

/// Whether a member among the first `n` keys of `ks` (other than `_text`)
/// is an object or an array.
pub open spec fn entry_has_children(m: Map<Seq<char>, JsonV>, ks: Seq<Seq<char>>, n: int) -> bool {
    exists|j: int| 0 <= j < n && j < ks.len() && ks[j] != "_text"@ && #[trigger] m.contains_key(ks[j]) && is_nested(m[ks[j]])
}

/// The text member `_text` of an object, if it is text.
pub open spec fn entry_text(m: Map<Seq<char>, JsonV>) -> Option<Seq<char>> {
    if m.contains_key("_text"@) && m["_text"@] is Str {
        Some(m["_text"@]->Str_0)
    } else {
        None
    }
}

/// Whether an object is written in the short form `<k><n>name</n></k>`:
/// the element is a `sensor` or a `platform` and its only member is a
/// text `name`.
pub open spec fn is_named_only(k: Seq<char>, m: Map<Seq<char>, JsonV>) -> bool {
    (k == "sensor"@ || k == "platform"@) && m.contains_key("name"@) && key_order(m).len() == 1 && m["name"@] is Str
}

/// The elements of a detail member `k` with value `v`: an object is an
/// element with its plain members as attributes (in key order), its
/// `_text` as text and its object and array members as child elements;
/// an array gives one element per item; a text, number or boolean is the
/// element's text; null gives nothing.
pub open spec fn detail_entry_xml(k: Seq<char>, v: JsonV) -> Seq<char>
    decreases v, 0int,
{
    match v {
        JsonV::Object(m) => if is_named_only(k, m) {
            seq!['<'] + k + seq!['>', '<', 'n', '>'] + m["name"@]->Str_0 + seq!['<', '/', 'n', '>', '<', '/'] + k
                + seq!['>']
        } else {
            let ks = key_order(m);
            let n = ks.len() as int;
            let attrs = entry_attrs(m, ks, n);
            if entry_has_children(m, ks, n) || entry_text(m) is Some {
                let text = match entry_text(m) {
                    Some(t) => t,
                    None => Seq::empty(),
                };
                seq!['<'] + k + attrs + seq!['>'] + text + entry_children(m, ks, n) + seq!['<', '/'] + k + seq!['>']
            } else {
                seq!['<'] + k + attrs + seq!['/', '>']
            }
        },
        JsonV::Array(a) => entry_items(k, a, a.len() as int),
        JsonV::Str(s) => seq!['<'] + k + seq!['>'] + s + seq!['<', '/'] + k + seq!['>'],
        JsonV::Number(_, d) => seq!['<'] + k + seq!['>'] + d + seq!['<', '/'] + k + seq!['>'],
        JsonV::Bool(b) => seq!['<'] + k + seq!['>'] + attr_text(v)->0 + seq!['<', '/'] + k + seq!['>'],
        JsonV::Null => Seq::empty(),
    }
}

/// The child elements of the object and array members among the first
/// `n` keys of `ks` (other than `_text`).
pub open spec fn entry_children(m: Map<Seq<char>, JsonV>, ks: Seq<Seq<char>>, n: int) -> Seq<char>
    decreases m, 1int, n,
{
    if n <= 0 || n > ks.len() {
        Seq::empty()
    } else {
        let k = ks[n - 1];
        let rest = entry_children(m, ks, n - 1);
        if k != "_text"@ && m.dom().finite() && m.contains_key(k) && is_nested(m[k]) {
            rest + detail_entry_xml(k, m[k])
        } else {
            rest
        }
    }
}

/// The elements of the first `n` items of an array member `k`.
pub open spec fn entry_items(k: Seq<char>, a: Seq<JsonV>, n: int) -> Seq<char>
    decreases a, 1int, n,
{
    if n <= 0 || n > a.len() {
        Seq::empty()
    } else {
        entry_items(k, a, n - 1) + detail_entry_xml(k, a[n - 1])
    }
}

/// The elements of the members among the first `n` keys of `ks`.
pub open spec fn detail_entries_xml(m: Map<Seq<char>, JsonV>, ks: Seq<Seq<char>>, n: int) -> Seq<char>
    decreases n,
{
    if n <= 0 || n > ks.len() {
        Seq::empty()
    } else {
        let k = ks[n - 1];
        detail_entries_xml(m, ks, n - 1) + if m.contains_key(k) {
            detail_entry_xml(k, m[k])
        } else {
            Seq::empty()
        }
    }
}

/// Writes the elements of detail member `k` with value `v`.
pub fn write_detail_xml(out: &mut String, k: &str, v: &JsonValue)
    ensures
        final(out)@ == old(out)@ + detail_entry_xml(k@, v@),
    decreases v, 0int,
{
    let ghost start = out@;
    match v {
        JsonValue::Object(m) => {
            write_object_xml(out, k, m);
        },
        JsonValue::Array(a) => {
            let mut i: usize = 0;
            while i < a.len()
                invariant
                    decreases_to!(*v => *a),
                    *v == JsonValue::Array(*a),
                    i <= a@.len(),
                    out@ == start + entry_items(k@, values_view(a@), i as int),
                decreases a@.len() - i,
            {
                proof {
                    assert(decreases_to!(*a => a@));
                    assert(decreases_to!(a@ => a@[i as int]));
                    lemma_values_view_index(a@, i as int);
                }
                write_detail_xml(out, k, &a[i]);
                proof {
                    lemma_values_view_len(a@);
                    assert(out@ =~= start + entry_items(k@, values_view(a@), i + 1));
                }
                i = i + 1;
            }
            proof {
                lemma_values_view_len(a@);
            }
        },
        JsonValue::Str(s) => {
            push_element(out, k, s.as_str());
        },
        JsonValue::Number(num) => {
            push_element(out, k, num.display.as_str());
        },
        JsonValue::Bool(b) => {
            proof {
                reveal_strlit("true");
                reveal_strlit("false");
            }
            if *b {
                push_element(out, k, "true");
            } else {
                push_element(out, k, "false");
            }
        },
        JsonValue::Null => {
            assert(out@ =~= start + detail_entry_xml(k@, v@));
        },
    }
}

/// Writes the elements of detail member `k` whose value is the object `m`.
#[verifier::rlimit(40)]
fn write_object_xml(out: &mut String, k: &str, m: &JsonMap)
    ensures
        final(out)@ == old(out)@ + detail_entry_xml(k@, JsonV::Object(m@)),
    decreases m, 1int,
{
    let ghost start = out@;
    proof {
        use_type_invariant(m);
        m.lemma_keys();
        reveal_strlit("sensor");
        reveal_strlit("platform");
        reveal_strlit("name");
    }
    let n = m.len();
    if (str_eq(k, "sensor") || str_eq(k, "platform")) && n == 1 {
        match m.get("name") {
            Some(JsonValue::Str(name)) => {
                push_char(out, '<');
                out.append(k);
                out.append("><n>");
                out.append(name.as_str());
                out.append("</n></");
                out.append(k);
                push_char(out, '>');
                proof {
                    reveal_strlit("><n>");
                    reveal_strlit("</n></");
                    assert(is_named_only(k@, m@));
                    assert(out@ =~= start + detail_entry_xml(k@, JsonV::Object(m@)));
                }
                return;
            },
            _ => {},
        }
    }
    assert(!is_named_only(k@, m@));
    let ghost ks = m.keys();
    let mut attrs = String::new();
    let mut children = String::new();
    let mut any_child = false;
    let mut text: Option<String> = None;
    let mut i: usize = 0;
    while i < n
        invariant
            n == ks.len(),
            ks == m.keys(),
            key_order(m@) == ks,
            m@.dom().finite(),
            forall|j: int| 0 <= j < n ==> m@.contains_key(#[trigger] ks[j]),
            i <= n,
            attrs@ == entry_attrs(m@, ks, i as int),
            children@ == entry_children(m@, ks, i as int),
            any_child == entry_has_children(m@, ks, i as int),
            match text {
                Some(t) => entry_text(m@) == Some(t@) && exists|j: int| 0 <= j < i && ks[j] == "_text"@,
                None => forall|j: int| 0 <= j < i ==> ks[j] != "_text"@ || m@["_text"@] !is Str,
            },
        decreases n - i,
    {
        let (key, val) = m.entry_at(i);
        proof {
            reveal_strlit("_text");
        }
        if str_eq(key.as_str(), "_text") {
            match val {
                JsonValue::Str(t) => {
                    text = Some(crate::text::copy_string(t));
                },
                _ => {},
            }
        } else {
            match val {
                JsonValue::Object(_) | JsonValue::Array(_) => {
                    write_detail_xml(&mut children, key.as_str(), val);
                    any_child = true;
                },
                JsonValue::Str(s) => {
                    push_attr(&mut attrs, key.as_str(), s.as_str());
                },
                JsonValue::Number(num) => {
                    push_attr(&mut attrs, key.as_str(), num.display.as_str());
                },
                JsonValue::Bool(b) => {
                    if *b {
                        push_attr(&mut attrs, key.as_str(), "true");
                    } else {
                        push_attr(&mut attrs, key.as_str(), "false");
                    }
                },
                JsonValue::Null => {},
            }
        }
        proof {
            reveal_strlit("true");
            reveal_strlit("false");
            assert(attrs@ =~= entry_attrs(m@, ks, i + 1));
            assert(children@ =~= entry_children(m@, ks, i + 1));
            if key@ != "_text"@ && is_nested(val@) {
                assert(entry_has_children(m@, ks, i + 1));
            } else {
                if entry_has_children(m@, ks, i + 1) {
                    let j = choose|j: int|
                        0 <= j < i + 1 && j < ks.len() && ks[j] != "_text"@ && #[trigger] m@.contains_key(ks[j])
                            && is_nested(m@[ks[j]]);
                    assert(j < i);
                }
            }
            if text is None {
                assert forall|j: int| 0 <= j < i + 1 implies ks[j] != "_text"@ || m@["_text"@] !is Str by {
                    if j == i && ks[j] == "_text"@ {
                        assert(m@["_text"@] == val@);
                    }
                }
            }
        }
        i = i + 1;
    }
    proof {
        if text is None && m@.contains_key("_text"@) {
            assert(ks.contains("_text"@));
            let j = choose|j: int| 0 <= j < ks.len() && ks[j] == "_text"@;
        }
    }
    push_char(out, '<');
    out.append(k);
    out.append(attrs.as_str());
    if any_child || text.is_some() {
        push_char(out, '>');
        match &text {
            Some(t) => {
                out.append(t.as_str());
            },
            None => {},
        }
        out.append(children.as_str());
        push_char(out, '<');
        push_char(out, '/');
        out.append(k);
        push_char(out, '>');
    } else {
        push_char(out, '/');
        push_char(out, '>');
    }
    proof {
        assert(out@ =~= start + detail_entry_xml(k@, JsonV::Object(m@)));
    }
}

/// Appends the attribute ` k="t"`.
fn push_attr(out: &mut String, k: &str, t: &str)
    ensures
        final(out)@ == old(out)@ + seq![' '] + k@ + seq!['=', '"'] + t@ + seq!['"'],
{
    let ghost start = out@;
    push_char(out, ' ');
    out.append(k);
    push_char(out, '=');
    push_char(out, '"');
    out.append(t);
    push_char(out, '"');
    assert(out@ =~= start + seq![' '] + k@ + seq!['=', '"'] + t@ + seq!['"']);
}

/// Appends the element `<k>t</k>`.
fn push_element(out: &mut String, k: &str, t: &str)
    ensures
        final(out)@ == old(out)@ + seq!['<'] + k@ + seq!['>'] + t@ + seq!['<', '/'] + k@ + seq!['>'],
{
    let ghost start = out@;
    push_char(out, '<');
    out.append(k);
    push_char(out, '>');
    out.append(t);
    push_char(out, '<');
    push_char(out, '/');
    out.append(k);
    push_char(out, '>');
    assert(out@ =~= start + seq!['<'] + k@ + seq!['>'] + t@ + seq!['<', '/'] + k@ + seq!['>']);
}

/// The `<contact>` element of a callsign that is present and not empty.
pub open spec fn contact_xml(c: Option<String>) -> Seq<char> {
    match c {
        Some(s) => if s@.len() > 0 {
            "<contact callsign=\""@ + s@ + "\"/>"@
        } else {
            Seq::empty()
        },
        None => Seq::empty(),
    }
}

/// The `<__group>` element of a group name that is present and not empty.
pub open spec fn group_xml(g: Option<String>) -> Seq<char> {
    match g {
        Some(s) => if s@.len() > 0 {
            "<__group name=\""@ + s@ + "\"/>"@
        } else {
            Seq::empty()
        },
        None => Seq::empty(),
    }
}

/// The CoT XML of a flattened event: the XML declaration, the `<event>`
/// element with its attributes, the `<point>`, and the `<detail>` section
/// with the contact, the group and the other members in key order.
pub open spec fn cot_xml(e: FlatCotEvent) -> Seq<char> {
    let m = e.detail_extra@;
    let ks = key_order(m);
    "<?xml version=\"1.0\" encoding=\"UTF-8\"?>"@ + "<event version=\"2.0\" uid=\""@ + e.uid@ + "\" type=\""@
        + e.type_@ + "\" time=\""@ + e.time@ + "\" start=\""@ + e.start@ + "\" stale=\""@ + e.stale@ + "\" how=\""@
        + e.how@ + "\">"@ + "<point lat=\""@ + e.lat@ + "\" lon=\""@ + e.lon@ + "\" hae=\""@ + e.hae@ + "\" ce=\""@
        + e.ce@ + "\" le=\""@ + e.le@ + "\"/>"@ + "<detail>"@ + contact_xml(e.callsign) + group_xml(e.group_name)
        + detail_entries_xml(m, ks, ks.len() as int) + "</detail>"@ + "</event>"@
}

/// An attribute ` name="value"` of a start tag.
pub open spec fn xml_attr(name: Seq<char>, value: Seq<char>) -> Seq<char> {
    seq![' '] + name + seq!['=', '"'] + value + seq!['"']
}

/// The `<event>` start tag that CoT XML of event `ev` holds: `version` 2.0,
/// then `uid`, `type`, `time`, `start`, `stale` and `how` carrying the
/// event's texts of those names.
pub open spec fn event_tag_of(ev: FlatCotEvent) -> Seq<char> {
    seq!['<', 'e', 'v', 'e', 'n', 't'] + xml_attr(seq!['v', 'e', 'r', 's', 'i', 'o', 'n'], seq!['2', '.', '0'])
        + xml_attr(seq!['u', 'i', 'd'], ev.uid@) + xml_attr(seq!['t', 'y', 'p', 'e'], ev.type_@) + xml_attr(
        seq!['t', 'i', 'm', 'e'],
        ev.time@,
    ) + xml_attr(seq!['s', 't', 'a', 'r', 't'], ev.start@) + xml_attr(seq!['s', 't', 'a', 'l', 'e'], ev.stale@)
        + xml_attr(seq!['h', 'o', 'w'], ev.how@) + seq!['>']
}

/// The `<point>` element that CoT XML of event `ev` holds: its `lat`,
/// `lon`, `hae`, `ce` and `le` attributes carry the event's texts of those
/// names.
pub open spec fn point_tag_of(ev: FlatCotEvent) -> Seq<char> {
    seq!['<', 'p', 'o', 'i', 'n', 't'] + xml_attr(seq!['l', 'a', 't'], ev.lat@) + xml_attr(seq!['l', 'o', 'n'], ev.lon@)
        + xml_attr(seq!['h', 'a', 'e'], ev.hae@) + xml_attr(seq!['c', 'e'], ev.ce@) + xml_attr(seq!['l', 'e'], ev.le@)
        + seq!['/', '>']
}

/// The opening ` name="` of an attribute.
spec fn attr_head(name: Seq<char>) -> Seq<char> {
    seq![' '] + name + seq!['=', '"']
}

/// Closing one attribute and opening the next regroups into the closed
/// attribute followed by the next head.
proof fn lemma_attr_step(a: Seq<char>, h: Seq<char>, v: Seq<char>, h2: Seq<char>)
    ensures
        ((a + h) + v) + (seq!['"'] + h2) == (a + ((h + v) + seq!['"'])) + h2,
{
    assert(((a + h) + v) + (seq!['"'] + h2) =~= (a + ((h + v) + seq!['"'])) + h2);
}

/// Closing the last attribute of a tag with `end`.
proof fn lemma_attr_last(a: Seq<char>, h: Seq<char>, v: Seq<char>, end: Seq<char>)
    ensures
        ((a + h) + v) + (seq!['"'] + end) == (a + ((h + v) + seq!['"'])) + end,
{
    assert(((a + h) + v) + (seq!['"'] + end) =~= (a + ((h + v) + seq!['"'])) + end);
}

proof fn lemma_assoc(a: Seq<char>, b: Seq<char>, c: Seq<char>)
    ensures
        a + (b + c) == (a + b) + c,
{
    assert(a + (b + c) =~= (a + b) + c);
}

/// The part of written CoT XML up to the end of the `<point>` element.
spec fn written_head(ev: FlatCotEvent) -> Seq<char> {
    "<?xml version=\"1.0\" encoding=\"UTF-8\"?>"@ + "<event version=\"2.0\" uid=\""@ + ev.uid@ + "\" type=\""@
        + ev.type_@ + "\" time=\""@ + ev.time@ + "\" start=\""@ + ev.start@ + "\" stale=\""@ + ev.stale@
        + "\" how=\""@ + ev.how@ + "\">"@ + "<point lat=\""@ + ev.lat@ + "\" lon=\""@ + ev.lon@
        + "\" hae=\""@ + ev.hae@ + "\" ce=\""@ + ev.ce@ + "\" le=\""@ + ev.le@ + "\"/>"@
}

/// The literal pieces of the written head, attribute by attribute.
proof fn lemma_head_literals()
    ensures
        "<event version=\"2.0\" uid=\""@ == (seq!['<', 'e', 'v', 'e', 'n', 't'] + xml_attr(
            seq!['v', 'e', 'r', 's', 'i', 'o', 'n'],
            seq!['2', '.', '0'],
        )) + attr_head(seq!['u', 'i', 'd']),
        "\" type=\""@ == seq!['"'] + attr_head(seq!['t', 'y', 'p', 'e']),
        "\" time=\""@ == seq!['"'] + attr_head(seq!['t', 'i', 'm', 'e']),
        "\" start=\""@ == seq!['"'] + attr_head(seq!['s', 't', 'a', 'r', 't']),
        "\" stale=\""@ == seq!['"'] + attr_head(seq!['s', 't', 'a', 'l', 'e']),
        "\" how=\""@ == seq!['"'] + attr_head(seq!['h', 'o', 'w']),
        "\">"@ == seq!['"'] + seq!['>'],
        "<point lat=\""@ == seq!['<', 'p', 'o', 'i', 'n', 't'] + attr_head(seq!['l', 'a', 't']),
        "\" lon=\""@ == seq!['"'] + attr_head(seq!['l', 'o', 'n']),
        "\" hae=\""@ == seq!['"'] + attr_head(seq!['h', 'a', 'e']),
        "\" ce=\""@ == seq!['"'] + attr_head(seq!['c', 'e']),
        "\" le=\""@ == seq!['"'] + attr_head(seq!['l', 'e']),
        "\"/>"@ == seq!['"'] + seq!['/', '>'],
{
    reveal_strlit("<event version=\"2.0\" uid=\"");
    reveal_strlit("\" type=\"");
    reveal_strlit("\" time=\"");
    reveal_strlit("\" start=\"");
    reveal_strlit("\" stale=\"");
    reveal_strlit("\" how=\"");
    reveal_strlit("\">");
    reveal_strlit("<point lat=\"");
    reveal_strlit("\" lon=\"");
    reveal_strlit("\" hae=\"");
    reveal_strlit("\" ce=\"");
    reveal_strlit("\" le=\"");
    reveal_strlit("\"/>");
    assert("<event version=\"2.0\" uid=\""@ =~= (seq!['<', 'e', 'v', 'e', 'n', 't'] + xml_attr(
        seq!['v', 'e', 'r', 's', 'i', 'o', 'n'],
        seq!['2', '.', '0'],
    )) + attr_head(seq!['u', 'i', 'd']));
    assert("\" type=\""@ =~= seq!['"'] + attr_head(seq!['t', 'y', 'p', 'e']));
    assert("\" time=\""@ =~= seq!['"'] + attr_head(seq!['t', 'i', 'm', 'e']));
    assert("\" start=\""@ =~= seq!['"'] + attr_head(seq!['s', 't', 'a', 'r', 't']));
    assert("\" stale=\""@ =~= seq!['"'] + attr_head(seq!['s', 't', 'a', 'l', 'e']));
    assert("\" how=\""@ =~= seq!['"'] + attr_head(seq!['h', 'o', 'w']));
    assert("\">"@ =~= seq!['"'] + seq!['>']);
    assert("<point lat=\""@ =~= seq!['<', 'p', 'o', 'i', 'n', 't'] + attr_head(seq!['l', 'a', 't']));
    assert("\" lon=\""@ =~= seq!['"'] + attr_head(seq!['l', 'o', 'n']));
    assert("\" hae=\""@ =~= seq!['"'] + attr_head(seq!['h', 'a', 'e']));
    assert("\" ce=\""@ =~= seq!['"'] + attr_head(seq!['c', 'e']));
    assert("\" le=\""@ =~= seq!['"'] + attr_head(seq!['l', 'e']));
    assert("\"/>"@ =~= seq!['"'] + seq!['/', '>']);
}

/// The written head is the declaration, the event tag and the point.
proof fn lemma_written_head(ev: FlatCotEvent)
    ensures
        written_head(ev) == "<?xml version=\"1.0\" encoding=\"UTF-8\"?>"@ + event_tag_of(ev) + point_tag_of(ev),
{
    lemma_head_literals();
    let d = "<?xml version=\"1.0\" encoding=\"UTF-8\"?>"@;
    let t0 = seq!['<', 'e', 'v', 'e', 'n', 't'];
    let xv = xml_attr(seq!['v', 'e', 'r', 's', 'i', 'o', 'n'], seq!['2', '.', '0']);
    let p0 = seq!['<', 'p', 'o', 'i', 'n', 't'];
    // The event tag, attribute by attribute.
    let t1 = t0 + xv;
    lemma_assoc(d, t1, attr_head(seq!['u', 'i', 'd']));
    let xu = xml_attr(seq!['u', 'i', 'd'], ev.uid@);
    lemma_attr_step(d + t1, attr_head(seq!['u', 'i', 'd']), ev.uid@, attr_head(seq!['t', 'y', 'p', 'e']));
    lemma_assoc(d, t1, xu);
    let t2 = t1 + xu;
    let xt = xml_attr(seq!['t', 'y', 'p', 'e'], ev.type_@);
    lemma_attr_step(d + t2, attr_head(seq!['t', 'y', 'p', 'e']), ev.type_@, attr_head(seq!['t', 'i', 'm', 'e']));
    lemma_assoc(d, t2, xt);
    let t3 = t2 + xt;
    let xti = xml_attr(seq!['t', 'i', 'm', 'e'], ev.time@);
    lemma_attr_step(d + t3, attr_head(seq!['t', 'i', 'm', 'e']), ev.time@, attr_head(seq!['s', 't', 'a', 'r', 't']));
    lemma_assoc(d, t3, xti);
    let t4 = t3 + xti;
    let xs = xml_attr(seq!['s', 't', 'a', 'r', 't'], ev.start@);
    lemma_attr_step(d + t4, attr_head(seq!['s', 't', 'a', 'r', 't']), ev.start@, attr_head(seq!['s', 't', 'a', 'l', 'e']));
    lemma_assoc(d, t4, xs);
    let t5 = t4 + xs;
    let xst = xml_attr(seq!['s', 't', 'a', 'l', 'e'], ev.stale@);
    lemma_attr_step(d + t5, attr_head(seq!['s', 't', 'a', 'l', 'e']), ev.stale@, attr_head(seq!['h', 'o', 'w']));
    lemma_assoc(d, t5, xst);
    let t6 = t5 + xst;
    let xh = xml_attr(seq!['h', 'o', 'w'], ev.how@);
    lemma_attr_last(d + t6, attr_head(seq!['h', 'o', 'w']), ev.how@, seq!['>']);
    lemma_assoc(d, t6, xh);
    let t7 = t6 + xh;
    lemma_assoc(d, t7, seq!['>']);
    let tag = t7 + seq!['>'];
    assert(tag == event_tag_of(ev));
    let e = d + tag;
    // The point element, attribute by attribute.
    lemma_assoc(e, p0, attr_head(seq!['l', 'a', 't']));
    let u0 = p0;
    let x1 = xml_attr(seq!['l', 'a', 't'], ev.lat@);
    lemma_attr_step(e + u0, attr_head(seq!['l', 'a', 't']), ev.lat@, attr_head(seq!['l', 'o', 'n']));
    lemma_assoc(e, u0, x1);
    let u1 = u0 + x1;
    let x2 = xml_attr(seq!['l', 'o', 'n'], ev.lon@);
    lemma_attr_step(e + u1, attr_head(seq!['l', 'o', 'n']), ev.lon@, attr_head(seq!['h', 'a', 'e']));
    lemma_assoc(e, u1, x2);
    let u2 = u1 + x2;
    let x3 = xml_attr(seq!['h', 'a', 'e'], ev.hae@);
    lemma_attr_step(e + u2, attr_head(seq!['h', 'a', 'e']), ev.hae@, attr_head(seq!['c', 'e']));
    lemma_assoc(e, u2, x3);
    let u3 = u2 + x3;
    let x4 = xml_attr(seq!['c', 'e'], ev.ce@);
    lemma_attr_step(e + u3, attr_head(seq!['c', 'e']), ev.ce@, attr_head(seq!['l', 'e']));
    lemma_assoc(e, u3, x4);
    let u4 = u3 + x4;
    let x5 = xml_attr(seq!['l', 'e'], ev.le@);
    lemma_attr_last(e + u4, attr_head(seq!['l', 'e']), ev.le@, seq!['/', '>']);
    lemma_assoc(e, u4, x5);
    let u5 = u4 + x5;
    lemma_assoc(e, u5, seq!['/', '>']);
    assert(u5 + seq!['/', '>'] == point_tag_of(ev));
}

/// The XML declaration, character by character.
proof fn lemma_declaration()
    ensures
        "<?xml version=\"1.0\" encoding=\"UTF-8\"?>"@ == seq!['<', '?', 'x', 'm', 'l', ' ', 'v', 'e', 'r', 's', 'i', 'o', 'n', '=', '"', '1', '.', '0', '"', ' ', 'e', 'n', 'c', 'o', 'd', 'i', 'n', 'g', '=', '"', 'U', 'T', 'F', '-', '8', '"', '?', '>'],
{
    reveal_strlit("<?xml version=\"1.0\" encoding=\"UTF-8\"?>");
    assert("<?xml version=\"1.0\" encoding=\"UTF-8\"?>"@ =~= seq!['<', '?', 'x', 'm', 'l', ' ', 'v', 'e', 'r', 's', 'i', 'o', 'n', '=', '"', '1', '.', '0', '"', ' ', 'e', 'n', 'c', 'o', 'd', 'i', 'n', 'g', '=', '"', 'U', 'T', 'F', '-', '8', '"', '?', '>']);
}

/// Written CoT XML opens with the XML declaration, then the `<event>` start
/// tag whose attributes carry the event's id, type, times and how, each
/// under its own name, then the `<point>` element whose attributes carry the
/// event's latitude, longitude, height, circular and linear error, each
/// under its own name.
pub proof fn lemma_cot_xml_carries_event_and_point(ev: FlatCotEvent)
    ensures
        ({
            let x = cot_xml(ev);
            let d = "<?xml version=\"1.0\" encoding=\"UTF-8\"?>"@;
            let t = event_tag_of(ev);
            let p = point_tag_of(ev);
            &&& x.len() >= d.len() + t.len() + p.len()
            &&& x.subrange(0, d.len() as int) == d
            &&& x.subrange(d.len() as int, (d.len() + t.len()) as int) == t
            &&& x.subrange((d.len() + t.len()) as int, (d.len() + t.len() + p.len()) as int) == p
        }),
{
    let x = cot_xml(ev);
    let d = "<?xml version=\"1.0\" encoding=\"UTF-8\"?>"@;
    let t = event_tag_of(ev);
    let p = point_tag_of(ev);
    let m = ev.detail_extra@;
    let ks = key_order(m);
    let rest = "<detail>"@ + contact_xml(ev.callsign) + group_xml(ev.group_name) + detail_entries_xml(
        m,
        ks,
        ks.len() as int,
    ) + "</detail>"@ + "</event>"@;
    lemma_written_head(ev);
    assert(x =~= written_head(ev) + rest);
    assert(x.subrange(0, d.len() as int) =~= d);
    assert(x.subrange(d.len() as int, (d.len() + t.len()) as int) =~= t);
    assert(x.subrange((d.len() + t.len()) as int, (d.len() + t.len() + p.len()) as int) =~= p);
}

/// The XML declaration that written CoT XML opens with is
/// `<?xml version="1.0" encoding="UTF-8"?>`.
pub proof fn lemma_cot_xml_declaration(ev: FlatCotEvent)
    ensures
        cot_xml(ev).len() >= 38,
        cot_xml(ev).subrange(0, 38) == seq!['<', '?', 'x', 'm', 'l', ' ', 'v', 'e', 'r', 's', 'i', 'o', 'n', '=', '"', '1', '.', '0', '"', ' ', 'e', 'n', 'c', 'o', 'd', 'i', 'n', 'g', '=', '"', 'U', 'T', 'F', '-', '8', '"', '?', '>'],
{
    lemma_cot_xml_carries_event_and_point(ev);
    lemma_declaration();
}

/// The `<contact>` element that CoT XML of event `ev` holds: one whose
/// `callsign` attribute carries the event's callsign, where it has one that
/// is not empty; else nothing.
pub open spec fn contact_tag_of(ev: FlatCotEvent) -> Seq<char> {
    match ev.callsign {
        Some(c) => if c@.len() > 0 {
            seq!['<', 'c', 'o', 'n', 't', 'a', 'c', 't'] + xml_attr(seq!['c', 'a', 'l', 'l', 's', 'i', 'g', 'n'], c@)
                + seq!['/', '>']
        } else {
            Seq::empty()
        },
        None => Seq::empty(),
    }
}

/// The `<__group>` element that CoT XML of event `ev` holds: one whose
/// `name` attribute carries the event's group name, where it has one that
/// is not empty; else nothing.
pub open spec fn group_tag_of(ev: FlatCotEvent) -> Seq<char> {
    match ev.group_name {
        Some(g) => if g@.len() > 0 {
            seq!['<', '_', '_', 'g', 'r', 'o', 'u', 'p'] + xml_attr(seq!['n', 'a', 'm', 'e'], g@) + seq!['/', '>']
        } else {
            Seq::empty()
        },
        None => Seq::empty(),
    }
}

/// The literal pieces of the detail section.
proof fn lemma_detail_literals(ev: FlatCotEvent)
    ensures
        "<detail>"@ == seq!['<', 'd', 'e', 't', 'a', 'i', 'l', '>'],
        "</detail>"@ + "</event>"@ == seq!['<', '/', 'd', 'e', 't', 'a', 'i', 'l', '>', '<', '/', 'e', 'v', 'e', 'n', 't', '>'],
        contact_xml(ev.callsign) == contact_tag_of(ev),
        group_xml(ev.group_name) == group_tag_of(ev),
{
    reveal_strlit("<detail>");
    reveal_strlit("</detail>");
    reveal_strlit("</event>");
    reveal_strlit("<contact callsign=\"");
    reveal_strlit("<__group name=\"");
    reveal_strlit("\"/>");
    assert("<detail>"@ =~= seq!['<', 'd', 'e', 't', 'a', 'i', 'l', '>']);
    assert("</detail>"@ + "</event>"@ =~= seq!['<', '/', 'd', 'e', 't', 'a', 'i', 'l', '>', '<', '/', 'e', 'v', 'e', 'n', 't', '>']);
    match ev.callsign {
        Some(c) => if c@.len() > 0 {
            assert(contact_xml(ev.callsign) =~= contact_tag_of(ev));
        },
        None => {},
    }
    match ev.group_name {
        Some(g) => if g@.len() > 0 {
            assert(group_xml(ev.group_name) =~= group_tag_of(ev));
        },
        None => {},
    }
}

/// After the `<point>` element, written CoT XML opens the `<detail>`
/// section with the `<contact>` element of the event's callsign and then
/// the `<__group>` element of its group name (each only where the event has
/// a non-empty one), and it ends by closing the `<detail>` section and the
/// `<event>` element.
pub proof fn lemma_cot_xml_carries_contact_and_group(ev: FlatCotEvent)
    ensures
        ({
            let x = cot_xml(ev);
            let n = ("<?xml version=\"1.0\" encoding=\"UTF-8\"?>"@.len() + event_tag_of(ev).len()
                + point_tag_of(ev).len()) as int;
            let o = seq!['<', 'd', 'e', 't', 'a', 'i', 'l', '>'];
            let c = contact_tag_of(ev);
            let g = group_tag_of(ev);
            let z = seq!['<', '/', 'd', 'e', 't', 'a', 'i', 'l', '>', '<', '/', 'e', 'v', 'e', 'n', 't', '>'];
            &&& x.len() >= n + o.len() + c.len() + g.len() + z.len()
            &&& x.subrange(n, n + o.len()) == o
            &&& x.subrange(n + o.len(), n + o.len() + c.len()) == c
            &&& x.subrange(n + o.len() + c.len(), n + o.len() + c.len() + g.len()) == g
            &&& x.subrange(x.len() - z.len(), x.len() as int) == z
        }),
{
    let x = cot_xml(ev);
    let m = ev.detail_extra@;
    let ks = key_order(m);
    let en = detail_entries_xml(m, ks, ks.len() as int);
    let o = seq!['<', 'd', 'e', 't', 'a', 'i', 'l', '>'];
    let c = contact_tag_of(ev);
    let g = group_tag_of(ev);
    let z = seq!['<', '/', 'd', 'e', 't', 'a', 'i', 'l', '>', '<', '/', 'e', 'v', 'e', 'n', 't', '>'];
    lemma_written_head(ev);
    lemma_detail_literals(ev);
    let w = written_head(ev);
    let n: int = w.len() as int;
    assert(x =~= w + o + c + g + en + z);
    assert(x.subrange(n, n + o.len()) =~= o);
    assert(x.subrange(n + o.len(), n + o.len() + c.len()) =~= c);
    assert(x.subrange(n + o.len() + c.len(), n + o.len() + c.len() + g.len()) =~= g);
    assert(x.subrange(x.len() - z.len(), x.len() as int) =~= z);
}

/// Writes a flattened event as CoT XML.
pub fn to_cot_xml(event: &FlatCotEvent) -> (r: String)
    ensures
        r@ == cot_xml(*event),
{
    let mut xml = String::new();
    xml.append("<?xml version=\"1.0\" encoding=\"UTF-8\"?>");
    xml.append("<event version=\"2.0\" uid=\"");
    xml.append(event.uid.as_str());
    xml.append("\" type=\"");
    xml.append(event.type_.as_str());
    xml.append("\" time=\"");
    xml.append(event.time.as_str());
    xml.append("\" start=\"");
    xml.append(event.start.as_str());
    xml.append("\" stale=\"");
    xml.append(event.stale.as_str());
    xml.append("\" how=\"");
    xml.append(event.how.as_str());
    xml.append("\">");
    xml.append("<point lat=\"");
    xml.append(event.lat.as_str());
    xml.append("\" lon=\"");
    xml.append(event.lon.as_str());
    xml.append("\" hae=\"");
    xml.append(event.hae.as_str());
    xml.append("\" ce=\"");
    xml.append(event.ce.as_str());
    xml.append("\" le=\"");
    xml.append(event.le.as_str());
    xml.append("\"/>");
    xml.append("<detail>");
    let ghost head = xml@;
    match &event.callsign {
        Some(c) => {
            if !c.as_str().is_empty() {
                xml.append("<contact callsign=\"");
                xml.append(c.as_str());
                xml.append("\"/>");
            }
        },
        None => {},
    }
    match &event.group_name {
        Some(g) => {
            if !g.as_str().is_empty() {
                xml.append("<__group name=\"");
                xml.append(g.as_str());
                xml.append("\"/>");
            }
        },
        None => {},
    }
    let m = &event.detail_extra;
    proof {
        use_type_invariant(m);
        m.lemma_keys();
    }
    let ghost ks = m.keys();
    let ghost before = xml@;
    let n = m.len();
    let mut i: usize = 0;
    while i < n
        invariant
            n == ks.len(),
            ks == m.keys(),
            forall|j: int| 0 <= j < n ==> m@.contains_key(#[trigger] ks[j]),
            i <= n,
            xml@ == before + detail_entries_xml(m@, ks, i as int),
        decreases n - i,
    {
        let (k, v) = m.entry_at(i);
        write_detail_xml(&mut xml, k.as_str(), v);
        assert(xml@ =~= before + detail_entries_xml(m@, ks, i + 1));
        i = i + 1;
    }
    xml.append("</detail>");
    xml.append("</event>");
    proof {
        assert(xml@ =~= cot_xml(*event));
    }
    xml
}

/// `s` with every occurrence of `from` (taken from left to right, not
/// overlapping) replaced by `to`.
pub open spec fn replace_spec(s: Seq<char>, from: Seq<char>, to: Seq<char>) -> Seq<char>
    decreases s.len(),
{
    if from.len() == 0 || s.len() < from.len() {
        s
    } else if s.subrange(0, from.len() as int) == from {
        to + replace_spec(s.skip(from.len() as int), from, to)
    } else {
        seq![s[0]] + replace_spec(s.skip(1), from, to)
    }
}

/// Replaces every occurrence of a non-empty `from` in `s` by `to`, as
/// `str::replace` does.
pub fn replace_all(s: &str, from: &str, to: &str) -> (r: String)
    requires
        from@.len() > 0,
    ensures
        r@ == replace_spec(s@, from@, to@),
{
    let cs = crate::text::chars_of(s);
    let fc = crate::text::chars_of(from);
    let mut out = String::new();
    let mut i: usize = 0;
    assert(s@.skip(0) =~= s@);
    while i < cs.len()
        invariant
            cs@ == s@,
            fc@ == from@,
            from@.len() > 0,
            i <= cs@.len(),
            out@ + replace_spec(s@.skip(i as int), from@, to@) == replace_spec(s@, from@, to@),
        decreases cs@.len() - i,
    {
        let ghost rest = s@.skip(i as int);
        if crate::text::matches_at(&cs, i, &fc) {
            proof {
                assert(cs@.subrange(i as int, cs@.len() as int) =~= rest);
                assert(rest.subrange(0, from@.len() as int) =~= cs@.subrange(i as int, i + fc@.len()));
                assert(rest.skip(from@.len() as int) =~= s@.skip(i + fc@.len()));
            }
            out.append(to);
            i = i + fc.len();
        } else {
            proof {
                assert(cs@.subrange(i as int, cs@.len() as int) =~= rest);
                if rest.len() >= from@.len() {
                    assert(rest.subrange(0, from@.len() as int) =~= cs@.subrange(i as int, i + fc@.len()));
                }
                assert(rest.skip(1) =~= s@.skip(i + 1));
                assert(rest[0] == cs@[i as int]);
            }
            push_char(&mut out, cs[i]);
            i = i + 1;
        }
    }
    proof {
        assert(s@.skip(i as int) =~= Seq::<char>::empty());
    }
    out
}

/// A CoT event as the texts it is written with: its attributes, its
/// times as RFC 3339 texts, its point's coordinates as decimal texts, and
/// its detail section as XML text.
pub struct EventText {
    pub version: String,
    pub event_type: String,
    pub uid: String,
    pub time: String,
    pub start: String,
    pub stale: String,
    pub how: String,
    pub lat: String,
    pub lon: String,
    pub hae: String,
    pub ce: String,
    pub le: String,
    pub detail: String,
}

/// A time as written: `+00:00` written as `Z`.
pub open spec fn utc_text(t: Seq<char>) -> Seq<char> {
    replace_spec(t, "+00:00"@, "Z"@)
}

/// One attribute on a line of its own: `label`, the value, `"` and a
/// line break.
pub open spec fn attr_line(label: Seq<char>, v: Seq<char>) -> Seq<char> {
    label + v + seq!['"', '\n']
}

/// The `<point>` element of an event, indented.
pub open spec fn point_line(e: EventText) -> Seq<char> {
    "            <point lat=\""@ + e.lat@ + "\" lon=\""@ + e.lon@ + "\" hae=\""@ + e.hae@ + "\" ce=\""@ + e.ce@ + "\" le=\""@
        + e.le@ + "\"/>"@ + seq!['\n']
}

/// The XML of an event: the `<event>` element with one attribute per line,
/// the `<point>` element and the detail section, indented.
pub open spec fn event_xml(e: EventText) -> Seq<char> {
    attr_line("<event version=\""@, e.version@) + attr_line("              type=\""@, e.event_type@) + attr_line(
        "              uid=\""@,
        e.uid@,
    ) + attr_line("              time=\""@, utc_text(e.time@)) + attr_line("              start=\""@, utc_text(e.start@))
        + attr_line("              stale=\""@, utc_text(e.stale@)) + "              how=\""@ + e.how@ + seq!['"', '>', '\n']
        + point_line(e) + "            "@ + e.detail@ + seq!['\n'] + "        </event>"@
}

/// Appends an attribute line.
fn push_attr_line(out: &mut String, label: &str, v: &str)
    ensures
        final(out)@ == old(out)@ + attr_line(label@, v@),
{
    let ghost start = out@;
    out.append(label);
    out.append(v);
    push_char(out, '"');
    push_char(out, '\n');
    assert(out@ =~= start + attr_line(label@, v@));
}

/// Appends the `<point>` line.
fn push_point_line(out: &mut String, e: &EventText)
    ensures
        final(out)@ == old(out)@ + point_line(*e),
{
    let ghost start = out@;
    out.append("            <point lat=\"");
    out.append(e.lat.as_str());
    out.append("\" lon=\"");
    out.append(e.lon.as_str());
    out.append("\" hae=\"");
    out.append(e.hae.as_str());
    out.append("\" ce=\"");
    out.append(e.ce.as_str());
    out.append("\" le=\"");
    out.append(e.le.as_str());
    out.append("\"/>");
    push_char(out, '\n');
    assert(out@ =~= start + point_line(*e));
}

impl EventText {
    /// The XML of the event (see `event_xml`).
    pub fn to_xml(&self) -> (r: String)
        ensures
            r@ == event_xml(*self),
    {
        proof {
            reveal_strlit("+00:00");
        }
        let time = replace_all(self.time.as_str(), "+00:00", "Z");
        let start = replace_all(self.start.as_str(), "+00:00", "Z");
        let stale = replace_all(self.stale.as_str(), "+00:00", "Z");
        let mut xml = String::new();
        push_attr_line(&mut xml, "<event version=\"", self.version.as_str());
        push_attr_line(&mut xml, "              type=\"", self.event_type.as_str());
        push_attr_line(&mut xml, "              uid=\"", self.uid.as_str());
        push_attr_line(&mut xml, "              time=\"", time.as_str());
        push_attr_line(&mut xml, "              start=\"", start.as_str());
        push_attr_line(&mut xml, "              stale=\"", stale.as_str());
        let ghost head = xml@;
        xml.append("              how=\"");
        xml.append(self.how.as_str());
        push_char(&mut xml, '"');
        push_char(&mut xml, '>');
        push_char(&mut xml, '\n');
        push_point_line(&mut xml, self);
        xml.append("            ");
        xml.append(self.detail.as_str());
        push_char(&mut xml, '\n');
        xml.append("        </event>");
        proof {
            assert(xml@ =~= event_xml(*self));
        }
        xml
    }
}

} // verus!

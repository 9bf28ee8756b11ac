//! Reading CoT events back from Ditto documents: which members of a
//! document hold each part of an event, by the kind of document, and the
//! detail members that its `r_*` fields (or its `r` object) give back. The
//! numbers are handed on as the JSON numbers they are; turning them into
//! coordinates and times is left to the caller.
use vstd::prelude::*;
use crate::document::{
    CotDocument, DocKind, event_kind, fields_of, is_file_event_type, is_file_type, is_location_event_type,
    is_location_type, kind_of,
};
use crate::json::{JsonMap, JsonNumber, JsonV, JsonValue};
use crate::r_field::{
    attr_key, element_value, has_element, is_flattening, is_unflattening, not_a_field, produced_by, simple_key,
    unflatten_document_r_field, unflatten_r_field,
};
use crate::text::{chars_of, matches_at, split_chars, split_on, str_eq, string_from_chars, string_of};
use crate::transforms::{
    EventFields, chat_fields, member, chat_message_of, detail_with_metadata, document_for, emergency_fields, event_detail,
    document_kind, file_fields, flattened_with, generic_fields, lemma_chat_field_values, lemma_emergency_field_values,
    lemma_file_field_values, lemma_point_field_values, location_fields, num,
};

verus! {

/// The text under key `k`, or the empty text where there is no text.
pub open spec fn text_at(m: Map<Seq<char>, JsonV>, k: Seq<char>) -> Seq<char> {
    if m.contains_key(k) && m[k] is Str {
        m[k]->Str_0
    } else {
        Seq::empty()
    }
}

/// The text under key `k`, if there is one.
pub open spec fn opt_text_at(m: Map<Seq<char>, JsonV>, k: Seq<char>) -> Option<Seq<char>> {
    if m.contains_key(k) && m[k] is Str {
        Some(m[k]->Str_0)
    } else {
        None
    }
}

/// The number under key `k`, if there is one.
pub open spec fn number_at(m: Map<Seq<char>, JsonV>, k: Seq<char>) -> Option<JsonV> {
    if m.contains_key(k) && m[k] is Number {
        Some(m[k])
    } else {
        None
    }
}

/// The value under key `k`, if any.
pub open spec fn value_at(m: Map<Seq<char>, JsonV>, k: Seq<char>) -> Option<JsonV> {
    if m.contains_key(k) {
        Some(m[k])
    } else {
        None
    }
}

/// A number, if any, as a value.
pub open spec fn number_view(n: Option<JsonNumber>) -> Option<JsonV> {
    match n {
        Some(x) => Some(JsonV::Number(x.text@, x.display@)),
        None => None,
    }
}

/// A text, if any, as characters.
pub open spec fn opt_view(s: Option<String>) -> Option<Seq<char>> {
    match s {
        Some(x) => Some(x@),
        None => None,
    }
}

/// The detail members that the `r_*` fields of `f` are read back into.
pub open spec fn unflattened(f: Map<Seq<char>, JsonV>) -> Map<Seq<char>, JsonV> {
    Map::new(|t: Seq<char>| has_element(f, t), |t: Seq<char>| element_value(f, t))
}

/// The detail members of a stored document: those its `r_*` fields give
/// back; where they give none, its `r` object, if it has one.
pub open spec fn detail_of(m: Map<Seq<char>, JsonV>) -> Map<Seq<char>, JsonV> {
    let rf = unflattened(m);
    if rf.dom().len() > 0 {
        rf
    } else if m.contains_key("r"@) && m["r"@] is Object {
        m["r"@]->Object_0
    } else {
        Map::empty()
    }
}

/// The members under which the point of a flattened event is stored, by
/// whether the document is a location document: latitude, longitude and
/// height are `j`, `l`, `i` in a location document and `h`, `i`, `j`
/// otherwise.
pub open spec fn lat_key(loc: bool) -> Seq<char> {
    if loc {
        "j"@
    } else {
        "h"@
    }
}

/// See `lat_key`.
pub open spec fn lon_key(loc: bool) -> Seq<char> {
    if loc {
        "l"@
    } else {
        "i"@
    }
}

/// See `lat_key`.
pub open spec fn hae_key(loc: bool) -> Seq<char> {
    if loc {
        "i"@
    } else {
        "j"@
    }
}

/// What a flattened CoT event is made from: its texts, its callsign and
/// group, the numbers its start, stale time and point are read from (none
/// where the document has no number), and its detail members. `from_object`
/// is false where there was no document object to read.
pub struct FlatSource {
    pub from_object: bool,
    pub uid: String,
    pub type_: String,
    pub how: String,
    pub callsign: Option<String>,
    pub group_name: Option<String>,
    pub start_micros: Option<JsonNumber>,
    pub stale_micros: Option<JsonNumber>,
    pub lat: Option<JsonNumber>,
    pub lon: Option<JsonNumber>,
    pub hae: Option<JsonNumber>,
    pub ce: Option<JsonNumber>,
    pub le: Option<JsonNumber>,
    pub detail_extra: JsonMap,
}

/// The view of a `FlatSource`.
pub struct FlatSourceV {
    pub from_object: bool,
    pub uid: Seq<char>,
    pub type_: Seq<char>,
    pub how: Seq<char>,
    pub callsign: Option<Seq<char>>,
    pub group_name: Option<Seq<char>>,
    pub start_micros: Option<JsonV>,
    pub stale_micros: Option<JsonV>,
    pub lat: Option<JsonV>,
    pub lon: Option<JsonV>,
    pub hae: Option<JsonV>,
    pub ce: Option<JsonV>,
    pub le: Option<JsonV>,
    pub detail_extra: Map<Seq<char>, JsonV>,
}

impl View for FlatSource {
    type V = FlatSourceV;

    open spec fn view(&self) -> FlatSourceV {
        FlatSourceV {
            from_object: self.from_object,
            uid: self.uid@,
            type_: self.type_@,
            how: self.how@,
            callsign: opt_view(self.callsign),
            group_name: opt_view(self.group_name),
            start_micros: number_view(self.start_micros),
            stale_micros: number_view(self.stale_micros),
            lat: number_view(self.lat),
            lon: number_view(self.lon),
            hae: number_view(self.hae),
            ce: number_view(self.ce),
            le: number_view(self.le),
            detail_extra: self.detail_extra@,
        }
    }
}

/// The detail members of a stored document as a flattened event carries
/// them: where they hold `original_type`, it is set to the document's type.
pub open spec fn flat_detail(m: Map<Seq<char>, JsonV>, d: Map<Seq<char>, JsonV>) -> Map<Seq<char>, JsonV> {
    if d.contains_key("original_type"@) {
        d.insert("original_type"@, JsonV::Str(text_at(m, "w"@)))
    } else {
        d
    }
}

/// The source of the flattened event of a document of kind `kind` with
/// members `m`: id `_id`, type `w`, how `p`, callsign `e`, group `g`, start
/// `n`, stale `o`, the point by `lat_key` (location documents) with `b` as
/// circular error and `k` as linear error, and the detail members.
pub open spec fn document_flat_source(kind: DocKind, m: Map<Seq<char>, JsonV>) -> FlatSourceV {
    let loc = kind == DocKind::MapItem;
    FlatSourceV {
        from_object: true,
        uid: text_at(m, "_id"@),
        type_: text_at(m, "w"@),
        how: text_at(m, "p"@),
        callsign: Some(text_at(m, "e"@)),
        group_name: Some(text_at(m, "g"@)),
        start_micros: number_at(m, "n"@),
        stale_micros: number_at(m, "o"@),
        lat: number_at(m, lat_key(loc)),
        lon: number_at(m, lon_key(loc)),
        hae: number_at(m, hae_key(loc)),
        ce: number_at(m, "b"@),
        le: number_at(m, "k"@),
        detail_extra: flat_detail(m, detail_of(m)),
    }
}

/// The source of a flattened event where there is nothing to read: id and
/// type `unknown`, empty how, callsign and group, no numbers, no members.
pub open spec fn unknown_flat_source(with_names: bool) -> FlatSourceV {
    FlatSourceV {
        from_object: false,
        uid: "unknown"@,
        type_: "unknown"@,
        how: Seq::empty(),
        callsign: if with_names {
            Some(Seq::empty())
        } else {
            None
        },
        group_name: if with_names {
            Some(Seq::empty())
        } else {
            None
        },
        start_micros: None,
        stale_micros: None,
        lat: None,
        lon: None,
        hae: None,
        ce: None,
        le: None,
        detail_extra: Map::empty(),
    }
}

/// The source of the flattened event of a flattened JSON document: as for
/// a stored document, with the point by `lat_key` where the type is a
/// location type, no callsign or group, and the detail members its `r_*`
/// fields give back; the unknown source for a value that is not an object.
pub open spec fn json_flat_source(v: JsonV) -> FlatSourceV {
    match v {
        JsonV::Object(m) => {
            let loc = is_location_type(text_at(m, "w"@));
            FlatSourceV {
                from_object: true,
                uid: text_at(m, "_id"@),
                type_: text_at(m, "w"@),
                how: text_at(m, "p"@),
                callsign: None,
                group_name: None,
                start_micros: number_at(m, "n"@),
                stale_micros: number_at(m, "o"@),
                lat: number_at(m, lat_key(loc)),
                lon: number_at(m, lon_key(loc)),
                hae: number_at(m, hae_key(loc)),
                ce: number_at(m, "b"@),
                le: number_at(m, "k"@),
                detail_extra: unflattened(m),
            }
        },
        _ => unknown_flat_source(true),
    }
}

/// What a CoT event is made from: its texts, the numbers its times and
/// point are read from (none where the document has no number), the value
/// its circular error is read from, for file documents the texts of the
/// `_time`, `_start` and `_stale` detail members, and the source of the
/// flattened event whose detail section it carries. `from_object` is false
/// where there was no document object to read.
pub struct EventSource {
    pub from_object: bool,
    pub version: String,
    pub uid: String,
    pub event_type: String,
    pub how: String,
    pub time_micros: Option<JsonNumber>,
    pub start_micros: Option<JsonNumber>,
    pub stale_micros: Option<JsonNumber>,
    pub lat: Option<JsonNumber>,
    pub lon: Option<JsonNumber>,
    pub hae: Option<JsonNumber>,
    pub ce: Option<JsonValue>,
    pub le: Option<JsonNumber>,
    pub is_file: bool,
    pub file_time: Option<String>,
    pub file_start: Option<String>,
    pub file_stale: Option<String>,
    pub detail: FlatSource,
}

/// The view of an `EventSource`.
pub struct EventSourceV {
    pub from_object: bool,
    pub version: Seq<char>,
    pub uid: Seq<char>,
    pub event_type: Seq<char>,
    pub how: Seq<char>,
    pub time_micros: Option<JsonV>,
    pub start_micros: Option<JsonV>,
    pub stale_micros: Option<JsonV>,
    pub lat: Option<JsonV>,
    pub lon: Option<JsonV>,
    pub hae: Option<JsonV>,
    pub ce: Option<JsonV>,
    pub le: Option<JsonV>,
    pub is_file: bool,
    pub file_time: Option<Seq<char>>,
    pub file_start: Option<Seq<char>>,
    pub file_stale: Option<Seq<char>>,
    pub detail: FlatSourceV,
}

/// A value, if any, as a view.
pub open spec fn value_view(v: Option<JsonValue>) -> Option<JsonV> {
    match v {
        Some(x) => Some(x@),
        None => None,
    }
}

impl View for EventSource {
    type V = EventSourceV;

    open spec fn view(&self) -> EventSourceV {
        EventSourceV {
            from_object: self.from_object,
            version: self.version@,
            uid: self.uid@,
            event_type: self.event_type@,
            how: self.how@,
            time_micros: number_view(self.time_micros),
            start_micros: number_view(self.start_micros),
            stale_micros: number_view(self.stale_micros),
            lat: number_view(self.lat),
            lon: number_view(self.lon),
            hae: number_view(self.hae),
            ce: value_view(self.ce),
            le: number_view(self.le),
            is_file: self.is_file,
            file_time: opt_view(self.file_time),
            file_start: opt_view(self.file_start),
            file_stale: opt_view(self.file_stale),
            detail: self.detail@,
        }
    }
}

/// The detail members of a file document without the members that hold
/// its circular error and times.
pub open spec fn file_detail(d: Map<Seq<char>, JsonV>) -> Map<Seq<char>, JsonV> {
    d.remove("_ce"@).remove("_time"@).remove("_start"@).remove("_stale"@)
}

/// The source of the CoT event of a document of kind `kind` with members
/// `m`: version `g`, id `_id`, type `w`, how `p`, time `b`, start `n`, stale
/// `o`, latitude `j`, longitude `l`, height `i`, linear error `k`, and
/// circular error `h`; for a file document, the circular error and the
/// times are the detail members `_ce`, `_time`, `_start` and `_stale`, and
/// they are left out of the detail section it carries.
pub open spec fn document_event_source(kind: DocKind, m: Map<Seq<char>, JsonV>) -> EventSourceV {
    let file = kind == DocKind::File;
    let d = detail_of(m);
    let flat = document_flat_source(kind, m);
    EventSourceV {
        from_object: true,
        version: text_at(m, "g"@),
        uid: text_at(m, "_id"@),
        event_type: text_at(m, "w"@),
        how: text_at(m, "p"@),
        time_micros: number_at(m, "b"@),
        start_micros: number_at(m, "n"@),
        stale_micros: number_at(m, "o"@),
        lat: number_at(m, "j"@),
        lon: number_at(m, "l"@),
        hae: number_at(m, "i"@),
        ce: if file {
            value_at(d, "_ce"@)
        } else {
            number_at(m, "h"@)
        },
        le: number_at(m, "k"@),
        is_file: file,
        file_time: if file {
            opt_text_at(d, "_time"@)
        } else {
            None
        },
        file_start: if file {
            opt_text_at(d, "_start"@)
        } else {
            None
        },
        file_stale: if file {
            opt_text_at(d, "_stale"@)
        } else {
            None
        },
        detail: if file {
            FlatSourceV { detail_extra: flat_detail(m, file_detail(d)), ..flat }
        } else {
            flat
        },
    }
}

/// The source of the CoT event of a flattened JSON document: version `g`,
/// id `_id`, type `w`, how `p`, time `b`, start `n`, stale `o`, the point by
/// `lat_key` where the type is a location type, linear error `k`, circular
/// error `h` or, where the type is a file type, the number under the detail
/// member `_ce`; the detail section it carries has no callsign or group,
/// the same point, circular error `h` (none for a file type), and the
/// detail members the `r_*` fields give back. For a value that is not an
/// object: version `2.0`, id and type `unknown`, and nothing else.
pub open spec fn json_event_source(v: JsonV) -> EventSourceV {
    match v {
        JsonV::Object(m) => {
            let w = text_at(m, "w"@);
            let loc = is_location_type(w);
            let file = is_file_type(w);
            let h = number_at(m, "h"@);
            EventSourceV {
                from_object: true,
                version: text_at(m, "g"@),
                uid: text_at(m, "_id"@),
                event_type: w,
                how: text_at(m, "p"@),
                time_micros: number_at(m, "b"@),
                start_micros: number_at(m, "n"@),
                stale_micros: number_at(m, "o"@),
                lat: number_at(m, lat_key(loc)),
                lon: number_at(m, lon_key(loc)),
                hae: number_at(m, hae_key(loc)),
                ce: if file {
                    number_at(unflattened(m), "_ce"@)
                } else {
                    h
                },
                le: number_at(m, "k"@),
                is_file: file,
                file_time: None,
                file_start: None,
                file_stale: None,
                detail: FlatSourceV {
                    ce: if file {
                        None
                    } else {
                        h
                    },
                    callsign: None,
                    group_name: None,
                    ..json_flat_source(v)
                },
            }
        },
        _ => EventSourceV {
            from_object: false,
            version: "2.0"@,
            uid: "unknown"@,
            event_type: "unknown"@,
            how: Seq::empty(),
            time_micros: None,
            start_micros: None,
            stale_micros: None,
            lat: None,
            lon: None,
            hae: None,
            ce: None,
            le: None,
            is_file: false,
            file_time: None,
            file_start: None,
            file_stale: None,
            detail: unknown_flat_source(false),
        },
    }
}

/// The fields `f` read back into detail members in one way only.
proof fn lemma_unflattening_unique(f: Map<Seq<char>, JsonV>, r: Map<Seq<char>, JsonV>)
    requires
        is_unflattening(f, r),
    ensures
        r == unflattened(f),
{
    assert(r =~= unflattened(f));
}

/// The text under key `k` (see `text_at`).
fn get_text(m: &JsonMap, k: &str) -> (r: String)
    ensures
        r@ == text_at(m@, k@),
{
    match m.get(k) {
        Some(JsonValue::Str(s)) => string_of(s.as_str()),
        _ => String::new(),
    }
}

/// The text under key `k`, if there is one.
fn get_opt_text(m: &JsonMap, k: &str) -> (r: Option<String>)
    ensures
        opt_view(r) == opt_text_at(m@, k@),
{
    match m.get(k) {
        Some(JsonValue::Str(s)) => Some(string_of(s.as_str())),
        _ => None,
    }
}

/// The number under key `k`, if there is one.
fn get_number(m: &JsonMap, k: &str) -> (r: Option<JsonNumber>)
    ensures
        number_view(r) == number_at(m@, k@),
{
    match m.get(k) {
        Some(JsonValue::Number(n)) => Some(n.copy()),
        _ => None,
    }
}

/// The value under key `k`, if any.
fn get_value(m: &JsonMap, k: &str) -> (r: Option<JsonValue>)
    ensures
        value_view(r) == value_at(m@, k@),
{
    match m.get(k) {
        Some(v) => Some(v.copy()),
        None => None,
    }
}

/// The detail members of a stored document (see `detail_of`).
pub fn document_detail(m: &JsonMap) -> (r: JsonMap)
    ensures
        r@ == detail_of(m@),
{
    let rf = unflatten_r_field(m);
    proof {
        lemma_unflattening_unique(m@, rf@);
        use_type_invariant(&rf);
        rf.lemma_keys();
    }
    if rf.len() > 0 {
        return rf;
    }
    match m.get("r") {
        Some(JsonValue::Object(o)) => o.copy(),
        _ => JsonMap::new(),
    }
}

/// Detail members as a flattened event carries them (see `flat_detail`).
fn with_original_type(m: &JsonMap, d: JsonMap) -> (r: JsonMap)
    ensures
        r@ == flat_detail(m@, d@),
{
    let mut d = d;
    if d.contains_key("original_type") {
        d.insert(string_of("original_type"), JsonValue::Str(get_text(m, "w")));
    }
    d
}

/// The point members of a document (see `lat_key`).
fn point_keys(loc: bool) -> (r: (&'static str, &'static str, &'static str))
    ensures
        r.0@ == lat_key(loc),
        r.1@ == lon_key(loc),
        r.2@ == hae_key(loc),
{
    if loc {
        ("j", "l", "i")
    } else {
        ("h", "i", "j")
    }
}

/// The source of the flattened event of a Ditto document (see
/// `document_flat_source`).
pub fn flat_source_from_ditto(doc: &CotDocument) -> (r: FlatSource)
    ensures
        r@ == document_flat_source(kind_of(*doc), fields_of(*doc)),
{
    let m = doc.fields();
    let loc = doc.is_map_item();
    let (lat_k, lon_k, hae_k) = point_keys(loc);
    FlatSource {
        from_object: true,
        uid: get_text(m, "_id"),
        type_: get_text(m, "w"),
        how: get_text(m, "p"),
        callsign: Some(get_text(m, "e")),
        group_name: Some(get_text(m, "g")),
        start_micros: get_number(m, "n"),
        stale_micros: get_number(m, "o"),
        lat: get_number(m, lat_k),
        lon: get_number(m, lon_k),
        hae: get_number(m, hae_k),
        ce: get_number(m, "b"),
        le: get_number(m, "k"),
        detail_extra: with_original_type(m, document_detail(m)),
    }
}

/// The source of a flattened event where there is nothing to read (see
/// `unknown_flat_source`).
fn unknown_flat(with_names: bool) -> (r: FlatSource)
    ensures
        r@ == unknown_flat_source(with_names),
{
    proof {
        reveal_strlit("unknown");
    }
    FlatSource {
        from_object: false,
        uid: string_of("unknown"),
        type_: string_of("unknown"),
        how: String::new(),
        callsign: if with_names {
            Some(String::new())
        } else {
            None
        },
        group_name: if with_names {
            Some(String::new())
        } else {
            None
        },
        start_micros: None,
        stale_micros: None,
        lat: None,
        lon: None,
        hae: None,
        ce: None,
        le: None,
        detail_extra: JsonMap::new(),
    }
}

/// The source of the flattened event of a flattened JSON document (see
/// `json_flat_source`).
pub fn flat_source_from_flattened_json(json_value: &JsonValue) -> (r: FlatSource)
    ensures
        r@ == json_flat_source(json_value@),
{
    match json_value {
        JsonValue::Object(m) => {
            let w = get_text(m, "w");
            let loc = is_location_event_type(w.as_str());
            let (lat_k, lon_k, hae_k) = point_keys(loc);
            let rf = unflatten_r_field(m);
            proof {
                lemma_unflattening_unique(m@, rf@);
            }
            FlatSource {
                from_object: true,
                uid: get_text(m, "_id"),
                type_: w,
                how: get_text(m, "p"),
                callsign: None,
                group_name: None,
                start_micros: get_number(m, "n"),
                stale_micros: get_number(m, "o"),
                lat: get_number(m, lat_k),
                lon: get_number(m, lon_k),
                hae: get_number(m, hae_k),
                ce: get_number(m, "b"),
                le: get_number(m, "k"),
                detail_extra: rf,
            }
        },
        _ => unknown_flat(true),
    }
}

/// A member of a document's fields whose key does not begin with `r` is
/// kept as it is when the detail members are flattened into it.
proof fn lemma_flattened_keeps(
    doc: Map<Seq<char>, JsonV>,
    base: Map<Seq<char>, JsonV>,
    r: Map<Seq<char>, JsonV>,
    k: Seq<char>,
)
    requires
        flattened_with(doc, base, r),
        base.contains_key(k),
        k.len() > 0,
        k[0] != 'r',
    ensures
        doc.contains_key(k),
        doc[k] == base[k],
{
    let f = choose|f: Map<Seq<char>, JsonV>| is_flattening(r, f) && doc == base.remove(seq!['r']).union_prefer_right(f);
    assert(k != seq!['r']);
    if f.contains_key(k) {
        let t = choose|t: Seq<char>| produced_by(r, t, k, f[k]);
        match r[t] {
            JsonV::Object(o) => {
                let a = choose|a: Seq<char>| #[trigger] o.contains_key(a) && k == attr_key(t, a) && f[k] == o[a];
                assert(attr_key(t, a)[0] == 'r');
            },
            _ => {
                assert(simple_key(t)[0] == 'r');
            },
        }
    }
}

/// The base fields and the detail members that the document of an event of
/// kind `kind` is made of (see `document_for`).
pub open spec fn document_parts(e: EventFields, peer: Seq<char>, size: Option<JsonV>, kind: DocKind) -> (
    Map<Seq<char>, JsonV>,
    Map<Seq<char>, JsonV>,
) {
    match kind {
        DocKind::Api => (emergency_fields(e, peer), event_detail(e)),
        DocKind::Chat => match chat_message_of(e) {
            Some(m) => (chat_fields(e, peer, m), event_detail(e)),
            None => (generic_fields(e, peer), detail_with_metadata(e)),
        },
        DocKind::MapItem => (location_fields(e, peer), event_detail(e)),
        DocKind::File => (file_fields(e, peer, size), detail_with_metadata(e)),
        DocKind::Generic => (generic_fields(e, peer), detail_with_metadata(e)),
    }
}

/// Reading back the document of a location event, flattened or stored,
/// gives the event's version, id, type and how, its time, start and stale
/// numbers and its point; for a type that is not a file type, its circular
/// error too.
pub proof fn lemma_location_document_reads_back(
    doc: Map<Seq<char>, JsonV>,
    e: EventFields,
    peer: Seq<char>,
    size: Option<JsonV>,
)
    requires
        event_kind(e.event_type@) == DocKind::MapItem,
        document_for(doc, e, peer, size, DocKind::MapItem),
    ensures
        ({
            let s = json_event_source(JsonV::Object(doc));
            &&& s.from_object
            &&& s.version == e.version@
            &&& s.uid == e.uid@
            &&& s.event_type == e.event_type@
            &&& s.how == e.how@
            &&& s.time_micros == Some(num(e.time_micros))
            &&& s.start_micros == Some(num(e.start_micros))
            &&& s.stale_micros == Some(num(e.stale_micros))
            &&& s.lat == Some(num(e.lat))
            &&& s.lon == Some(num(e.lon))
            &&& s.hae == Some(num(e.hae))
            &&& s.le == Some(num(e.le))
            &&& !is_file_type(e.event_type@) ==> s.ce == Some(num(e.ce))
        }),
        ({
            let s = document_event_source(DocKind::MapItem, doc);
            &&& s.version == e.version@
            &&& s.uid == e.uid@
            &&& s.event_type == e.event_type@
            &&& s.how == e.how@
            &&& s.time_micros == Some(num(e.time_micros))
            &&& s.start_micros == Some(num(e.start_micros))
            &&& s.stale_micros == Some(num(e.stale_micros))
            &&& s.lat == Some(num(e.lat))
            &&& s.lon == Some(num(e.lon))
            &&& s.hae == Some(num(e.hae))
            &&& s.ce == Some(num(e.ce))
            &&& s.le == Some(num(e.le))
        }),
{
    let (base, r) = document_parts(e, peer, size, DocKind::MapItem);
    lemma_point_field_values(e, peer);
    assert(is_location_type(e.event_type@));
    reveal_strlit("_id");
    lemma_flattened_keeps(doc, base, r, "_id"@);
    reveal_strlit("g");
    lemma_flattened_keeps(doc, base, r, "g"@);
    reveal_strlit("w");
    lemma_flattened_keeps(doc, base, r, "w"@);
    reveal_strlit("p");
    lemma_flattened_keeps(doc, base, r, "p"@);
    reveal_strlit("b");
    lemma_flattened_keeps(doc, base, r, "b"@);
    reveal_strlit("n");
    lemma_flattened_keeps(doc, base, r, "n"@);
    reveal_strlit("o");
    lemma_flattened_keeps(doc, base, r, "o"@);
    reveal_strlit("h");
    lemma_flattened_keeps(doc, base, r, "h"@);
    reveal_strlit("i");
    lemma_flattened_keeps(doc, base, r, "i"@);
    reveal_strlit("j");
    lemma_flattened_keeps(doc, base, r, "j"@);
    reveal_strlit("k");
    lemma_flattened_keeps(doc, base, r, "k"@);
    reveal_strlit("l");
    lemma_flattened_keeps(doc, base, r, "l"@);
}

/// Reading back the stored document of an event that becomes a generic
/// document (a generic event, or a chat without a message) gives the
/// event's version, id, type and how, its time, start and stale numbers,
/// and its point with its circular error.
pub proof fn lemma_generic_document_reads_back(
    doc: Map<Seq<char>, JsonV>,
    e: EventFields,
    peer: Seq<char>,
    size: Option<JsonV>,
)
    requires
        document_kind(e) == DocKind::Generic,
        document_for(doc, e, peer, size, event_kind(e.event_type@)),
    ensures
        ({
            let s = document_event_source(DocKind::Generic, doc);
            &&& s.version == e.version@
            &&& s.uid == e.uid@
            &&& s.event_type == e.event_type@
            &&& s.how == e.how@
            &&& s.time_micros == Some(num(e.time_micros))
            &&& s.start_micros == Some(num(e.start_micros))
            &&& s.stale_micros == Some(num(e.stale_micros))
            &&& s.lat == Some(num(e.lat))
            &&& s.lon == Some(num(e.lon))
            &&& s.hae == Some(num(e.hae))
            &&& s.ce == Some(num(e.ce))
            &&& s.le == Some(num(e.le))
        }),
{
    let (base, r) = document_parts(e, peer, size, event_kind(e.event_type@));
    assert(base == generic_fields(e, peer));
    lemma_point_field_values(e, peer);
    reveal_strlit("_id");
    lemma_flattened_keeps(doc, base, r, "_id"@);
    reveal_strlit("g");
    lemma_flattened_keeps(doc, base, r, "g"@);
    reveal_strlit("w");
    lemma_flattened_keeps(doc, base, r, "w"@);
    reveal_strlit("p");
    lemma_flattened_keeps(doc, base, r, "p"@);
    reveal_strlit("b");
    lemma_flattened_keeps(doc, base, r, "b"@);
    reveal_strlit("n");
    lemma_flattened_keeps(doc, base, r, "n"@);
    reveal_strlit("o");
    lemma_flattened_keeps(doc, base, r, "o"@);
    reveal_strlit("h");
    lemma_flattened_keeps(doc, base, r, "h"@);
    reveal_strlit("i");
    lemma_flattened_keeps(doc, base, r, "i"@);
    reveal_strlit("j");
    lemma_flattened_keeps(doc, base, r, "j"@);
    reveal_strlit("k");
    lemma_flattened_keeps(doc, base, r, "k"@);
    reveal_strlit("l");
    lemma_flattened_keeps(doc, base, r, "l"@);
}

/// The detail of an event has no element with an empty name that carries a
/// `ce` attribute: such an element would flatten to the field that the
/// circular error of a file document is kept under.
pub open spec fn no_empty_ce(e: EventFields) -> bool {
    event_detail(e).contains_key(Seq::<char>::empty()) ==> member(event_detail(e)[Seq::<char>::empty()], "ce"@) is None
}

/// The circular error of a file document comes back from its `_ce` detail
/// member.
proof fn lemma_file_ce_reads_back(doc: Map<Seq<char>, JsonV>, e: EventFields, peer: Seq<char>, size: Option<JsonV>)
    requires
        no_empty_ce(e),
        flattened_with(doc, file_fields(e, peer, size), detail_with_metadata(e)),
    ensures
        number_at(unflattened(doc), "_ce"@) == Some(num(e.ce)),
{
    reveal_strlit("_ce");
    reveal_strlit("_time");
    reveal_strlit("_start");
    reveal_strlit("_stale");
    reveal_strlit("ce");
    let name = seq!['_', 'c', 'e'];
    assert(name =~= "_ce"@);
    assert("_time"@.len() == 5 && "_start"@.len() == 6 && "_stale"@.len() == 6);
    let r = detail_with_metadata(e);
    let base = file_fields(e, peer, size);
    let f = choose|f: Map<Seq<char>, JsonV>| is_flattening(r, f) && doc == base.remove(seq!['r']).union_prefer_right(f);
    let k = simple_key(name);
    assert(k =~= seq!['r', '_', '_', 'c', 'e']);
    assert(r.contains_key(name) && r[name] == num(e.ce));
    assert(produced_by(r, name, k, num(e.ce)));
    assert(f.contains_key(k));
    let t = choose|t: Seq<char>| produced_by(r, t, k, f[k]);
    match r[t] {
        JsonV::Object(o) => {
            let a = choose|a: Seq<char>| #[trigger] o.contains_key(a) && k == attr_key(t, a) && f[k] == o[a];
            assert(k[2 + t.len() as int] == '_');
            assert(t.len() == 0);
            assert(t =~= Seq::<char>::empty());
            assert(a =~= seq!['c', 'e']);
            assert(a =~= "ce"@);
            assert(r[t] == event_detail(e)[t]);
            assert(member(r[t], "ce"@) is Some);
            assert(false);
        },
        _ => {
            assert(t =~= k.skip(2));
            assert(t =~= name);
        },
    }
    assert(f[k] == num(e.ce));
    assert(doc.contains_key(k) && doc[k] == num(e.ce));
    reveal_with_fuel(crate::r_field::last_underscore, 4);
    assert(k.skip(2) =~= name);
    assert(name.drop_last() =~= seq!['_', 'c']);
    assert(name.drop_last().drop_last() =~= seq!['_']);
    assert(crate::r_field::last_underscore(seq!['_']) == Some(0int));
    assert(crate::r_field::last_underscore(seq!['_', 'c']) == Some(0int));
    assert(crate::r_field::last_underscore(name) == Some(0int));
    assert(k.take(2) =~= crate::r_field::r_prefix());
    assert(crate::r_field::read_key(k) == Some((name, None::<Seq<char>>)));
    assert(crate::r_field::plain_value(doc, name) == Some(num(e.ce)));
    assert(has_element(doc, name));
    assert(unflattened(doc).contains_key(name));
}

/// Reading back the flattened document of an emergency, a chat with a
/// message or a file whose type is not a location type gives the event's
/// version, id, type and how, its stale number and its latitude, longitude
/// and height; the start number of an emergency or a chat; the linear and
/// circular error of a file (the latter where no detail element with an
/// empty name carries a `ce` attribute, see `no_empty_ce`); and read as a
/// flattened event, the circular error of a chat or a file.
pub proof fn lemma_other_document_reads_back(
    doc: Map<Seq<char>, JsonV>,
    e: EventFields,
    peer: Seq<char>,
    size: Option<JsonV>,
)
    requires
        document_kind(e) == DocKind::Api || document_kind(e) == DocKind::Chat || document_kind(e) == DocKind::File,
        !is_location_type(e.event_type@),
        document_for(doc, e, peer, size, event_kind(e.event_type@)),
    ensures
        ({
            let s = json_event_source(JsonV::Object(doc));
            &&& s.from_object
            &&& s.version == e.version@
            &&& s.uid == e.uid@
            &&& s.event_type == e.event_type@
            &&& s.how == e.how@
            &&& s.stale_micros == Some(num(e.stale_micros))
            &&& s.lat == Some(num(e.lat))
            &&& s.lon == Some(num(e.lon))
            &&& s.hae == Some(num(e.hae))
            &&& document_kind(e) != DocKind::File ==> s.start_micros == Some(num(e.start_micros))
            &&& document_kind(e) == DocKind::File ==> s.le == Some(num(e.le))
            &&& document_kind(e) == DocKind::File && no_empty_ce(e) ==> s.ce == Some(num(e.ce))
        }),
        document_kind(e) != DocKind::Api ==> json_flat_source(JsonV::Object(doc)).ce == Some(num(e.ce)),
{
    let kind = event_kind(e.event_type@);
    let (base, r) = document_parts(e, peer, size, kind);
    let msg = match chat_message_of(e) {
        Some(m) => m,
        None => Seq::empty(),
    };
    lemma_chat_field_values(e, peer, msg);
    lemma_emergency_field_values(e, peer);
    lemma_file_field_values(e, peer, size);
    if kind == DocKind::File && no_empty_ce(e) {
        lemma_file_ce_reads_back(doc, e, peer, size);
    }
    if kind == DocKind::Api {
        reveal_strlit("_id");
        lemma_flattened_keeps(doc, base, r, "_id"@);
        reveal_strlit("g");
        lemma_flattened_keeps(doc, base, r, "g"@);
        reveal_strlit("w");
        lemma_flattened_keeps(doc, base, r, "w"@);
        reveal_strlit("p");
        lemma_flattened_keeps(doc, base, r, "p"@);
        reveal_strlit("n");
        lemma_flattened_keeps(doc, base, r, "n"@);
        reveal_strlit("o");
        lemma_flattened_keeps(doc, base, r, "o"@);
        reveal_strlit("h");
        lemma_flattened_keeps(doc, base, r, "h"@);
        reveal_strlit("i");
        lemma_flattened_keeps(doc, base, r, "i"@);
        reveal_strlit("j");
        lemma_flattened_keeps(doc, base, r, "j"@);
    } else if kind == DocKind::Chat {
        reveal_strlit("_id");
        lemma_flattened_keeps(doc, base, r, "_id"@);
        reveal_strlit("g");
        lemma_flattened_keeps(doc, base, r, "g"@);
        reveal_strlit("w");
        lemma_flattened_keeps(doc, base, r, "w"@);
        reveal_strlit("p");
        lemma_flattened_keeps(doc, base, r, "p"@);
        reveal_strlit("b");
        lemma_flattened_keeps(doc, base, r, "b"@);
        reveal_strlit("n");
        lemma_flattened_keeps(doc, base, r, "n"@);
        reveal_strlit("o");
        lemma_flattened_keeps(doc, base, r, "o"@);
        reveal_strlit("h");
        lemma_flattened_keeps(doc, base, r, "h"@);
        reveal_strlit("i");
        lemma_flattened_keeps(doc, base, r, "i"@);
        reveal_strlit("j");
        lemma_flattened_keeps(doc, base, r, "j"@);
    } else {
        reveal_strlit("_id");
        lemma_flattened_keeps(doc, base, r, "_id"@);
        reveal_strlit("g");
        lemma_flattened_keeps(doc, base, r, "g"@);
        reveal_strlit("w");
        lemma_flattened_keeps(doc, base, r, "w"@);
        reveal_strlit("p");
        lemma_flattened_keeps(doc, base, r, "p"@);
        reveal_strlit("b");
        lemma_flattened_keeps(doc, base, r, "b"@);
        reveal_strlit("o");
        lemma_flattened_keeps(doc, base, r, "o"@);
        reveal_strlit("h");
        lemma_flattened_keeps(doc, base, r, "h"@);
        reveal_strlit("i");
        lemma_flattened_keeps(doc, base, r, "i"@);
        reveal_strlit("j");
        lemma_flattened_keeps(doc, base, r, "j"@);
        reveal_strlit("k");
        lemma_flattened_keeps(doc, base, r, "k"@);
    }
}

/// The source of the CoT event of a Ditto document (see
/// `document_event_source`).
pub fn event_source_from_ditto(doc: &CotDocument) -> (r: EventSource)
    ensures
        r@ == document_event_source(kind_of(*doc), fields_of(*doc)),
{
    let m = doc.fields();
    let file = doc.kind() == DocKind::File;
    let d = document_detail(m);
    let mut flat = flat_source_from_ditto(doc);
    let (ce, file_time, file_start, file_stale) = if file {
        let mut rest = d.copy();
        let _ = rest.remove("_ce");
        let _ = rest.remove("_time");
        let _ = rest.remove("_start");
        let _ = rest.remove("_stale");
        flat.detail_extra = with_original_type(m, rest);
        (get_value(&d, "_ce"), get_opt_text(&d, "_time"), get_opt_text(&d, "_start"), get_opt_text(&d, "_stale"))
    } else {
        let h = match get_number(m, "h") {
            Some(n) => Some(JsonValue::Number(n)),
            None => None,
        };
        (h, None, None, None)
    };
    EventSource {
        from_object: true,
        version: get_text(m, "g"),
        uid: get_text(m, "_id"),
        event_type: get_text(m, "w"),
        how: get_text(m, "p"),
        time_micros: get_number(m, "b"),
        start_micros: get_number(m, "n"),
        stale_micros: get_number(m, "o"),
        lat: get_number(m, "j"),
        lon: get_number(m, "l"),
        hae: get_number(m, "i"),
        ce,
        le: get_number(m, "k"),
        is_file: file,
        file_time,
        file_start,
        file_stale,
        detail: flat,
    }
}

/// The source of the CoT event of a flattened JSON document (see
/// `json_event_source`).
pub fn event_source_from_flattened_json(json_value: &JsonValue) -> (r: EventSource)
    ensures
        r@ == json_event_source(json_value@),
{
    match json_value {
        JsonValue::Object(m) => {
            let w = get_text(m, "w");
            let loc = is_location_event_type(w.as_str());
            let file = is_file_event_type(w.as_str());
            let (lat_k, lon_k, hae_k) = point_keys(loc);
            let mut flat = flat_source_from_flattened_json(json_value);
            flat.callsign = None;
            flat.group_name = None;
            let h = get_number(m, "h");
            let ce = if file {
                let rf = unflatten_r_field(m);
                proof {
                    lemma_unflattening_unique(m@, rf@);
                }
                flat.ce = None;
                match get_number(&rf, "_ce") {
                    Some(n) => Some(JsonValue::Number(n)),
                    None => None,
                }
            } else {
                flat.ce = match &h {
                    Some(n) => Some(n.copy()),
                    None => None,
                };
                match h {
                    Some(n) => Some(JsonValue::Number(n)),
                    None => None,
                }
            };
            EventSource {
                from_object: true,
                version: get_text(m, "g"),
                uid: get_text(m, "_id"),
                event_type: w,
                how: get_text(m, "p"),
                time_micros: get_number(m, "b"),
                start_micros: get_number(m, "n"),
                stale_micros: get_number(m, "o"),
                lat: get_number(m, lat_k),
                lon: get_number(m, lon_k),
                hae: get_number(m, hae_k),
                ce,
                le: get_number(m, "k"),
                is_file: file,
                file_time: None,
                file_start: None,
                file_stale: None,
                detail: flat,
            }
        },
        _ => {
            proof {
                reveal_strlit("unknown");
                reveal_strlit("2.0");
            }
            EventSource {
                from_object: false,
                version: string_of("2.0"),
                uid: string_of("unknown"),
                event_type: string_of("unknown"),
                how: String::new(),
                time_micros: None,
                start_micros: None,
                stale_micros: None,
                lat: None,
                lon: None,
                hae: None,
                ce: None,
                le: None,
                is_file: false,
                file_time: None,
                file_start: None,
                file_stale: None,
                detail: unknown_flat(false),
            }
        },
    }
}

/// The first position from `i` on at which `p` occurs in `s`, if any.
pub open spec fn find_from(s: Seq<char>, p: Seq<char>, i: int) -> Option<int>
    decreases s.len() + 1 - i,
{
    if i < 0 || i + p.len() > s.len() {
        None
    } else if s.subrange(i, i + p.len()) == p {
        Some(i)
    } else {
        find_from(s, p, i + 1)
    }
}

/// Where the detail section of CoT XML text starts: at the first
/// `<detail>`, or at the start of the text where there is none.
pub open spec fn detail_start(xml: Seq<char>) -> int {
    match find_from(xml, "<detail>"@, 0) {
        Some(i) => i,
        None => 0,
    }
}

/// Where the detail section of CoT XML text ends: after the first
/// `</detail>`, or at the end of the text where there is none.
pub open spec fn detail_end(xml: Seq<char>) -> int {
    match find_from(xml, "</detail>"@, 0) {
        Some(i) => i + 9,
        None => xml.len() as int,
    }
}

/// The first position at which `p` occurs in `s`, if any.
fn find_first(s: &[char], p: &[char]) -> (r: Option<usize>)
    ensures
        match r {
            Some(i) => find_from(s@, p@, 0) == Some(i as int),
            None => find_from(s@, p@, 0) is None,
        },
{
    if p.len() == 0 {
        assert(s@.subrange(0, 0) =~= p@);
        return Some(0);
    }
    if p.len() > s.len() {
        return None;
    }
    let last = s.len() - p.len();
    let mut i: usize = 0;
    while i <= last
        invariant
            i <= last + 1,
            last < usize::MAX,
            last + p@.len() == s@.len(),
            p@.len() > 0,
            find_from(s@, p@, 0) == find_from(s@, p@, i as int),
        decreases last + 1 - i,
    {
        if matches_at(s, i, p) {
            return Some(i);
        }
        i = i + 1;
    }
    None
}

proof fn lemma_find_bounds(s: Seq<char>, p: Seq<char>, i: int)
    requires
        0 <= i,
    ensures
        find_from(s, p, i) matches Some(j) ==> i <= j && j + p.len() <= s.len(),
    decreases s.len() + 1 - i,
{
    if i + p.len() <= s.len() && s.subrange(i, i + p.len()) != p {
        lemma_find_bounds(s, p, i + 1);
    }
}

/// The detail section of CoT XML text: from the first `<detail>` (or the
/// start) to the end of the first `</detail>` (or the end). None where the
/// first `</detail>` ends before the first `<detail>` starts.
pub fn detail_section_of(xml: &str) -> (r: Option<String>)
    ensures
        match r {
            Some(d) => detail_start(xml@) <= detail_end(xml@) && d@ == xml@.subrange(
                detail_start(xml@),
                detail_end(xml@),
            ),
            None => detail_start(xml@) > detail_end(xml@),
        },
{
    proof {
        reveal_strlit("<detail>");
        reveal_strlit("</detail>");
        lemma_find_bounds(xml@, "<detail>"@, 0);
        lemma_find_bounds(xml@, "</detail>"@, 0);
    }
    let c = chars_of(xml);
    let open_tag = chars_of("<detail>");
    let close_tag = chars_of("</detail>");
    let n = c.len();
    let start = match find_first(&c, &open_tag) {
        Some(i) => i,
        None => 0,
    };
    let end = match find_first(&c, &close_tag) {
        Some(i) => {
            proof {
                lemma_find_bounds(c@, close_tag@, 0);
                assert(close_tag@.len() == 9);
                assert(i + 9 <= c@.len());
            }
            i + 9
        },
        None => n,
    };
    if start > end {
        return None;
    }
    let mut out: Vec<char> = Vec::new();
    let mut j: usize = start;
    while j < end
        invariant
            start <= j <= end <= c@.len(),
            out@ == c@.subrange(start as int, j as int),
        decreases end - j,
    {
        out.push(c[j]);
        j = j + 1;
        assert(out@ =~= c@.subrange(start as int, j as int));
    }
    Some(string_from_chars(&out))
}

/// The JSON object of a stored document as its typed form is written: its
/// members other than `r_*` fields, with `r` holding its detail members.
pub open spec fn document_json(m: Map<Seq<char>, JsonV>) -> Map<Seq<char>, JsonV> {
    m.restrict(Set::new(|k: Seq<char>| not_a_field(k))).insert("r"@, JsonV::Object(detail_of(m)))
}

/// The value reached from `v` by the members named `segs[k..]`, one object
/// after another; none where a step finds no such member.
pub open spec fn walk(v: JsonV, segs: Seq<Seq<char>>, k: int) -> Option<JsonV>
    decreases segs.len() - k,
{
    if k < 0 || k >= segs.len() {
        Some(v)
    } else {
        match v {
            JsonV::Object(m) => if m.contains_key(segs[k]) {
                walk(m[segs[k]], segs, k + 1)
            } else {
                None
            },
            _ => None,
        }
    }
}

/// The value at a dotted path of a stored document: `id` and `_id` name
/// its id; any other path is followed member by member through its typed
/// form (see `document_json`).
pub open spec fn document_path(m: Map<Seq<char>, JsonV>, path: Seq<char>) -> Option<JsonV> {
    if path == "id"@ || path == "_id"@ {
        value_at(m, "_id"@)
    } else {
        walk(JsonV::Object(document_json(m)), split_on(path, '.'), 0)
    }
}

impl CotDocument {
    /// The value at a dotted path of the document (see `document_path`);
    /// none where the path leads nowhere.
    pub fn get(&self, path: &str) -> (r: Option<JsonValue>)
        ensures
            value_view(r) == document_path(fields_of(*self), path@),
    {
        let m = self.fields();
        if str_eq(path, "id") || str_eq(path, "_id") {
            return get_value(m, "_id");
        }
        let mut doc = m.copy();
        let _ = unflatten_document_r_field(&mut doc);
        let d = document_detail(m);
        proof {
            reveal_strlit("r");
            assert(seq!['r'] =~= "r"@);
        }
        doc.insert(string_of("r"), JsonValue::Object(d));
        assert(doc@ =~= document_json(m@));
        let pc = chars_of(path);
        let segs = split_chars(&pc, '.');
        let ghost sp = split_on(path@, '.');
        let mut cur = JsonValue::Object(doc);
        let mut k: usize = 0;
        while k < segs.len()
            invariant
                segs@.len() == sp.len(),
                forall|i: int| 0 <= i < segs@.len() ==> (#[trigger] segs@[i])@ == sp[i],
                k <= segs@.len(),
                walk(JsonV::Object(document_json(m@)), sp, 0) == walk(cur@, sp, k as int),
                m@ == fields_of(*self),
                sp == split_on(path@, '.'),
                !(path@ == "id"@ || path@ == "_id"@),
            decreases segs@.len() - k,
        {
            let seg = string_from_chars(&segs[k]);
            let next = match &cur {
                JsonValue::Object(o) => match o.get(seg.as_str()) {
                    Some(v) => v.copy(),
                    None => return None,
                },
                _ => return None,
            };
            cur = next;
            k = k + 1;
        }
        Some(cur)
    }
}

} // verus!

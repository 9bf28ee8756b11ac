//! Ditto documents of CoT events: the five kinds of document, the rules
//! that choose a kind from a CoT event type, and the questions a document
//! answers. The library holds a document as its JSON object.
use vstd::prelude::*;
use crate::json::{JsonMap, JsonV, JsonValue};
use crate::r_field::{is_unflattening, not_a_field, unflatten_document_r_field};
use crate::text::{contains, contains_seq, str_eq, string_of};

verus! {

/// A Ditto document of a CoT event, by kind, held as its JSON object.
#[derive(Debug)]
pub enum CotDocument {
    /// An emergency (API) document.
    Api(JsonMap),
    /// A chat message.
    Chat(JsonMap),
    /// A file or attachment.
    File(JsonMap),
    /// Any other event.
    Generic(JsonMap),
    /// A location update (map item).
    MapItem(JsonMap),
}

/// The kinds of document.
#[derive(PartialEq, Eq, Structural, Clone, Copy, Debug)]
pub enum DocKind {
    Api,
    Chat,
    File,
    Generic,
    MapItem,
}

/// The kind of a document.
pub open spec fn kind_of(d: CotDocument) -> DocKind {
    match d {
        CotDocument::Api(_) => DocKind::Api,
        CotDocument::Chat(_) => DocKind::Chat,
        CotDocument::File(_) => DocKind::File,
        CotDocument::Generic(_) => DocKind::Generic,
        CotDocument::MapItem(_) => DocKind::MapItem,
    }
}

/// The JSON object of a document.
pub open spec fn fields_of(d: CotDocument) -> Map<Seq<char>, JsonV> {
    match d {
        CotDocument::Api(m) => m@,
        CotDocument::Chat(m) => m@,
        CotDocument::File(m) => m@,
        CotDocument::Generic(m) => m@,
        CotDocument::MapItem(m) => m@,
    }
}

/// The event type of emergencies.
pub open spec fn emergency_type() -> Seq<char> {
    "a-u-emergency-g"@
}

/// Location event types: those that contain one of the location patterns.
pub open spec fn is_location_type(t: Seq<char>) -> bool {
    contains_seq(t, "a-u-r-loc-g"@) || contains_seq(t, "a-f-G-U-C"@) || contains_seq(t, "a-f-G-U"@)
        || contains_seq(t, "a-f-G-U-I"@) || contains_seq(t, "a-f-G-U-T"@) || contains_seq(t, "a-u-S"@)
        || contains_seq(t, "a-u-A"@) || contains_seq(t, "a-u-G"@)
}

/// Chat event types: those that contain `b-t-f` or `chat`.
pub open spec fn is_chat_type(t: Seq<char>) -> bool {
    contains_seq(t, "b-t-f"@) || contains_seq(t, "chat"@)
}

/// File event types: those that contain `file` or `attachment`.
pub open spec fn is_file_type(t: Seq<char>) -> bool {
    contains_seq(t, "file"@) || contains_seq(t, "attachment"@)
}

/// The kind of document a CoT event of type `t` becomes: emergencies,
/// then chats, then locations, then files, then everything else.
pub open spec fn event_kind(t: Seq<char>) -> DocKind {
    if t == emergency_type() {
        DocKind::Api
    } else if is_chat_type(t) {
        DocKind::Chat
    } else if is_location_type(t) {
        DocKind::MapItem
    } else if is_file_type(t) {
        DocKind::File
    } else {
        DocKind::Generic
    }
}

/// The kind of document that a stored document with type field `w` is
/// read as: locations, then chats, then emergencies; everything else is a
/// file.
pub open spec fn stored_kind(w: Seq<char>) -> DocKind {
    if is_location_type(w) {
        DocKind::MapItem
    } else if is_chat_type(w) {
        DocKind::Chat
    } else if w == emergency_type() {
        DocKind::Api
    } else {
        DocKind::File
    }
}

/// Whether an event type is a location type.
pub fn is_location_event_type(t: &str) -> (r: bool)
    ensures
        r == is_location_type(t@),
{
    contains(t, "a-u-r-loc-g") || contains(t, "a-f-G-U-C") || contains(t, "a-f-G-U") || contains(t, "a-f-G-U-I")
        || contains(t, "a-f-G-U-T") || contains(t, "a-u-S") || contains(t, "a-u-A") || contains(t, "a-u-G")
}

/// Whether an event type is a chat type.
pub fn is_chat_event_type(t: &str) -> (r: bool)
    ensures
        r == is_chat_type(t@),
{
    contains(t, "b-t-f") || contains(t, "chat")
}

/// Whether an event type is a file type.
pub fn is_file_event_type(t: &str) -> (r: bool)
    ensures
        r == is_file_type(t@),
{
    contains(t, "file") || contains(t, "attachment")
}

/// The kind of document a CoT event of type `t` becomes.
pub fn kind_for_event_type(t: &str) -> (r: DocKind)
    ensures
        r == event_kind(t@),
{
    if str_eq(t, "a-u-emergency-g") {
        DocKind::Api
    } else if is_chat_event_type(t) {
        DocKind::Chat
    } else if is_location_event_type(t) {
        DocKind::MapItem
    } else if is_file_event_type(t) {
        DocKind::File
    } else {
        DocKind::Generic
    }
}

/// The kind of document that a stored document with type field `w` is
/// read as.
pub fn kind_for_stored_type(w: &str) -> (r: DocKind)
    ensures
        r == stored_kind(w@),
{
    if is_location_event_type(w) {
        DocKind::MapItem
    } else if is_chat_event_type(w) {
        DocKind::Chat
    } else if str_eq(w, "a-u-emergency-g") {
        DocKind::Api
    } else {
        DocKind::File
    }
}

/// The top-level keys that `has_key` answers for a kind: `_id`, `a` (peer
/// key), `b`, `d` (author uid) for every kind, and `e` (callsign) for all
/// but emergencies.
pub open spec fn answers_key(kind: DocKind, key: Seq<char>) -> bool {
    key == "_id"@ || key == "a"@ || key == "b"@ || key == "d"@ || (kind != DocKind::Api && key == "e"@)
}

/// Why a stored document could not be read.
#[derive(PartialEq, Eq, Structural, Clone, Copy, Debug)]
pub enum DocumentError {
    /// The document has no `w` (type) field with a text value.
    MissingType,
}

/// The document that a stored JSON value is read as, when it has a text
/// type field `w`: its kind chosen by `stored_kind`, its object as it is,
/// except that a location document without a document counter (`_c` or
/// `d_c`) gets the counter 1.
pub open spec fn stored_document(v: JsonV) -> Option<(DocKind, Map<Seq<char>, JsonV>)> {
    match v {
        JsonV::Object(m) => if m.contains_key("w"@) && m["w"@] is Str {
            let w = m["w"@]->Str_0;
            let kind = stored_kind(w);
            if kind == DocKind::MapItem && !m.contains_key("d_c"@) && !m.contains_key("_c"@) {
                Some((kind, m.insert("_c"@, JsonV::Number("1"@, "1"@))))
            } else {
                Some((kind, m))
            }
        } else {
            None
        },
        _ => None,
    }
}

impl CotDocument {
    /// Whether this is a location document (map item).
    pub fn is_map_item(&self) -> (r: bool)
        ensures
            r == (kind_of(*self) == DocKind::MapItem),
    {
        match self {
            CotDocument::MapItem(_) => true,
            _ => false,
        }
    }

    /// The object of a location document.
    pub fn as_map_item(&self) -> (r: Option<&JsonMap>)
        ensures
            match r {
                Some(m) => kind_of(*self) == DocKind::MapItem && m@ == fields_of(*self),
                None => kind_of(*self) != DocKind::MapItem,
            },
    {
        match self {
            CotDocument::MapItem(m) => Some(m),
            _ => None,
        }
    }

    /// The kind of this document.
    pub fn kind(&self) -> (r: DocKind)
        ensures
            r == kind_of(*self),
    {
        match self {
            CotDocument::Api(_) => DocKind::Api,
            CotDocument::Chat(_) => DocKind::Chat,
            CotDocument::File(_) => DocKind::File,
            CotDocument::Generic(_) => DocKind::Generic,
            CotDocument::MapItem(_) => DocKind::MapItem,
        }
    }

    /// The JSON object of this document.
    pub fn fields(&self) -> (r: &JsonMap)
        ensures
            r@ == fields_of(*self),
    {
        match self {
            CotDocument::Api(m) => m,
            CotDocument::Chat(m) => m,
            CotDocument::File(m) => m,
            CotDocument::Generic(m) => m,
            CotDocument::MapItem(m) => m,
        }
    }

    /// Whether this document answers for top-level key `key`: `_id`, `a`,
    /// `b` and `d` for every kind, and `e` for every kind but emergencies.
    /// (A fixed answer by kind, whatever the document holds.)
    pub fn has_key(&self, key: &str) -> (r: bool)
        ensures
            r == answers_key(kind_of(*self), key@),
    {
        let common = str_eq(key, "_id") || str_eq(key, "a") || str_eq(key, "b") || str_eq(key, "d");
        match self {
            CotDocument::Api(_) => common,
            _ => common || str_eq(key, "e"),
        }
    }

    /// This document as a JSON value: its object.
    pub fn to_flattened_json(&self) -> (r: JsonValue)
        ensures
            r@ == JsonV::Object(fields_of(*self)),
    {
        JsonValue::Object(self.fields().copy())
    }

    /// A document of kind `kind` with object `m`.
    pub fn of_kind(kind: DocKind, m: JsonMap) -> (r: CotDocument)
        ensures
            kind_of(r) == kind,
            fields_of(r) == m@,
    {
        match kind {
            DocKind::Api => CotDocument::Api(m),
            DocKind::Chat => CotDocument::Chat(m),
            DocKind::File => CotDocument::File(m),
            DocKind::Generic => CotDocument::Generic(m),
            DocKind::MapItem => CotDocument::MapItem(m),
        }
    }

    /// Reads a stored JSON document: its kind from its `w` (type) field,
    /// and a document counter of 1 for a location document that has none.
    /// Fails when there is no `w` field with a text value.
    pub fn from_json_value(v: &JsonValue) -> (r: Result<CotDocument, DocumentError>)
        ensures
            match stored_document(v@) {
                Some(p) => r matches Ok(d) && kind_of(d) == p.0 && fields_of(d) == p.1,
                None => r == Err::<CotDocument, DocumentError>(DocumentError::MissingType),
            },
    {
        match v {
            JsonValue::Object(m) => {
                match m.get("w") {
                    Some(JsonValue::Str(w)) => {
                        let kind = kind_for_stored_type(w.as_str());
                        let mut doc = m.copy();
                        if kind == DocKind::MapItem && !m.contains_key("d_c") && !m.contains_key("_c") {
                            doc.insert(
                                string_of("_c"),
                                JsonValue::Number(crate::json::JsonNumber { text: string_of("1"), display: string_of("1") }),
                            );
                        }
                        Ok(CotDocument::of_kind(kind, doc))
                    },
                    _ => Err(DocumentError::MissingType),
                }
            },
            _ => Err(DocumentError::MissingType),
        }
    }
}

/// Reads a document delivered to an observer (see
/// `CotDocument::from_json_value`).
pub fn observer_json_to_cot_document(doc: &JsonValue) -> (r: Result<CotDocument, DocumentError>)
    ensures
        match stored_document(doc@) {
            Some(p) => r matches Ok(d) && kind_of(d) == p.0 && fields_of(d) == p.1,
            None => r == Err::<CotDocument, DocumentError>(DocumentError::MissingType),
        },
{
    CotDocument::from_json_value(doc)
}

/// The text under `_id`, or else under `id`, of a document.
pub open spec fn document_id_of(v: JsonV) -> Option<Seq<char>> {
    match v {
        JsonV::Object(m) => {
            let k = if m.contains_key("_id"@) { "_id"@ } else { "id"@ };
            if m.contains_key(k) && m[k] is Str {
                Some(m[k]->Str_0)
            } else {
                None
            }
        },
        _ => None,
    }
}

/// The text under `w` of a document.
pub open spec fn document_type_of(v: JsonV) -> Option<Seq<char>> {
    match v {
        JsonV::Object(m) => if m.contains_key("w"@) && m["w"@] is Str {
            Some(m["w"@]->Str_0)
        } else {
            None
        },
        _ => None,
    }
}

/// The document id of a document: the text under `_id`, or, where there
/// is no `_id`, under `id`. `None` where that value is missing or is not
/// text.
pub fn get_document_id_from_value(doc_value: &JsonValue) -> (r: Option<String>)
    ensures
        match r {
            Some(s) => document_id_of(doc_value@) == Some(s@),
            None => document_id_of(doc_value@) is None,
        },
{
    match doc_value {
        JsonValue::Object(m) => {
            let v = match m.get("_id") {
                Some(v) => Some(v),
                None => m.get("id"),
            };
            match v {
                Some(JsonValue::Str(s)) => Some(crate::text::copy_string(s)),
                _ => None,
            }
        },
        _ => None,
    }
}

/// The document type of a document: the text under `w`.
pub fn get_document_type_from_value(doc_value: &JsonValue) -> (r: Option<String>)
    ensures
        match r {
            Some(s) => document_type_of(doc_value@) == Some(s@),
            None => document_type_of(doc_value@) is None,
        },
{
    match doc_value {
        JsonValue::Object(m) => match m.get("w") {
            Some(JsonValue::Str(s)) => Some(crate::text::copy_string(s)),
            _ => None,
        },
        _ => None,
    }
}

/// A stored document with its `r_*` fields gathered back into `r`: the
/// fields are removed and, when there are any, the `r` member holds the
/// detail elements that `r` unflattens them into.
pub open spec fn with_r_fields(m: Map<Seq<char>, JsonV>, r: Map<Seq<char>, JsonV>) -> Map<Seq<char>, JsonV> {
    let kept = m.restrict(Set::new(|k: Seq<char>| not_a_field(k)));
    if r.dom().len() > 0 {
        kept.insert(seq!['r'], JsonV::Object(r))
    } else {
        kept
    }
}

/// A document delivered to an observer with its detail section rebuilt
/// from its `r_*` fields (see `with_r_fields`); a value that is not an
/// object is given back as it is.
pub fn observer_json_to_json_with_r_fields(doc: &JsonValue) -> (r: JsonValue)
    ensures
        doc@ is Object ==> exists|rf: Map<Seq<char>, JsonV>|
            is_unflattening(doc@->Object_0, rf) && r@ == JsonV::Object(with_r_fields(doc@->Object_0, rf)),
        !(doc@ is Object) ==> r@ == doc@,
{
    match doc {
        JsonValue::Object(m) => {
            let mut document_map = m.copy();
            let r_map = unflatten_document_r_field(&mut document_map);
            proof {
                use_type_invariant(&r_map);
                r_map.lemma_keys();
            }
            let ghost after = document_map@;
            if r_map.len() > 0 {
                document_map.insert(string_of("r"), JsonValue::Object(r_map.copy()));
                proof {
                    reveal_strlit("r");
                    assert("r"@ =~= seq!['r']);
                    assert(document_map@ =~= after);
                }
            }
            assert(document_map@ == with_r_fields(m@, r_map@));
            assert(is_unflattening(m@, r_map@));
            let out = JsonValue::Object(document_map);
            assert(doc@->Object_0 == m@);
            assert(out@ == JsonV::Object(with_r_fields(doc@->Object_0, r_map@)));
            out
        },
        _ => doc.copy(),
    }
}

} // verus!

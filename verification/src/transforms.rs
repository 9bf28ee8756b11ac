//! CoT events made into Ditto documents in the flattened form that DQL
//! reads: the fields common to every document, those of each kind, and
//! the detail section flattened into `r_*` fields.
use vstd::prelude::*;
use crate::detail::{detail_section, parse_detail_section};
use crate::document::{CotDocument, DocKind, event_kind, kind_for_event_type, kind_of, fields_of};
use crate::json::{JsonMap, JsonNumber, JsonV, JsonValue};
use crate::r_field::{flatten_document_r_field, is_flattening};
use crate::text::{copy_string, string_of};
use crate::xml::{is_white_space, white_space_spec};

verus! {

/// A CoT event as the documents are made of it: its texts, its times as
/// RFC 3339 texts and as numbers, and its point, each coordinate as the
/// JSON number it is written as and as the text that `f64`'s `Display`
/// gives of it.
pub struct EventFields {
    pub version: String,
    pub uid: String,
    pub event_type: String,
    pub how: String,
    pub detail: String,
    /// `time`, `start` and `stale` as RFC 3339 texts.
    pub time: String,
    pub start: String,
    pub stale: String,
    /// The point: latitude, longitude, height above ellipsoid, circular
    /// and linear error, as JSON numbers.
    pub lat: JsonNumber,
    pub lon: JsonNumber,
    pub hae: JsonNumber,
    pub ce: JsonNumber,
    pub le: JsonNumber,
    /// Latitude, longitude and height as `Display` texts.
    pub lat_text: String,
    pub lon_text: String,
    pub hae_text: String,
    /// `time`, `start` and `stale` in microseconds, as JSON numbers.
    pub time_micros: JsonNumber,
    pub start_micros: JsonNumber,
    pub stale_micros: JsonNumber,
    /// `time` in milliseconds, as a JSON number of a float and as an
    /// integer JSON number.
    pub time_millis: JsonNumber,
    pub time_millis_int: JsonNumber,
}

/// The value of a JSON number.
pub open spec fn num(n: JsonNumber) -> JsonV {
    JsonV::Number(n.text@, n.display@)
}

/// The number 0.
pub open spec fn zero() -> JsonV {
    JsonV::Number("0"@, "0"@)
}

/// The text value of `s`.
pub open spec fn text_v(s: Seq<char>) -> JsonV {
    JsonV::Str(s)
}

/// The members of the detail section of an event.
pub open spec fn event_detail(e: EventFields) -> Map<Seq<char>, JsonV> {
    detail_section(vstd::utf8::encode_utf8(e.detail@))
}

/// The fields every document has: its id, the peer key, the author, the
/// counter 0, not removed, schema version 2, an empty callsign, the event's
/// version, how, empty access, opex, qos, caveat and releasability, and the
/// type.
pub open spec fn common_fields(e: EventFields, peer: Seq<char>) -> Map<Seq<char>, JsonV> {
    Map::<Seq<char>, JsonV>::empty().insert("_id"@, text_v(e.uid@)).insert("a"@, text_v(peer)).insert(
        "d"@,
        text_v(e.uid@),
    ).insert("_c"@, zero()).insert("_r"@, JsonV::Bool(false)).insert("_v"@, JsonV::Number("2"@, "2"@)).insert(
        "e"@,
        text_v(Seq::empty()),
    ).insert("g"@, text_v(e.version@)).insert("p"@, text_v(e.how@)).insert("q"@, text_v(Seq::empty())).insert(
        "s"@,
        text_v(Seq::empty()),
    ).insert("t"@, text_v(Seq::empty())).insert("u"@, text_v(Seq::empty())).insert("v"@, text_v(Seq::empty())).insert(
        "w"@,
        text_v(e.event_type@),
    )
}

/// A document `base` with `r` flattened from the members `r`.
pub open spec fn flattened_with(doc: Map<Seq<char>, JsonV>, base: Map<Seq<char>, JsonV>, r: Map<Seq<char>, JsonV>) -> bool {
    exists|f: Map<Seq<char>, JsonV>| is_flattening(r, f) && doc == base.remove(seq!['r']).union_prefer_right(f)
}

/// The fields of a location or generic document: those every document
/// has, with the event's times and point: `b` the time, `n` the start and
/// `o` the stale time in microseconds, `h` the circular error, `i` the
/// height, `j` the latitude, `k` the linear error and `l` the longitude.
pub open spec fn point_fields(e: EventFields, peer: Seq<char>) -> Map<Seq<char>, JsonV> {
    common_fields(e, peer).insert("b"@, num(e.time_micros)).insert("n"@, num(e.start_micros)).insert(
        "o"@,
        num(e.stale_micros),
    ).insert("h"@, num(e.ce)).insert("i"@, num(e.hae)).insert("j"@, num(e.lat)).insert("k"@, num(e.le)).insert(
        "l"@,
        num(e.lon),
    )
}

/// The fields of a location document: those of `point_fields`.
pub open spec fn location_fields(e: EventFields, peer: Seq<char>) -> Map<Seq<char>, JsonV> {
    point_fields(e, peer)
}

/// The fields every document has.
fn common_doc(e: &EventFields, peer_key: &str) -> (r: JsonMap)
    ensures
        r@ == common_fields(*e, peer_key@),
{
    let mut m = JsonMap::new();
    m.insert(string_of("_id"), JsonValue::Str(copy_string(&e.uid)));
    m.insert(string_of("a"), JsonValue::Str(string_of(peer_key)));
    m.insert(string_of("d"), JsonValue::Str(copy_string(&e.uid)));
    m.insert(string_of("_c"), zero_number());
    m.insert(string_of("_r"), JsonValue::Bool(false));
    m.insert(string_of("_v"), JsonValue::Number(JsonNumber { text: string_of("2"), display: string_of("2") }));
    m.insert(string_of("e"), JsonValue::Str(String::new()));
    m.insert(string_of("g"), JsonValue::Str(copy_string(&e.version)));
    m.insert(string_of("p"), JsonValue::Str(copy_string(&e.how)));
    m.insert(string_of("q"), JsonValue::Str(String::new()));
    m.insert(string_of("s"), JsonValue::Str(String::new()));
    m.insert(string_of("t"), JsonValue::Str(String::new()));
    m.insert(string_of("u"), JsonValue::Str(String::new()));
    m.insert(string_of("v"), JsonValue::Str(String::new()));
    m.insert(string_of("w"), JsonValue::Str(copy_string(&e.event_type)));
    m
}

/// The fields of a location or generic document (see `point_fields`).
fn point_doc(e: &EventFields, peer_key: &str) -> (r: JsonMap)
    ensures
        r@ == point_fields(*e, peer_key@),
{
    let mut m = common_doc(e, peer_key);
    m.insert(string_of("b"), num_value(&e.time_micros));
    m.insert(string_of("n"), num_value(&e.start_micros));
    m.insert(string_of("o"), num_value(&e.stale_micros));
    m.insert(string_of("h"), num_value(&e.ce));
    m.insert(string_of("i"), num_value(&e.hae));
    m.insert(string_of("j"), num_value(&e.lat));
    m.insert(string_of("k"), num_value(&e.le));
    m.insert(string_of("l"), num_value(&e.lon));
    m
}

/// The number 0.
fn zero_number() -> (r: JsonValue)
    ensures
        r@ == zero(),
{
    JsonValue::Number(JsonNumber { text: string_of("0"), display: string_of("0") })
}

/// A copy of a JSON number as a value.
fn num_value(n: &JsonNumber) -> (r: JsonValue)
    ensures
        r@ == num(*n),
{
    JsonValue::Number(n.copy())
}

/// Reads the detail section of an event.
fn detail_of(e: &EventFields) -> (r: JsonMap)
    ensures
        r@ == event_detail(*e),
{
    parse_detail_section(e.detail.as_str())
}

/// The flattened location document of an event, for peer `peer_key`.
pub fn transform_location_event_flattened(event: &EventFields, peer_key: &str) -> (r: JsonMap)
    ensures
        flattened_with(r@, location_fields(*event, peer_key@), event_detail(*event)),
{
    let extras = detail_of(event);
    let mut doc = point_doc(event, peer_key);
    flatten_document_r_field(&mut doc, &extras);
    doc
}

/// The words of a text: its maximal runs of characters that are not
/// whitespace, scanning from position `i` with the word `cur` begun and
/// the words `acc` found.
pub open spec fn words_from(s: Seq<char>, i: int, cur: Seq<char>, acc: Seq<Seq<char>>) -> Seq<Seq<char>>
    decreases s.len() - i,
{
    if i >= s.len() {
        if cur.len() > 0 {
            acc.push(cur)
        } else {
            acc
        }
    } else if white_space_spec(s[i]) {
        words_from(s, i + 1, Seq::empty(), if cur.len() > 0 { acc.push(cur) } else { acc })
    } else {
        words_from(s, i + 1, cur.push(s[i]), acc)
    }
}

/// The words of a text, as `str::split_whitespace` yields them.
pub open spec fn words(s: Seq<char>) -> Seq<Seq<char>> {
    words_from(s, 0, Seq::empty(), Seq::empty())
}

/// The words of a text.
pub fn split_words(s: &str) -> (r: Vec<String>)
    ensures
        r@.map_values(|w: String| w@) == words(s@),
{
    let cs = crate::text::chars_of(s);
    let mut acc: Vec<String> = Vec::new();
    let mut cur: Vec<char> = Vec::new();
    let mut i: usize = 0;
    assert(acc@.map_values(|w: String| w@) =~= Seq::<Seq<char>>::empty());
    assert(cur@ =~= Seq::<char>::empty());
    while i < cs.len()
        invariant
            cs@ == s@,
            i <= cs@.len(),
            words_from(s@, i as int, cur@, acc@.map_values(|w: String| w@)) == words(s@),
        decreases cs@.len() - i,
    {
        let ghost a0 = acc@.map_values(|w: String| w@);
        if is_white_space(cs[i]) {
            if cur.len() > 0 {
                let w = crate::text::string_from_chars(cur.as_slice());
                acc.push(w);
                assert(acc@.map_values(|w: String| w@) =~= a0.push(cur@));
            }
            cur = Vec::new();
            assert(cur@ =~= Seq::<char>::empty());
        } else {
            cur.push(cs[i]);
        }
        i = i + 1;
    }
    let ghost a0 = acc@.map_values(|w: String| w@);
    if cur.len() > 0 {
        let w = crate::text::string_from_chars(cur.as_slice());
        acc.push(w);
        assert(acc@.map_values(|w: String| w@) =~= a0.push(cur@));
    }
    acc
}

/// The message of a chat: the first two words of the detail joined by a
/// space, or the only word; none where the detail has no words.
pub open spec fn chat_message(ws: Seq<Seq<char>>) -> Option<Seq<char>> {
    if ws.len() >= 2 {
        Some(ws[0] + seq![' '] + ws[1])
    } else if ws.len() == 1 {
        Some(ws[0])
    } else {
        None
    }
}

/// The location text of a chat: `lat,lon,hae`.
pub open spec fn chat_location(e: EventFields) -> Seq<char> {
    e.lat_text@ + seq![','] + e.lon_text@ + seq![','] + e.hae_text@
}

/// The message of a chat event: the `msg` of the `chat` element of its
/// detail; where there is none, the message that the words of the detail
/// give (see `chat_message`).
pub open spec fn chat_message_of(e: EventFields) -> Option<Seq<char>> {
    match element_text(event_detail(e), "chat"@, "msg"@) {
        Some(m) => Some(m),
        None => chat_message(words(e.detail@)),
    }
}

/// The room of a chat event: the `room` of its `chat` element where that
/// element gives the message, else the third word of the detail, if any.
pub open spec fn chat_room_of(e: EventFields) -> Option<Seq<char>> {
    let d = event_detail(e);
    let ws = words(e.detail@);
    if element_text(d, "chat"@, "msg"@) is Some {
        element_text(d, "chat"@, "room"@)
    } else if ws.len() >= 3 {
        Some(ws[2])
    } else {
        None
    }
}

/// The fields of a chat document, given its message: `b` the circular
/// error, `h`, `i`, `j` latitude, longitude and height, `n` and `o` start
/// and stale in microseconds, the time as text, the message, the room (see
/// `chat_room_of`), the room id (the `roomId` of the `chat` element), the
/// sender's callsign (its `from`) as callsign `e` and as author callsign,
/// the location, and the author.
pub open spec fn chat_fields(e: EventFields, peer: Seq<char>, msg: Seq<char>) -> Map<Seq<char>, JsonV> {
    let d = event_detail(e);
    let base = common_fields(e, peer).insert("b"@, num(e.ce)).insert("h"@, num(e.lat)).insert("i"@, num(e.lon)).insert(
        "j"@,
        num(e.hae),
    ).insert("n"@, num(e.start_micros)).insert("o"@, num(e.stale_micros)).insert("time"@, text_v(e.time@)).insert(
        "message"@,
        text_v(msg),
    );
    let with_room = match chat_room_of(e) {
        Some(r) => base.insert("room"@, text_v(r)),
        None => base,
    };
    let with_id = match element_text(d, "chat"@, "roomId"@) {
        Some(r) => with_room.insert("roomId"@, text_v(r)),
        None => with_room,
    };
    let with_from = match element_text(d, "chat"@, "from"@) {
        Some(c) => with_id.insert("e"@, text_v(c)).insert("authorCallsign"@, text_v(c)),
        None => with_id,
    };
    with_from.insert("location"@, text_v(chat_location(e))).insert("authorUid"@, text_v(e.uid@)).insert(
        "authorType"@,
        text_v("user"@),
    )
}

/// The flattened chat document of an event, for peer `peer_key`; none
/// where it has no message (see `chat_message_of`).
pub fn transform_chat_event_flattened(event: &EventFields, peer_key: &str) -> (r: Option<JsonMap>)
    ensures
        match chat_message_of(*event) {
            Some(msg) => r matches Some(d) && flattened_with(d@, chat_fields(*event, peer_key@, msg), event_detail(*event)),
            None => r is None,
        },
{
    let extras = detail_of(event);
    let parts = split_words(event.detail.as_str());
    let ghost ws = words(event.detail@);
    proof {
        assert(parts@.map_values(|w: String| w@) == ws);
        assert(parts@.len() == ws.len());
        assert(forall|i: int| 0 <= i < parts@.len() ==> #[trigger] parts@[i]@ == ws[i]);
    }
    let from_element = element_member_text(&extras, "chat", "msg");
    let in_element = from_element.is_some();
    let message = match from_element {
        Some(m) => m,
        None => if parts.len() >= 2 {
            let mut m = copy_string(&parts[0]);
            m.append(" ");
            m.append(parts[1].as_str());
            proof {
                reveal_strlit(" ");
            }
            m
        } else if parts.len() == 1 {
            copy_string(&parts[0])
        } else {
            return None;
        },
    };
    assert(chat_message_of(*event) == Some(message@));
    let room = if in_element {
        element_member_text(&extras, "chat", "room")
    } else if parts.len() >= 3 {
        Some(copy_string(&parts[2]))
    } else {
        None
    };
    assert(opt_text_view(room) == chat_room_of(*event));
    let mut doc = common_doc(event, peer_key);
    doc.insert(string_of("b"), num_value(&event.ce));
    doc.insert(string_of("h"), num_value(&event.lat));
    doc.insert(string_of("i"), num_value(&event.lon));
    doc.insert(string_of("j"), num_value(&event.hae));
    doc.insert(string_of("n"), num_value(&event.start_micros));
    doc.insert(string_of("o"), num_value(&event.stale_micros));
    doc.insert(string_of("time"), JsonValue::Str(copy_string(&event.time)));
    doc.insert(string_of("message"), JsonValue::Str(message));
    match room {
        Some(r) => {
            doc.insert(string_of("room"), JsonValue::Str(r));
        },
        None => {},
    }
    match element_member_text(&extras, "chat", "roomId") {
        Some(r) => {
            doc.insert(string_of("roomId"), JsonValue::Str(r));
        },
        None => {},
    }
    match element_member_text(&extras, "chat", "from") {
        Some(c) => {
            doc.insert(string_of("e"), JsonValue::Str(copy_string(&c)));
            doc.insert(string_of("authorCallsign"), JsonValue::Str(c));
        },
        None => {},
    }
    let mut location = copy_string(&event.lat_text);
    location.append(",");
    location.append(event.lon_text.as_str());
    location.append(",");
    location.append(event.hae_text.as_str());
    proof {
        reveal_strlit(",");
        assert(location@ =~= chat_location(*event));
    }
    doc.insert(string_of("location"), JsonValue::Str(location));
    doc.insert(string_of("authorUid"), JsonValue::Str(copy_string(&event.uid)));
    doc.insert(string_of("authorType"), JsonValue::Str(string_of("user")));
    flatten_document_r_field(&mut doc, &extras);
    Some(doc)
}

/// The view of an optional text.
pub open spec fn opt_text_view(s: Option<String>) -> Option<Seq<char>> {
    match s {
        Some(t) => Some(t@),
        None => None,
    }
}

/// The fields of an emergency document: `b` the time in milliseconds,
/// `h`, `i`, `j` latitude, longitude and height, `n` and `o` start and
/// stale in microseconds, and the emergency content description.
pub open spec fn emergency_fields(e: EventFields, peer: Seq<char>) -> Map<Seq<char>, JsonV> {
    common_fields(e, peer).insert("b"@, num(e.time_millis)).insert("h"@, num(e.lat)).insert("i"@, num(e.lon)).insert(
        "j"@,
        num(e.hae),
    ).insert("n"@, num(e.start_micros)).insert("o"@, num(e.stale_micros)).insert(
        "contentType"@,
        text_v("emergency"@),
    ).insert("mime"@, text_v("application/vnd.cot.emergency+json"@)).insert("isFile"@, JsonV::Bool(false)).insert(
        "isRemoved"@,
        JsonV::Bool(false),
    ).insert("timeMillis"@, num(e.time_millis_int))
}

/// The flattened emergency document of an event, for peer `peer_key`.
pub fn transform_emergency_event_flattened(event: &EventFields, peer_key: &str) -> (r: JsonMap)
    ensures
        flattened_with(r@, emergency_fields(*event, peer_key@), event_detail(*event)),
{
    let extras = detail_of(event);
    let mut doc = common_doc(event, peer_key);
    doc.insert(string_of("b"), num_value(&event.time_millis));
    doc.insert(string_of("h"), num_value(&event.lat));
    doc.insert(string_of("i"), num_value(&event.lon));
    doc.insert(string_of("j"), num_value(&event.hae));
    doc.insert(string_of("n"), num_value(&event.start_micros));
    doc.insert(string_of("o"), num_value(&event.stale_micros));
    doc.insert(string_of("contentType"), JsonValue::Str(string_of("emergency")));
    doc.insert(string_of("mime"), JsonValue::Str(string_of("application/vnd.cot.emergency+json")));
    doc.insert(string_of("isFile"), JsonValue::Bool(false));
    doc.insert(string_of("isRemoved"), JsonValue::Bool(false));
    doc.insert(string_of("timeMillis"), num_value(&event.time_millis_int));
    flatten_document_r_field(&mut doc, &extras);
    doc
}

/// The detail members with the event's metadata added: `_ce` the circular
/// error, `_time`, `_start` and `_stale` as RFC 3339 texts.
pub open spec fn detail_with_metadata(e: EventFields) -> Map<Seq<char>, JsonV> {
    event_detail(e).insert("_ce"@, num(e.ce)).insert("_time"@, text_v(e.time@)).insert("_start"@, text_v(e.start@)).insert(
        "_stale"@,
        text_v(e.stale@),
    )
}

/// The detail members of an event with its metadata added.
fn detail_with_meta(e: &EventFields) -> (r: JsonMap)
    ensures
        r@ == detail_with_metadata(*e),
{
    let mut extras = detail_of(e);
    extras.insert(string_of("_ce"), num_value(&e.ce));
    extras.insert(string_of("_time"), JsonValue::Str(copy_string(&e.time)));
    extras.insert(string_of("_start"), JsonValue::Str(copy_string(&e.start)));
    extras.insert(string_of("_stale"), JsonValue::Str(copy_string(&e.stale)));
    extras
}

/// The member `k` of the object `o`, if `o` is an object that has it.
pub open spec fn member(o: JsonV, k: Seq<char>) -> Option<JsonV> {
    match o {
        JsonV::Object(m) => if m.contains_key(k) {
            Some(m[k])
        } else {
            None
        },
        _ => None,
    }
}

/// The text of member `k` of the element `el` of a detail, if it has one
/// with a text value.
pub open spec fn element_text(d: Map<Seq<char>, JsonV>, el: Seq<char>, k: Seq<char>) -> Option<Seq<char>> {
    if d.contains_key(el) {
        match member(d[el], k) {
            Some(JsonV::Str(s)) => Some(s),
            _ => None,
        }
    } else {
        None
    }
}

/// The size member of the `fileshare` element of an event's detail, if
/// any: the value that the file size is read from.
pub open spec fn fileshare_size(e: EventFields) -> Option<JsonV> {
    let d = event_detail(e);
    if d.contains_key("fileshare"@) {
        member(d["fileshare"@], "size"@)
    } else {
        None
    }
}

/// The fields of a file document, given its size number: `b` the circular
/// error, `h`, `i`, `j` latitude, longitude and height, `k` the linear
/// error, `n` and `o` time and stale in microseconds, the content type, the
/// file name (the `filename` of the `fileshare` element, else the uid), the
/// MIME type (its `mime`, else `application/octet-stream`), the item id,
/// and the size where there is one.
pub open spec fn file_fields(e: EventFields, peer: Seq<char>, size: Option<JsonV>) -> Map<Seq<char>, JsonV> {
    let d = event_detail(e);
    let file = match element_text(d, "fileshare"@, "filename"@) {
        Some(s) => s,
        None => e.uid@,
    };
    let mime = match element_text(d, "fileshare"@, "mime"@) {
        Some(s) => s,
        None => "application/octet-stream"@,
    };
    let base = common_fields(e, peer).insert("b"@, num(e.ce)).insert("h"@, num(e.lat)).insert("i"@, num(e.lon)).insert(
        "j"@,
        num(e.hae),
    ).insert("k"@, num(e.le)).insert("n"@, num(e.time_micros)).insert("o"@, num(e.stale_micros)).insert(
        "contentType"@,
        text_v("file"@),
    ).insert("file"@, text_v(file)).insert("mime"@, text_v(mime)).insert("itemId"@, text_v(e.uid@));
    match size {
        Some(n) => base.insert("sz"@, n),
        None => base,
    }
}

/// The text of member `k` of the element `el` of a detail.
fn element_member_text(d: &JsonMap, el: &str, k: &str) -> (r: Option<String>)
    ensures
        match r {
            Some(s) => element_text(d@, el@, k@) == Some(s@),
            None => element_text(d@, el@, k@) is None,
        },
{
    match d.get(el) {
        Some(JsonValue::Object(o)) => match o.get(k) {
            Some(JsonValue::Str(s)) => Some(copy_string(s)),
            _ => None,
        },
        _ => None,
    }
}

/// The size member of the `fileshare` element of an event's detail, if
/// any. The size of a file document is the number read from it.
pub fn file_size_source(event: &EventFields) -> (r: Option<JsonValue>)
    ensures
        match r {
            Some(v) => fileshare_size(*event) == Some(v@),
            None => fileshare_size(*event) is None,
        },
{
    let d = detail_of(event);
    match d.get("fileshare") {
        Some(JsonValue::Object(o)) => match o.get("size") {
            Some(v) => Some(v.copy()),
            None => None,
        },
        _ => None,
    }
}

/// The flattened file document of an event, for peer `peer_key`, with the
/// file size read from the `size` member of its `fileshare` element (see
/// `file_size_source`), if there is one.
pub fn transform_file_event_flattened(event: &EventFields, peer_key: &str, size: Option<JsonNumber>) -> (r: JsonMap)
    ensures
        flattened_with(
            r@,
            file_fields(
                *event,
                peer_key@,
                match size {
                    Some(n) => Some(num(n)),
                    None => None,
                },
            ),
            detail_with_metadata(*event),
        ),
{
    let d = detail_of(event);
    let file = match element_member_text(&d, "fileshare", "filename") {
        Some(s) => s,
        None => copy_string(&event.uid),
    };
    let mime = match element_member_text(&d, "fileshare", "mime") {
        Some(s) => s,
        None => string_of("application/octet-stream"),
    };
    let extras = detail_with_meta(event);
    let mut doc = common_doc(event, peer_key);
    doc.insert(string_of("b"), num_value(&event.ce));
    doc.insert(string_of("h"), num_value(&event.lat));
    doc.insert(string_of("i"), num_value(&event.lon));
    doc.insert(string_of("j"), num_value(&event.hae));
    doc.insert(string_of("k"), num_value(&event.le));
    doc.insert(string_of("n"), num_value(&event.time_micros));
    doc.insert(string_of("o"), num_value(&event.stale_micros));
    doc.insert(string_of("contentType"), JsonValue::Str(string_of("file")));
    doc.insert(string_of("file"), JsonValue::Str(file));
    doc.insert(string_of("mime"), JsonValue::Str(mime));
    doc.insert(string_of("itemId"), JsonValue::Str(copy_string(&event.uid)));
    match size {
        Some(n) => {
            doc.insert(string_of("sz"), JsonValue::Number(n));
        },
        None => {},
    }
    flatten_document_r_field(&mut doc, &extras);
    doc
}

/// The fields of a generic document: those of `point_fields`.
pub open spec fn generic_fields(e: EventFields, peer: Seq<char>) -> Map<Seq<char>, JsonV> {
    point_fields(e, peer)
}

/// The flattened generic document of an event, for peer `peer_key`.
pub fn transform_generic_event_flattened(event: &EventFields, peer_key: &str) -> (r: JsonMap)
    ensures
        flattened_with(r@, generic_fields(*event, peer_key@), detail_with_metadata(*event)),
{
    let extras = detail_with_meta(event);
    let mut doc = point_doc(event, peer_key);
    flatten_document_r_field(&mut doc, &extras);
    doc
}

/// What the fields of a location or generic document hold under the keys
/// that the readers read.
pub proof fn lemma_point_field_values(e: EventFields, peer: Seq<char>)
    ensures
        point_fields(e, peer).contains_key("_id"@) && point_fields(e, peer)["_id"@] == text_v(e.uid@),
        point_fields(e, peer).contains_key("g"@) && point_fields(e, peer)["g"@] == text_v(e.version@),
        point_fields(e, peer).contains_key("w"@) && point_fields(e, peer)["w"@] == text_v(e.event_type@),
        point_fields(e, peer).contains_key("p"@) && point_fields(e, peer)["p"@] == text_v(e.how@),
        point_fields(e, peer).contains_key("b"@) && point_fields(e, peer)["b"@] == num(e.time_micros),
        point_fields(e, peer).contains_key("n"@) && point_fields(e, peer)["n"@] == num(e.start_micros),
        point_fields(e, peer).contains_key("o"@) && point_fields(e, peer)["o"@] == num(e.stale_micros),
        point_fields(e, peer).contains_key("h"@) && point_fields(e, peer)["h"@] == num(e.ce),
        point_fields(e, peer).contains_key("i"@) && point_fields(e, peer)["i"@] == num(e.hae),
        point_fields(e, peer).contains_key("j"@) && point_fields(e, peer)["j"@] == num(e.lat),
        point_fields(e, peer).contains_key("k"@) && point_fields(e, peer)["k"@] == num(e.le),
        point_fields(e, peer).contains_key("l"@) && point_fields(e, peer)["l"@] == num(e.lon),
{
    reveal_strlit("_id");
    reveal_strlit("a");
    reveal_strlit("d");
    reveal_strlit("_c");
    reveal_strlit("_r");
    reveal_strlit("_v");
    reveal_strlit("e");
    reveal_strlit("g");
    reveal_strlit("p");
    reveal_strlit("q");
    reveal_strlit("s");
    reveal_strlit("t");
    reveal_strlit("u");
    reveal_strlit("v");
    reveal_strlit("w");
    reveal_strlit("b");
    reveal_strlit("n");
    reveal_strlit("o");
    reveal_strlit("h");
    reveal_strlit("i");
    reveal_strlit("j");
    reveal_strlit("k");
    reveal_strlit("l");
    reveal_strlit("time");
    reveal_strlit("message");
    reveal_strlit("room");
    reveal_strlit("roomId");
    reveal_strlit("authorCallsign");
    reveal_strlit("location");
    reveal_strlit("authorUid");
    reveal_strlit("authorType");
    reveal_strlit("contentType");
    reveal_strlit("mime");
    reveal_strlit("isFile");
    reveal_strlit("isRemoved");
    reveal_strlit("timeMillis");
    reveal_strlit("file");
    reveal_strlit("itemId");
    reveal_strlit("sz");
    assert("_id"@.len() == 3 && "_id"@[0] == '_');
    assert("a"@.len() == 1 && "a"@[0] == 'a');
    assert("d"@.len() == 1 && "d"@[0] == 'd');
    assert("_c"@.len() == 2 && "_c"@[0] == '_');
    assert("_r"@.len() == 2 && "_r"@[0] == '_');
    assert("_v"@.len() == 2 && "_v"@[0] == '_');
    assert("e"@.len() == 1 && "e"@[0] == 'e');
    assert("g"@.len() == 1 && "g"@[0] == 'g');
    assert("p"@.len() == 1 && "p"@[0] == 'p');
    assert("q"@.len() == 1 && "q"@[0] == 'q');
    assert("s"@.len() == 1 && "s"@[0] == 's');
    assert("t"@.len() == 1 && "t"@[0] == 't');
    assert("u"@.len() == 1 && "u"@[0] == 'u');
    assert("v"@.len() == 1 && "v"@[0] == 'v');
    assert("w"@.len() == 1 && "w"@[0] == 'w');
    assert("b"@.len() == 1 && "b"@[0] == 'b');
    assert("n"@.len() == 1 && "n"@[0] == 'n');
    assert("o"@.len() == 1 && "o"@[0] == 'o');
    assert("h"@.len() == 1 && "h"@[0] == 'h');
    assert("i"@.len() == 1 && "i"@[0] == 'i');
    assert("j"@.len() == 1 && "j"@[0] == 'j');
    assert("k"@.len() == 1 && "k"@[0] == 'k');
    assert("l"@.len() == 1 && "l"@[0] == 'l');
    assert("time"@.len() == 4 && "time"@[0] == 't');
    assert("message"@.len() == 7 && "message"@[0] == 'm');
    assert("room"@.len() == 4 && "room"@[0] == 'r');
    assert("roomId"@.len() == 6 && "roomId"@[0] == 'r');
    assert("authorCallsign"@.len() == 14 && "authorCallsign"@[0] == 'a');
    assert("location"@.len() == 8 && "location"@[0] == 'l');
    assert("authorUid"@.len() == 9 && "authorUid"@[0] == 'a');
    assert("authorType"@.len() == 10 && "authorType"@[0] == 'a');
    assert("contentType"@.len() == 11 && "contentType"@[0] == 'c');
    assert("mime"@.len() == 4 && "mime"@[0] == 'm');
    assert("isFile"@.len() == 6 && "isFile"@[0] == 'i');
    assert("isRemoved"@.len() == 9 && "isRemoved"@[0] == 'i');
    assert("timeMillis"@.len() == 10 && "timeMillis"@[0] == 't');
    assert("file"@.len() == 4 && "file"@[0] == 'f');
    assert("itemId"@.len() == 6 && "itemId"@[0] == 'i');
    assert("sz"@.len() == 2 && "sz"@[0] == 's');
    assert("_c"@[1] == 'c' && "_r"@[1] == 'r' && "_v"@[1] == 'v' && "_id"@[1] == 'i');
    assert("time"@[1] == 'i' && "timeMillis"@.len() == 10 && "room"@[1] == 'o' && "roomId"@.len() == 6);
    assert("authorCallsign"@[6] == 'C' && "authorUid"@[6] == 'U' && "authorType"@[6] == 'T');
    assert("isFile"@[2] == 'F' && "isRemoved"@[2] == 'R' && "itemId"@[1] == 't' && "file"@[1] == 'i');
    assert("mime"@[1] == 'i' && "message"@[1] == 'e' && "location"@[1] == 'o' && "contentType"@[1] == 'o');
}

/// What the fields of a chat document hold under the keys that the readers
/// read.
pub proof fn lemma_chat_field_values(e: EventFields, peer: Seq<char>, msg: Seq<char>)
    ensures
        chat_fields(e, peer, msg).contains_key("_id"@) && chat_fields(e, peer, msg)["_id"@] == text_v(e.uid@),
        chat_fields(e, peer, msg).contains_key("g"@) && chat_fields(e, peer, msg)["g"@] == text_v(e.version@),
        chat_fields(e, peer, msg).contains_key("w"@) && chat_fields(e, peer, msg)["w"@] == text_v(e.event_type@),
        chat_fields(e, peer, msg).contains_key("p"@) && chat_fields(e, peer, msg)["p"@] == text_v(e.how@),
        chat_fields(e, peer, msg).contains_key("b"@) && chat_fields(e, peer, msg)["b"@] == num(e.ce),
        chat_fields(e, peer, msg).contains_key("h"@) && chat_fields(e, peer, msg)["h"@] == num(e.lat),
        chat_fields(e, peer, msg).contains_key("i"@) && chat_fields(e, peer, msg)["i"@] == num(e.lon),
        chat_fields(e, peer, msg).contains_key("j"@) && chat_fields(e, peer, msg)["j"@] == num(e.hae),
        chat_fields(e, peer, msg).contains_key("n"@) && chat_fields(e, peer, msg)["n"@] == num(e.start_micros),
        chat_fields(e, peer, msg).contains_key("o"@) && chat_fields(e, peer, msg)["o"@] == num(e.stale_micros),
{
    reveal_strlit("_id");
    reveal_strlit("a");
    reveal_strlit("d");
    reveal_strlit("_c");
    reveal_strlit("_r");
    reveal_strlit("_v");
    reveal_strlit("e");
    reveal_strlit("g");
    reveal_strlit("p");
    reveal_strlit("q");
    reveal_strlit("s");
    reveal_strlit("t");
    reveal_strlit("u");
    reveal_strlit("v");
    reveal_strlit("w");
    reveal_strlit("b");
    reveal_strlit("n");
    reveal_strlit("o");
    reveal_strlit("h");
    reveal_strlit("i");
    reveal_strlit("j");
    reveal_strlit("k");
    reveal_strlit("l");
    reveal_strlit("time");
    reveal_strlit("message");
    reveal_strlit("room");
    reveal_strlit("roomId");
    reveal_strlit("authorCallsign");
    reveal_strlit("location");
    reveal_strlit("authorUid");
    reveal_strlit("authorType");
    reveal_strlit("contentType");
    reveal_strlit("mime");
    reveal_strlit("isFile");
    reveal_strlit("isRemoved");
    reveal_strlit("timeMillis");
    reveal_strlit("file");
    reveal_strlit("itemId");
    reveal_strlit("sz");
    assert("_id"@.len() == 3 && "_id"@[0] == '_');
    assert("a"@.len() == 1 && "a"@[0] == 'a');
    assert("d"@.len() == 1 && "d"@[0] == 'd');
    assert("_c"@.len() == 2 && "_c"@[0] == '_');
    assert("_r"@.len() == 2 && "_r"@[0] == '_');
    assert("_v"@.len() == 2 && "_v"@[0] == '_');
    assert("e"@.len() == 1 && "e"@[0] == 'e');
    assert("g"@.len() == 1 && "g"@[0] == 'g');
    assert("p"@.len() == 1 && "p"@[0] == 'p');
    assert("q"@.len() == 1 && "q"@[0] == 'q');
    assert("s"@.len() == 1 && "s"@[0] == 's');
    assert("t"@.len() == 1 && "t"@[0] == 't');
    assert("u"@.len() == 1 && "u"@[0] == 'u');
    assert("v"@.len() == 1 && "v"@[0] == 'v');
    assert("w"@.len() == 1 && "w"@[0] == 'w');
    assert("b"@.len() == 1 && "b"@[0] == 'b');
    assert("n"@.len() == 1 && "n"@[0] == 'n');
    assert("o"@.len() == 1 && "o"@[0] == 'o');
    assert("h"@.len() == 1 && "h"@[0] == 'h');
    assert("i"@.len() == 1 && "i"@[0] == 'i');
    assert("j"@.len() == 1 && "j"@[0] == 'j');
    assert("k"@.len() == 1 && "k"@[0] == 'k');
    assert("l"@.len() == 1 && "l"@[0] == 'l');
    assert("time"@.len() == 4 && "time"@[0] == 't');
    assert("message"@.len() == 7 && "message"@[0] == 'm');
    assert("room"@.len() == 4 && "room"@[0] == 'r');
    assert("roomId"@.len() == 6 && "roomId"@[0] == 'r');
    assert("authorCallsign"@.len() == 14 && "authorCallsign"@[0] == 'a');
    assert("location"@.len() == 8 && "location"@[0] == 'l');
    assert("authorUid"@.len() == 9 && "authorUid"@[0] == 'a');
    assert("authorType"@.len() == 10 && "authorType"@[0] == 'a');
    assert("contentType"@.len() == 11 && "contentType"@[0] == 'c');
    assert("mime"@.len() == 4 && "mime"@[0] == 'm');
    assert("isFile"@.len() == 6 && "isFile"@[0] == 'i');
    assert("isRemoved"@.len() == 9 && "isRemoved"@[0] == 'i');
    assert("timeMillis"@.len() == 10 && "timeMillis"@[0] == 't');
    assert("file"@.len() == 4 && "file"@[0] == 'f');
    assert("itemId"@.len() == 6 && "itemId"@[0] == 'i');
    assert("sz"@.len() == 2 && "sz"@[0] == 's');
    assert("_c"@[1] == 'c' && "_r"@[1] == 'r' && "_v"@[1] == 'v' && "_id"@[1] == 'i');
    assert("time"@[1] == 'i' && "timeMillis"@.len() == 10 && "room"@[1] == 'o' && "roomId"@.len() == 6);
    assert("authorCallsign"@[6] == 'C' && "authorUid"@[6] == 'U' && "authorType"@[6] == 'T');
    assert("isFile"@[2] == 'F' && "isRemoved"@[2] == 'R' && "itemId"@[1] == 't' && "file"@[1] == 'i');
    assert("mime"@[1] == 'i' && "message"@[1] == 'e' && "location"@[1] == 'o' && "contentType"@[1] == 'o');
}

/// What the fields of an emergency document hold under the keys that the
/// readers read.
pub proof fn lemma_emergency_field_values(e: EventFields, peer: Seq<char>)
    ensures
        emergency_fields(e, peer).contains_key("_id"@) && emergency_fields(e, peer)["_id"@] == text_v(e.uid@),
        emergency_fields(e, peer).contains_key("g"@) && emergency_fields(e, peer)["g"@] == text_v(e.version@),
        emergency_fields(e, peer).contains_key("w"@) && emergency_fields(e, peer)["w"@] == text_v(e.event_type@),
        emergency_fields(e, peer).contains_key("p"@) && emergency_fields(e, peer)["p"@] == text_v(e.how@),
        emergency_fields(e, peer).contains_key("h"@) && emergency_fields(e, peer)["h"@] == num(e.lat),
        emergency_fields(e, peer).contains_key("i"@) && emergency_fields(e, peer)["i"@] == num(e.lon),
        emergency_fields(e, peer).contains_key("j"@) && emergency_fields(e, peer)["j"@] == num(e.hae),
        emergency_fields(e, peer).contains_key("n"@) && emergency_fields(e, peer)["n"@] == num(e.start_micros),
        emergency_fields(e, peer).contains_key("o"@) && emergency_fields(e, peer)["o"@] == num(e.stale_micros),
{
    reveal_strlit("_id");
    reveal_strlit("a");
    reveal_strlit("d");
    reveal_strlit("_c");
    reveal_strlit("_r");
    reveal_strlit("_v");
    reveal_strlit("e");
    reveal_strlit("g");
    reveal_strlit("p");
    reveal_strlit("q");
    reveal_strlit("s");
    reveal_strlit("t");
    reveal_strlit("u");
    reveal_strlit("v");
    reveal_strlit("w");
    reveal_strlit("b");
    reveal_strlit("n");
    reveal_strlit("o");
    reveal_strlit("h");
    reveal_strlit("i");
    reveal_strlit("j");
    reveal_strlit("k");
    reveal_strlit("l");
    reveal_strlit("time");
    reveal_strlit("message");
    reveal_strlit("room");
    reveal_strlit("roomId");
    reveal_strlit("authorCallsign");
    reveal_strlit("location");
    reveal_strlit("authorUid");
    reveal_strlit("authorType");
    reveal_strlit("contentType");
    reveal_strlit("mime");
    reveal_strlit("isFile");
    reveal_strlit("isRemoved");
    reveal_strlit("timeMillis");
    reveal_strlit("file");
    reveal_strlit("itemId");
    reveal_strlit("sz");
    assert("_id"@.len() == 3 && "_id"@[0] == '_');
    assert("a"@.len() == 1 && "a"@[0] == 'a');
    assert("d"@.len() == 1 && "d"@[0] == 'd');
    assert("_c"@.len() == 2 && "_c"@[0] == '_');
    assert("_r"@.len() == 2 && "_r"@[0] == '_');
    assert("_v"@.len() == 2 && "_v"@[0] == '_');
    assert("e"@.len() == 1 && "e"@[0] == 'e');
    assert("g"@.len() == 1 && "g"@[0] == 'g');
    assert("p"@.len() == 1 && "p"@[0] == 'p');
    assert("q"@.len() == 1 && "q"@[0] == 'q');
    assert("s"@.len() == 1 && "s"@[0] == 's');
    assert("t"@.len() == 1 && "t"@[0] == 't');
    assert("u"@.len() == 1 && "u"@[0] == 'u');
    assert("v"@.len() == 1 && "v"@[0] == 'v');
    assert("w"@.len() == 1 && "w"@[0] == 'w');
    assert("b"@.len() == 1 && "b"@[0] == 'b');
    assert("n"@.len() == 1 && "n"@[0] == 'n');
    assert("o"@.len() == 1 && "o"@[0] == 'o');
    assert("h"@.len() == 1 && "h"@[0] == 'h');
    assert("i"@.len() == 1 && "i"@[0] == 'i');
    assert("j"@.len() == 1 && "j"@[0] == 'j');
    assert("k"@.len() == 1 && "k"@[0] == 'k');
    assert("l"@.len() == 1 && "l"@[0] == 'l');
    assert("time"@.len() == 4 && "time"@[0] == 't');
    assert("message"@.len() == 7 && "message"@[0] == 'm');
    assert("room"@.len() == 4 && "room"@[0] == 'r');
    assert("roomId"@.len() == 6 && "roomId"@[0] == 'r');
    assert("authorCallsign"@.len() == 14 && "authorCallsign"@[0] == 'a');
    assert("location"@.len() == 8 && "location"@[0] == 'l');
    assert("authorUid"@.len() == 9 && "authorUid"@[0] == 'a');
    assert("authorType"@.len() == 10 && "authorType"@[0] == 'a');
    assert("contentType"@.len() == 11 && "contentType"@[0] == 'c');
    assert("mime"@.len() == 4 && "mime"@[0] == 'm');
    assert("isFile"@.len() == 6 && "isFile"@[0] == 'i');
    assert("isRemoved"@.len() == 9 && "isRemoved"@[0] == 'i');
    assert("timeMillis"@.len() == 10 && "timeMillis"@[0] == 't');
    assert("file"@.len() == 4 && "file"@[0] == 'f');
    assert("itemId"@.len() == 6 && "itemId"@[0] == 'i');
    assert("sz"@.len() == 2 && "sz"@[0] == 's');
    assert("_c"@[1] == 'c' && "_r"@[1] == 'r' && "_v"@[1] == 'v' && "_id"@[1] == 'i');
    assert("time"@[1] == 'i' && "timeMillis"@.len() == 10 && "room"@[1] == 'o' && "roomId"@.len() == 6);
    assert("authorCallsign"@[6] == 'C' && "authorUid"@[6] == 'U' && "authorType"@[6] == 'T');
    assert("isFile"@[2] == 'F' && "isRemoved"@[2] == 'R' && "itemId"@[1] == 't' && "file"@[1] == 'i');
    assert("mime"@[1] == 'i' && "message"@[1] == 'e' && "location"@[1] == 'o' && "contentType"@[1] == 'o');
}

/// What the fields of a file document hold under the keys that the readers
/// read.
pub proof fn lemma_file_field_values(e: EventFields, peer: Seq<char>, size: Option<JsonV>)
    ensures
        file_fields(e, peer, size).contains_key("_id"@) && file_fields(e, peer, size)["_id"@] == text_v(e.uid@),
        file_fields(e, peer, size).contains_key("g"@) && file_fields(e, peer, size)["g"@] == text_v(e.version@),
        file_fields(e, peer, size).contains_key("w"@) && file_fields(e, peer, size)["w"@] == text_v(e.event_type@),
        file_fields(e, peer, size).contains_key("p"@) && file_fields(e, peer, size)["p"@] == text_v(e.how@),
        file_fields(e, peer, size).contains_key("b"@) && file_fields(e, peer, size)["b"@] == num(e.ce),
        file_fields(e, peer, size).contains_key("h"@) && file_fields(e, peer, size)["h"@] == num(e.lat),
        file_fields(e, peer, size).contains_key("i"@) && file_fields(e, peer, size)["i"@] == num(e.lon),
        file_fields(e, peer, size).contains_key("j"@) && file_fields(e, peer, size)["j"@] == num(e.hae),
        file_fields(e, peer, size).contains_key("k"@) && file_fields(e, peer, size)["k"@] == num(e.le),
        file_fields(e, peer, size).contains_key("o"@) && file_fields(e, peer, size)["o"@] == num(e.stale_micros),
{
    reveal_strlit("_id");
    reveal_strlit("a");
    reveal_strlit("d");
    reveal_strlit("_c");
    reveal_strlit("_r");
    reveal_strlit("_v");
    reveal_strlit("e");
    reveal_strlit("g");
    reveal_strlit("p");
    reveal_strlit("q");
    reveal_strlit("s");
    reveal_strlit("t");
    reveal_strlit("u");
    reveal_strlit("v");
    reveal_strlit("w");
    reveal_strlit("b");
    reveal_strlit("n");
    reveal_strlit("o");
    reveal_strlit("h");
    reveal_strlit("i");
    reveal_strlit("j");
    reveal_strlit("k");
    reveal_strlit("l");
    reveal_strlit("time");
    reveal_strlit("message");
    reveal_strlit("room");
    reveal_strlit("roomId");
    reveal_strlit("authorCallsign");
    reveal_strlit("location");
    reveal_strlit("authorUid");
    reveal_strlit("authorType");
    reveal_strlit("contentType");
    reveal_strlit("mime");
    reveal_strlit("isFile");
    reveal_strlit("isRemoved");
    reveal_strlit("timeMillis");
    reveal_strlit("file");
    reveal_strlit("itemId");
    reveal_strlit("sz");
    assert("_id"@.len() == 3 && "_id"@[0] == '_');
    assert("a"@.len() == 1 && "a"@[0] == 'a');
    assert("d"@.len() == 1 && "d"@[0] == 'd');
    assert("_c"@.len() == 2 && "_c"@[0] == '_');
    assert("_r"@.len() == 2 && "_r"@[0] == '_');
    assert("_v"@.len() == 2 && "_v"@[0] == '_');
    assert("e"@.len() == 1 && "e"@[0] == 'e');
    assert("g"@.len() == 1 && "g"@[0] == 'g');
    assert("p"@.len() == 1 && "p"@[0] == 'p');
    assert("q"@.len() == 1 && "q"@[0] == 'q');
    assert("s"@.len() == 1 && "s"@[0] == 's');
    assert("t"@.len() == 1 && "t"@[0] == 't');
    assert("u"@.len() == 1 && "u"@[0] == 'u');
    assert("v"@.len() == 1 && "v"@[0] == 'v');
    assert("w"@.len() == 1 && "w"@[0] == 'w');
    assert("b"@.len() == 1 && "b"@[0] == 'b');
    assert("n"@.len() == 1 && "n"@[0] == 'n');
    assert("o"@.len() == 1 && "o"@[0] == 'o');
    assert("h"@.len() == 1 && "h"@[0] == 'h');
    assert("i"@.len() == 1 && "i"@[0] == 'i');
    assert("j"@.len() == 1 && "j"@[0] == 'j');
    assert("k"@.len() == 1 && "k"@[0] == 'k');
    assert("l"@.len() == 1 && "l"@[0] == 'l');
    assert("time"@.len() == 4 && "time"@[0] == 't');
    assert("message"@.len() == 7 && "message"@[0] == 'm');
    assert("room"@.len() == 4 && "room"@[0] == 'r');
    assert("roomId"@.len() == 6 && "roomId"@[0] == 'r');
    assert("authorCallsign"@.len() == 14 && "authorCallsign"@[0] == 'a');
    assert("location"@.len() == 8 && "location"@[0] == 'l');
    assert("authorUid"@.len() == 9 && "authorUid"@[0] == 'a');
    assert("authorType"@.len() == 10 && "authorType"@[0] == 'a');
    assert("contentType"@.len() == 11 && "contentType"@[0] == 'c');
    assert("mime"@.len() == 4 && "mime"@[0] == 'm');
    assert("isFile"@.len() == 6 && "isFile"@[0] == 'i');
    assert("isRemoved"@.len() == 9 && "isRemoved"@[0] == 'i');
    assert("timeMillis"@.len() == 10 && "timeMillis"@[0] == 't');
    assert("file"@.len() == 4 && "file"@[0] == 'f');
    assert("itemId"@.len() == 6 && "itemId"@[0] == 'i');
    assert("sz"@.len() == 2 && "sz"@[0] == 's');
    assert("_c"@[1] == 'c' && "_r"@[1] == 'r' && "_v"@[1] == 'v' && "_id"@[1] == 'i');
    assert("time"@[1] == 'i' && "timeMillis"@.len() == 10 && "room"@[1] == 'o' && "roomId"@.len() == 6);
    assert("authorCallsign"@[6] == 'C' && "authorUid"@[6] == 'U' && "authorType"@[6] == 'T');
    assert("isFile"@[2] == 'F' && "isRemoved"@[2] == 'R' && "itemId"@[1] == 't' && "file"@[1] == 'i');
    assert("mime"@[1] == 'i' && "message"@[1] == 'e' && "location"@[1] == 'o' && "contentType"@[1] == 'o');
}

/// The flattened document that an event of kind `k` becomes.
pub open spec fn document_for(
    doc: Map<Seq<char>, JsonV>,
    e: EventFields,
    peer: Seq<char>,
    size: Option<JsonV>,
    k: DocKind,
) -> bool {
    match k {
        DocKind::Api => flattened_with(doc, emergency_fields(e, peer), event_detail(e)),
        DocKind::Chat => match chat_message_of(e) {
            Some(msg) => flattened_with(doc, chat_fields(e, peer, msg), event_detail(e)),
            None => flattened_with(doc, generic_fields(e, peer), detail_with_metadata(e)),
        },
        DocKind::MapItem => flattened_with(doc, location_fields(e, peer), event_detail(e)),
        DocKind::File => flattened_with(doc, file_fields(e, peer, size), detail_with_metadata(e)),
        DocKind::Generic => flattened_with(doc, generic_fields(e, peer), detail_with_metadata(e)),
    }
}

/// The kind of document an event becomes: its kind by type, except that a
/// chat without a message becomes a generic document.
pub open spec fn document_kind(e: EventFields) -> DocKind {
    let k = event_kind(e.event_type@);
    if k == DocKind::Chat && chat_message_of(e) is None {
        DocKind::Generic
    } else {
        k
    }
}

/// The flattened Ditto document of a CoT event, by the kind that its type
/// chooses (a chat without a message becomes a generic document). `size`
/// is the number read from the file size (see `file_size_source`), used
/// for file documents.
pub fn cot_to_flattened_document(event: &EventFields, peer_key: &str, size: Option<JsonNumber>) -> (r: JsonMap)
    ensures
        document_for(
            r@,
            *event,
            peer_key@,
            match size {
                Some(n) => Some(num(n)),
                None => None,
            },
            event_kind(event.event_type@),
        ),
{
    match kind_for_event_type(event.event_type.as_str()) {
        DocKind::Api => transform_emergency_event_flattened(event, peer_key),
        DocKind::Chat => match transform_chat_event_flattened(event, peer_key) {
            Some(d) => d,
            None => transform_generic_event_flattened(event, peer_key),
        },
        DocKind::MapItem => transform_location_event_flattened(event, peer_key),
        DocKind::File => transform_file_event_flattened(event, peer_key, size),
        DocKind::Generic => transform_generic_event_flattened(event, peer_key),
    }
}

/// The Ditto document of a CoT event: of the kind that its type chooses
/// (a chat without a message becomes a generic document), holding the
/// event's flattened document.
pub fn cot_to_document(event: &EventFields, peer_key: &str, size: Option<JsonNumber>) -> (r: CotDocument)
    ensures
        kind_of(r) == document_kind(*event),
        document_for(
            fields_of(r),
            *event,
            peer_key@,
            match size {
                Some(n) => Some(num(n)),
                None => None,
            },
            event_kind(event.event_type@),
        ),
{
    let kind = kind_for_event_type(event.event_type.as_str());
    match kind {
        DocKind::Chat => match transform_chat_event_flattened(event, peer_key) {
            Some(d) => CotDocument::Chat(d),
            None => CotDocument::Generic(transform_generic_event_flattened(event, peer_key)),
        },
        _ => CotDocument::of_kind(kind, cot_to_flattened_document(event, peer_key, size)),
    }
}

} // verus!

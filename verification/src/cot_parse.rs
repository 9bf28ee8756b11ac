//! Reading CoT XML: the attributes of the `<event>` and `<point>` elements
//! and the detail section, as texts. Times and coordinates are handed out
//! as the texts they are written with, in the order they are read, for a
//! caller to convert.
use vstd::prelude::*;
use vstd::string::StringSliceAdditionalSpecFns;
use crate::detail::{detail_section, parse_detail_section};
use crate::json::{JsonMap, JsonV};
use crate::text::{str_eq, string_of};
use crate::xml::{
    CursorV, EventKind, RawAttr, RawAttrV, XmlCursor, XmlEvent, XmlEventV, bytes_eq, copy_prefix, cursor_measure,
    cursor_start, cursor_step, event_name, lemma_step_measure, lossy_text, raw_attributes, unescape_bytes,
    utf8_lossy_spec, xml_attributes_spec, xml_unescape_spec,
};

verus! {

/// The bytes of `event`.
pub open spec fn event_bytes() -> Seq<u8> {
    seq![101u8, 118u8, 101u8, 110u8, 116u8]
}

/// The bytes of `detail`.
pub open spec fn detail_bytes() -> Seq<u8> {
    seq![100u8, 101u8, 116u8, 97u8, 105u8, 108u8]
}

/// The bytes of `point`.
pub open spec fn point_bytes() -> Seq<u8> {
    seq![112u8, 111u8, 105u8, 110u8, 116u8]
}

/// The bytes of `event`.
fn event_name_bytes() -> (r: Vec<u8>)
    ensures
        r@ == event_bytes(),
{
    let r: Vec<u8> = vec![101u8, 118u8, 101u8, 110u8, 116u8];
    assert(r@ =~= event_bytes());
    r
}

/// The bytes of `detail`.
fn detail_name_bytes() -> (r: Vec<u8>)
    ensures
        r@ == detail_bytes(),
{
    let r: Vec<u8> = vec![100u8, 101u8, 116u8, 97u8, 105u8, 108u8];
    assert(r@ =~= detail_bytes());
    r
}

/// The bytes of `point`.
fn point_name_bytes() -> (r: Vec<u8>)
    ensures
        r@ == point_bytes(),
{
    let r: Vec<u8> = vec![112u8, 111u8, 105u8, 110u8, 116u8];
    assert(r@ =~= point_bytes());
    r
}

/// The unescaped value of an attribute; empty where unescaping fails.
pub open spec fn attr_value(a: RawAttrV) -> Seq<char> {
    match xml_unescape_spec(a.value).0 {
        Some(t) => t,
        None => Seq::empty(),
    }
}

/// What a flattening read of CoT XML finds: the event's texts, its
/// coordinates (`lat`, `lon`, `hae`, `ce`, `le` attributes of `<event>`, as
/// field name and text, in the order read) and the members of its detail
/// section.
pub struct CotScan {
    pub uid: String,
    pub type_: String,
    pub time: String,
    pub start: String,
    pub stale: String,
    pub how: String,
    pub numbers: Vec<(String, String)>,
    pub detail_extra: JsonMap,
}

/// The view of a flattening read.
pub struct CotScanV {
    pub uid: Seq<char>,
    pub type_: Seq<char>,
    pub time: Seq<char>,
    pub start: Seq<char>,
    pub stale: Seq<char>,
    pub how: Seq<char>,
    pub numbers: Seq<(Seq<char>, Seq<char>)>,
    pub detail: Map<Seq<char>, JsonV>,
}

impl View for CotScan {
    type V = CotScanV;

    open spec fn view(&self) -> CotScanV {
        CotScanV {
            uid: self.uid@,
            type_: self.type_@,
            time: self.time@,
            start: self.start@,
            stale: self.stale@,
            how: self.how@,
            numbers: self.numbers@.map_values(|p: (String, String)| (p.0@, p.1@)),
            detail: self.detail_extra@,
        }
    }
}

/// Whether a key names a coordinate.
pub open spec fn is_coordinate(k: Seq<char>) -> bool {
    k == "lat"@ || k == "lon"@ || k == "hae"@ || k == "ce"@ || k == "le"@
}

/// One attribute of `<event>`: `uid`, `type`, `time`, `start`, `stale` and
/// `how` set the texts, a coordinate is added to the numbers; malformed and
/// other attributes are skipped.
pub open spec fn scan_attr(s: CotScanV, a: RawAttrV) -> CotScanV {
    if a.error is Some {
        s
    } else {
        let k = utf8_lossy_spec(a.key);
        let v = attr_value(a);
        if k == "uid"@ {
            CotScanV { uid: v, ..s }
        } else if k == "type"@ {
            CotScanV { type_: v, ..s }
        } else if k == "time"@ {
            CotScanV { time: v, ..s }
        } else if k == "start"@ {
            CotScanV { start: v, ..s }
        } else if k == "stale"@ {
            CotScanV { stale: v, ..s }
        } else if k == "how"@ {
            CotScanV { how: v, ..s }
        } else if is_coordinate(k) {
            CotScanV { numbers: s.numbers.push((k, v)), ..s }
        } else {
            s
        }
    }
}

/// The attributes of `<event>`, in order.
pub open spec fn scan_attrs(s: CotScanV, a: Seq<RawAttrV>) -> CotScanV
    decreases a.len(),
{
    if a.len() == 0 {
        s
    } else {
        scan_attr(scan_attrs(s, a.drop_last()), a.last())
    }
}

/// The text of a flattened read named by an attribute name: `uid`, `type`,
/// `time`, `start`, `stale` or `how`; empty for any other name.
pub open spec fn text_named(r: CotScanV, name: Seq<char>) -> Seq<char> {
    if name == seq!['u', 'i', 'd'] {
        r.uid
    } else if name == seq!['t', 'y', 'p', 'e'] {
        r.type_
    } else if name == seq!['t', 'i', 'm', 'e'] {
        r.time
    } else if name == seq!['s', 't', 'a', 'r', 't'] {
        r.start
    } else if name == seq!['s', 't', 'a', 'l', 'e'] {
        r.stale
    } else if name == seq!['h', 'o', 'w'] {
        r.how
    } else {
        Seq::empty()
    }
}

/// The names of the texts that the attributes of `<event>` give.
pub open spec fn is_text_name(name: Seq<char>) -> bool {
    ||| name == seq!['u', 'i', 'd']
    ||| name == seq!['t', 'y', 'p', 'e']
    ||| name == seq!['t', 'i', 'm', 'e']
    ||| name == seq!['s', 't', 'a', 'r', 't']
    ||| name == seq!['s', 't', 'a', 'l', 'e']
    ||| name == seq!['h', 'o', 'w']
}

/// A well-formed attribute whose name is `name`.
pub open spec fn names(a: RawAttrV, name: Seq<char>) -> bool {
    a.error is None && utf8_lossy_spec(a.key) == name
}

/// An attribute that is not named `name` leaves the text `name` as it was.
proof fn lemma_scan_attr_other(r: CotScanV, a: RawAttrV, name: Seq<char>)
    requires
        is_text_name(name),
        !names(a, name),
    ensures
        text_named(scan_attr(r, a), name) == text_named(r, name),
{
    reveal_strlit("uid");
    reveal_strlit("type");
    reveal_strlit("time");
    reveal_strlit("start");
    reveal_strlit("stale");
    reveal_strlit("how");
    assert("uid"@ =~= seq!['u', 'i', 'd']);
    assert("type"@ =~= seq!['t', 'y', 'p', 'e']);
    assert("time"@ =~= seq!['t', 'i', 'm', 'e']);
    assert("start"@ =~= seq!['s', 't', 'a', 'r', 't']);
    assert("stale"@ =~= seq!['s', 't', 'a', 'l', 'e']);
    assert("how"@ =~= seq!['h', 'o', 'w']);
    assert(seq!['t', 'i', 'm', 'e'] != seq!['t', 'y', 'p', 'e']) by {
        assert(seq!['t', 'i', 'm', 'e'][1] != seq!['t', 'y', 'p', 'e'][1]);
    }
    assert(seq!['s', 't', 'a', 'r', 't'] != seq!['s', 't', 'a', 'l', 'e']) by {
        assert(seq!['s', 't', 'a', 'r', 't'][3] != seq!['s', 't', 'a', 'l', 'e'][3]);
    }
}

/// A well-formed attribute named `name` sets the text `name` to its
/// unescaped value.
proof fn lemma_scan_attr_named(r: CotScanV, a: RawAttrV, name: Seq<char>)
    requires
        is_text_name(name),
        names(a, name),
    ensures
        text_named(scan_attr(r, a), name) == attr_value(a),
{
    reveal_strlit("uid");
    reveal_strlit("type");
    reveal_strlit("time");
    reveal_strlit("start");
    reveal_strlit("stale");
    reveal_strlit("how");
    assert("uid"@ =~= seq!['u', 'i', 'd']);
    assert("type"@ =~= seq!['t', 'y', 'p', 'e']);
    assert("time"@ =~= seq!['t', 'i', 'm', 'e']);
    assert("start"@ =~= seq!['s', 't', 'a', 'r', 't']);
    assert("stale"@ =~= seq!['s', 't', 'a', 'l', 'e']);
    assert("how"@ =~= seq!['h', 'o', 'w']);
    assert(seq!['t', 'i', 'm', 'e'] != seq!['t', 'y', 'p', 'e']) by {
        assert(seq!['t', 'i', 'm', 'e'][1] != seq!['t', 'y', 'p', 'e'][1]);
    }
    assert(seq!['s', 't', 'a', 'r', 't'] != seq!['s', 't', 'a', 'l', 'e']) by {
        assert(seq!['s', 't', 'a', 'r', 't'][3] != seq!['s', 't', 'a', 'l', 'e'][3]);
    }
}

/// Reading the attributes of `<event>`, each of the texts `uid`, `type`,
/// `time`, `start`, `stale` and `how` ends as the unescaped value of the
/// last well-formed attribute of that name; where there is none, it keeps
/// the text it had.
pub proof fn lemma_scan_attrs_text(r: CotScanV, a: Seq<RawAttrV>, name: Seq<char>)
    requires
        is_text_name(name),
    ensures
        (exists|p: int| 0 <= p < a.len() && names(a[p], name)) ==> ({
            let p = choose|p: int|
                0 <= p < a.len() && names(a[p], name) && forall|q: int| p < q < a.len() ==> !names(#[trigger] a[q], name);
            &&& 0 <= p < a.len()
            &&& names(a[p], name)
            &&& forall|q: int| p < q < a.len() ==> !names(#[trigger] a[q], name)
            &&& text_named(scan_attrs(r, a), name) == attr_value(a[p])
        }),
        (forall|q: int| 0 <= q < a.len() ==> !names(#[trigger] a[q], name)) ==> text_named(scan_attrs(r, a), name)
            == text_named(r, name),
    decreases a.len(),
{
    if a.len() > 0 {
        let init = a.drop_last();
        lemma_scan_attrs_text(r, init, name);
        let last = a.len() - 1;
        assert(forall|q: int| 0 <= q < init.len() ==> init[q] == a[q]);
        if names(a[last], name) {
            lemma_scan_attr_named(scan_attrs(r, init), a.last(), name);
            assert(0 <= last < a.len() && names(a[last], name) && forall|q: int|
                last < q < a.len() ==> !names(#[trigger] a[q], name));
        } else {
            lemma_scan_attr_other(scan_attrs(r, init), a.last(), name);
            if exists|p: int| 0 <= p < a.len() && names(a[p], name) {
                let w = choose|p: int| 0 <= p < a.len() && names(a[p], name);
                assert(w < last);
                assert(0 <= w < init.len() && names(init[w], name));
                let p = choose|p: int|
                    0 <= p < init.len() && names(init[p], name) && forall|q: int|
                        p < q < init.len() ==> !names(#[trigger] init[q], name);
                assert(0 <= p < a.len() && names(a[p], name) && forall|q: int|
                    p < q < a.len() ==> !names(#[trigger] a[q], name)) by {
                    assert forall|q: int| p < q < a.len() implies !names(#[trigger] a[q], name) by {
                        if q < last {
                            assert(init[q] == a[q]);
                        }
                    }
                }
                let p2 = choose|p: int|
                    0 <= p < a.len() && names(a[p], name) && forall|q: int| p < q < a.len() ==> !names(#[trigger] a[q], name);
                // The last attribute of that name is unique.
                if p2 != p {
                    if p2 < p {
                        assert(!names(a[p], name));
                    } else {
                        assert(!names(a[p2], name));
                    }
                }
            } else {
                assert forall|q: int| 0 <= q < init.len() implies !names(#[trigger] init[q], name) by {
                    assert(init[q] == a[q]);
                }
            }
        }
    }
}

/// The coordinate names: `lat`, `lon`, `hae`, `ce`, `le`.
pub open spec fn is_coordinate_name(name: Seq<char>) -> bool {
    ||| name == seq!['l', 'a', 't']
    ||| name == seq!['l', 'o', 'n']
    ||| name == seq!['h', 'a', 'e']
    ||| name == seq!['c', 'e']
    ||| name == seq!['l', 'e']
}

/// The well-formed coordinate attributes of a list, as name and unescaped
/// value, in order.
pub open spec fn coordinate_attrs(a: Seq<RawAttrV>) -> Seq<(Seq<char>, Seq<char>)>
    decreases a.len(),
{
    if a.len() == 0 {
        Seq::empty()
    } else {
        let rest = coordinate_attrs(a.drop_last());
        let x = a.last();
        if x.error is None && is_coordinate_name(utf8_lossy_spec(x.key)) {
            rest.push((utf8_lossy_spec(x.key), attr_value(x)))
        } else {
            rest
        }
    }
}

/// Reading the attributes of `<event>` adds exactly its well-formed
/// coordinate attributes to the numbers, each as its name and unescaped
/// value, in the order written.
pub proof fn lemma_scan_attrs_numbers(r: CotScanV, a: Seq<RawAttrV>)
    ensures
        scan_attrs(r, a).numbers == r.numbers + coordinate_attrs(a),
    decreases a.len(),
{
    if a.len() > 0 {
        lemma_scan_attrs_numbers(r, a.drop_last());
        reveal_strlit("uid");
        reveal_strlit("type");
        reveal_strlit("time");
        reveal_strlit("start");
        reveal_strlit("stale");
        reveal_strlit("how");
        reveal_strlit("lat");
        reveal_strlit("lon");
        reveal_strlit("hae");
        reveal_strlit("ce");
        reveal_strlit("le");
        assert("lat"@ =~= seq!['l', 'a', 't']);
        assert("lon"@ =~= seq!['l', 'o', 'n']);
        assert("hae"@ =~= seq!['h', 'a', 'e']);
        assert("ce"@ =~= seq!['c', 'e']);
        assert("le"@ =~= seq!['l', 'e']);
        assert("uid"@.len() == 3 && "uid"@[0] == 'u');
        assert("type"@.len() == 4);
        assert("time"@.len() == 4);
        assert("start"@.len() == 5);
        assert("stale"@.len() == 5);
        assert("how"@.len() == 3 && "how"@[0] == 'h' && "how"@[1] == 'o');
        let k = utf8_lossy_spec(a.last().key);
        if k == "how"@ {
            assert(!is_coordinate_name(k)) by {
                assert(k[1] == 'o');
            }
        }
        assert((r.numbers + coordinate_attrs(a.drop_last())).push((k, attr_value(a.last()))) =~= r.numbers
            + coordinate_attrs(a.drop_last()).push((k, attr_value(a.last()))));
    }
}

/// The detail members of the text of a detail section, read from its
/// bytes.
pub open spec fn section_detail(section: Seq<u8>) -> Map<Seq<char>, JsonV> {
    detail_section(vstd::utf8::encode_utf8(utf8_lossy_spec(section)))
}

/// Where a flattening read stands: what it found, how deep inside a detail
/// section it is (0 outside), and where that section's start tag began.
pub struct CotScanState {
    pub found: CotScanV,
    pub depth: nat,
    pub from: nat,
}

/// After one event: go on, or stop with what was found.
pub enum CotScanStep {
    Go(CotScanState),
    Stop(CotScanV),
}

/// What one event does, `c1` being the cursor after it: outside a detail
/// section, an `<event>` start tag gives its attributes and a `<detail>`
/// start tag enters the section at its `<`; inside, start and end tags are
/// counted until the section's end tag, and the text of the whole section,
/// from its start tag to its end tag, gives the detail members. The end of
/// the input ends the read, the detail members then read from what there is
/// of the section.
pub open spec fn cot_scan_step(input: Seq<u8>, st: CotScanState, e: XmlEventV, c1: CursorV) -> CotScanStep {
    if st.depth > 0 {
        match e.kind {
            EventKind::Start => CotScanStep::Go(CotScanState { depth: st.depth + 1, ..st }),
            EventKind::End => if st.depth == 1 {
                CotScanStep::Go(
                    CotScanState {
                        found: CotScanV {
                            detail: section_detail(input.subrange(st.from as int, c1.pos as int)),
                            ..st.found
                        },
                        depth: 0,
                        ..st
                    },
                )
            } else {
                CotScanStep::Go(CotScanState { depth: (st.depth - 1) as nat, ..st })
            },
            EventKind::Eof => CotScanStep::Stop(
                CotScanV { detail: section_detail(input.subrange(st.from as int, c1.pos as int)), ..st.found },
            ),
            _ => CotScanStep::Go(st),
        }
    } else {
        match e.kind {
            EventKind::Start => if event_name(e) == event_bytes() {
                CotScanStep::Go(
                    CotScanState { found: scan_attrs(st.found, xml_attributes_spec(e.content, e.name_len)), ..st },
                )
            } else if event_name(e) == detail_bytes() {
                CotScanStep::Go(CotScanState { depth: 1, from: (c1.pos - e.content.len() - 2) as nat, ..st })
            } else {
                CotScanStep::Go(st)
            },
            EventKind::Eof => CotScanStep::Stop(st.found),
            _ => CotScanStep::Go(st),
        }
    }
}

/// What a flattening read from cursor `c` in state `st` finds.
pub open spec fn cot_scan_run(input: Seq<u8>, c: CursorV, st: CotScanState) -> CotScanV
    decreases cursor_measure(input, c),
{
    let (e, c1) = cursor_step(input, c);
    match cot_scan_step(input, st, e, c1) {
        CotScanStep::Go(st1) => if cursor_measure(input, c1) < cursor_measure(input, c) {
            cot_scan_run(input, c1, st1)
        } else {
            st1.found
        },
        CotScanStep::Stop(f) => f,
    }
}

/// What a flattening read of `input` finds.
pub open spec fn cot_scan(input: Seq<u8>) -> CotScanV {
    cot_scan_run(
        input,
        cursor_start(input),
        CotScanState {
            found: CotScanV {
                uid: Seq::empty(),
                type_: Seq::empty(),
                time: Seq::empty(),
                start: Seq::empty(),
                stale: Seq::empty(),
                how: Seq::empty(),
                numbers: Seq::empty(),
                detail: Map::empty(),
            },
            depth: 0,
            from: 0,
        },
    )
}

/// The unescaped value of an attribute.
fn attr_value_of(a: &RawAttr) -> (r: String)
    ensures
        r@ == attr_value(a@),
{
    let (t, _) = unescape_bytes(a.value.as_slice());
    match t {
        Some(t) => t,
        None => String::new(),
    }
}

/// Applies the attributes of an `<event>` start tag.
fn scan_event_attrs(s: &mut CotScan, e: &XmlEvent)
    requires
        e.name_len <= e.content@.len(),
    ensures
        final(s)@ == scan_attrs(old(s)@, xml_attributes_spec(e.content@, e.name_len as nat)),
{
    let raw = raw_attributes(e.content.as_slice(), e.name_len);
    let ghost a = xml_attributes_spec(e@.content, e@.name_len);
    let ghost s0 = s@;
    let mut i: usize = 0;
    while i < raw.len()
        invariant
            raw@.map_values(|x: RawAttr| x@) == a,
            i <= raw@.len(),
            s@ == scan_attrs(s0, a.subrange(0, i as int)),
        decreases raw@.len() - i,
    {
        proof {
            assert(a.subrange(0, i + 1).drop_last() =~= a.subrange(0, i as int));
            assert(a[i as int] == raw@[i as int]@);
        }
        let ghost before = s@;
        if raw[i].error.is_none() {
            let k = lossy_text(raw[i].key.as_slice());
            let v = attr_value_of(&raw[i]);
            if str_eq(k.as_str(), "uid") {
                s.uid = v;
            } else if str_eq(k.as_str(), "type") {
                s.type_ = v;
            } else if str_eq(k.as_str(), "time") {
                s.time = v;
            } else if str_eq(k.as_str(), "start") {
                s.start = v;
            } else if str_eq(k.as_str(), "stale") {
                s.stale = v;
            } else if str_eq(k.as_str(), "how") {
                s.how = v;
            } else if str_eq(k.as_str(), "lat") || str_eq(k.as_str(), "lon") || str_eq(k.as_str(), "hae") || str_eq(
                k.as_str(),
                "ce",
            ) || str_eq(k.as_str(), "le") {
                let ghost kv = k@;
                let ghost vv = v@;
                s.numbers.push((k, v));
                assert(s.numbers@.map_values(|p: (String, String)| (p.0@, p.1@)) =~= before.numbers.push((kv, vv)));
            }
        }
        assert(s@ == scan_attr(before, a[i as int]));
        i = i + 1;
    }
    assert(a.subrange(0, raw@.len() as int) =~= a);
}

/// The detail members of the text of a detail section.
fn detail_of_section(section: &[u8]) -> (r: JsonMap)
    ensures
        r@ == section_detail(section@),
{
    let text = lossy_text(section);
    parse_detail_section(text.as_str())
}

/// Reads CoT XML in flattened form: the texts of the `<event>` element's
/// attributes, its coordinate attributes in the order read, and the
/// members of the detail section (see `cot_scan_step`).
pub fn parse_cot(xml: &str) -> (r: CotScan)
    ensures
        r@ == cot_scan(xml.spec_bytes()),
{
    let input = xml.as_bytes();
    let ev_name = event_name_bytes();
    let det_name = detail_name_bytes();
    let mut cursor = XmlCursor::new(input);
    let mut found = CotScan {
        uid: String::new(),
        type_: String::new(),
        time: String::new(),
        start: String::new(),
        stale: String::new(),
        how: String::new(),
        numbers: Vec::new(),
        detail_extra: JsonMap::new(),
    };
    let mut depth: usize = 0;
    let mut from: usize = 0;
    let ghost target = cot_scan(input@);
    proof {
        assert(found@.numbers =~= Seq::<(Seq<char>, Seq<char>)>::empty());
    }
    loop
        invariant
            input@ == xml.spec_bytes(),
            input@.len() == input.len(),
            ev_name@ == event_bytes(),
            det_name@ == detail_bytes(),
            target == cot_scan(input@),
            cursor@.pos <= input@.len(),
            depth <= cursor@.pos,
            from <= cursor@.pos,
            cot_scan_run(input@, cursor@, CotScanState { found: found@, depth: depth as nat, from: from as nat })
                == target,
        decreases cursor_measure(input@, cursor@),
    {
        let ghost c0 = cursor@;
        let ghost st0 = CotScanState { found: found@, depth: depth as nat, from: from as nat };
        let e = cursor.next_event(input);
        let pos = cursor.position();
        proof {
            if cursor_measure(input@, c0) > 0 {
                lemma_step_measure(input@, c0);
            }
            assert(cursor_step(input@, c0) == (e@, cursor@));
        }
        if depth > 0 {
            match e.kind {
                EventKind::Start => {
                    assert(input@.len() == input.len());
                    depth = depth + 1;
                },
                EventKind::End => {
                    if depth == 1 {
                        let section = slice_copy(input, from, pos);
                        found.detail_extra = detail_of_section(section.as_slice());
                        depth = 0;
                    } else {
                        depth = depth - 1;
                    }
                },
                EventKind::Eof => {
                    let section = slice_copy(input, from, pos);
                    found.detail_extra = detail_of_section(section.as_slice());
                    assert(cot_scan_step(input@, st0, e@, cursor@) == CotScanStep::Stop(found@));
                    return found;
                },
                _ => {},
            }
        } else {
            match e.kind {
                EventKind::Start => {
                    let name = copy_prefix(e.content.as_slice(), e.name_len);
                    if bytes_eq(name.as_slice(), ev_name.as_slice()) {
                        scan_event_attrs(&mut found, &e);
                    } else if bytes_eq(name.as_slice(), det_name.as_slice()) {
                        depth = 1;
                        from = pos - e.content.len() - 2;
                    }
                },
                EventKind::Eof => {
                    assert(cot_scan_step(input@, st0, e@, cursor@) == CotScanStep::Stop(found@));
                    return found;
                },
                _ => {},
            }
        }
    }
}

/// What `String::from_utf8` gives of bytes: the text, or no text and the
/// text of the error.
pub uninterp spec fn utf8_strict_spec(bytes: Seq<u8>) -> (Option<Seq<char>>, Seq<char>);

/// `String::from_utf8`: the text of bytes that are valid UTF-8, or no text
/// and the `Display` text of the error. The contract names the result and
/// states what the documentation gives: there is a text exactly when the
/// bytes are valid UTF-8, and it is their decoding.
#[verifier::external_body]
fn utf8_text(bytes: &[u8]) -> (r: (Option<String>, String))
    ensures
        r.deep_view() == utf8_strict_spec(bytes@),
        r.0 is Some <==> vstd::utf8::valid_utf8(bytes@),
        r.0 matches Some(t) ==> t@ == vstd::utf8::decode_utf8(bytes@),
{
    match String::from_utf8(bytes.to_vec()) {
        Ok(t) => (Some(t), String::new()),
        Err(e) => (None, e.to_string()),
    }
}

/// What reading a CoT event's XML finds: the texts of its attributes, the
/// times and coordinates (field name and text, in the order read), the
/// text of its detail section, and the message of the error that stopped
/// the reading, if one did.
pub struct EventScan {
    pub version: String,
    pub uid: String,
    pub event_type: String,
    pub how: String,
    pub detail: String,
    pub fields: Vec<(String, String)>,
    pub error: Option<String>,
}

/// The view of an event read.
pub struct EventScanV {
    pub version: Seq<char>,
    pub uid: Seq<char>,
    pub event_type: Seq<char>,
    pub how: Seq<char>,
    pub detail: Seq<char>,
    pub fields: Seq<(Seq<char>, Seq<char>)>,
    pub error: Option<Seq<char>>,
}

impl View for EventScan {
    type V = EventScanV;

    open spec fn view(&self) -> EventScanV {
        EventScanV {
            version: self.version@,
            uid: self.uid@,
            event_type: self.event_type@,
            how: self.how@,
            detail: self.detail@,
            fields: self.fields@.map_values(|p: (String, String)| (p.0@, p.1@)),
            error: match self.error {
                Some(m) => Some(m@),
                None => None,
            },
        }
    }
}

/// Whether raw bytes spell `name`.
pub open spec fn key_is(k: Seq<u8>, name: &str) -> bool {
    k == name.spec_bytes()
}

/// One well-formed attribute with unescaped value `v`: of `<event>`,
/// `version`, `uid`, `type` and `how` set the texts and `time`, `start`,
/// `stale` are added to the fields; of `<point>`, the coordinates are added
/// to the fields.
pub open spec fn apply_key(s: EventScanV, k: Seq<u8>, v: Seq<char>, of_event: bool) -> EventScanV {
    if of_event {
        if key_is(k, "version") {
            EventScanV { version: v, ..s }
        } else if key_is(k, "uid") {
            EventScanV { uid: v, ..s }
        } else if key_is(k, "type") {
            EventScanV { event_type: v, ..s }
        } else if key_is(k, "how") {
            EventScanV { how: v, ..s }
        } else if key_is(k, "time") {
            EventScanV { fields: s.fields.push(("time"@, v)), ..s }
        } else if key_is(k, "start") {
            EventScanV { fields: s.fields.push(("start"@, v)), ..s }
        } else if key_is(k, "stale") {
            EventScanV { fields: s.fields.push(("stale"@, v)), ..s }
        } else {
            s
        }
    } else {
        if key_is(k, "lat") {
            EventScanV { fields: s.fields.push(("lat"@, v)), ..s }
        } else if key_is(k, "lon") {
            EventScanV { fields: s.fields.push(("lon"@, v)), ..s }
        } else if key_is(k, "hae") {
            EventScanV { fields: s.fields.push(("hae"@, v)), ..s }
        } else if key_is(k, "ce") {
            EventScanV { fields: s.fields.push(("ce"@, v)), ..s }
        } else if key_is(k, "le") {
            EventScanV { fields: s.fields.push(("le"@, v)), ..s }
        } else {
            s
        }
    }
}

/// One attribute: a malformed attribute or a value that cannot be
/// unescaped stops the reading with its error; else `apply_key`. The flag
/// tells whether the reading stopped.
pub open spec fn event_attr(s: EventScanV, a: RawAttrV, of_event: bool) -> (EventScanV, bool) {
    match a.error {
        Some(m) => (EventScanV { error: Some(m), ..s }, true),
        None => {
            let u = xml_unescape_spec(a.value);
            match u.0 {
                Some(v) => (apply_key(s, a.key, v, of_event), false),
                None => (EventScanV { error: Some(u.1), ..s }, true),
            }
        },
    }
}

/// The attributes of an element, in order, up to one that stops the
/// reading.
pub open spec fn event_attrs(s: EventScanV, a: Seq<RawAttrV>, of_event: bool) -> (EventScanV, bool)
    decreases a.len(),
{
    if a.len() == 0 {
        (s, false)
    } else {
        let p = event_attrs(s, a.drop_last(), of_event);
        if p.1 {
            p
        } else {
            event_attr(p.0, a.last(), of_event)
        }
    }
}

/// The names that the attributes of `<event>` and `<point>` are read by,
/// as characters and as their UTF-8 bytes.
proof fn lemma_name_bytes()
    ensures
        "version"@ == seq!['v', 'e', 'r', 's', 'i', 'o', 'n'] && "version".spec_bytes() == vstd::utf8::encode_utf8(seq!['v', 'e', 'r', 's', 'i', 'o', 'n']) && vstd::utf8::encode_utf8(seq!['v', 'e', 'r', 's', 'i', 'o', 'n']).len() == 7 && vstd::utf8::encode_utf8(seq!['v', 'e', 'r', 's', 'i', 'o', 'n'])[0] == 118u8 && vstd::utf8::encode_utf8(seq!['v', 'e', 'r', 's', 'i', 'o', 'n'])[1] == 101u8 && vstd::utf8::encode_utf8(seq!['v', 'e', 'r', 's', 'i', 'o', 'n'])[2] == 114u8 && vstd::utf8::encode_utf8(seq!['v', 'e', 'r', 's', 'i', 'o', 'n'])[3] == 115u8 && vstd::utf8::encode_utf8(seq!['v', 'e', 'r', 's', 'i', 'o', 'n'])[4] == 105u8 && vstd::utf8::encode_utf8(seq!['v', 'e', 'r', 's', 'i', 'o', 'n'])[5] == 111u8 && vstd::utf8::encode_utf8(seq!['v', 'e', 'r', 's', 'i', 'o', 'n'])[6] == 110u8,
        "uid"@ == seq!['u', 'i', 'd'] && "uid".spec_bytes() == vstd::utf8::encode_utf8(seq!['u', 'i', 'd']) && vstd::utf8::encode_utf8(seq!['u', 'i', 'd']).len() == 3 && vstd::utf8::encode_utf8(seq!['u', 'i', 'd'])[0] == 117u8 && vstd::utf8::encode_utf8(seq!['u', 'i', 'd'])[1] == 105u8 && vstd::utf8::encode_utf8(seq!['u', 'i', 'd'])[2] == 100u8,
        "type"@ == seq!['t', 'y', 'p', 'e'] && "type".spec_bytes() == vstd::utf8::encode_utf8(seq!['t', 'y', 'p', 'e']) && vstd::utf8::encode_utf8(seq!['t', 'y', 'p', 'e']).len() == 4 && vstd::utf8::encode_utf8(seq!['t', 'y', 'p', 'e'])[0] == 116u8 && vstd::utf8::encode_utf8(seq!['t', 'y', 'p', 'e'])[1] == 121u8 && vstd::utf8::encode_utf8(seq!['t', 'y', 'p', 'e'])[2] == 112u8 && vstd::utf8::encode_utf8(seq!['t', 'y', 'p', 'e'])[3] == 101u8,
        "how"@ == seq!['h', 'o', 'w'] && "how".spec_bytes() == vstd::utf8::encode_utf8(seq!['h', 'o', 'w']) && vstd::utf8::encode_utf8(seq!['h', 'o', 'w']).len() == 3 && vstd::utf8::encode_utf8(seq!['h', 'o', 'w'])[0] == 104u8 && vstd::utf8::encode_utf8(seq!['h', 'o', 'w'])[1] == 111u8 && vstd::utf8::encode_utf8(seq!['h', 'o', 'w'])[2] == 119u8,
        "time"@ == seq!['t', 'i', 'm', 'e'] && "time".spec_bytes() == vstd::utf8::encode_utf8(seq!['t', 'i', 'm', 'e']) && vstd::utf8::encode_utf8(seq!['t', 'i', 'm', 'e']).len() == 4 && vstd::utf8::encode_utf8(seq!['t', 'i', 'm', 'e'])[0] == 116u8 && vstd::utf8::encode_utf8(seq!['t', 'i', 'm', 'e'])[1] == 105u8 && vstd::utf8::encode_utf8(seq!['t', 'i', 'm', 'e'])[2] == 109u8 && vstd::utf8::encode_utf8(seq!['t', 'i', 'm', 'e'])[3] == 101u8,
        "start"@ == seq!['s', 't', 'a', 'r', 't'] && "start".spec_bytes() == vstd::utf8::encode_utf8(seq!['s', 't', 'a', 'r', 't']) && vstd::utf8::encode_utf8(seq!['s', 't', 'a', 'r', 't']).len() == 5 && vstd::utf8::encode_utf8(seq!['s', 't', 'a', 'r', 't'])[0] == 115u8 && vstd::utf8::encode_utf8(seq!['s', 't', 'a', 'r', 't'])[1] == 116u8 && vstd::utf8::encode_utf8(seq!['s', 't', 'a', 'r', 't'])[2] == 97u8 && vstd::utf8::encode_utf8(seq!['s', 't', 'a', 'r', 't'])[3] == 114u8 && vstd::utf8::encode_utf8(seq!['s', 't', 'a', 'r', 't'])[4] == 116u8,
        "stale"@ == seq!['s', 't', 'a', 'l', 'e'] && "stale".spec_bytes() == vstd::utf8::encode_utf8(seq!['s', 't', 'a', 'l', 'e']) && vstd::utf8::encode_utf8(seq!['s', 't', 'a', 'l', 'e']).len() == 5 && vstd::utf8::encode_utf8(seq!['s', 't', 'a', 'l', 'e'])[0] == 115u8 && vstd::utf8::encode_utf8(seq!['s', 't', 'a', 'l', 'e'])[1] == 116u8 && vstd::utf8::encode_utf8(seq!['s', 't', 'a', 'l', 'e'])[2] == 97u8 && vstd::utf8::encode_utf8(seq!['s', 't', 'a', 'l', 'e'])[3] == 108u8 && vstd::utf8::encode_utf8(seq!['s', 't', 'a', 'l', 'e'])[4] == 101u8,
        "lat"@ == seq!['l', 'a', 't'] && "lat".spec_bytes() == vstd::utf8::encode_utf8(seq!['l', 'a', 't']) && vstd::utf8::encode_utf8(seq!['l', 'a', 't']).len() == 3 && vstd::utf8::encode_utf8(seq!['l', 'a', 't'])[0] == 108u8 && vstd::utf8::encode_utf8(seq!['l', 'a', 't'])[1] == 97u8 && vstd::utf8::encode_utf8(seq!['l', 'a', 't'])[2] == 116u8,
        "lon"@ == seq!['l', 'o', 'n'] && "lon".spec_bytes() == vstd::utf8::encode_utf8(seq!['l', 'o', 'n']) && vstd::utf8::encode_utf8(seq!['l', 'o', 'n']).len() == 3 && vstd::utf8::encode_utf8(seq!['l', 'o', 'n'])[0] == 108u8 && vstd::utf8::encode_utf8(seq!['l', 'o', 'n'])[1] == 111u8 && vstd::utf8::encode_utf8(seq!['l', 'o', 'n'])[2] == 110u8,
        "hae"@ == seq!['h', 'a', 'e'] && "hae".spec_bytes() == vstd::utf8::encode_utf8(seq!['h', 'a', 'e']) && vstd::utf8::encode_utf8(seq!['h', 'a', 'e']).len() == 3 && vstd::utf8::encode_utf8(seq!['h', 'a', 'e'])[0] == 104u8 && vstd::utf8::encode_utf8(seq!['h', 'a', 'e'])[1] == 97u8 && vstd::utf8::encode_utf8(seq!['h', 'a', 'e'])[2] == 101u8,
        "ce"@ == seq!['c', 'e'] && "ce".spec_bytes() == vstd::utf8::encode_utf8(seq!['c', 'e']) && vstd::utf8::encode_utf8(seq!['c', 'e']).len() == 2 && vstd::utf8::encode_utf8(seq!['c', 'e'])[0] == 99u8 && vstd::utf8::encode_utf8(seq!['c', 'e'])[1] == 101u8,
        "le"@ == seq!['l', 'e'] && "le".spec_bytes() == vstd::utf8::encode_utf8(seq!['l', 'e']) && vstd::utf8::encode_utf8(seq!['l', 'e']).len() == 2 && vstd::utf8::encode_utf8(seq!['l', 'e'])[0] == 108u8 && vstd::utf8::encode_utf8(seq!['l', 'e'])[1] == 101u8,
{
    reveal_strlit("version");
    assert("version"@ =~= seq!['v', 'e', 'r', 's', 'i', 'o', 'n']);
    assert(vstd::utf8::is_ascii_chars(seq!['v', 'e', 'r', 's', 'i', 'o', 'n']));
    vstd::utf8::is_ascii_chars_encode_utf8(seq!['v', 'e', 'r', 's', 'i', 'o', 'n']);
    assert(seq!['v', 'e', 'r', 's', 'i', 'o', 'n'][0] as u8 == vstd::utf8::encode_utf8(seq!['v', 'e', 'r', 's', 'i', 'o', 'n'])[0]);
    assert(seq!['v', 'e', 'r', 's', 'i', 'o', 'n'][1] as u8 == vstd::utf8::encode_utf8(seq!['v', 'e', 'r', 's', 'i', 'o', 'n'])[1]);
    assert(seq!['v', 'e', 'r', 's', 'i', 'o', 'n'][2] as u8 == vstd::utf8::encode_utf8(seq!['v', 'e', 'r', 's', 'i', 'o', 'n'])[2]);
    assert(seq!['v', 'e', 'r', 's', 'i', 'o', 'n'][3] as u8 == vstd::utf8::encode_utf8(seq!['v', 'e', 'r', 's', 'i', 'o', 'n'])[3]);
    assert(seq!['v', 'e', 'r', 's', 'i', 'o', 'n'][4] as u8 == vstd::utf8::encode_utf8(seq!['v', 'e', 'r', 's', 'i', 'o', 'n'])[4]);
    assert(seq!['v', 'e', 'r', 's', 'i', 'o', 'n'][5] as u8 == vstd::utf8::encode_utf8(seq!['v', 'e', 'r', 's', 'i', 'o', 'n'])[5]);
    assert(seq!['v', 'e', 'r', 's', 'i', 'o', 'n'][6] as u8 == vstd::utf8::encode_utf8(seq!['v', 'e', 'r', 's', 'i', 'o', 'n'])[6]);
    reveal_strlit("uid");
    assert("uid"@ =~= seq!['u', 'i', 'd']);
    assert(vstd::utf8::is_ascii_chars(seq!['u', 'i', 'd']));
    vstd::utf8::is_ascii_chars_encode_utf8(seq!['u', 'i', 'd']);
    assert(seq!['u', 'i', 'd'][0] as u8 == vstd::utf8::encode_utf8(seq!['u', 'i', 'd'])[0]);
    assert(seq!['u', 'i', 'd'][1] as u8 == vstd::utf8::encode_utf8(seq!['u', 'i', 'd'])[1]);
    assert(seq!['u', 'i', 'd'][2] as u8 == vstd::utf8::encode_utf8(seq!['u', 'i', 'd'])[2]);
    reveal_strlit("type");
    assert("type"@ =~= seq!['t', 'y', 'p', 'e']);
    assert(vstd::utf8::is_ascii_chars(seq!['t', 'y', 'p', 'e']));
    vstd::utf8::is_ascii_chars_encode_utf8(seq!['t', 'y', 'p', 'e']);
    assert(seq!['t', 'y', 'p', 'e'][0] as u8 == vstd::utf8::encode_utf8(seq!['t', 'y', 'p', 'e'])[0]);
    assert(seq!['t', 'y', 'p', 'e'][1] as u8 == vstd::utf8::encode_utf8(seq!['t', 'y', 'p', 'e'])[1]);
    assert(seq!['t', 'y', 'p', 'e'][2] as u8 == vstd::utf8::encode_utf8(seq!['t', 'y', 'p', 'e'])[2]);
    assert(seq!['t', 'y', 'p', 'e'][3] as u8 == vstd::utf8::encode_utf8(seq!['t', 'y', 'p', 'e'])[3]);
    reveal_strlit("how");
    assert("how"@ =~= seq!['h', 'o', 'w']);
    assert(vstd::utf8::is_ascii_chars(seq!['h', 'o', 'w']));
    vstd::utf8::is_ascii_chars_encode_utf8(seq!['h', 'o', 'w']);
    assert(seq!['h', 'o', 'w'][0] as u8 == vstd::utf8::encode_utf8(seq!['h', 'o', 'w'])[0]);
    assert(seq!['h', 'o', 'w'][1] as u8 == vstd::utf8::encode_utf8(seq!['h', 'o', 'w'])[1]);
    assert(seq!['h', 'o', 'w'][2] as u8 == vstd::utf8::encode_utf8(seq!['h', 'o', 'w'])[2]);
    reveal_strlit("time");
    assert("time"@ =~= seq!['t', 'i', 'm', 'e']);
    assert(vstd::utf8::is_ascii_chars(seq!['t', 'i', 'm', 'e']));
    vstd::utf8::is_ascii_chars_encode_utf8(seq!['t', 'i', 'm', 'e']);
    assert(seq!['t', 'i', 'm', 'e'][0] as u8 == vstd::utf8::encode_utf8(seq!['t', 'i', 'm', 'e'])[0]);
    assert(seq!['t', 'i', 'm', 'e'][1] as u8 == vstd::utf8::encode_utf8(seq!['t', 'i', 'm', 'e'])[1]);
    assert(seq!['t', 'i', 'm', 'e'][2] as u8 == vstd::utf8::encode_utf8(seq!['t', 'i', 'm', 'e'])[2]);
    assert(seq!['t', 'i', 'm', 'e'][3] as u8 == vstd::utf8::encode_utf8(seq!['t', 'i', 'm', 'e'])[3]);
    reveal_strlit("start");
    assert("start"@ =~= seq!['s', 't', 'a', 'r', 't']);
    assert(vstd::utf8::is_ascii_chars(seq!['s', 't', 'a', 'r', 't']));
    vstd::utf8::is_ascii_chars_encode_utf8(seq!['s', 't', 'a', 'r', 't']);
    assert(seq!['s', 't', 'a', 'r', 't'][0] as u8 == vstd::utf8::encode_utf8(seq!['s', 't', 'a', 'r', 't'])[0]);
    assert(seq!['s', 't', 'a', 'r', 't'][1] as u8 == vstd::utf8::encode_utf8(seq!['s', 't', 'a', 'r', 't'])[1]);
    assert(seq!['s', 't', 'a', 'r', 't'][2] as u8 == vstd::utf8::encode_utf8(seq!['s', 't', 'a', 'r', 't'])[2]);
    assert(seq!['s', 't', 'a', 'r', 't'][3] as u8 == vstd::utf8::encode_utf8(seq!['s', 't', 'a', 'r', 't'])[3]);
    assert(seq!['s', 't', 'a', 'r', 't'][4] as u8 == vstd::utf8::encode_utf8(seq!['s', 't', 'a', 'r', 't'])[4]);
    reveal_strlit("stale");
    assert("stale"@ =~= seq!['s', 't', 'a', 'l', 'e']);
    assert(vstd::utf8::is_ascii_chars(seq!['s', 't', 'a', 'l', 'e']));
    vstd::utf8::is_ascii_chars_encode_utf8(seq!['s', 't', 'a', 'l', 'e']);
    assert(seq!['s', 't', 'a', 'l', 'e'][0] as u8 == vstd::utf8::encode_utf8(seq!['s', 't', 'a', 'l', 'e'])[0]);
    assert(seq!['s', 't', 'a', 'l', 'e'][1] as u8 == vstd::utf8::encode_utf8(seq!['s', 't', 'a', 'l', 'e'])[1]);
    assert(seq!['s', 't', 'a', 'l', 'e'][2] as u8 == vstd::utf8::encode_utf8(seq!['s', 't', 'a', 'l', 'e'])[2]);
    assert(seq!['s', 't', 'a', 'l', 'e'][3] as u8 == vstd::utf8::encode_utf8(seq!['s', 't', 'a', 'l', 'e'])[3]);
    assert(seq!['s', 't', 'a', 'l', 'e'][4] as u8 == vstd::utf8::encode_utf8(seq!['s', 't', 'a', 'l', 'e'])[4]);
    reveal_strlit("lat");
    assert("lat"@ =~= seq!['l', 'a', 't']);
    assert(vstd::utf8::is_ascii_chars(seq!['l', 'a', 't']));
    vstd::utf8::is_ascii_chars_encode_utf8(seq!['l', 'a', 't']);
    assert(seq!['l', 'a', 't'][0] as u8 == vstd::utf8::encode_utf8(seq!['l', 'a', 't'])[0]);
    assert(seq!['l', 'a', 't'][1] as u8 == vstd::utf8::encode_utf8(seq!['l', 'a', 't'])[1]);
    assert(seq!['l', 'a', 't'][2] as u8 == vstd::utf8::encode_utf8(seq!['l', 'a', 't'])[2]);
    reveal_strlit("lon");
    assert("lon"@ =~= seq!['l', 'o', 'n']);
    assert(vstd::utf8::is_ascii_chars(seq!['l', 'o', 'n']));
    vstd::utf8::is_ascii_chars_encode_utf8(seq!['l', 'o', 'n']);
    assert(seq!['l', 'o', 'n'][0] as u8 == vstd::utf8::encode_utf8(seq!['l', 'o', 'n'])[0]);
    assert(seq!['l', 'o', 'n'][1] as u8 == vstd::utf8::encode_utf8(seq!['l', 'o', 'n'])[1]);
    assert(seq!['l', 'o', 'n'][2] as u8 == vstd::utf8::encode_utf8(seq!['l', 'o', 'n'])[2]);
    reveal_strlit("hae");
    assert("hae"@ =~= seq!['h', 'a', 'e']);
    assert(vstd::utf8::is_ascii_chars(seq!['h', 'a', 'e']));
    vstd::utf8::is_ascii_chars_encode_utf8(seq!['h', 'a', 'e']);
    assert(seq!['h', 'a', 'e'][0] as u8 == vstd::utf8::encode_utf8(seq!['h', 'a', 'e'])[0]);
    assert(seq!['h', 'a', 'e'][1] as u8 == vstd::utf8::encode_utf8(seq!['h', 'a', 'e'])[1]);
    assert(seq!['h', 'a', 'e'][2] as u8 == vstd::utf8::encode_utf8(seq!['h', 'a', 'e'])[2]);
    reveal_strlit("ce");
    assert("ce"@ =~= seq!['c', 'e']);
    assert(vstd::utf8::is_ascii_chars(seq!['c', 'e']));
    vstd::utf8::is_ascii_chars_encode_utf8(seq!['c', 'e']);
    assert(seq!['c', 'e'][0] as u8 == vstd::utf8::encode_utf8(seq!['c', 'e'])[0]);
    assert(seq!['c', 'e'][1] as u8 == vstd::utf8::encode_utf8(seq!['c', 'e'])[1]);
    reveal_strlit("le");
    assert("le"@ =~= seq!['l', 'e']);
    assert(vstd::utf8::is_ascii_chars(seq!['l', 'e']));
    vstd::utf8::is_ascii_chars_encode_utf8(seq!['l', 'e']);
    assert(seq!['l', 'e'][0] as u8 == vstd::utf8::encode_utf8(seq!['l', 'e'])[0]);
    assert(seq!['l', 'e'][1] as u8 == vstd::utf8::encode_utf8(seq!['l', 'e'])[1]);
}

/// An attribute whose raw key is the UTF-8 encoding of `name`.
pub open spec fn keyed(a: RawAttrV, name: Seq<char>) -> bool {
    a.key == vstd::utf8::encode_utf8(name)
}

/// A well-formed attribute whose value unescapes.
pub open spec fn clean(a: RawAttrV) -> bool {
    a.error is None && xml_unescape_spec(a.value).0 is Some
}

/// The unescaped value of a clean attribute.
pub open spec fn unescaped(a: RawAttrV) -> Seq<char> {
    xml_unescape_spec(a.value).0->Some_0
}

/// The names of the texts that the attributes of `<event>` give to an
/// event read: `version`, `uid`, `type`, `how`.
pub open spec fn is_event_text_name(name: Seq<char>) -> bool {
    ||| name == seq!['v', 'e', 'r', 's', 'i', 'o', 'n']
    ||| name == seq!['u', 'i', 'd']
    ||| name == seq!['t', 'y', 'p', 'e']
    ||| name == seq!['h', 'o', 'w']
}

/// The text of an event read named by an attribute name.
pub open spec fn event_text_named(r: EventScanV, name: Seq<char>) -> Seq<char> {
    if name == seq!['v', 'e', 'r', 's', 'i', 'o', 'n'] {
        r.version
    } else if name == seq!['u', 'i', 'd'] {
        r.uid
    } else if name == seq!['t', 'y', 'p', 'e'] {
        r.event_type
    } else if name == seq!['h', 'o', 'w'] {
        r.how
    } else {
        Seq::empty()
    }
}

/// The field name that an attribute key gives: `time`, `start` or `stale`
/// for `<event>`, `lat`, `lon`, `hae`, `ce` or `le` for `<point>`, by the
/// key's bytes; none for other keys.
pub open spec fn field_name(k: Seq<u8>, of_event: bool) -> Option<Seq<char>> {
    if of_event {
        if k == vstd::utf8::encode_utf8(seq!['t', 'i', 'm', 'e']) {
            Some(seq!['t', 'i', 'm', 'e'])
        } else if k == vstd::utf8::encode_utf8(seq!['s', 't', 'a', 'r', 't']) {
            Some(seq!['s', 't', 'a', 'r', 't'])
        } else if k == vstd::utf8::encode_utf8(seq!['s', 't', 'a', 'l', 'e']) {
            Some(seq!['s', 't', 'a', 'l', 'e'])
        } else {
            None
        }
    } else {
        if k == vstd::utf8::encode_utf8(seq!['l', 'a', 't']) {
            Some(seq!['l', 'a', 't'])
        } else if k == vstd::utf8::encode_utf8(seq!['l', 'o', 'n']) {
            Some(seq!['l', 'o', 'n'])
        } else if k == vstd::utf8::encode_utf8(seq!['h', 'a', 'e']) {
            Some(seq!['h', 'a', 'e'])
        } else if k == vstd::utf8::encode_utf8(seq!['c', 'e']) {
            Some(seq!['c', 'e'])
        } else if k == vstd::utf8::encode_utf8(seq!['l', 'e']) {
            Some(seq!['l', 'e'])
        } else {
            None
        }
    }
}

/// The fields that clean attributes give, as name and unescaped value, in
/// order.
pub open spec fn field_attrs(a: Seq<RawAttrV>, of_event: bool) -> Seq<(Seq<char>, Seq<char>)>
    decreases a.len(),
{
    if a.len() == 0 {
        Seq::empty()
    } else {
        let rest = field_attrs(a.drop_last(), of_event);
        match field_name(a.last().key, of_event) {
            Some(n) => rest.push((n, unescaped(a.last()))),
            None => rest,
        }
    }
}

/// One clean attribute adds the field its key names, if any, and keeps the
/// error.
proof fn lemma_apply_key_fields(s: EventScanV, k: Seq<u8>, v: Seq<char>, of_event: bool)
    ensures
        apply_key(s, k, v, of_event).fields == match field_name(k, of_event) {
            Some(n) => s.fields.push((n, v)),
            None => s.fields,
        },
        apply_key(s, k, v, of_event).error == s.error,
{
    lemma_name_bytes();
}

/// One clean attribute sets the text its key names to its value, and keeps
/// the other texts.
proof fn lemma_apply_key_text(s: EventScanV, k: Seq<u8>, v: Seq<char>, of_event: bool, name: Seq<char>)
    requires
        is_event_text_name(name),
    ensures
        event_text_named(apply_key(s, k, v, of_event), name) == if of_event && k == vstd::utf8::encode_utf8(name) {
            v
        } else {
            event_text_named(s, name)
        },
{
    lemma_name_bytes();
}

/// Reading clean attributes never stops; it adds, in order, the fields
/// that their keys name (`time`, `start`, `stale` of `<event>`; `lat`,
/// `lon`, `hae`, `ce`, `le` of `<point>`), each with its unescaped value,
/// and keeps the error.
pub proof fn lemma_event_attrs_fields(s: EventScanV, a: Seq<RawAttrV>, of_event: bool)
    requires
        forall|q: int| 0 <= q < a.len() ==> clean(#[trigger] a[q]),
    ensures
        !event_attrs(s, a, of_event).1,
        event_attrs(s, a, of_event).0.fields == s.fields + field_attrs(a, of_event),
        event_attrs(s, a, of_event).0.error == s.error,
    decreases a.len(),
{
    if a.len() > 0 {
        let init = a.drop_last();
        assert forall|q: int| 0 <= q < init.len() implies clean(#[trigger] init[q]) by {
            assert(init[q] == a[q]);
        }
        lemma_event_attrs_fields(s, init, of_event);
        let x = a.last();
        assert(clean(a[a.len() - 1]));
        let r0 = event_attrs(s, init, of_event).0;
        lemma_apply_key_fields(r0, x.key, unescaped(x), of_event);
        match field_name(x.key, of_event) {
            Some(n) => {
                assert((s.fields + field_attrs(init, of_event)).push((n, unescaped(x))) =~= s.fields + field_attrs(
                    init,
                    of_event,
                ).push((n, unescaped(x))));
            },
            None => {},
        }
    }
}

/// Reading clean attributes of `<event>`, each of the texts `version`,
/// `uid`, `type` and `how` ends as the unescaped value of the last attribute
/// whose key is that name.
pub proof fn lemma_event_attrs_text(s: EventScanV, a: Seq<RawAttrV>, name: Seq<char>, p: int)
    requires
        forall|q: int| 0 <= q < a.len() ==> clean(#[trigger] a[q]),
        is_event_text_name(name),
        0 <= p < a.len(),
        keyed(a[p], name),
        forall|q: int| p < q < a.len() ==> !keyed(#[trigger] a[q], name),
    ensures
        event_text_named(event_attrs(s, a, true).0, name) == unescaped(a[p]),
    decreases a.len(),
{
    let init = a.drop_last();
    let last = a.len() - 1;
    assert forall|q: int| 0 <= q < init.len() implies clean(#[trigger] init[q]) by {
        assert(init[q] == a[q]);
    }
    lemma_event_attrs_fields(s, init, true);
    let x = a.last();
    assert(clean(a[last]));
    lemma_apply_key_text(event_attrs(s, init, true).0, x.key, unescaped(x), true, name);
    if p < last {
        assert(!keyed(a[last], name));
        assert forall|q: int| p < q < init.len() implies !keyed(#[trigger] init[q], name) by {
            assert(init[q] == a[q]);
        }
        assert(init[p] == a[p]);
        lemma_event_attrs_text(s, init, name, p);
    }
}

/// Reading clean attributes, a text among `version`, `uid`, `type` and
/// `how` that no attribute of `<event>` names keeps the text it had; the
/// attributes of `<point>` keep them all.
pub proof fn lemma_event_attrs_text_kept(s: EventScanV, a: Seq<RawAttrV>, of_event: bool, name: Seq<char>)
    requires
        forall|q: int| 0 <= q < a.len() ==> clean(#[trigger] a[q]),
        is_event_text_name(name),
        !of_event || forall|q: int| 0 <= q < a.len() ==> !keyed(#[trigger] a[q], name),
    ensures
        event_text_named(event_attrs(s, a, of_event).0, name) == event_text_named(s, name),
    decreases a.len(),
{
    if a.len() > 0 {
        let init = a.drop_last();
        let last = a.len() - 1;
        assert forall|q: int| 0 <= q < init.len() implies clean(#[trigger] init[q]) by {
            assert(init[q] == a[q]);
        }
        assert(of_event ==> forall|q: int| 0 <= q < init.len() ==> !keyed(#[trigger] init[q], name)) by {
            assert forall|q: int| of_event && 0 <= q < init.len() implies !keyed(#[trigger] init[q], name) by {
                assert(init[q] == a[q]);
            }
        }
        lemma_event_attrs_fields(s, init, of_event);
        let x = a.last();
        assert(clean(a[last]));
        assert(of_event ==> !keyed(a[last], name));
        lemma_apply_key_text(event_attrs(s, init, of_event).0, x.key, unescaped(x), of_event, name);
        lemma_event_attrs_text_kept(s, init, of_event, name);
    }
}

/// Where the reading of an event stands: what it found, how deep inside a
/// detail section it is (0 outside) and where that section's text began.
pub struct EventScanState {
    pub found: EventScanV,
    pub depth: nat,
    pub start: nat,
}

/// After one event: go on, or stop with what was found.
pub enum EventScanStep {
    Go(EventScanState),
    Stop(EventScanV),
}

/// Goes on or stops after the attributes of an element.
pub open spec fn after_attrs(st: EventScanState, p: (EventScanV, bool)) -> EventScanStep {
    if p.1 {
        EventScanStep::Stop(p.0)
    } else {
        EventScanStep::Go(EventScanState { found: p.0, ..st })
    }
}

/// What one event does when reading an event's XML, `c1` being the cursor
/// after it. Outside a detail section: the attributes of `<event>` and
/// `<point>` (a start tag, or an empty `point` tag) are read; an empty tag
/// whose name is not UTF-8 stops the reading with an error; `<detail>`
/// starts a section at its `<`; the end of the input ends the reading, a
/// reader error ending it with that error, so that a `<point>` that follows
/// the closed `<event>` is read too. Inside a section,
/// `detail` tags are counted until the section's end tag, and the text from
/// the section's start to that end tag becomes the detail (the end of the
/// input leaves it empty).
pub open spec fn event_scan_step(input: Seq<u8>, st: EventScanState, e: XmlEventV, c1: CursorV) -> EventScanStep {
    if st.depth > 0 {
        match e.kind {
            EventKind::Start => if event_name(e) == detail_bytes() {
                EventScanStep::Go(EventScanState { depth: st.depth + 1, ..st })
            } else {
                EventScanStep::Go(st)
            },
            EventKind::End => if e.content == detail_bytes() {
                if st.depth == 1 {
                    EventScanStep::Go(
                        EventScanState {
                            found: EventScanV {
                                detail: utf8_lossy_spec(input.subrange(st.start as int, c1.pos as int)),
                                ..st.found
                            },
                            depth: 0,
                            ..st
                        },
                    )
                } else {
                    EventScanStep::Go(EventScanState { depth: (st.depth - 1) as nat, ..st })
                }
            } else {
                EventScanStep::Go(st)
            },
            EventKind::Eof => EventScanStep::Go(
                EventScanState {
                    found: EventScanV { detail: utf8_lossy_spec(Seq::empty()), ..st.found },
                    depth: 0,
                    ..st
                },
            ),
            _ => EventScanStep::Go(st),
        }
    } else {
        match e.kind {
            EventKind::Start => if event_name(e) == event_bytes() {
                after_attrs(st, event_attrs(st.found, xml_attributes_spec(e.content, e.name_len), true))
            } else if event_name(e) == point_bytes() {
                after_attrs(st, event_attrs(st.found, xml_attributes_spec(e.content, e.name_len), false))
            } else if event_name(e) == detail_bytes() {
                EventScanStep::Go(EventScanState { depth: 1, start: (c1.pos - e.name_len - 2) as nat, ..st })
            } else {
                EventScanStep::Go(st)
            },
            EventKind::Empty => {
                let u = utf8_strict_spec(event_name(e));
                match u.0 {
                    None => EventScanStep::Stop(EventScanV { error: Some(u.1), ..st.found }),
                    Some(name) => if name == "point"@ {
                        after_attrs(st, event_attrs(st.found, xml_attributes_spec(e.content, e.name_len), false))
                    } else {
                        EventScanStep::Go(st)
                    },
                }
            },
            EventKind::End => if e.content == detail_bytes() {
                EventScanStep::Go(EventScanState { found: EventScanV { detail: Seq::empty(), ..st.found }, ..st })
            } else {
                EventScanStep::Go(st)
            },
            EventKind::Eof => if e.failed {
                EventScanStep::Stop(EventScanV { error: Some(utf8_lossy_spec(e.content)), ..st.found })
            } else {
                EventScanStep::Stop(st.found)
            },
            _ => EventScanStep::Go(st),
        }
    }
}

/// What reading an event's XML from cursor `c` in state `st` finds.
pub open spec fn event_scan_run(input: Seq<u8>, c: CursorV, st: EventScanState) -> EventScanV
    decreases cursor_measure(input, c),
{
    let (e, c1) = cursor_step(input, c);
    match event_scan_step(input, st, e, c1) {
        EventScanStep::Go(st1) => if cursor_measure(input, c1) < cursor_measure(input, c) {
            event_scan_run(input, c1, st1)
        } else {
            st1.found
        },
        EventScanStep::Stop(f) => f,
    }
}

/// What reading the XML of an event in `input` finds.
pub open spec fn event_scan(input: Seq<u8>) -> EventScanV {
    event_scan_from(input, scan_start(Seq::empty(), Seq::empty(), Seq::empty(), Seq::empty()))
}

/// What a reading finds before it reads anything: the given texts of the
/// `<event>` attributes, no detail, no times or coordinates, no error.
pub open spec fn scan_start(version: Seq<char>, uid: Seq<char>, event_type: Seq<char>, how: Seq<char>) -> EventScanV {
    EventScanV { version, uid, event_type, how, detail: Seq::empty(), fields: Seq::empty(), error: None }
}

/// What reading the XML text `input` finds, starting from `init`.
pub open spec fn event_scan_from(input: Seq<u8>, init: EventScanV) -> EventScanV {
    event_scan_run(input, cursor_start(input), EventScanState { found: init, depth: 0, start: 0 })
}

/// Records one well-formed attribute (see `apply_key`).
fn apply_key_exec(s: &mut EventScan, k: &[u8], v: String, of_event: bool)
    ensures
        final(s)@ == apply_key(old(s)@, k@, v@, of_event),
{
    let ghost s0 = s@;
    let ghost vv = v@;
    if of_event {
        if bytes_eq(k, "version".as_bytes()) {
            s.version = v;
        } else if bytes_eq(k, "uid".as_bytes()) {
            s.uid = v;
        } else if bytes_eq(k, "type".as_bytes()) {
            s.event_type = v;
        } else if bytes_eq(k, "how".as_bytes()) {
            s.how = v;
        } else if bytes_eq(k, "time".as_bytes()) {
            s.fields.push((string_of("time"), v));
            assert(s@.fields =~= s0.fields.push(("time"@, vv)));
        } else if bytes_eq(k, "start".as_bytes()) {
            s.fields.push((string_of("start"), v));
            assert(s@.fields =~= s0.fields.push(("start"@, vv)));
        } else if bytes_eq(k, "stale".as_bytes()) {
            s.fields.push((string_of("stale"), v));
            assert(s@.fields =~= s0.fields.push(("stale"@, vv)));
        }
    } else {
        if bytes_eq(k, "lat".as_bytes()) {
            s.fields.push((string_of("lat"), v));
            assert(s@.fields =~= s0.fields.push(("lat"@, vv)));
        } else if bytes_eq(k, "lon".as_bytes()) {
            s.fields.push((string_of("lon"), v));
            assert(s@.fields =~= s0.fields.push(("lon"@, vv)));
        } else if bytes_eq(k, "hae".as_bytes()) {
            s.fields.push((string_of("hae"), v));
            assert(s@.fields =~= s0.fields.push(("hae"@, vv)));
        } else if bytes_eq(k, "ce".as_bytes()) {
            s.fields.push((string_of("ce"), v));
            assert(s@.fields =~= s0.fields.push(("ce"@, vv)));
        } else if bytes_eq(k, "le".as_bytes()) {
            s.fields.push((string_of("le"), v));
            assert(s@.fields =~= s0.fields.push(("le"@, vv)));
        }
    }
}

/// Reads the attributes of an element (see `event_attrs`); tells whether
/// the reading stopped.
fn read_event_attrs(s: &mut EventScan, e: &XmlEvent, of_event: bool) -> (stop: bool)
    requires
        e.name_len <= e.content@.len(),
    ensures
        (final(s)@, stop) == event_attrs(old(s)@, xml_attributes_spec(e.content@, e.name_len as nat), of_event),
{
    let raw = raw_attributes(e.content.as_slice(), e.name_len);
    let ghost a = xml_attributes_spec(e@.content, e@.name_len);
    let ghost s0 = s@;
    let mut i: usize = 0;
    while i < raw.len()
        invariant
            raw@.map_values(|x: RawAttr| x@) == a,
            a == xml_attributes_spec(e.content@, e.name_len as nat),
            s0 == old(s)@,
            i <= raw@.len(),
            (s@, false) == event_attrs(s0, a.subrange(0, i as int), of_event),
        decreases raw@.len() - i,
    {
        proof {
            assert(a.subrange(0, i + 1).drop_last() =~= a.subrange(0, i as int));
            assert(a.subrange(0, i + 1).last() == a[i as int]);
            assert(a[i as int] == raw@[i as int]@);
        }
        let ghost before = s@;
        match &raw[i].error {
            Some(m) => {
                s.error = Some(crate::text::copy_string(m));
                proof {
                    assert(event_attr(before, a[i as int], of_event) == (s@, true));
                    assert(event_attrs(s0, a.subrange(0, i + 1), of_event) == (s@, true));
                    lemma_event_attrs_stop(s0, a, i as int + 1, of_event);
                }
                return true;
            },
            None => {},
        }
        let (t, msg) = unescape_bytes(raw[i].value.as_slice());
        match t {
            Some(v) => {
                apply_key_exec(s, raw[i].key.as_slice(), v, of_event);
            },
            None => {
                s.error = Some(msg);
                proof {
                    assert(event_attr(before, a[i as int], of_event) == (s@, true));
                    assert(event_attrs(s0, a.subrange(0, i + 1), of_event) == (s@, true));
                    lemma_event_attrs_stop(s0, a, i as int + 1, of_event);
                }
                return true;
            },
        }
        i = i + 1;
    }
    assert(a.subrange(0, raw@.len() as int) =~= a);
    false
}

/// Once the attributes of a prefix stop the reading, the whole list stops
/// it with the same result.
proof fn lemma_event_attrs_stop(s: EventScanV, a: Seq<RawAttrV>, n: int, of_event: bool)
    requires
        0 <= n <= a.len(),
        event_attrs(s, a.subrange(0, n), of_event).1,
    ensures
        event_attrs(s, a, of_event) == event_attrs(s, a.subrange(0, n), of_event),
    decreases a.len() - n,
{
    if n < a.len() {
        assert(a.subrange(0, n + 1).drop_last() =~= a.subrange(0, n));
        lemma_event_attrs_stop(s, a, n + 1, of_event);
    } else {
        assert(a.subrange(0, n) =~= a);
    }
}

/// Reads the XML of a CoT event (see `event_scan_step`): the texts of the
/// `<event>` attributes, its times and the `<point>` coordinates as texts
/// in the order read, the text of its detail section, and the message of
/// the error that stopped the reading, if one did.
pub fn scan_event_xml(xml: &str) -> (r: EventScan)
    ensures
        r@ == event_scan(xml.spec_bytes()),
{
    proof {
        reveal_strlit("");
        assert(""@ =~= Seq::<char>::empty());
    }
    let r = scan_event_xml_from(xml, "", "", "", "");
    assert(scan_start(""@, ""@, ""@, ""@) == scan_start(Seq::empty(), Seq::empty(), Seq::empty(), Seq::empty()));
    r
}

/// Reads the XML of a CoT event as `scan_event_xml` does, with the texts
/// of the `<event>` attributes that the XML does not set taken from the
/// given ones.
pub fn scan_event_xml_from(xml: &str, version: &str, uid: &str, event_type: &str, how: &str) -> (r: EventScan)
    ensures
        r@ == event_scan_from(xml.spec_bytes(), scan_start(version@, uid@, event_type@, how@)),
{
    let input = xml.as_bytes();
    let ev_name = event_name_bytes();
    let det_name = detail_name_bytes();
    let pt_name = point_name_bytes();
    let mut cursor = XmlCursor::new(input);
    let ghost init = scan_start(version@, uid@, event_type@, how@);
    let mut found = EventScan {
        version: string_of(version),
        uid: string_of(uid),
        event_type: string_of(event_type),
        how: string_of(how),
        detail: String::new(),
        fields: Vec::new(),
        error: None,
    };
    let mut depth: usize = 0;
    let mut start: usize = 0;
    let ghost target = event_scan_from(input@, init);
    proof {
        assert(found@.fields =~= Seq::<(Seq<char>, Seq<char>)>::empty());
    }
    loop
        invariant
            input@ == xml.spec_bytes(),
            input@.len() == input.len(),
            ev_name@ == event_bytes(),
            det_name@ == detail_bytes(),
            pt_name@ == point_bytes(),
            target == event_scan_from(input@, init),
            init == scan_start(version@, uid@, event_type@, how@),
            cursor@.pos <= input@.len(),
            depth <= cursor@.pos,
            start <= cursor@.pos,
            event_scan_run(input@, cursor@, EventScanState { found: found@, depth: depth as nat, start: start as nat })
                == target,
        decreases cursor_measure(input@, cursor@),
    {
        let ghost c0 = cursor@;
        let ghost st0 = EventScanState { found: found@, depth: depth as nat, start: start as nat };
        let was_done = cursor.is_done();
        let e = cursor.next_event(input);
        let pos = cursor.position();
        proof {
            if cursor_measure(input@, c0) > 0 {
                lemma_step_measure(input@, c0);
            }
            assert(cursor_step(input@, c0) == (e@, cursor@));
        }
        if depth > 0 {
            match e.kind {
                EventKind::Start => {
                    let name = copy_prefix(e.content.as_slice(), e.name_len);
                    if bytes_eq(name.as_slice(), det_name.as_slice()) {
                        depth = depth + 1;
                    }
                },
                EventKind::End => {
                    if bytes_eq(e.content.as_slice(), det_name.as_slice()) {
                        if depth == 1 {
                            let held = slice_copy(input, start, pos);
                            found.detail = lossy_text(held.as_slice());
                            depth = 0;
                        } else {
                            depth = depth - 1;
                        }
                    }
                },
                EventKind::Eof => {
                    let empty: Vec<u8> = Vec::new();
                    found.detail = lossy_text(empty.as_slice());
                    depth = 0;
                    if was_done {
                        return found;
                    }
                },
                _ => {},
            }
        } else {
            match e.kind {
                EventKind::Start => {
                    let name = copy_prefix(e.content.as_slice(), e.name_len);
                    if bytes_eq(name.as_slice(), ev_name.as_slice()) {
                        if read_event_attrs(&mut found, &e, true) {
                            return found;
                        }
                    } else if bytes_eq(name.as_slice(), pt_name.as_slice()) {
                        if read_event_attrs(&mut found, &e, false) {
                            return found;
                        }
                    } else if bytes_eq(name.as_slice(), det_name.as_slice()) {
                        depth = 1;
                        start = pos - e.name_len - 2;
                    }
                },
                EventKind::Empty => {
                    let name = copy_prefix(e.content.as_slice(), e.name_len);
                    let (t, msg) = utf8_text(name.as_slice());
                    match t {
                        None => {
                            found.error = Some(msg);
                            return found;
                        },
                        Some(n) => {
                            if str_eq(n.as_str(), "point") {
                                if read_event_attrs(&mut found, &e, false) {
                                    return found;
                                }
                            }
                        },
                    }
                },
                EventKind::End => {
                    if bytes_eq(e.content.as_slice(), det_name.as_slice()) {
                        found.detail = String::new();
                    }
                },
                EventKind::Eof => {
                    if e.failed {
                        found.error = Some(lossy_text(e.content.as_slice()));
                    }
                    return found;
                },
                _ => {},
            }
        }
    }
}

/// The bytes of `v` from `a` to `b`.
fn slice_copy(v: &[u8], a: usize, b: usize) -> (r: Vec<u8>)
    requires
        a <= b <= v@.len(),
    ensures
        r@ == v@.subrange(a as int, b as int),
{
    let mut r: Vec<u8> = Vec::new();
    let mut i = a;
    while i < b
        invariant
            a <= i <= b,
            b <= v@.len(),
            r@ == v@.subrange(a as int, i as int),
        decreases b - i,
    {
        r.push(v[i]);
        i = i + 1;
        assert(r@ =~= v@.subrange(a as int, i as int));
    }
    r
}

} // verus!

//! XML elements read into JSON values, the way the detail parsers read
//! them: an element's attributes become string members, its child elements
//! members under their tag names (a later child replaces an earlier one of
//! the same name), and its text, when it is not blank, a `_text` member; an
//! element with only text becomes that text.
//!
//! The elements still open are kept on a stack of frames, innermost last,
//! so that one loop over the reader's events reads nested elements.
use vstd::prelude::*;
use crate::json::{JsonMap, JsonV, JsonValue};
use crate::stable_keys::text_key;
use crate::text::string_of;
use crate::xml::{
    EventKind, RawAttr, RawAttrV, XmlEvent, XmlEventV, bytes_eq, copy_prefix, event_name, is_white_space, lossy_text, raw_attributes,
    unescape_bytes, utf8_lossy_spec, white_space_spec, xml_attributes_spec, xml_unescape_spec,
};

verus! {

/// The members that a list of raw attributes gives: each well-formed
/// attribute, in order, sets its key (read as UTF-8) to its raw value (read
/// as UTF-8); malformed ones are skipped.
pub open spec fn attrs_map(a: Seq<RawAttrV>) -> Map<Seq<char>, JsonV>
    decreases a.len(),
{
    if a.len() == 0 {
        Map::empty()
    } else {
        let m = attrs_map(a.drop_last());
        if a.last().error is None {
            m.insert(utf8_lossy_spec(a.last().key), JsonV::Str(utf8_lossy_spec(a.last().value)))
        } else {
            m
        }
    }
}

/// The tag name of an event, read as UTF-8.
pub open spec fn event_tag(e: XmlEventV) -> Seq<char> {
    utf8_lossy_spec(event_name(e))
}

/// The attributes of a start or empty tag as members.
pub open spec fn event_attrs(e: XmlEventV) -> Map<Seq<char>, JsonV> {
    attrs_map(xml_attributes_spec(e.content, e.name_len))
}

/// The unescaped text of a text event (empty where unescaping fails).
pub open spec fn event_text(e: XmlEventV) -> Seq<char> {
    match xml_unescape_spec(e.content).0 {
        Some(t) => t,
        None => Seq::empty(),
    }
}

/// Whether a text counts as absent: empty, or, with `trim`, made of
/// whitespace only.
pub open spec fn is_blank(t: Seq<char>, trim: bool) -> bool {
    if trim {
        forall|i: int| 0 <= i < t.len() ==> white_space_spec(#[trigger] t[i])
    } else {
        t.len() == 0
    }
}

/// An element being read: the raw name of its start tag, that name as
/// text, the members read so far and its text, if any.
pub struct Frame {
    pub name: Vec<u8>,
    pub tag: String,
    pub map: JsonMap,
    pub text: Option<String>,
}

/// The view of a frame.
pub struct FrameV {
    pub name: Seq<u8>,
    pub tag: Seq<char>,
    pub map: Map<Seq<char>, JsonV>,
    pub text: Option<Seq<char>>,
}

/// The view of an optional text.
pub open spec fn opt_text(o: Option<String>) -> Option<Seq<char>> {
    match o {
        Some(s) => Some(s@),
        None => None,
    }
}

impl View for Frame {
    type V = FrameV;

    open spec fn view(&self) -> FrameV {
        FrameV { name: self.name@, tag: self.tag@, map: self.map@, text: opt_text(self.text) }
    }
}

/// The views of a stack of frames.
pub open spec fn frames_view(f: Seq<Frame>) -> Seq<FrameV> {
    f.map_values(|x: Frame| x@)
}

/// The frame that a start tag opens.
pub open spec fn new_frame(e: XmlEventV) -> FrameV {
    FrameV { name: event_name(e), tag: event_tag(e), map: event_attrs(e), text: None }
}

/// The value of a finished element: its text alone when it has no
/// members, else its members with the text under `_text`.
pub open spec fn finish(f: FrameV) -> JsonV {
    if f.map == Map::<Seq<char>, JsonV>::empty() {
        match f.text {
            Some(t) => JsonV::Str(t),
            None => JsonV::Object(f.map),
        }
    } else {
        match f.text {
            Some(t) => JsonV::Object(f.map.insert(text_key(), JsonV::Str(t))),
            None => JsonV::Object(f.map),
        }
    }
}

/// A frame with one more member.
pub open spec fn with_member(f: FrameV, k: Seq<char>, v: JsonV) -> FrameV {
    FrameV { map: f.map.insert(k, v), ..f }
}

/// Closes the innermost of at least two frames into its parent.
pub open spec fn close_into_parent(frames: Seq<FrameV>) -> Seq<FrameV> {
    let top = frames.last();
    let rest = frames.drop_last();
    rest.drop_last().push(with_member(rest.last(), top.tag, finish(top)))
}

/// Closes every frame into its parent at the end of the input: the tag and
/// value of the outermost element.
pub open spec fn collapse(frames: Seq<FrameV>) -> (Seq<char>, JsonV)
    decreases frames.len(),
{
    if frames.len() <= 1 {
        (frames[0].tag, finish(frames[0]))
    } else {
        collapse(close_into_parent(frames))
    }
}

/// What one event does to a non-empty stack of frames: either the frames
/// after it, or, when it closes the outermost element, that element's tag
/// and value.
pub enum FrameOutcome {
    Frames(Seq<FrameV>),
    Complete(Seq<char>, JsonV),
}

/// One event inside an element (the stack is not empty, the event is not
/// the end of the input): a start tag opens a frame; an empty tag adds a
/// member with its attributes; a text that is not blank becomes the
/// element's text; the end tag of the innermost element closes it.
pub open spec fn frame_step(frames: Seq<FrameV>, e: XmlEventV, trim: bool) -> FrameOutcome {
    let top = frames.last();
    match e.kind {
        EventKind::Start => FrameOutcome::Frames(frames.push(new_frame(e))),
        EventKind::Empty => FrameOutcome::Frames(
            frames.drop_last().push(with_member(top, event_tag(e), JsonV::Object(event_attrs(e)))),
        ),
        EventKind::Text => if is_blank(event_text(e), trim) {
            FrameOutcome::Frames(frames)
        } else {
            FrameOutcome::Frames(frames.drop_last().push(FrameV { text: Some(event_text(e)), ..top }))
        },
        EventKind::End => if e.content == top.name {
            if frames.len() == 1 {
                FrameOutcome::Complete(top.tag, finish(top))
            } else {
                FrameOutcome::Frames(close_into_parent(frames))
            }
        } else {
            FrameOutcome::Frames(frames)
        },
        _ => FrameOutcome::Frames(frames),
    }
}

/// The tag name of a start, empty or end tag, read as UTF-8.
pub fn tag_of(e: &XmlEvent) -> (r: String)
    requires
        e.name_len <= e.content@.len(),
    ensures
        r@ == event_tag(e@),
{
    if e.kind == EventKind::End {
        lossy_text(e.content.as_slice())
    } else {
        let name = copy_prefix(e.content.as_slice(), e.name_len);
        lossy_text(name.as_slice())
    }
}

/// The attributes of a start or empty tag as members.
pub fn attrs_of(e: &XmlEvent) -> (r: JsonMap)
    requires
        e.name_len <= e.content@.len(),
    ensures
        r@ == event_attrs(e@),
{
    let raw = raw_attributes(e.content.as_slice(), e.name_len);
    let ghost a = xml_attributes_spec(e@.content, e@.name_len);
    let mut m = JsonMap::new();
    let mut i: usize = 0;
    while i < raw.len()
        invariant
            raw@.map_values(|x: RawAttr| x@) == a,
            i <= raw@.len(),
            m@ == attrs_map(a.subrange(0, i as int)),
        decreases raw@.len() - i,
    {
        proof {
            assert(a.subrange(0, i + 1).drop_last() =~= a.subrange(0, i as int));
            assert(a[i as int] == raw@[i as int]@);
        }
        if raw[i].error.is_none() {
            let k = lossy_text(raw[i].key.as_slice());
            let v = lossy_text(raw[i].value.as_slice());
            m.insert(k, JsonValue::Str(v));
        }
        i = i + 1;
    }
    assert(a.subrange(0, raw@.len() as int) =~= a);
    m
}

/// The unescaped text of a text event, empty where unescaping fails.
pub fn text_of(e: &XmlEvent) -> (r: String)
    ensures
        r@ == event_text(e@),
{
    let (t, _) = unescape_bytes(e.content.as_slice());
    match t {
        Some(t) => t,
        None => String::new(),
    }
}

/// Whether a text counts as absent (see `is_blank`).
pub fn text_is_blank(t: &str, trim: bool) -> (r: bool)
    ensures
        r == is_blank(t@, trim),
{
    let cs = crate::text::chars_of(t);
    if !trim {
        return cs.len() == 0;
    }
    let mut i: usize = 0;
    while i < cs.len()
        invariant
            cs@ == t@,
            i <= cs@.len(),
            forall|j: int| 0 <= j < i ==> white_space_spec(#[trigger] t@[j]),
        decreases cs@.len() - i,
    {
        if !is_white_space(cs[i]) {
            return false;
        }
        i = i + 1;
    }
    true
}

/// The frame that a start tag opens.
pub fn open_frame(e: &XmlEvent) -> (r: Frame)
    requires
        e.kind == EventKind::Start,
        e.name_len <= e.content@.len(),
    ensures
        r@ == new_frame(e@),
{
    Frame { name: copy_prefix(e.content.as_slice(), e.name_len), tag: tag_of(e), map: attrs_of(e), text: None }
}

/// The value of a finished element.
pub fn finish_frame(f: Frame) -> (r: (String, JsonValue))
    ensures
        r.0@ == f@.tag,
        r.1@ == finish(f@),
{
    let Frame { name: _, tag, mut map, text } = f;
    let ghost m0 = map@;
    proof {
        use_type_invariant(&map);
        map.lemma_keys();
    }
    if map.len() == 0 {
        assert(m0 =~= Map::<Seq<char>, JsonV>::empty());
        match text {
            Some(t) => (tag, JsonValue::Str(t)),
            None => (tag, JsonValue::Object(map)),
        }
    } else {
        assert(m0 != Map::<Seq<char>, JsonV>::empty()) by {
            if m0 == Map::<Seq<char>, JsonV>::empty() {
                assert(m0.dom() =~= Set::<Seq<char>>::empty());
            }
        }
        match text {
            Some(t) => {
                map.insert(string_of("_text"), JsonValue::Str(t));
                proof {
                    reveal_strlit("_text");
                    assert("_text"@ =~= text_key());
                }
                (tag, JsonValue::Object(map))
            },
            None => (tag, JsonValue::Object(map)),
        }
    }
}

/// Adds a member to the innermost frame.
pub fn add_member(frames: &mut Vec<Frame>, k: String, v: JsonValue)
    requires
        old(frames)@.len() > 0,
    ensures
        frames_view(final(frames)@) == frames_view(old(frames)@).drop_last().push(
            with_member(frames_view(old(frames)@).last(), k@, v@),
        ),
{
    let ghost f0 = frames_view(frames@);
    let mut top = frames.pop().unwrap();
    top.map.insert(k, v);
    frames.push(top);
    assert(frames_view(frames@) =~= f0.drop_last().push(with_member(f0.last(), k@, v@)));
}

/// Closes every frame into its parent at the end of the input.
pub fn collapse_frames(frames: Vec<Frame>) -> (r: (String, JsonValue))
    requires
        frames@.len() > 0,
    ensures
        (r.0@, r.1@) == collapse(frames_view(frames@)),
{
    let ghost target = collapse(frames_view(frames@));
    let mut frames = frames;
    while frames.len() > 1
        invariant
            frames@.len() > 0,
            collapse(frames_view(frames@)) == target,
        decreases frames@.len(),
    {
        let ghost f0 = frames_view(frames@);
        let top = frames.pop().unwrap();
        let (tag, v) = finish_frame(top);
        add_member(&mut frames, tag, v);
        assert(frames_view(frames@) =~= close_into_parent(f0));
    }
    let top = frames.pop().unwrap();
    finish_frame(top)
}

/// What one event does inside an element (see `frame_step`); returns the
/// completed outermost element, if the event closed it.
pub fn apply_frame_event(frames: &mut Vec<Frame>, e: &XmlEvent, trim: bool) -> (r: Option<(String, JsonValue)>)
    requires
        old(frames)@.len() > 0,
        e.name_len <= e.content@.len(),
        e.kind != EventKind::Eof,
    ensures
        match frame_step(frames_view(old(frames)@), e@, trim) {
            FrameOutcome::Frames(f) => r is None && frames_view(final(frames)@) == f && f.len() > 0,
            FrameOutcome::Complete(t, v) => r matches Some(p) && p.0@ == t && p.1@ == v && final(frames)@.len()
                == 0,
        },
{
    let ghost f0 = frames_view(frames@);
    match e.kind {
        EventKind::Start => {
            frames.push(open_frame(e));
            assert(frames_view(frames@) =~= f0.push(new_frame(e@)));
            None
        },
        EventKind::Empty => {
            let tag = tag_of(e);
            let attrs = attrs_of(e);
            add_member(frames, tag, JsonValue::Object(attrs));
            None
        },
        EventKind::Text => {
            let t = text_of(e);
            if !text_is_blank(t.as_str(), trim) {
                let mut top = frames.pop().unwrap();
                top.text = Some(t);
                frames.push(top);
                assert(frames_view(frames@) =~= f0.drop_last().push(FrameV { text: Some(event_text(e@)), ..f0.last() }));
            }
            None
        },
        EventKind::End => {
            let n = frames.len();
            if bytes_eq(frames[n - 1].name.as_slice(), e.content.as_slice()) {
                let top = frames.pop().unwrap();
                let (tag, v) = finish_frame(top);
                if n == 1 {
                    Some((tag, v))
                } else {
                    add_member(frames, tag, v);
                    assert(frames_view(frames@) =~= close_into_parent(f0));
                    None
                }
            } else {
                None
            }
        },
        _ => None,
    }
}

} // verus!

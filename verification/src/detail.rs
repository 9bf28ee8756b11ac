//! The detail section of a CoT event read into members: each element
//! directly inside `<detail>`, or each top-level element of a text that
//! does not begin with a `<detail>` element, becomes a member under its tag
//! name (a later element replaces an earlier one of the same name), its
//! value read as the module `elements` describes.
use vstd::prelude::*;
use vstd::string::StringSliceAdditionalSpecFns;
use crate::elements::{
    Frame, FrameOutcome, FrameV, apply_frame_event, attrs_of, collapse, collapse_frames, event_attrs, event_tag,
    frame_step, frames_view, new_frame, open_frame, tag_of,
};
use crate::json::{JsonMap, JsonV, JsonValue};
use crate::text::str_eq;
use crate::xml::{CursorV, EventKind, XmlCursor, XmlEventV, cursor_measure, cursor_start, cursor_step, lemma_step_measure};

verus! {

/// The name of the section's root element.
pub open spec fn detail_tag() -> Seq<char> {
    seq!['d', 'e', 't', 'a', 'i', 'l']
}

/// Where a reading of the detail section stands: whether members are being
/// read (`<detail>` has been opened, or the text has no `<detail>` wrapper),
/// the elements being read, and the members read so far.
pub struct DetailState {
    pub in_root: bool,
    pub frames: Seq<FrameV>,
    pub result: Map<Seq<char>, JsonV>,
}

/// After one event: go on from a state, or stop with the members.
pub enum DetailStep {
    Go(DetailState),
    Stop(Map<Seq<char>, JsonV>),
}

/// What one event does. Inside an element, it goes to the element (and a
/// closed outermost element becomes a member); the end of the input closes
/// every open element. Outside any element, before any member is read: a
/// `<detail>` start tag opens the section, an empty `<detail/>` tag is
/// skipped, and any other start or empty tag is read as a member of a
/// section without a wrapper. Once members are read, a start tag opens an
/// element and an empty tag becomes a member with its attributes;
/// `</detail>` or the end of the input ends the reading.
pub open spec fn detail_step(st: DetailState, e: XmlEventV) -> DetailStep {
    if st.frames.len() > 0 {
        if e.kind == EventKind::Eof {
            let tv = collapse(st.frames);
            DetailStep::Stop(st.result.insert(tv.0, tv.1))
        } else {
            match frame_step(st.frames, e, false) {
                FrameOutcome::Frames(f) => DetailStep::Go(DetailState { frames: f, ..st }),
                FrameOutcome::Complete(t, v) => DetailStep::Go(
                    DetailState { frames: Seq::empty(), result: st.result.insert(t, v), ..st },
                ),
            }
        }
    } else {
        match e.kind {
            EventKind::Start => if !st.in_root && event_tag(e) == detail_tag() {
                DetailStep::Go(DetailState { in_root: true, ..st })
            } else {
                DetailStep::Go(DetailState { in_root: true, frames: seq![new_frame(e)], ..st })
            },
            EventKind::Empty => if !st.in_root && event_tag(e) == detail_tag() {
                DetailStep::Go(st)
            } else {
                DetailStep::Go(
                    DetailState {
                        in_root: true,
                        result: st.result.insert(event_tag(e), JsonV::Object(event_attrs(e))),
                        ..st
                    },
                )
            },
            EventKind::End => if st.in_root && event_tag(e) == detail_tag() {
                DetailStep::Stop(st.result)
            } else {
                DetailStep::Go(st)
            },
            EventKind::Eof => DetailStep::Stop(st.result),
            _ => DetailStep::Go(st),
        }
    }
}

/// The members that reading from cursor `c` in state `st` ends with.
pub open spec fn detail_run(input: Seq<u8>, c: CursorV, st: DetailState) -> Map<Seq<char>, JsonV>
    decreases cursor_measure(input, c),
{
    let (e, c1) = cursor_step(input, c);
    match detail_step(st, e) {
        DetailStep::Go(st1) => if cursor_measure(input, c1) < cursor_measure(input, c) {
            detail_run(input, c1, st1)
        } else {
            st1.result
        },
        DetailStep::Stop(m) => m,
    }
}

/// The members of the detail section in `input`.
pub open spec fn detail_section(input: Seq<u8>) -> Map<Seq<char>, JsonV> {
    detail_run(input, cursor_start(input), DetailState { in_root: false, frames: Seq::empty(), result: Map::empty() })
}

/// Reads the `<detail>` section of CoT XML into members: attributes and
/// child elements of each element directly inside `<detail>`, or, where
/// the text does not begin with a `<detail>` element, of each of its
/// top-level elements, as the module documentation describes. Elements
/// after `</detail>` are not read.
pub fn parse_detail_section(detail_xml: &str) -> (r: JsonMap)
    ensures
        r@ == detail_section(detail_xml.spec_bytes()),
{
    let input = detail_xml.as_bytes();
    let mut cursor = XmlCursor::new(input);
    let mut in_root = false;
    let mut frames: Vec<Frame> = Vec::new();
    let mut result = JsonMap::new();
    let ghost target = detail_section(input@);
    assert(frames_view(frames@) =~= Seq::<FrameV>::empty());
    loop
        invariant
            input@ == detail_xml.spec_bytes(),
            target == detail_section(input@),
            detail_run(input@, cursor@, DetailState { in_root, frames: frames_view(frames@), result: result@ })
                == target,
        decreases cursor_measure(input@, cursor@),
    {
        let ghost c0 = cursor@;
        let ghost st0 = DetailState { in_root, frames: frames_view(frames@), result: result@ };
        let e = cursor.next_event(input);
        proof {
            if cursor_measure(input@, c0) > 0 {
                lemma_step_measure(input@, c0);
            }
        }
        if frames.len() > 0 {
            if e.kind == EventKind::Eof {
                let (t, v) = collapse_frames(frames);
                result.insert(t, v);
                assert(detail_step(st0, e@) == DetailStep::Stop(result@));
                assert(cursor_step(input@, c0) == (e@, cursor@));
                assert(detail_run(input@, c0, st0) == result@);
                return result;
            }
            match apply_frame_event(&mut frames, &e, false) {
                Some((t, v)) => {
                    result.insert(t, v);
                    assert(frames_view(frames@) =~= Seq::<FrameV>::empty());
                },
                None => {},
            }
        } else {
            match e.kind {
                EventKind::Start => {
                    let tag = tag_of(&e);
                    proof {
                        reveal_strlit("detail");
                        assert("detail"@ =~= detail_tag());
                    }
                    if !in_root && str_eq(tag.as_str(), "detail") {
                        in_root = true;
                    } else {
                        in_root = true;
                        frames.push(open_frame(&e));
                        assert(frames_view(frames@) =~= seq![new_frame(e@)]);
                    }
                },
                EventKind::Empty => {
                    let tag = tag_of(&e);
                    proof {
                        reveal_strlit("detail");
                        assert("detail"@ =~= detail_tag());
                    }
                    if in_root || !str_eq(tag.as_str(), "detail") {
                        in_root = true;
                        let a = attrs_of(&e);
                        result.insert(tag, JsonValue::Object(a));
                    }
                },
                EventKind::End => {
                    let tag = tag_of(&e);
                    proof {
                        reveal_strlit("detail");
                        assert("detail"@ =~= detail_tag());
                    }
                    if in_root && str_eq(tag.as_str(), "detail") {
                        assert(detail_step(st0, e@) == DetailStep::Stop(result@));
                        assert(cursor_step(input@, c0) == (e@, cursor@));
                        assert(detail_run(input@, c0, st0) == result@);
                        return result;
                    }
                },
                EventKind::Eof => {
                    return result;
                },
                _ => {},
            }
        }
    }
}

} // verus!

//! The detail section read with stable keys, so that peers of a CRDT
//! network address repeated elements the same way: an element whose tag
//! occurs once directly inside `<detail>` is a member under its tag; the
//! `i`-th of several elements with one tag is a member under the stable key
//! `<docId>_<tag>_<i>`, its value carrying the metadata that lets it be
//! written back (`_tag`, `_docId`, `_elementIndex`). Nothing is lost to a
//! repeated tag.
use vstd::prelude::*;
use vstd::string::StringSliceAdditionalSpecFns;
use crate::elements::{
    Frame, FrameOutcome, FrameV, apply_frame_event, attrs_of, collapse, collapse_frames, event_attrs, event_tag,
    frame_step, frames_view, new_frame, open_frame, tag_of,
};
use crate::detail::detail_tag;
use crate::json::{JsonMap, JsonV, JsonValue};
use crate::stable_keys::{
    doc_id_key, enhance_with_metadata, enhanced, generate_stable_key, index_key, index_number,
    lemma_stable_key_injective, lemma_stable_key_prefix, sep, stable_key, tag_key, text_key, value_key,
};
use crate::text::{is_prefix, str_eq};
use crate::xml::{
    CursorV, EventKind, XmlCursor, XmlEventV, bytes_eq, copy_prefix, cursor_measure, cursor_start, cursor_step,
    event_name, lemma_step_measure,
};

verus! {

/// The number under key `k`, zero where there is none.
pub open spec fn count_of(m: Map<Seq<char>, nat>, k: Seq<char>) -> nat {
    if m.contains_key(k) {
        m[k]
    } else {
        0
    }
}

/// The map that a log of (tag, number) records stands for: the last record
/// of a tag gives its number.
pub open spec fn log_map(s: Seq<(String, u32)>) -> Map<Seq<char>, nat>
    decreases s.len(),
{
    if s.len() == 0 {
        Map::empty()
    } else {
        log_map(s.drop_last()).insert(s.last().0@, s.last().1 as nat)
    }
}

/// A number per tag name, kept as a log of records in which the last record
/// of a tag counts.
pub struct TagNumbers {
    log: Vec<(String, u32)>,
}

impl View for TagNumbers {
    type V = Map<Seq<char>, nat>;

    closed spec fn view(&self) -> Map<Seq<char>, nat> {
        log_map(self.log@)
    }
}

impl TagNumbers {
    /// No numbers.
    pub fn new() -> (r: TagNumbers)
        ensures
            r@ == Map::<Seq<char>, nat>::empty(),
    {
        TagNumbers { log: Vec::new() }
    }

    /// The number of tag `k`, zero where it has none.
    pub fn get(&self, k: &str) -> (r: u32)
        ensures
            r == count_of(self@, k@),
    {
        let mut j = self.log.len();
        assert(self.log@.subrange(0, j as int) =~= self.log@);
        while j > 0
            invariant
                j <= self.log@.len(),
                count_of(log_map(self.log@), k@) == count_of(log_map(self.log@.subrange(0, j as int)), k@),
            decreases j,
        {
            assert(self.log@.subrange(0, j as int).drop_last() =~= self.log@.subrange(0, j - 1));
            if str_eq(self.log[j - 1].0.as_str(), k) {
                return self.log[j - 1].1;
            }
            j = j - 1;
        }
        assert(log_map(self.log@.subrange(0, 0)) =~= Map::<Seq<char>, nat>::empty());
        0
    }

    /// Sets the number of tag `k`.
    pub fn set(&mut self, k: &str, n: u32)
        ensures
            final(self)@ == old(self)@.insert(k@, n as nat),
    {
        let ghost s0 = self.log@;
        self.log.push((crate::text::string_of(k), n));
        assert(self.log@.drop_last() =~= s0);
    }
}

/// Where the counting of elements stands: whether `<detail>` has been
/// opened, the element being skipped (its raw name and how many elements
/// of that name are open), and the counts so far.
pub struct CountState {
    pub in_detail: bool,
    pub skip: Option<(Seq<u8>, nat)>,
    pub counts: Map<Seq<char>, nat>,
}

/// After one event: go on, or stop with the counts.
pub enum CountStep {
    Go(CountState),
    Stop(Map<Seq<char>, nat>),
}

/// What one event does to the counting: inside `<detail>`, a start or empty
/// tag counts one element of its tag, and the content of a started element
/// is skipped up to the end tag that closes it (counting the start and end
/// tags of its name); `</detail>` or the end of the input ends the count.
pub open spec fn count_step(st: CountState, e: XmlEventV) -> CountStep {
    match st.skip {
        Some(sk) => match e.kind {
            EventKind::Start => if event_name(e) == sk.0 {
                CountStep::Go(CountState { skip: Some((sk.0, sk.1 + 1)), ..st })
            } else {
                CountStep::Go(st)
            },
            EventKind::End => if e.content == sk.0 {
                if sk.1 <= 1 {
                    CountStep::Go(CountState { skip: None, ..st })
                } else {
                    CountStep::Go(CountState { skip: Some((sk.0, (sk.1 - 1) as nat)), ..st })
                }
            } else {
                CountStep::Go(st)
            },
            EventKind::Eof => CountStep::Stop(st.counts),
            _ => CountStep::Go(st),
        },
        None => {
            let tag = event_tag(e);
            match e.kind {
                EventKind::Start => if !st.in_detail && tag == detail_tag() {
                    CountStep::Go(CountState { in_detail: true, ..st })
                } else if st.in_detail {
                    CountStep::Go(
                        CountState {
                            skip: Some((event_name(e), 1)),
                            counts: st.counts.insert(tag, count_of(st.counts, tag) + 1),
                            ..st
                        },
                    )
                } else {
                    CountStep::Go(st)
                },
                EventKind::Empty => if st.in_detail {
                    CountStep::Go(CountState { counts: st.counts.insert(tag, count_of(st.counts, tag) + 1), ..st })
                } else {
                    CountStep::Go(st)
                },
                EventKind::End => if st.in_detail && tag == detail_tag() {
                    CountStep::Stop(st.counts)
                } else {
                    CountStep::Go(st)
                },
                EventKind::Eof => CountStep::Stop(st.counts),
                _ => CountStep::Go(st),
            }
        },
    }
}

/// The counts that counting from cursor `c` in state `st` ends with.
pub open spec fn count_run(input: Seq<u8>, c: CursorV, st: CountState) -> Map<Seq<char>, nat>
    decreases cursor_measure(input, c),
{
    let (e, c1) = cursor_step(input, c);
    match count_step(st, e) {
        CountStep::Go(st1) => if cursor_measure(input, c1) < cursor_measure(input, c) {
            count_run(input, c1, st1)
        } else {
            st1.counts
        },
        CountStep::Stop(m) => m,
    }
}

/// How many elements of each tag lie directly inside `<detail>`.
pub open spec fn element_counts(input: Seq<u8>) -> Map<Seq<char>, nat> {
    count_run(input, cursor_start(input), CountState { in_detail: false, skip: None, counts: Map::empty() })
}

/// The number of start and empty tags that a reading from cursor `c` meets.
pub open spec fn tags_from(input: Seq<u8>, c: CursorV) -> nat
    decreases cursor_measure(input, c),
{
    let (e, c1) = cursor_step(input, c);
    let here: nat = if e.kind == EventKind::Start || e.kind == EventKind::Empty {
        1
    } else {
        0
    };
    if cursor_measure(input, c1) < cursor_measure(input, c) {
        here + tags_from(input, c1)
    } else {
        here
    }
}

/// The number of elements (start and empty tags) that a reading of `input`
/// meets.
pub open spec fn element_total(input: Seq<u8>) -> nat {
    tags_from(input, cursor_start(input))
}

/// Counts the elements (start and empty tags) of `input`.
pub fn count_elements(input: &[u8]) -> (r: usize)
    ensures
        r == element_total(input@),
{
    let mut cursor = XmlCursor::new(input);
    let mut n: usize = 0;
    loop
        invariant
            cursor@.pos <= input@.len(),
            input@.len() == input.len(),
            n <= cursor@.pos,
            n + tags_from(input@, cursor@) == element_total(input@),
        decreases cursor_measure(input@, cursor@),
    {
        let ghost c0 = cursor@;
        let e = cursor.next_event(input);
        proof {
            assert(cursor_step(input@, c0) == (e@, cursor@));
            if cursor_measure(input@, c0) > 0 {
                lemma_step_measure(input@, c0);
            }
        }
        if e.kind == EventKind::Start || e.kind == EventKind::Empty {
            n = n + 1;
        } else if e.kind == EventKind::Eof {
            proof {
                assert(cursor_step(input@, cursor@).1.done);
                assert(tags_from(input@, cursor@) == 0);
            }
            return n;
        }
    }
}

/// Counts the elements of each tag directly inside `<detail>`.
fn count_element_occurrences(input: &[u8]) -> (r: TagNumbers)
    requires
        element_total(input@) <= u32::MAX,
    ensures
        r@ == element_counts(input@),
{
    let mut cursor = XmlCursor::new(input);
    let mut in_detail = false;
    let mut skipping = false;
    let mut skip_name: Vec<u8> = Vec::new();
    let mut depth: u32 = 0;
    let mut counts = TagNumbers::new();
    let ghost mut n_tags: nat = 0;
    let ghost target = element_counts(input@);
    loop
        invariant
            element_total(input@) <= u32::MAX,
            cursor@.pos <= input@.len(),
            n_tags + tags_from(input@, cursor@) == element_total(input@),
            depth <= n_tags,
            forall|k: Seq<char>| #[trigger] count_of(counts@, k) <= n_tags,
            target == element_counts(input@),
            count_run(
                input@,
                cursor@,
                CountState {
                    in_detail,
                    skip: if skipping { Some((skip_name@, depth as nat)) } else { None },
                    counts: counts@,
                },
            ) == target,
        decreases cursor_measure(input@, cursor@),
    {
        let ghost c0 = cursor@;
        let ghost st0 = CountState {
            in_detail,
            skip: if skipping { Some((skip_name@, depth as nat)) } else { None },
            counts: counts@,
        };
        let e = cursor.next_event(input);
        proof {
            assert(cursor_step(input@, c0) == (e@, cursor@));
            if cursor_measure(input@, c0) > 0 {
                lemma_step_measure(input@, c0);
            }
            if e.kind == EventKind::Start || e.kind == EventKind::Empty {
                n_tags = n_tags + 1;
            }
        }
        if skipping {
            match e.kind {
                EventKind::Start => {
                    let name = copy_prefix(e.content.as_slice(), e.name_len);
                    if bytes_eq(name.as_slice(), skip_name.as_slice()) {
                        depth = depth + 1;
                    }
                },
                EventKind::End => {
                    if bytes_eq(e.content.as_slice(), skip_name.as_slice()) {
                        if depth <= 1 {
                            skipping = false;
                        } else {
                            depth = depth - 1;
                        }
                    }
                },
                EventKind::Eof => {
                    assert(count_step(st0, e@) == CountStep::Stop(counts@));
                    assert(cursor_step(input@, c0) == (e@, cursor@));
                    return counts;
                },
                _ => {},
            }
        } else {
            let tag = tag_of(&e);
            proof {
                reveal_strlit("detail");
                assert("detail"@ =~= detail_tag());
            }
            match e.kind {
                EventKind::Start => {
                    if !in_detail && str_eq(tag.as_str(), "detail") {
                        in_detail = true;
                    } else if in_detail {
                        let n = counts.get(tag.as_str());
                        assert(count_of(counts@, tag@) <= n_tags - 1);
                        counts.set(tag.as_str(), n + 1);
                        skipping = true;
                        skip_name = copy_prefix(e.content.as_slice(), e.name_len);
                        depth = 1;
                        proof {
                            assert forall|k: Seq<char>| #[trigger] count_of(counts@, k) <= n_tags by {
                                if k != tag@ {
                                    assert(count_of(counts@, k) == count_of(st0.counts, k));
                                }
                            }
                        }
                    }
                },
                EventKind::Empty => {
                    if in_detail {
                        let n = counts.get(tag.as_str());
                        assert(count_of(counts@, tag@) <= n_tags - 1);
                        counts.set(tag.as_str(), n + 1);
                        proof {
                            assert forall|k: Seq<char>| #[trigger] count_of(counts@, k) <= n_tags by {
                                if k != tag@ {
                                    assert(count_of(counts@, k) == count_of(st0.counts, k));
                                }
                            }
                        }
                    }
                },
                EventKind::End => {
                    if in_detail && str_eq(tag.as_str(), "detail") {
                        assert(count_step(st0, e@) == CountStep::Stop(counts@));
                        assert(cursor_step(input@, c0) == (e@, cursor@));
                        return counts;
                    }
                },
                EventKind::Eof => {
                    assert(count_step(st0, e@) == CountStep::Stop(counts@));
                    assert(cursor_step(input@, c0) == (e@, cursor@));
                    return counts;
                },
                _ => {},
            }
        }
    }
}

/// Where the reading with stable keys stands: whether `<detail>` has been
/// opened, the elements being read, the members so far and, per repeated
/// tag, how many of its elements have been placed.
pub struct StableState {
    pub in_detail: bool,
    pub frames: Seq<FrameV>,
    pub result: Map<Seq<char>, JsonV>,
    pub indices: Map<Seq<char>, nat>,
}

/// After one event: go on, or stop with the members.
pub enum StableStep {
    Go(StableState),
    Stop(Map<Seq<char>, JsonV>),
}

/// Places a read element: under its tag when the tag occurs once (or not
/// at all) in `counts`; else under the next stable key of its tag, with
/// metadata.
pub open spec fn place(st: StableState, counts: Map<Seq<char>, nat>, doc: Seq<char>, tag: Seq<char>, v: JsonV) -> StableState {
    if count_of(counts, tag) > 1 {
        let i = count_of(st.indices, tag);
        StableState {
            result: st.result.insert(stable_key(doc, tag, i as u32), enhanced(v, tag, doc, i as u32)),
            indices: st.indices.insert(tag, i + 1),
            ..st
        }
    } else {
        StableState { result: st.result.insert(tag, v), ..st }
    }
}

/// What one event does, as `detail_step` in the module `detail` describes,
/// but with whitespace-only text counting as absent and each read element
/// placed by `place`.
pub open spec fn stable_step(st: StableState, e: XmlEventV, counts: Map<Seq<char>, nat>, doc: Seq<char>) -> StableStep {
    if st.frames.len() > 0 {
        if e.kind == EventKind::Eof {
            let tv = collapse(st.frames);
            StableStep::Stop(place(StableState { frames: Seq::empty(), ..st }, counts, doc, tv.0, tv.1).result)
        } else {
            match frame_step(st.frames, e, true) {
                FrameOutcome::Frames(f) => StableStep::Go(StableState { frames: f, ..st }),
                FrameOutcome::Complete(t, v) => StableStep::Go(
                    place(StableState { frames: Seq::empty(), ..st }, counts, doc, t, v),
                ),
            }
        }
    } else {
        match e.kind {
            EventKind::Start => if !st.in_detail && event_tag(e) == detail_tag() {
                StableStep::Go(StableState { in_detail: true, ..st })
            } else if st.in_detail {
                StableStep::Go(StableState { frames: seq![new_frame(e)], ..st })
            } else {
                StableStep::Go(st)
            },
            EventKind::Empty => if st.in_detail {
                StableStep::Go(place(st, counts, doc, event_tag(e), JsonV::Object(event_attrs(e))))
            } else {
                StableStep::Go(st)
            },
            EventKind::End => if st.in_detail && event_tag(e) == detail_tag() {
                StableStep::Stop(st.result)
            } else {
                StableStep::Go(st)
            },
            EventKind::Eof => StableStep::Stop(st.result),
            _ => StableStep::Go(st),
        }
    }
}

/// The members that reading from cursor `c` in state `st` ends with.
pub open spec fn stable_run(
    input: Seq<u8>,
    c: CursorV,
    st: StableState,
    counts: Map<Seq<char>, nat>,
    doc: Seq<char>,
) -> Map<Seq<char>, JsonV>
    decreases cursor_measure(input, c),
{
    let (e, c1) = cursor_step(input, c);
    match stable_step(st, e, counts, doc) {
        StableStep::Go(st1) => if cursor_measure(input, c1) < cursor_measure(input, c) {
            stable_run(input, c1, st1, counts, doc)
        } else {
            st1.result
        },
        StableStep::Stop(m) => m,
    }
}

/// The members of the detail section in `input` with stable keys for
/// repeated tags, for document `doc`.
pub open spec fn stable_detail(input: Seq<u8>, doc: Seq<char>) -> Map<Seq<char>, JsonV> {
    stable_run(
        input,
        cursor_start(input),
        StableState { in_detail: false, frames: Seq::empty(), result: Map::empty(), indices: Map::empty() },
        element_counts(input),
        doc,
    )
}

/// Places a read element (see `place`).
fn place_element(
    result: &mut JsonMap,
    indices: &mut TagNumbers,
    counts: &TagNumbers,
    doc: &str,
    tag: String,
    v: JsonValue,
)
    requires
        count_of(old(indices)@, tag@) < u32::MAX,
    ensures
        ({
            let st = place(
                StableState { in_detail: false, frames: Seq::empty(), result: old(result)@, indices: old(indices)@ },
                counts@,
                doc@,
                tag@,
                v@,
            );
            final(result)@ == st.result && final(indices)@ == st.indices
        }),
{
    let n = counts.get(tag.as_str());
    if n > 1 {
        let i = indices.get(tag.as_str());
        let key = generate_stable_key(doc, tag.as_str(), i);
        let ev = enhance_with_metadata(v, tag.as_str(), doc, i);
        result.insert(key, ev);
        indices.set(tag.as_str(), i + 1);
    } else {
        result.insert(tag, v);
    }
}

/// Reads the detail section with stable keys, given the element counts.
fn parse_with_stable_keys(input: &[u8], document_id: &str, counts: &TagNumbers) -> (r: JsonMap)
    requires
        element_total(input@) <= u32::MAX,
    ensures
        r@ == stable_run(
            input@,
            cursor_start(input@),
            StableState { in_detail: false, frames: Seq::empty(), result: Map::empty(), indices: Map::empty() },
            counts@,
            document_id@,
        ),
{
    let mut cursor = XmlCursor::new(input);
    let mut in_detail = false;
    let mut frames: Vec<Frame> = Vec::new();
    let mut result = JsonMap::new();
    let mut indices = TagNumbers::new();
    let ghost mut n_tags: nat = 0;
    let ghost mut n_placed: nat = 0;
    let ghost target = stable_run(
        input@,
        cursor_start(input@),
        StableState { in_detail: false, frames: Seq::empty(), result: Map::empty(), indices: Map::empty() },
        counts@,
        document_id@,
    );
    assert(frames_view(frames@) =~= Seq::<FrameV>::empty());
    loop
        invariant
            element_total(input@) <= u32::MAX,
            cursor@.pos <= input@.len(),
            n_tags + tags_from(input@, cursor@) == element_total(input@),
            n_placed + frames@.len() <= n_tags,
            forall|k: Seq<char>| #[trigger] count_of(indices@, k) <= n_placed,
            target == stable_run(
                input@,
                cursor_start(input@),
                StableState { in_detail: false, frames: Seq::empty(), result: Map::empty(), indices: Map::empty() },
                counts@,
                document_id@,
            ),
            stable_run(
                input@,
                cursor@,
                StableState { in_detail, frames: frames_view(frames@), result: result@, indices: indices@ },
                counts@,
                document_id@,
            ) == target,
        decreases cursor_measure(input@, cursor@),
    {
        let ghost c0 = cursor@;
        let ghost st0 = StableState { in_detail, frames: frames_view(frames@), result: result@, indices: indices@ };
        let ghost placed0 = n_placed;
        let e = cursor.next_event(input);
        proof {
            assert(cursor_step(input@, c0) == (e@, cursor@));
            if cursor_measure(input@, c0) > 0 {
                lemma_step_measure(input@, c0);
            }
            if e.kind == EventKind::Start || e.kind == EventKind::Empty {
                n_tags = n_tags + 1;
            }
        }
        if frames.len() > 0 {
            if e.kind == EventKind::Eof {
                let (t, v) = collapse_frames(frames);
                assert(count_of(indices@, t@) <= placed0);
                place_element(&mut result, &mut indices, counts, document_id, t, v);
                assert(stable_step(st0, e@, counts@, document_id@) == StableStep::Stop(result@));
                assert(cursor_step(input@, c0) == (e@, cursor@));
                return result;
            }
            match apply_frame_event(&mut frames, &e, true) {
                Some((t, v)) => {
                    assert(count_of(indices@, t@) <= placed0);
                    place_element(&mut result, &mut indices, counts, document_id, t, v);
                    assert(frames_view(frames@) =~= Seq::<FrameV>::empty());
                    proof {
                        n_placed = n_placed + 1;
                    }
                },
                None => {},
            }
        } else {
            let tag = tag_of(&e);
            proof {
                reveal_strlit("detail");
                assert("detail"@ =~= detail_tag());
            }
            match e.kind {
                EventKind::Start => {
                    if !in_detail && str_eq(tag.as_str(), "detail") {
                        in_detail = true;
                    } else if in_detail {
                        frames.push(open_frame(&e));
                        assert(frames_view(frames@) =~= seq![new_frame(e@)]);
                    }
                },
                EventKind::Empty => {
                    if in_detail {
                        let a = attrs_of(&e);
                        assert(count_of(indices@, tag@) <= placed0);
                        place_element(&mut result, &mut indices, counts, document_id, tag, JsonValue::Object(a));
                        proof {
                            n_placed = n_placed + 1;
                        }
                    }
                },
                EventKind::End => {
                    if in_detail && str_eq(tag.as_str(), "detail") {
                        assert(stable_step(st0, e@, counts@, document_id@) == StableStep::Stop(result@));
                        assert(cursor_step(input@, c0) == (e@, cursor@));
                        return result;
                    }
                },
                EventKind::Eof => {
                    assert(stable_step(st0, e@, counts@, document_id@) == StableStep::Stop(result@));
                    assert(cursor_step(input@, c0) == (e@, cursor@));
                    return result;
                },
                _ => {},
            }
        }
        proof {
            assert forall|k: Seq<char>| #[trigger] count_of(indices@, k) <= n_placed by {
                if count_of(indices@, k) != count_of(st0.indices, k) {
                    assert(count_of(st0.indices, k) <= placed0);
                }
            }
        }
    }
}

/// Reads the `<detail>` section of CoT XML for document `document_id`,
/// with stable keys for repeated elements (see the module documentation).
pub fn parse_detail_section_with_stable_keys(detail_xml: &str, document_id: &str) -> (r: JsonMap)
    requires
        element_total(detail_xml.spec_bytes()) <= u32::MAX,
    ensures
        r@ == stable_detail(detail_xml.spec_bytes(), document_id@),
{
    let input = detail_xml.as_bytes();
    let counts = count_element_occurrences(input);
    parse_with_stable_keys(input, document_id, &counts)
}

/// Reads the `<detail>` section as `parse_detail_section_with_stable_keys`
/// does where the text holds at most `u32::MAX` elements (the indices of
/// repeated elements are `u32` numbers); none where it holds more.
pub fn parse_detail_section_with_stable_keys_checked(detail_xml: &str, document_id: &str) -> (r: Option<JsonMap>)
    ensures
        match r {
            Some(m) => element_total(detail_xml.spec_bytes()) <= u32::MAX && m@ == stable_detail(
                detail_xml.spec_bytes(),
                document_id@,
            ),
            None => element_total(detail_xml.spec_bytes()) > u32::MAX,
        },
{
    let n = count_elements(detail_xml.as_bytes());
    if n as u64 <= 4294967295u64 {
        Some(parse_detail_section_with_stable_keys(detail_xml, document_id))
    } else {
        None
    }
}

/// `v` is an object that carries the metadata of the `i`-th repeated
/// `tag` element of document `doc`.
pub open spec fn carries_metadata(v: JsonV, tag: Seq<char>, doc: Seq<char>, i: u32) -> bool {
    &&& v is Object
    &&& v->Object_0.contains_key(tag_key())
    &&& v->Object_0[tag_key()] == JsonV::Str(tag)
    &&& v->Object_0.contains_key(doc_id_key())
    &&& v->Object_0[doc_id_key()] == JsonV::Str(doc)
    &&& v->Object_0.contains_key(index_key())
    &&& v->Object_0[index_key()] == index_number(i)
}

/// A member `k` with value `v` is keyed as the stable-key reading keys
/// members: under a tag that occurs at most once, or under the stable key
/// of a repeated tag with the metadata of that element.
pub open spec fn well_keyed(counts: Map<Seq<char>, nat>, doc: Seq<char>, k: Seq<char>, v: JsonV) -> bool {
    ||| count_of(counts, k) <= 1
    ||| exists|tag: Seq<char>, i: u32|
        k == stable_key(doc, tag, i) && count_of(counts, tag) > 1 && #[trigger] carries_metadata(v, tag, doc, i)
}

/// Every member of `m` is keyed as the stable-key reading keys members.
pub open spec fn all_well_keyed(m: Map<Seq<char>, JsonV>, counts: Map<Seq<char>, nat>, doc: Seq<char>) -> bool {
    forall|k: Seq<char>| #[trigger] m.contains_key(k) ==> well_keyed(counts, doc, k, m[k])
}

/// A value with metadata carries it.
pub proof fn lemma_enhanced_carries(v: JsonV, tag: Seq<char>, doc: Seq<char>, i: u32)
    ensures
        carries_metadata(enhanced(v, tag, doc, i), tag, doc, i),
{
    assert(text_key() != tag_key());
    assert(text_key() != doc_id_key());
    assert(text_key() != index_key());
    assert(value_key() != tag_key());
    assert(value_key() != doc_id_key());
    assert(value_key() != index_key());
    assert(tag_key() != doc_id_key());
    assert(tag_key() != index_key());
    assert(doc_id_key() != index_key());
}

/// Placing an element keeps every member well keyed.
proof fn lemma_place_keeps(st: StableState, counts: Map<Seq<char>, nat>, doc: Seq<char>, tag: Seq<char>, v: JsonV)
    requires
        all_well_keyed(st.result, counts, doc),
    ensures
        all_well_keyed(place(st, counts, doc, tag, v).result, counts, doc),
{
    let r = place(st, counts, doc, tag, v).result;
    if count_of(counts, tag) > 1 {
        let i = count_of(st.indices, tag) as u32;
        let sk = stable_key(doc, tag, i);
        lemma_enhanced_carries(v, tag, doc, i);
        assert forall|k: Seq<char>| #[trigger] r.contains_key(k) implies well_keyed(counts, doc, k, r[k]) by {
            if k == sk {
                assert(carries_metadata(r[k], tag, doc, i));
            } else {
                assert(st.result.contains_key(k));
            }
        }
    } else {
        assert forall|k: Seq<char>| #[trigger] r.contains_key(k) implies well_keyed(counts, doc, k, r[k]) by {
            if k != tag {
                assert(st.result.contains_key(k));
            }
        }
    }
}

/// Reading on from any state whose members are well keyed ends with well
/// keyed members.
proof fn lemma_stable_run_keys(
    input: Seq<u8>,
    c: CursorV,
    st: StableState,
    counts: Map<Seq<char>, nat>,
    doc: Seq<char>,
)
    requires
        all_well_keyed(st.result, counts, doc),
    ensures
        all_well_keyed(stable_run(input, c, st, counts, doc), counts, doc),
    decreases cursor_measure(input, c),
{
    let (e, c1) = cursor_step(input, c);
    let frames_cleared = StableState { frames: Seq::empty(), ..st };
    assert(all_well_keyed(frames_cleared.result, counts, doc));
    if st.frames.len() > 0 {
        if e.kind == EventKind::Eof {
            let tv = collapse(st.frames);
            lemma_place_keeps(frames_cleared, counts, doc, tv.0, tv.1);
        } else {
            match frame_step(st.frames, e, true) {
                FrameOutcome::Frames(f) => {
                    let st1 = StableState { frames: f, ..st };
                    if cursor_measure(input, c1) < cursor_measure(input, c) {
                        lemma_stable_run_keys(input, c1, st1, counts, doc);
                    }
                },
                FrameOutcome::Complete(t, v) => {
                    let st1 = place(frames_cleared, counts, doc, t, v);
                    lemma_place_keeps(frames_cleared, counts, doc, t, v);
                    if cursor_measure(input, c1) < cursor_measure(input, c) {
                        lemma_stable_run_keys(input, c1, st1, counts, doc);
                    }
                },
            }
        }
    } else {
        match stable_step(st, e, counts, doc) {
            StableStep::Go(st1) => {
                if e.kind == EventKind::Empty && st.in_detail {
                    lemma_place_keeps(st, counts, doc, event_tag(e), JsonV::Object(event_attrs(e)));
                }
                if cursor_measure(input, c1) < cursor_measure(input, c) {
                    lemma_stable_run_keys(input, c1, st1, counts, doc);
                }
            },
            StableStep::Stop(m) => {},
        }
    }
}

/// Reading the detail section with stable keys loses no repeated element to
/// another of its tag: a member is under a tag that occurs at most once
/// directly inside `<detail>`, or under the stable key
/// `<doc>_<tag>_<i>` of a tag that occurs more than once, and then its
/// value carries the metadata `_tag`, `_docId`, `_elementIndex` of that
/// element.
pub proof fn lemma_stable_detail_keys(input: Seq<u8>, doc: Seq<char>)
    ensures
        all_well_keyed(stable_detail(input, doc), element_counts(input), doc),
{
    let st = StableState { in_detail: false, frames: Seq::empty(), result: Map::empty(), indices: Map::empty() };
    lemma_stable_run_keys(input, cursor_start(input), st, element_counts(input), doc);
}

/// The element, as tag and value, that an event completes directly inside
/// `<detail>`, if any (see `stable_step`).
pub open spec fn placed_by(st: StableState, e: XmlEventV) -> Option<(Seq<char>, JsonV)> {
    if st.frames.len() > 0 {
        if e.kind == EventKind::Eof {
            Some(collapse(st.frames))
        } else {
            match frame_step(st.frames, e, true) {
                FrameOutcome::Complete(t, v) => Some((t, v)),
                _ => None,
            }
        }
    } else if e.kind == EventKind::Empty && st.in_detail {
        Some((event_tag(e), JsonV::Object(event_attrs(e))))
    } else {
        None
    }
}

/// The elements that reading from cursor `c` in state `st` places, in
/// order, as tag and value.
pub open spec fn stable_log(
    input: Seq<u8>,
    c: CursorV,
    st: StableState,
    counts: Map<Seq<char>, nat>,
    doc: Seq<char>,
) -> Seq<(Seq<char>, JsonV)>
    decreases cursor_measure(input, c),
{
    let (e, c1) = cursor_step(input, c);
    let here: Seq<(Seq<char>, JsonV)> = match placed_by(st, e) {
        Some(p) => seq![p],
        None => Seq::empty(),
    };
    match stable_step(st, e, counts, doc) {
        StableStep::Go(st1) => if cursor_measure(input, c1) < cursor_measure(input, c) {
            here + stable_log(input, c1, st1, counts, doc)
        } else {
            here
        },
        StableStep::Stop(_) => here,
    }
}

/// The elements directly inside `<detail>`, in the order the reading with
/// stable keys places them, as tag and value.
pub open spec fn stable_elements(input: Seq<u8>, doc: Seq<char>) -> Seq<(Seq<char>, JsonV)> {
    stable_log(
        input,
        cursor_start(input),
        StableState { in_detail: false, frames: Seq::empty(), result: Map::empty(), indices: Map::empty() },
        element_counts(input),
        doc,
    )
}

/// Placing elements one after another.
pub open spec fn place_all(
    st: StableState,
    counts: Map<Seq<char>, nat>,
    doc: Seq<char>,
    log: Seq<(Seq<char>, JsonV)>,
) -> StableState
    decreases log.len(),
{
    if log.len() == 0 {
        st
    } else {
        place_all(place(st, counts, doc, log[0].0, log[0].1), counts, doc, log.drop_first())
    }
}

/// How many of the first `j` elements of `log` have tag `t`.
pub open spec fn occurrences(log: Seq<(Seq<char>, JsonV)>, j: int, t: Seq<char>) -> nat
    decreases j,
{
    if j <= 0 || log.len() == 0 {
        0
    } else {
        (if log[0].0 == t {
            1nat
        } else {
            0nat
        }) + occurrences(log.drop_first(), j - 1, t)
    }
}

/// Placing depends on the members and indices only.
proof fn lemma_place_all_congruent(
    s1: StableState,
    s2: StableState,
    counts: Map<Seq<char>, nat>,
    doc: Seq<char>,
    log: Seq<(Seq<char>, JsonV)>,
)
    requires
        s1.result == s2.result,
        s1.indices == s2.indices,
    ensures
        place_all(s1, counts, doc, log).result == place_all(s2, counts, doc, log).result,
    decreases log.len(),
{
    if log.len() > 0 {
        lemma_place_all_congruent(
            place(s1, counts, doc, log[0].0, log[0].1),
            place(s2, counts, doc, log[0].0, log[0].1),
            counts,
            doc,
            log.drop_first(),
        );
    }
}

/// The members that reading ends with are the elements it places, placed
/// one after another.
proof fn lemma_stable_run_places(
    input: Seq<u8>,
    c: CursorV,
    st: StableState,
    counts: Map<Seq<char>, nat>,
    doc: Seq<char>,
)
    ensures
        stable_run(input, c, st, counts, doc) == place_all(st, counts, doc, stable_log(input, c, st, counts, doc)).result,
    decreases cursor_measure(input, c),
{
    let (e, c1) = cursor_step(input, c);
    let log = stable_log(input, c, st, counts, doc);
    let cleared = StableState { frames: Seq::empty(), ..st };
    match placed_by(st, e) {
        Some(p) => {
            let st_p = place(st, counts, doc, p.0, p.1);
            assert(place(cleared, counts, doc, p.0, p.1).result == st_p.result);
            assert(place(cleared, counts, doc, p.0, p.1).indices == st_p.indices);
            match stable_step(st, e, counts, doc) {
                StableStep::Go(st1) => {
                    assert(st1.result == st_p.result && st1.indices == st_p.indices);
                    if cursor_measure(input, c1) < cursor_measure(input, c) {
                        let rest = stable_log(input, c1, st1, counts, doc);
                        lemma_stable_run_places(input, c1, st1, counts, doc);
                        assert((seq![p] + rest).drop_first() =~= rest);
                        lemma_place_all_congruent(st1, st_p, counts, doc, rest);
                        assert(log == seq![p] + rest);
                        assert(log[0] == p);
                        assert(place_all(st, counts, doc, log) == place_all(st_p, counts, doc, rest));
                    } else {
                        assert(seq![p].drop_first() =~= Seq::<(Seq<char>, JsonV)>::empty());
                        assert(log == seq![p]);
                        assert(place_all(st, counts, doc, log) == place_all(st_p, counts, doc, seq![p].drop_first()));
                        assert(place_all(st_p, counts, doc, Seq::<(Seq<char>, JsonV)>::empty()) == st_p);
                    }
                },
                StableStep::Stop(m) => {
                    assert(seq![p].drop_first() =~= Seq::<(Seq<char>, JsonV)>::empty());
                    assert(log == seq![p]);
                    assert(place_all(st, counts, doc, log) == place_all(st_p, counts, doc, seq![p].drop_first()));
                    assert(place_all(st_p, counts, doc, Seq::<(Seq<char>, JsonV)>::empty()) == st_p);
                    assert(m == st_p.result);
                },
            }
        },
        None => {
            match stable_step(st, e, counts, doc) {
                StableStep::Go(st1) => {
                    assert(st1.result == st.result && st1.indices == st.indices);
                    if cursor_measure(input, c1) < cursor_measure(input, c) {
                        let rest = stable_log(input, c1, st1, counts, doc);
                        lemma_stable_run_places(input, c1, st1, counts, doc);
                        assert(Seq::<(Seq<char>, JsonV)>::empty() + rest =~= rest);
                        lemma_place_all_congruent(st1, st, counts, doc, rest);
                        assert(log == rest);
                    } else {
                        assert(log == Seq::<(Seq<char>, JsonV)>::empty());
                    }
                },
                StableStep::Stop(m) => {
                    assert(log == Seq::<(Seq<char>, JsonV)>::empty());
                    assert(m == st.result);
                },
            }
        },
    }
}

/// The key under which `place` puts an element of tag `t` in state `st`.
pub open spec fn placed_key(st: StableState, counts: Map<Seq<char>, nat>, doc: Seq<char>, t: Seq<char>) -> Seq<char> {
    if count_of(counts, t) > 1 {
        stable_key(doc, t, count_of(st.indices, t) as u32)
    } else {
        t
    }
}

/// A member that no later placement writes keeps its value.
proof fn lemma_place_all_keeps(
    st: StableState,
    counts: Map<Seq<char>, nat>,
    doc: Seq<char>,
    log: Seq<(Seq<char>, JsonV)>,
    k: Seq<char>,
)
    requires
        st.result.contains_key(k),
        forall|j: int| 0 <= j < log.len() && count_of(counts, #[trigger] log[j].0) <= 1 ==> log[j].0 != k,
        forall|j: int, i: nat|
            0 <= j < log.len() && count_of(counts, log[j].0) > 1 && count_of(st.indices, log[j].0) <= i
                <= count_of(st.indices, log[j].0) + log.len() ==> #[trigger] stable_key(doc, log[j].0, i as u32) != k,
    ensures
        place_all(st, counts, doc, log).result.contains_key(k),
        place_all(st, counts, doc, log).result[k] == st.result[k],
    decreases log.len(),
{
    if log.len() > 0 {
        let t = log[0].0;
        let st1 = place(st, counts, doc, t, log[0].1);
        if count_of(counts, t) > 1 {
            let i = count_of(st.indices, t);
            assert(stable_key(doc, t, i as u32) != k);
        } else {
            assert(t != k);
        }
        let rest = log.drop_first();
        assert forall|j: int| 0 <= j < rest.len() && count_of(counts, #[trigger] rest[j].0) <= 1 implies rest[j].0 != k by {
            assert(rest[j] == log[j + 1]);
        }
        assert forall|j: int, i: nat|
            0 <= j < rest.len() && count_of(counts, rest[j].0) > 1 && count_of(st1.indices, rest[j].0) <= i
                <= count_of(st1.indices, rest[j].0) + rest.len() implies #[trigger] stable_key(doc, rest[j].0, i as u32) != k by {
            assert(rest[j] == log[j + 1]);
            assert(count_of(st.indices, rest[j].0) <= count_of(st1.indices, rest[j].0) <= count_of(st.indices, rest[j].0) + 1);
        }
        lemma_place_all_keeps(st1, counts, doc, rest, k);
    }
}

/// Placing elements keeps every element of a repeated tag under its own
/// stable key, and the last element of each other tag under its tag.
proof fn lemma_place_all_kept(
    st: StableState,
    counts: Map<Seq<char>, nat>,
    doc: Seq<char>,
    log: Seq<(Seq<char>, JsonV)>,
)
    requires
        forall|j: int|
            0 <= j < log.len() && count_of(counts, #[trigger] log[j].0) <= 1 ==> !is_prefix(
                doc + seq![sep()],
                log[j].0,
            ),
        forall|t: Seq<char>| #[trigger] count_of(st.indices, t) + log.len() <= u32::MAX,
    ensures
        forall|j: int|
            0 <= j < log.len() && count_of(counts, #[trigger] log[j].0) > 1 ==> {
                let i = (count_of(st.indices, log[j].0) + occurrences(log, j, log[j].0)) as u32;
                let m = place_all(st, counts, doc, log).result;
                m.contains_key(stable_key(doc, log[j].0, i)) && m[stable_key(doc, log[j].0, i)] == enhanced(
                    log[j].1,
                    log[j].0,
                    doc,
                    i,
                )
            },
        forall|j: int|
            0 <= j < log.len() && count_of(counts, #[trigger] log[j].0) <= 1 && (forall|l: int|
                j < l < log.len() ==> log[l].0 != log[j].0) ==> {
                let m = place_all(st, counts, doc, log).result;
                m.contains_key(log[j].0) && m[log[j].0] == log[j].1
            },
    decreases log.len(),
{
    if log.len() > 0 {
        let t0 = log[0].0;
        let v0 = log[0].1;
        let st1 = place(st, counts, doc, t0, v0);
        let rest = log.drop_first();
        let fin = place_all(st, counts, doc, log).result;
        assert(fin == place_all(st1, counts, doc, rest).result);
        assert forall|j: int|
            0 <= j < rest.len() && count_of(counts, #[trigger] rest[j].0) <= 1 implies !is_prefix(
                doc + seq![sep()],
                rest[j].0,
            ) by {
            assert(rest[j] == log[j + 1]);
        }
        assert forall|t: Seq<char>| #[trigger] count_of(st1.indices, t) + rest.len() <= u32::MAX by {
            assert(count_of(st.indices, t) + log.len() <= u32::MAX);
        }
        lemma_place_all_kept(st1, counts, doc, rest);
        let k0 = placed_key(st, counts, doc, t0);
        let i0 = count_of(st.indices, t0);
        assert(count_of(st.indices, t0) + log.len() <= u32::MAX);
        // the first element stays where it was put
        if count_of(counts, t0) > 1 {
            assert forall|j: int| 0 <= j < rest.len() && count_of(counts, #[trigger] rest[j].0) <= 1 implies rest[j].0
                != k0 by {
                assert(rest[j] == log[j + 1]);
                lemma_stable_key_prefix(doc, t0, i0 as u32);
            }
            assert forall|j: int, i: nat|
                0 <= j < rest.len() && count_of(counts, rest[j].0) > 1 && count_of(st1.indices, rest[j].0) <= i
                    <= count_of(st1.indices, rest[j].0) + rest.len() implies #[trigger] stable_key(doc, rest[j].0, i as u32)
                != k0 by {
                assert(rest[j] == log[j + 1]);
                let t = rest[j].0;
                assert(count_of(st.indices, t) + log.len() <= u32::MAX);
                if stable_key(doc, t, i as u32) == k0 {
                    lemma_stable_key_injective(doc, t, i as u32, t0, i0 as u32);
                    assert(count_of(st1.indices, t0) == i0 + 1);
                }
            }
            lemma_place_all_keeps(st1, counts, doc, rest, k0);
        } else if forall|l: int| 0 < l < log.len() ==> #[trigger] log[l].0 != t0 {
            assert forall|j: int| 0 <= j < rest.len() && count_of(counts, #[trigger] rest[j].0) <= 1 implies rest[j].0
                != k0 by {
                assert(rest[j] == log[j + 1]);
            }
            assert forall|j: int, i: nat|
                0 <= j < rest.len() && count_of(counts, rest[j].0) > 1 && count_of(st1.indices, rest[j].0) <= i
                    <= count_of(st1.indices, rest[j].0) + rest.len() implies #[trigger] stable_key(doc, rest[j].0, i as u32)
                != k0 by {
                lemma_stable_key_prefix(doc, rest[j].0, i as u32);
            }
            lemma_place_all_keeps(st1, counts, doc, rest, k0);
        }
        // the later elements, by the induction
        assert forall|j: int| 0 <= j < log.len() && count_of(counts, #[trigger] log[j].0) > 1 implies {
            let i = (count_of(st.indices, log[j].0) + occurrences(log, j, log[j].0)) as u32;
            fin.contains_key(stable_key(doc, log[j].0, i)) && fin[stable_key(doc, log[j].0, i)] == enhanced(
                log[j].1,
                log[j].0,
                doc,
                i,
            )
        } by {
            if j > 0 {
                let t = log[j].0;
                assert(rest[j - 1] == log[j]);
                assert(occurrences(log, j, t) == (if t0 == t { 1nat } else { 0nat }) + occurrences(rest, j - 1, t));
            }
        }
        assert forall|j: int|
            0 <= j < log.len() && count_of(counts, #[trigger] log[j].0) <= 1 && (forall|l: int|
                j < l < log.len() ==> log[l].0 != log[j].0) implies fin.contains_key(log[j].0) && fin[log[j].0]
            == log[j].1 by {
            if j > 0 {
                assert(rest[j - 1] == log[j]);
                assert forall|l: int| j - 1 < l < rest.len() implies #[trigger] rest[l].0 != rest[j - 1].0 by {
                    assert(rest[l] == log[l + 1]);
                }
            }
        }
    }
}

/// Reading the detail section with stable keys loses no element: every
/// element directly inside `<detail>` whose tag occurs more than once there
/// is a member under the stable key `<doc>_<tag>_<i>`, `i` counting the
/// earlier elements of its tag, with its value and metadata; every other
/// element is a member under its tag, its value as read, unless a later
/// element of that tag replaced it. This holds where no tag that occurs at
/// most once starts with the document id and `_` (so that it cannot be a
/// stable key), and the number of elements fits in a `u32`.
pub proof fn lemma_stable_detail_keeps_elements(input: Seq<u8>, doc: Seq<char>)
    requires
        forall|j: int|
            0 <= j < stable_elements(input, doc).len() && count_of(
                element_counts(input),
                #[trigger] stable_elements(input, doc)[j].0,
            ) <= 1 ==> !is_prefix(doc + seq![sep()], stable_elements(input, doc)[j].0),
        stable_elements(input, doc).len() <= u32::MAX,
    ensures
        forall|j: int|
            0 <= j < stable_elements(input, doc).len() && count_of(
                element_counts(input),
                #[trigger] stable_elements(input, doc)[j].0,
            ) > 1 ==> {
                let log = stable_elements(input, doc);
                let i = occurrences(log, j, log[j].0) as u32;
                stable_detail(input, doc).contains_key(stable_key(doc, log[j].0, i)) && stable_detail(input, doc)[stable_key(
                    doc,
                    log[j].0,
                    i,
                )] == enhanced(log[j].1, log[j].0, doc, i)
            },
        forall|j: int|
            0 <= j < stable_elements(input, doc).len() && count_of(
                element_counts(input),
                #[trigger] stable_elements(input, doc)[j].0,
            ) <= 1 && (forall|l: int|
                j < l < stable_elements(input, doc).len() ==> stable_elements(input, doc)[l].0 != stable_elements(
                    input,
                    doc,
                )[j].0) ==> {
                let log = stable_elements(input, doc);
                stable_detail(input, doc).contains_key(log[j].0) && stable_detail(input, doc)[log[j].0] == log[j].1
            },
{
    let st = StableState { in_detail: false, frames: Seq::empty(), result: Map::empty(), indices: Map::empty() };
    let counts = element_counts(input);
    let log = stable_elements(input, doc);
    lemma_stable_run_places(input, cursor_start(input), st, counts, doc);
    assert forall|t: Seq<char>| #[trigger] count_of(st.indices, t) + log.len() <= u32::MAX by {}
    lemma_place_all_kept(st, counts, doc, log);
    assert forall|j: int| 0 <= j < log.len() implies #[trigger] count_of(st.indices, log[j].0) == 0 by {}
}

} // verus!

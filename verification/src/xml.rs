//! A pull reader over XML text: the events that quick-xml reads one at a
//! time, with whitespace around text trimmed and end tags checked against
//! the start tags that are still open, as a reader made by
//! `Reader::from_str` with `trim_text(true)` reads them.
//!
//! quick-xml reads each event; this module keeps the reading position and
//! the stack of open names, so that what an event is depends only on the
//! input and on the cursor.
use vstd::prelude::*;
use quick_xml::events::attributes::Attributes;
use quick_xml::events::Event::{CData, Empty, End, Eof, Start, Text};
use quick_xml::Reader;

verus! {

/// What quick-xml read at a position.
#[derive(PartialEq, Eq, Structural, Clone, Copy)]
pub enum RawKind {
    Start,
    Empty,
    End,
    Text,
    CData,
    Eof,
    Error,
    Other,
}

/// One event as quick-xml reads it from a position: the bytes of a start or
/// empty tag between `<` and `>` (without the `/` of an empty tag), the name
/// of an end tag, the trimmed raw bytes of a text, or the bytes of a CDATA
/// section; the length of the
/// name at the start of a tag; and the reader's position after the event,
/// counted from where reading began.
pub struct RawEvent {
    pub kind: RawKind,
    pub content: Vec<u8>,
    pub name_len: usize,
    pub end: usize,
}

/// The view of a raw event.
pub struct RawEventV {
    pub kind: RawKind,
    pub content: Seq<u8>,
    pub name_len: nat,
    pub end: nat,
}

impl View for RawEvent {
    type V = RawEventV;

    open spec fn view(&self) -> RawEventV {
        RawEventV { kind: self.kind, content: self.content@, name_len: self.name_len as nat, end: self.end as nat }
    }
}

/// The event that quick-xml reads first from `input` at byte `pos`.
pub uninterp spec fn xml_next_spec(input: Seq<u8>, pos: nat) -> RawEventV;

/// One attribute as quick-xml's attribute iterator yields it: its raw key
/// and raw value, or the text of the error it reports.
pub struct RawAttr {
    pub key: Vec<u8>,
    pub value: Vec<u8>,
    pub error: Option<String>,
}

/// The view of a raw attribute.
pub struct RawAttrV {
    pub key: Seq<u8>,
    pub value: Seq<u8>,
    pub error: Option<Seq<char>>,
}

impl View for RawAttr {
    type V = RawAttrV;

    open spec fn view(&self) -> RawAttrV {
        RawAttrV {
            key: self.key@,
            value: self.value@,
            error: match self.error {
                Some(e) => Some(e@),
                None => None,
            },
        }
    }
}

/// The attributes that quick-xml finds in the bytes of a tag whose name is
/// `name_len` bytes long.
pub uninterp spec fn xml_attributes_spec(content: Seq<u8>, name_len: nat) -> Seq<RawAttrV>;

/// What quick-xml's `unescape` gives of raw bytes: the text, or no text and
/// the text of the error it reports.
pub uninterp spec fn xml_unescape_spec(raw: Seq<u8>) -> (Option<Seq<char>>, Seq<char>);

/// The text that `String::from_utf8_lossy` gives of bytes.
pub uninterp spec fn utf8_lossy_spec(bytes: Seq<u8>) -> Seq<char>;

/// The message of quick-xml's error for an end tag `found` that does not
/// close the open start tag `expected`, both read as UTF-8: `Expecting
/// </expected> found </found>`, as bytes.
pub open spec fn mismatch_message_spec(expected: Seq<u8>, found: Seq<u8>) -> Seq<u8> {
    vstd::utf8::encode_utf8(
        seq!['E', 'x', 'p', 'e', 'c', 't', 'i', 'n', 'g', ' ', '<', '/'] + utf8_lossy_spec(expected) + seq![
            '>',
            ' ',
            'f',
            'o',
            'u',
            'n',
            'd',
            ' ',
            '<',
            '/',
        ] + utf8_lossy_spec(found) + seq!['>'],
    )
}

/// Whether a character has the Unicode `White_Space` property, as
/// `char::is_whitespace` tells: tab, line feed, vertical tab, form feed,
/// carriage return, space, next line, no-break space, ogham space mark, the
/// spaces from en quad to hair space, line and paragraph separator, narrow
/// no-break space, medium mathematical space and ideographic space.
pub open spec fn white_space_spec(c: char) -> bool {
    let n = c as u32;
    ||| 0x09 <= n <= 0x0D
    ||| n == 0x20
    ||| n == 0x85
    ||| n == 0xA0
    ||| n == 0x1680
    ||| 0x2000 <= n <= 0x200A
    ||| n == 0x2028
    ||| n == 0x2029
    ||| n == 0x202F
    ||| n == 0x205F
    ||| n == 0x3000
}

/// The kind of the event that quick-xml reads first from `input[pos..]`:
/// a new `Reader::from_reader` with `trim_text(true)` and
/// `check_end_names(false)` calls `read_event` once. The contract names it.
#[verifier::external_body]
fn read_event_kind(input: &[u8], pos: usize) -> (r: RawKind)
    requires
        pos <= input@.len(),
    ensures
        r == xml_next_spec(input@, pos as nat).kind,
{
    let mut reader = Reader::from_reader(&input[pos..]);
    reader.trim_text(true).check_end_names(false);
    match reader.read_event() {
        Ok(Start(_)) => RawKind::Start,
        Ok(Empty(_)) => RawKind::Empty,
        Ok(End(_)) => RawKind::End,
        Ok(Text(_)) => RawKind::Text,
        Ok(CData(_)) => RawKind::CData,
        Ok(Eof) => RawKind::Eof,
        Ok(_) => RawKind::Other,
        Err(_) => RawKind::Error,
    }
}

/// The bytes, name length and end position of the event that quick-xml
/// reads first from `input[pos..]` (read as `read_event_kind` reads it):
/// a start or empty tag's bytes and its name's length, an end tag's name,
/// a text's or a CDATA section's bytes, an error's `Display` text, and the reader's position
/// after the event. The contract names them and states that the position
/// stays within the bytes read, that a name lies within its tag's bytes
/// (quick-xml's `emit_start` takes its length from a position in them), and
/// that reading a start or empty tag moves past its `<`, bytes and `>`.
#[verifier::external_body]
fn read_event_content(input: &[u8], pos: usize) -> (r: (Vec<u8>, usize, usize))
    requires
        pos <= input@.len(),
    ensures
        r.0@ == xml_next_spec(input@, pos as nat).content,
        r.1 == xml_next_spec(input@, pos as nat).name_len,
        r.2 == xml_next_spec(input@, pos as nat).end,
        r.2 <= input@.len() - pos,
        r.1 <= r.0@.len(),
        (xml_next_spec(input@, pos as nat).kind == RawKind::Start || xml_next_spec(input@, pos as nat).kind
            == RawKind::Empty) ==> r.2 >= r.0@.len() + 2,
{
    let mut reader = Reader::from_reader(&input[pos..]);
    reader.trim_text(true).check_end_names(false);
    let (content, name_len) = match reader.read_event() {
        Ok(Start(e)) | Ok(Empty(e)) => (e.to_vec(), e.name().0.len()),
        Ok(End(e)) => (e.name().0.to_vec(), 0),
        Ok(Text(e)) => (e.to_vec(), 0),
        Ok(CData(e)) => (e.to_vec(), 0),
        Ok(_) => (vec![], 0),
        Err(e) => (e.to_string().into_bytes(), 0),
    };
    (content, name_len, reader.buffer_position())
}

/// The event that quick-xml reads first from `input` at `pos`.
fn read_raw_event(input: &[u8], pos: usize) -> (r: RawEvent)
    requires
        pos <= input@.len(),
    ensures
        r@ == xml_next_spec(input@, pos as nat),
        r.end <= input@.len() - pos,
        r.name_len <= r.content@.len(),
        (r.kind == RawKind::Start || r.kind == RawKind::Empty) ==> r.end >= r.content@.len() + 2,
{
    let kind = read_event_kind(input, pos);
    let (content, name_len, end) = read_event_content(input, pos);
    RawEvent { kind, content, name_len, end }
}

/// The attributes of a tag, as quick-xml's `Attributes` iterator yields
/// them over the tag's bytes (read as UTF-8) after its name: each as its
/// raw key and raw value, or as the text of the error it reports. The
/// contract names the list.
#[verifier::external_body]
pub(crate) fn raw_attributes(content: &[u8], name_len: usize) -> (r: Vec<RawAttr>)
    requires
        name_len <= content@.len(),
    ensures
        r@.map_values(|a: RawAttr| a@) == xml_attributes_spec(content@, name_len as nat),
{
    let text = String::from_utf8_lossy(content);
    let mut out = Vec::new();
    for a in Attributes::new(&text, name_len) {
        out.push(match a {
            Ok(a) => RawAttr { key: a.key.as_ref().to_vec(), value: a.value.to_vec(), error: None },
            Err(e) => RawAttr { key: Vec::new(), value: Vec::new(), error: Some(e.to_string()) },
        });
    }
    out
}

/// quick-xml's `escape::unescape` of bytes read as UTF-8: the predefined
/// and numeric character references replaced, or no text and the text of
/// the error the function reports. The contract names the result.
#[verifier::external_body]
pub(crate) fn unescape_bytes(raw: &[u8]) -> (r: (Option<String>, String))
    ensures
        r.deep_view() == xml_unescape_spec(raw@),
{
    match quick_xml::escape::unescape(&String::from_utf8_lossy(raw)) {
        Ok(s) => (Some(s.into_owned()), String::new()),
        Err(e) => (None, e.to_string()),
    }
}

/// `String::from_utf8_lossy`: the text of UTF-8 bytes, with a replacement
/// character for each malformed sequence. The contract names the result
/// and states what the documentation gives for valid UTF-8: its decoding.
#[verifier::external_body]
pub(crate) fn lossy_text(bytes: &[u8]) -> (r: String)
    ensures
        r@ == utf8_lossy_spec(bytes@),
        vstd::utf8::valid_utf8(bytes@) ==> r@ == vstd::utf8::decode_utf8(bytes@),
{
    String::from_utf8_lossy(bytes).into_owned()
}

/// The `Display` text of quick-xml's `Error::EndEventMismatch` for an
/// end tag `found` where the start tag `expected` is open (both read as
/// UTF-8), as bytes: the text that quick-xml's `Display` impl writes for
/// that error (see `mismatch_message_spec`).
#[verifier::external_body]
fn end_mismatch_message(expected: &[u8], found: &[u8]) -> (r: Vec<u8>)
    ensures
        r@ == mismatch_message_spec(expected@, found@),
{
    let expected = String::from_utf8_lossy(expected).into_owned();
    let found = String::from_utf8_lossy(found).into_owned();
    quick_xml::Error::EndEventMismatch { expected, found }.to_string().into_bytes()
}

/// Whether the character has the Unicode `White_Space` property, as
/// `char::is_whitespace` tells (see `white_space_spec`).
pub(crate) fn is_white_space(c: char) -> (r: bool)
    ensures
        r == white_space_spec(c),
{
    let n = c as u32;
    (0x09 <= n && n <= 0x0D) || n == 0x20 || n == 0x85 || n == 0xA0 || n == 0x1680 || (0x2000 <= n && n <= 0x200A)
        || n == 0x2028 || n == 0x2029 || n == 0x202F || n == 0x205F || n == 0x3000
}

/// The kinds of event that a cursor hands out. `Eof` also stands for an
/// error, after which the reader reads nothing more.
#[derive(PartialEq, Eq, Structural, Clone, Copy)]
pub enum EventKind {
    Start,
    Empty,
    End,
    Text,
    CData,
    Eof,
    Other,
}

/// An event handed out by a cursor: a tag's bytes and the length of its
/// name (start and empty tags), an end tag's name, or the raw bytes of a
/// text or a CDATA section.
/// An end of reading that an error caused is `failed`, and its bytes are
/// the error's message.
pub struct XmlEvent {
    pub kind: EventKind,
    pub content: Vec<u8>,
    pub name_len: usize,
    pub failed: bool,
}

/// The view of an event.
pub struct XmlEventV {
    pub kind: EventKind,
    pub content: Seq<u8>,
    pub name_len: nat,
    pub failed: bool,
}

impl View for XmlEvent {
    type V = XmlEventV;

    open spec fn view(&self) -> XmlEventV {
        XmlEventV { kind: self.kind, content: self.content@, name_len: self.name_len as nat, failed: self.failed }
    }
}

/// The name of a start or empty tag.
pub open spec fn event_name(e: XmlEventV) -> Seq<u8> {
    if e.kind == EventKind::End {
        e.content
    } else {
        e.content.subrange(0, e.name_len as int)
    }
}

/// A reading position in XML text, with the names of the start tags read
/// and not yet closed, innermost last.
pub struct XmlCursor {
    pos: usize,
    open: Vec<Vec<u8>>,
    done: bool,
}

/// The view of a cursor.
pub struct CursorV {
    pub pos: nat,
    pub open: Seq<Seq<u8>>,
    pub done: bool,
}

impl View for XmlCursor {
    type V = CursorV;

    closed spec fn view(&self) -> CursorV {
        CursorV { pos: self.pos as nat, open: self.open@.map_values(|v: Vec<u8>| v@), done: self.done }
    }
}

/// The bytes of the UTF-8 byte order mark.
pub open spec fn bom() -> Seq<u8> {
    seq![0xEFu8, 0xBBu8, 0xBFu8]
}

/// `input` has the byte order mark at `pos`.
pub open spec fn bom_at(input: Seq<u8>, pos: nat) -> bool {
    pos + 3 <= input.len() && input.subrange(pos as int, pos + 3int) == bom()
}

/// A cursor at the start of `input`, past a byte order mark.
pub open spec fn cursor_start(input: Seq<u8>) -> CursorV {
    CursorV { pos: if bom_at(input, 0) { 3 } else { 0 }, open: Seq::empty(), done: false }
}

/// A cursor that reads nothing more.
pub open spec fn cursor_done(c: CursorV) -> CursorV {
    CursorV { pos: c.pos, open: c.open, done: true }
}

/// The end-of-input event.
pub open spec fn eof_event() -> XmlEventV {
    XmlEventV { kind: EventKind::Eof, content: Seq::empty(), name_len: 0, failed: false }
}

/// The end of reading that an error with message `msg` causes.
pub open spec fn error_event(msg: Seq<u8>) -> XmlEventV {
    XmlEventV { kind: EventKind::Eof, content: msg, name_len: 0, failed: true }
}

/// A cursor that can still read: not done, within the input.
pub open spec fn cursor_ok(input: Seq<u8>, c: CursorV) -> bool {
    c.pos <= input.len()
}

/// How much a cursor has left to read.
pub open spec fn cursor_measure(input: Seq<u8>, c: CursorV) -> nat {
    if c.done || c.pos > input.len() {
        0
    } else {
        (input.len() - c.pos + 1) as nat
    }
}

/// The event that the reader reads next from a cursor, and the cursor after
/// it. quick-xml reads from the cursor's position; the cursor then moves
/// past a tag, and past a text when an `<` follows it (a text that runs to
/// the end of the input ends the reading). An end tag that does not close
/// the innermost open start tag is an error, as is any event that does not
/// move the position, and a byte order mark after the start of the input
/// (where a reader that began at the start would have read it as text).
pub open spec fn cursor_step(input: Seq<u8>, c: CursorV) -> (XmlEventV, CursorV) {
    if c.done || c.pos > input.len() || (c.pos > 0 && bom_at(input, c.pos)) {
        (eof_event(), cursor_done(c))
    } else {
        let r = xml_next_spec(input, c.pos);
        let next = c.pos + r.end;
        let ev = XmlEventV { kind: EventKind::Other, content: r.content, name_len: r.name_len, failed: false };
        let moved = CursorV { pos: next, open: c.open, done: c.done };
        match r.kind {
            RawKind::Eof => (eof_event(), cursor_done(c)),
            RawKind::Error => (error_event(r.content), cursor_done(c)),
            RawKind::Text => {
                let tev = XmlEventV { kind: EventKind::Text, ..ev };
                if r.end > 0 && next < input.len() && input[next as int] == 0x3Cu8 {
                    (tev, moved)
                } else {
                    (tev, cursor_done(c))
                }
            },
            _ => if r.end == 0 {
                (eof_event(), cursor_done(c))
            } else {
                match r.kind {
                    RawKind::Start => (
                        XmlEventV { kind: EventKind::Start, ..ev },
                        CursorV { open: c.open.push(r.content.subrange(0, r.name_len as int)), ..moved },
                    ),
                    RawKind::Empty => (XmlEventV { kind: EventKind::Empty, ..ev }, moved),
                    RawKind::CData => (XmlEventV { kind: EventKind::CData, ..ev }, moved),
                    RawKind::End => if c.open.len() > 0 && c.open.last() == r.content {
                        (XmlEventV { kind: EventKind::End, ..ev }, CursorV { open: c.open.drop_last(), ..moved })
                    } else {
                        let expected = if c.open.len() > 0 { c.open.last() } else { Seq::empty() };
                        (error_event(mismatch_message_spec(expected, r.content)), cursor_done(c))
                    },
                    _ => (ev, moved),
                }
            },
        }
    }
}

/// Each step of a cursor leaves less to read, until nothing is left.
pub proof fn lemma_step_measure(input: Seq<u8>, c: CursorV)
    requires
        cursor_measure(input, c) > 0,
    ensures
        cursor_measure(input, cursor_step(input, c).1) < cursor_measure(input, c),
{
}

impl XmlCursor {
    /// A cursor at the start of `input`.
    pub fn new(input: &[u8]) -> (r: XmlCursor)
        ensures
            r@ == cursor_start(input@),
            r@.pos <= input@.len(),
    {
        let pos: usize = if input.len() >= 3 && input[0] == 0xEFu8 && input[1] == 0xBBu8 && input[2] == 0xBFu8 {
            3
        } else {
            0
        };
        proof {
            if input@.len() >= 3 && input@[0] == 0xEFu8 && input@[1] == 0xBBu8 && input@[2] == 0xBFu8 {
                assert(input@.subrange(0, 3) =~= bom());
            } else if input@.len() >= 3 {
                assert(input@.subrange(0, 3)[0] == input@[0]);
                assert(input@.subrange(0, 3)[1] == input@[1]);
                assert(input@.subrange(0, 3)[2] == input@[2]);
            }
        }
        let r = XmlCursor { pos, open: Vec::new(), done: false };
        assert(r@.open =~= Seq::<Seq<u8>>::empty());
        r
    }

    /// Whether the cursor reads nothing more.
    pub fn is_done(&self) -> (r: bool)
        ensures
            r == self@.done,
    {
        self.done
    }

    /// The cursor's position.
    pub fn position(&self) -> (r: usize)
        ensures
            r == self@.pos,
    {
        self.pos
    }

    /// Reads the next event.
    pub fn next_event(&mut self, input: &[u8]) -> (r: XmlEvent)
        ensures
            (r@, final(self)@) == cursor_step(input@, old(self)@),
            r.name_len <= r.content@.len(),
            old(self)@.pos <= input@.len() ==> final(self)@.pos <= input@.len(),
            (r.kind == EventKind::Start || r.kind == EventKind::Empty) ==> final(self)@.pos >= old(self)@.pos
                + r.content@.len() + 2,
    {
        let ghost c = self@;
        if self.done || self.pos > input.len() || (self.pos > 0 && bom_bytes_at(input, self.pos)) {
            self.done = true;
            return XmlEvent { kind: EventKind::Eof, content: Vec::new(), name_len: 0, failed: false };
        }
        let r = read_raw_event(input, self.pos);
        let next = self.pos + r.end;
        proof {
            assert(r@ == xml_next_spec(input@, c.pos));
        }
        match r.kind {
            RawKind::Eof => {
                self.done = true;
                XmlEvent { kind: EventKind::Eof, content: Vec::new(), name_len: 0, failed: false }
            },
            RawKind::Error => {
                self.done = true;
                XmlEvent { kind: EventKind::Eof, content: r.content, name_len: 0, failed: true }
            },
            RawKind::Text => {
                if r.end > 0 && next < input.len() && input[next] == 0x3Cu8 {
                    self.pos = next;
                } else {
                    self.done = true;
                }
                XmlEvent { kind: EventKind::Text, content: r.content, name_len: r.name_len, failed: false }
            },
            _ => {
                if r.end == 0 {
                    self.done = true;
                    return XmlEvent { kind: EventKind::Eof, content: Vec::new(), name_len: 0, failed: false };
                }
                match r.kind {
                    RawKind::Start => {
                        let name = copy_prefix(&r.content, r.name_len);
                        self.open.push(name);
                        self.pos = next;
                        proof {
                            assert(self.open@.map_values(|v: Vec<u8>| v@) =~= c.open.push(
                                r@.content.subrange(0, r@.name_len as int),
                            ));
                        }
                        XmlEvent { kind: EventKind::Start, content: r.content, name_len: r.name_len, failed: false }
                    },
                    RawKind::Empty => {
                        self.pos = next;
                        XmlEvent { kind: EventKind::Empty, content: r.content, name_len: r.name_len, failed: false }
                    },
                    RawKind::CData => {
                        self.pos = next;
                        XmlEvent { kind: EventKind::CData, content: r.content, name_len: r.name_len, failed: false }
                    },
                    RawKind::End => {
                        let n = self.open.len();
                        if n > 0 && bytes_eq(self.open[n - 1].as_slice(), r.content.as_slice()) {
                            self.open.pop();
                            self.pos = next;
                            proof {
                                assert(self.open@.map_values(|v: Vec<u8>| v@) =~= c.open.drop_last());
                            }
                            XmlEvent { kind: EventKind::End, content: r.content, name_len: r.name_len, failed: false }
                        } else {
                            let expected: Vec<u8> = if n > 0 {
                                copy_prefix(self.open[n - 1].as_slice(), self.open[n - 1].len())
                            } else {
                                Vec::new()
                            };
                            proof {
                                if n > 0 {
                                    assert(c.open.last() == self.open@[n - 1]@);
                                    assert(self.open@[n - 1]@.subrange(0, self.open@[n - 1]@.len() as int) =~= self.open@[n - 1]@);
                                } else {
                                    assert(expected@ =~= Seq::<u8>::empty());
                                }
                            }
                            let msg = end_mismatch_message(expected.as_slice(), r.content.as_slice());
                            self.done = true;
                            XmlEvent { kind: EventKind::Eof, content: msg, name_len: 0, failed: true }
                        }
                    },
                    _ => {
                        self.pos = next;
                        XmlEvent { kind: EventKind::Other, content: r.content, name_len: r.name_len, failed: false }
                    },
                }
            },
        }
    }
}

/// Whether `input` has the byte order mark at `pos`.
fn bom_bytes_at(input: &[u8], pos: usize) -> (r: bool)
    requires
        pos <= input@.len(),
    ensures
        r == bom_at(input@, pos as nat),
{
    if input.len() - pos >= 3 && input[pos] == 0xEFu8 && input[pos + 1] == 0xBBu8 && input[pos + 2] == 0xBFu8 {
        assert(input@.subrange(pos as int, pos + 3) =~= bom());
        true
    } else {
        proof {
            if pos + 3 <= input@.len() {
                let s = input@.subrange(pos as int, pos + 3);
                assert(s[0] == input@[pos as int]);
                assert(s[1] == input@[pos + 1]);
                assert(s[2] == input@[pos + 2]);
            }
        }
        false
    }
}

/// Whether two byte strings are equal.
pub fn bytes_eq(a: &[u8], b: &[u8]) -> (r: bool)
    ensures
        r == (a@ == b@),
{
    if a.len() != b.len() {
        return false;
    }
    let mut i: usize = 0;
    while i < a.len()
        invariant
            a@.len() == b@.len(),
            i <= a@.len(),
            forall|j: int| 0 <= j < i ==> a@[j] == b@[j],
        decreases a@.len() - i,
    {
        if a[i] != b[i] {
            return false;
        }
        i = i + 1;
    }
    assert(a@ =~= b@);
    true
}

/// The first `n` bytes.
pub fn copy_prefix(v: &[u8], n: usize) -> (r: Vec<u8>)
    requires
        n <= v@.len(),
    ensures
        r@ == v@.subrange(0, n as int),
{
    let mut r: Vec<u8> = Vec::new();
    let mut i: usize = 0;
    while i < n
        invariant
            n <= v@.len(),
            i <= n,
            r@ == v@.subrange(0, i as int),
        decreases n - i,
    {
        r.push(v[i]);
        i = i + 1;
        assert(r@ =~= v@.subrange(0, i as int));
    }
    r
}

} // verus!

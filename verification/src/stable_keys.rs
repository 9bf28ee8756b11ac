//! Stable keys for repeated detail elements, so that peers of a CRDT
//! network address the same element the same way: `<docId>_<tag>_<index>`,
//! the metadata that lets an element be written back to XML, and the
//! writing back itself.
use vstd::prelude::*;
use crate::json::{JsonMap, JsonNumber, JsonValue, JsonV, key_order, json_text, push_json_text};
use crate::text::{
    chars_of, concat, decimal, digits_value, is_prefix, lemma_lt_irreflexive, lemma_parse_decimal, parse_u32,
    parse_u32_spec,
    push_char, split_chars, split_on, starts_with, string_of, u32_to_string, string_from_chars,
};

verus! {

/// The separator inside stable keys.
pub open spec fn sep() -> char {
    '_'
}

/// The stable key of the `index`-th `tag` element of document `doc_id`.
pub open spec fn stable_key(doc_id: Seq<char>, tag: Seq<char>, index: u32) -> Seq<char> {
    doc_id + seq![sep()] + tag + seq![sep()] + decimal(index as nat)
}

/// `key` is a stable key: split at `_` into at least three pieces, the last
/// of which reads as a `u32`.
pub open spec fn is_stable_key_spec(key: Seq<char>) -> bool {
    let parts = split_on(key, sep());
    parts.len() >= 3 && parse_u32_spec(parts.last()) is Some
}

/// The tag and index a stable key names: the piece before the last, and
/// the last piece read as a `u32`.
pub open spec fn parse_stable_key_spec(key: Seq<char>) -> Option<(Seq<char>, u32)> {
    let parts = split_on(key, sep());
    if parts.len() >= 3 && parse_u32_spec(parts.last()) is Some {
        Some((parts[parts.len() - 2], parse_u32_spec(parts.last())->0))
    } else {
        None
    }
}

/// `s` holds no `_`.
pub open spec fn no_sep(s: Seq<char>) -> bool {
    forall|i: int| 0 <= i < s.len() ==> #[trigger] s[i] != sep()
}

/// Generates the stable key for a repeated element: `<docId>_<tag>_<index>`.
pub fn generate_stable_key(document_id: &str, element_name: &str, index: u32) -> (r: String)
    ensures
        r@ == stable_key(document_id@, element_name@, index),
{
    let mut r = String::new();
    r.append(document_id);
    push_char(&mut r, '_');
    r.append(element_name);
    push_char(&mut r, '_');
    let n = u32_to_string(index);
    r.append(n.as_str());
    assert(r@ =~= stable_key(document_id@, element_name@, index));
    r
}

/// Whether `key` is a stable key (at least three `_`-separated pieces, the
/// last a number).
pub fn is_stable_key(key: &str) -> (r: bool)
    ensures
        r == is_stable_key_spec(key@),
{
    let c = chars_of(key);
    let parts = split_chars(&c, '_');
    if parts.len() < 3 {
        return false;
    }
    let last = &parts[parts.len() - 1];
    parse_u32(last).is_some()
}

/// The tag and index that a stable key names, if it is one.
pub fn parse_stable_key(key: &str) -> (r: Option<(String, u32)>)
    ensures
        match r {
            Some((t, i)) => parse_stable_key_spec(key@) == Some((t@, i)),
            None => parse_stable_key_spec(key@) is None,
        },
{
    let c = chars_of(key);
    let parts = split_chars(&c, '_');
    if parts.len() < 3 {
        return None;
    }
    let last = &parts[parts.len() - 1];
    match parse_u32(last) {
        Some(index) => {
            let tag = string_from_chars(&parts[parts.len() - 2]);
            Some((tag, index))
        },
        None => None,
    }
}

/// Splitting after a separator adds the separator-free tail as one piece.
pub proof fn lemma_split_append(a: Seq<char>, b: Seq<char>)
    requires
        no_sep(b),
    ensures
        split_on(a + seq![sep()] + b, sep()) == split_on(a, sep()).push(b),
    decreases b.len(),
{
    let s = a + seq![sep()] + b;
    if b.len() == 0 {
        assert(s.drop_last() =~= a);
        assert(s =~= a + seq![sep()]);
        assert(b =~= Seq::<char>::empty());
    } else {
        assert(s.drop_last() =~= a + seq![sep()] + b.drop_last());
        assert(no_sep(b.drop_last()));
        lemma_split_append(a, b.drop_last());
        crate::text::lemma_split_nonempty(s.drop_last(), sep());
        assert(s.last() == b.last());
        assert(b[b.len() - 1] != sep());
        let rest = split_on(s.drop_last(), sep());
        assert(rest == split_on(a, sep()).push(b.drop_last()));
        assert(split_on(s, sep()) == rest.update(rest.len() - 1, rest.last().push(s.last())));
        assert(b.drop_last().push(b.last()) =~= b);
        assert(split_on(a, sep()).push(b.drop_last()).update(
            split_on(a, sep()).len() as int,
            b,
        ) =~= split_on(a, sep()).push(b));
    }
}

/// The digits of a number hold no separator.
proof fn lemma_decimal_no_sep(n: nat)
    ensures
        no_sep(decimal(n)),
{
    crate::text::lemma_decimal_parses(n);
    assert forall|i: int| 0 <= i < decimal(n).len() implies #[trigger] decimal(n)[i] != sep() by {
        assert(crate::text::is_digit(decimal(n)[i]));
    }
}

/// A generated stable key is recognised as one and names its tag and index
/// again, whatever the document id, when the tag holds no `_`.
pub proof fn lemma_stable_key_roundtrip(doc_id: Seq<char>, tag: Seq<char>, index: u32)
    requires
        no_sep(tag),
    ensures
        is_stable_key_spec(stable_key(doc_id, tag, index)),
        parse_stable_key_spec(stable_key(doc_id, tag, index)) == Some((tag, index)),
{
    let d = decimal(index as nat);
    lemma_decimal_no_sep(index as nat);
    lemma_parse_decimal(index);
    lemma_split_append(doc_id, tag);
    lemma_split_append(doc_id + seq![sep()] + tag, d);
    crate::text::lemma_split_nonempty(doc_id, sep());
    assert(stable_key(doc_id, tag, index) =~= (doc_id + seq![sep()] + tag) + seq![sep()] + d);
}

/// Distinct elements get distinct stable keys: within one document, a
/// stable key names one tag and one index.
pub proof fn lemma_stable_key_injective(doc_id: Seq<char>, t1: Seq<char>, i1: u32, t2: Seq<char>, i2: u32)
    requires
        stable_key(doc_id, t1, i1) == stable_key(doc_id, t2, i2),
    ensures
        t1 == t2,
        i1 == i2,
{
    let a = doc_id + seq![sep()] + t1;
    let b = doc_id + seq![sep()] + t2;
    let d1 = decimal(i1 as nat);
    let d2 = decimal(i2 as nat);
    lemma_decimal_no_sep(i1 as nat);
    lemma_decimal_no_sep(i2 as nat);
    assert(stable_key(doc_id, t1, i1) =~= a + seq![sep()] + d1);
    assert(stable_key(doc_id, t2, i2) =~= b + seq![sep()] + d2);
    lemma_split_append(a, d1);
    lemma_split_append(b, d2);
    assert(d1 == split_on(a + seq![sep()] + d1, sep()).last());
    assert(d2 == split_on(b + seq![sep()] + d2, sep()).last());
    lemma_parse_decimal(i1);
    lemma_parse_decimal(i2);
    let k = a + seq![sep()] + d1;
    assert(a =~= k.subrange(0, a.len() as int));
    assert(b =~= k.subrange(0, b.len() as int));
    let n = doc_id.len() + 1;
    assert(t1 =~= a.subrange(n as int, a.len() as int));
    assert(t2 =~= b.subrange(n as int, b.len() as int));
}

/// Every stable key of a document starts with the document id and `_`.
pub proof fn lemma_stable_key_prefix(doc_id: Seq<char>, tag: Seq<char>, i: u32)
    ensures
        is_prefix(doc_id + seq![sep()], stable_key(doc_id, tag, i)),
{
    let p = doc_id + seq![sep()];
    assert(stable_key(doc_id, tag, i).subrange(0, p.len() as int) =~= p);
}

/// `i` is the index of an existing key that starts with `prefix`.
pub open spec fn existing_index(m: Map<Seq<char>, JsonV>, prefix: Seq<char>, i: u32) -> bool {
    exists|k: Seq<char>|
        #[trigger] m.contains_key(k) && is_prefix(prefix, k) && parse_u32_spec(k.skip(prefix.len() as int))
            == Some(i)
}

/// The key prefix of the stable keys of `tag` elements of `doc_id`.
pub open spec fn stable_prefix(doc_id: Seq<char>, tag: Seq<char>) -> Seq<char> {
    doc_id + seq![sep()] + tag + seq![sep()]
}

/// The next free index for `element_name` elements of `document_id`: one
/// past the highest index among the keys `<docId>_<tag>_<n>`, or 0 when
/// there is none. Useful when a peer adds an element.
pub fn get_next_available_index(detail_map: &JsonMap, document_id: &str, element_name: &str) -> (r: u32)
    requires
        !existing_index(detail_map@, stable_prefix(document_id@, element_name@), u32::MAX),
    ensures
        forall|i: u32|
            existing_index(detail_map@, stable_prefix(document_id@, element_name@), i) ==> i < r,
        r == 0 || existing_index(detail_map@, stable_prefix(document_id@, element_name@), (r - 1) as u32),
{
    let ghost p = stable_prefix(document_id@, element_name@);
    let mut prefix = String::new();
    prefix.append(document_id);
    push_char(&mut prefix, '_');
    prefix.append(element_name);
    push_char(&mut prefix, '_');
    assert(prefix@ =~= p);
    let pc = chars_of(prefix.as_str());
    proof {
        use_type_invariant(detail_map);
        detail_map.lemma_keys();
    }
    let mut max_index: u32 = 0;
    let mut found_any = false;
    let n = detail_map.len();
    let mut i: usize = 0;
    while i < n
        invariant
            pc@ == p,
            n == detail_map.keys().len(),
            i <= n,
            forall|j: int| 0 <= j < n ==> detail_map@.contains_key(#[trigger] detail_map.keys()[j]),
            forall|k: Seq<char>| #[trigger] detail_map@.contains_key(k) ==> detail_map.keys().contains(k),
            !existing_index(detail_map@, p, u32::MAX),
            found_any ==> existing_index(detail_map@, p, max_index),
            !found_any ==> max_index == 0,
            forall|j: int|
                0 <= j < i && is_prefix(p, #[trigger] detail_map.keys()[j]) && parse_u32_spec(
                    detail_map.keys()[j].skip(p.len() as int),
                ) is Some ==> found_any && parse_u32_spec(detail_map.keys()[j].skip(p.len() as int))->0
                    <= max_index,
        decreases n - i,
    {
        let (k, _) = detail_map.entry_at(i);
        let kc = chars_of(k.as_str());
        if starts_with(&kc, &pc) {
            let mut rest: Vec<char> = Vec::new();
            let mut j: usize = pc.len();
            while j < kc.len()
                invariant
                    pc@.len() <= j <= kc@.len(),
                    rest@ == kc@.subrange(pc@.len() as int, j as int),
                decreases kc@.len() - j,
            {
                rest.push(kc[j]);
                j = j + 1;
                assert(rest@ =~= kc@.subrange(pc@.len() as int, j as int));
            }
            assert(rest@ =~= k@.skip(p.len() as int));
            match parse_u32(&rest) {
                Some(idx) => {
                    assert(existing_index(detail_map@, p, idx));
                    if !found_any || idx > max_index {
                        max_index = idx;
                    }
                    found_any = true;
                },
                None => {},
            }
        }
        i = i + 1;
    }
    if found_any {
        proof {
            assert forall|x: u32| existing_index(detail_map@, p, x) implies x < max_index + 1 by {
                let k = choose|k: Seq<char>|
                    #[trigger] detail_map@.contains_key(k) && is_prefix(p, k) && parse_u32_spec(
                        k.skip(p.len() as int),
                    ) == Some(x);
                let j = choose|j: int| 0 <= j < n && detail_map.keys()[j] == k;
                assert(is_prefix(p, detail_map.keys()[j]));
            }
            if max_index == u32::MAX {
                assert(existing_index(detail_map@, p, u32::MAX));
            }
        }
        max_index + 1
    } else {
        proof {
            assert forall|x: u32| existing_index(detail_map@, p, x) implies x < 0 by {
                let k = choose|k: Seq<char>|
                    #[trigger] detail_map@.contains_key(k) && is_prefix(p, k) && parse_u32_spec(
                        k.skip(p.len() as int),
                    ) == Some(x);
                let j = choose|j: int| 0 <= j < n && detail_map.keys()[j] == k;
                assert(is_prefix(p, detail_map.keys()[j]));
            }
        }
        0
    }
}

/// The stable key for the next free index is not taken yet: a peer that
/// adds an element under it overwrites nothing.
pub proof fn lemma_next_index_fresh(
    m: Map<Seq<char>, JsonV>,
    doc_id: Seq<char>,
    tag: Seq<char>,
    next: u32,
)
    requires
        forall|i: u32| existing_index(m, stable_prefix(doc_id, tag), i) ==> i < next,
    ensures
        !m.contains_key(stable_key(doc_id, tag, next)),
{
    let p = stable_prefix(doc_id, tag);
    let k = stable_key(doc_id, tag, next);
    assert(k =~= p + decimal(next as nat));
    assert(k.subrange(0, p.len() as int) =~= p);
    assert(k.skip(p.len() as int) =~= decimal(next as nat));
    lemma_parse_decimal(next);
    if m.contains_key(k) {
        assert(existing_index(m, p, next));
    }
}

/// The metadata keys.
pub open spec fn tag_key() -> Seq<char> {
    seq!['_', 't', 'a', 'g']
}

pub open spec fn doc_id_key() -> Seq<char> {
    seq!['_', 'd', 'o', 'c', 'I', 'd']
}

pub open spec fn index_key() -> Seq<char> {
    seq!['_', 'e', 'l', 'e', 'm', 'e', 'n', 't', 'I', 'n', 'd', 'e', 'x']
}

pub open spec fn text_key() -> Seq<char> {
    seq!['_', 't', 'e', 'x', 't']
}

pub open spec fn value_key() -> Seq<char> {
    seq!['_', 'v', 'a', 'l', 'u', 'e']
}

/// A number with the value of `i`.
pub open spec fn index_number(i: u32) -> JsonV {
    JsonV::Number(decimal(i as nat), decimal(i as nat))
}

/// The metadata that lets a repeated element be written back.
pub open spec fn metadata(base: Map<Seq<char>, JsonV>, tag: Seq<char>, doc_id: Seq<char>, i: u32) -> Map<
    Seq<char>,
    JsonV,
> {
    base.insert(tag_key(), JsonV::Str(tag)).insert(doc_id_key(), JsonV::Str(doc_id)).insert(
        index_key(),
        index_number(i),
    )
}

/// A value with metadata: an object gets the metadata keys; text becomes an
/// object of metadata and `_text`; any other value an object of metadata and
/// `_value`.
pub open spec fn enhanced(v: JsonV, tag: Seq<char>, doc_id: Seq<char>, i: u32) -> JsonV {
    match v {
        JsonV::Object(m) => JsonV::Object(metadata(m, tag, doc_id, i)),
        JsonV::Str(t) => JsonV::Object(metadata(Map::empty(), tag, doc_id, i).insert(text_key(), JsonV::Str(t))),
        _ => JsonV::Object(metadata(Map::empty(), tag, doc_id, i).insert(value_key(), v)),
    }
}

fn add_metadata(m: &mut JsonMap, tag: &str, doc_id: &str, element_index: u32)
    ensures
        final(m)@ == metadata(old(m)@, tag@, doc_id@, element_index),
{
    m.insert(string_of("_tag"), JsonValue::Str(string_of(tag)));
    m.insert(string_of("_docId"), JsonValue::Str(string_of(doc_id)));
    let digits = u32_to_string(element_index);
    let shown = u32_to_string(element_index);
    m.insert(string_of("_elementIndex"), JsonValue::Number(JsonNumber { text: digits, display: shown }));
    proof {
        reveal_strlit("_tag");
        reveal_strlit("_docId");
        reveal_strlit("_elementIndex");
        assert("_tag"@ =~= tag_key());
        assert("_docId"@ =~= doc_id_key());
        assert("_elementIndex"@ =~= index_key());
    }
}

/// Adds the metadata of a repeated element to its value.
pub fn enhance_with_metadata(value: JsonValue, tag: &str, doc_id: &str, element_index: u32) -> (r: JsonValue)
    ensures
        r@ == enhanced(value@, tag@, doc_id@, element_index),
{
    match value {
        JsonValue::Object(mut m) => {
            add_metadata(&mut m, tag, doc_id, element_index);
            JsonValue::Object(m)
        },
        JsonValue::Str(text) => {
            let mut m = JsonMap::new();
            add_metadata(&mut m, tag, doc_id, element_index);
            m.insert(string_of("_text"), JsonValue::Str(text));
            proof {
                reveal_strlit("_text");
                assert("_text"@ =~= text_key());
            }
            JsonValue::Object(m)
        },
        other => {
            let ghost ov = other@;
            let mut m = JsonMap::new();
            add_metadata(&mut m, tag, doc_id, element_index);
            m.insert(string_of("_value"), other);
            proof {
                reveal_strlit("_value");
                assert("_value"@ =~= value_key());
                assert(ov !is Object && ov !is Str);
            }
            JsonValue::Object(m)
        },
    }
}

/// Keys that are not written as attributes or children: `_text` always,
/// and, when metadata is removed, every key that starts with `_`.
pub open spec fn skipped_key(k: Seq<char>, remove_metadata: bool) -> bool {
    (remove_metadata && k.len() > 0 && k[0] == '_') || k == text_key()
}

/// The text content of an element object: its `_text` string, if any.
pub open spec fn element_text(m: Map<Seq<char>, JsonV>) -> Option<Seq<char>> {
    if m.contains_key(text_key()) && m[text_key()] is Str {
        Some(m[text_key()]->Str_0)
    } else {
        None
    }
}

/// ` k="v"` for each string-valued, written key among the first `n` of `ks`.
pub open spec fn attrs_part(m: Map<Seq<char>, JsonV>, ks: Seq<Seq<char>>, n: int, rm: bool) -> Seq<char>
    decreases n,
{
    if n <= 0 || n > ks.len() {
        Seq::empty()
    } else {
        let k = ks[n - 1];
        let rest = attrs_part(m, ks, n - 1, rm);
        if m.contains_key(k) && !skipped_key(k, rm) && m[k] is Str {
            rest + seq![' '] + k + seq!['=', '"'] + m[k]->Str_0 + seq!['"']
        } else {
            rest
        }
    }
}

/// A written key among the first `n` of `ks` has a non-string value (a
/// child element).
pub open spec fn has_children(m: Map<Seq<char>, JsonV>, ks: Seq<Seq<char>>, n: int, rm: bool) -> bool {
    exists|j: int|
        0 <= j < n && j < ks.len() && #[trigger] m.contains_key(ks[j]) && !skipped_key(ks[j], rm)
            && m[ks[j]] !is Str
}

/// The child elements for the non-string-valued, written keys among the
/// first `n` of `ks`.
pub open spec fn children_part(m: Map<Seq<char>, JsonV>, ks: Seq<Seq<char>>, n: int, rm: bool) -> Seq<char>
    decreases m, 1int, n,
{
    if n <= 0 || n > ks.len() {
        Seq::empty()
    } else {
        let k = ks[n - 1];
        let rest = children_part(m, ks, n - 1, rm);
        if m.dom().finite() && m.contains_key(k) && !skipped_key(k, rm) && m[k] !is Str {
            rest + xml_element(k, m[k], false)
        } else {
            rest
        }
    }
}

/// `<tag>inner</tag>`.
pub open spec fn wrap(tag: Seq<char>, inner: Seq<char>) -> Seq<char> {
    seq!['<'] + tag + seq!['>'] + inner + seq!['<', '/'] + tag + seq!['>']
}

/// The XML element `tag` with value `v`: an object gives its string values
/// as attributes (in key order), other values as child elements and `_text`
/// as text, and is written empty (`<tag .../>`) when it has neither; a
/// string is the element's text; any other value is written as its JSON
/// text. With `remove_metadata`, keys starting with `_` are left out.
/// Nothing is escaped.
pub open spec fn xml_element(tag: Seq<char>, v: JsonV, remove_metadata: bool) -> Seq<char>
    decreases v, 0int,
{
    match v {
        JsonV::Object(m) => {
            let ks = key_order(m);
            let n = ks.len() as int;
            let attrs = attrs_part(m, ks, n, remove_metadata);
            let children = children_part(m, ks, n, remove_metadata);
            match element_text(m) {
                None => if !has_children(m, ks, n, remove_metadata) {
                    seq!['<'] + tag + attrs + seq!['/', '>']
                } else {
                    seq!['<'] + tag + attrs + seq!['>'] + children + seq!['<', '/'] + tag + seq!['>']
                },
                Some(t) => seq!['<'] + tag + attrs + seq!['>'] + t + children + seq!['<', '/'] + tag + seq![
                    '>',
                ],
            }
        },
        JsonV::Str(t) => wrap(tag, t),
        _ => wrap(tag, json_text(v)),
    }
}

/// Whether `k` starts with `_`.
fn starts_with_underscore(k: &str) -> (r: bool)
    ensures
        r == (k@.len() > 0 && k@[0] == '_'),
{
    let c = chars_of(k);
    c.len() > 0 && c[0] == '_'
}

fn is_text_key(k: &str) -> (r: bool)
    ensures
        r == (k@ == text_key()),
{
    proof {
        reveal_strlit("_text");
        assert("_text"@ =~= text_key());
    }
    crate::text::str_eq(k, "_text")
}

/// Writes a value as the XML element `tag`, optionally leaving out the
/// metadata keys (those starting with `_`).
pub fn value_to_xml_element(tag: &str, value: &JsonValue, remove_metadata: bool) -> (r: String)
    ensures
        r@ == xml_element(tag@, value@, remove_metadata),
    decreases value,
{
    match value {
        JsonValue::Object(m) => {
            proof {
                use_type_invariant(m);
                m.lemma_keys();
            }
            let ghost mv = m@;
            let ghost ks = m.keys();
            assert forall|j: int, l: int| 0 <= j < l < ks.len() implies ks[j] != ks[l] by {
                lemma_lt_irreflexive(ks[j]);
            }
            let mut attrs = String::new();
            let mut children = String::new();
            let mut any_child = false;
            let mut text: Option<String> = None;
            let n = m.len();
            let mut i: usize = 0;
            while i < n
                invariant
                    decreases_to!(*value => *m),
                    n == ks.len(),
                    ks == m.keys(),
                    mv == m@,
                    key_order(mv) == ks,
                    mv.dom().finite(),
                    forall|j: int| 0 <= j < n ==> mv.contains_key(#[trigger] ks[j]),
                    forall|j: int, l: int| 0 <= j < l < n ==> ks[j] != ks[l],
                    i <= n,
                    attrs@ == attrs_part(mv, ks, i as int, remove_metadata),
                    children@ == children_part(mv, ks, i as int, remove_metadata),
                    any_child == has_children(mv, ks, i as int, remove_metadata),
                    match text {
                        Some(t) => exists|j: int|
                            0 <= j < i && ks[j] == text_key() && mv[text_key()] == JsonV::Str(t@),
                        None => forall|j: int|
                            0 <= j < i ==> ks[j] != text_key() || mv[text_key()] !is Str,
                    },
                decreases n - i,
            {
                let (k, v) = m.entry_at(i);
                let skip = (remove_metadata && starts_with_underscore(k.as_str())) || is_text_key(k.as_str());
                if is_text_key(k.as_str()) {
                    match v {
                        JsonValue::Str(t) => {
                            text = Some(crate::text::copy_string(t));
                        },
                        _ => {},
                    }
                }
                if !skip {
                    match v {
                        JsonValue::Str(sv) => {
                            push_char(&mut attrs, ' ');
                            attrs.append(k.as_str());
                            push_char(&mut attrs, '=');
                            push_char(&mut attrs, '"');
                            attrs.append(sv.as_str());
                            push_char(&mut attrs, '"');
                        },
                        _ => {
                            let child = value_to_xml_element(k.as_str(), v, false);
                            children.append(child.as_str());
                            any_child = true;
                        },
                    }
                }
                proof {
                    assert(attrs@ =~= attrs_part(mv, ks, i + 1, remove_metadata));
                    assert(children@ =~= children_part(mv, ks, i + 1, remove_metadata));
                    if !skip && v@ !is Str {
                        assert(has_children(mv, ks, i + 1, remove_metadata));
                    } else {
                        if has_children(mv, ks, i + 1, remove_metadata) {
                            let j = choose|j: int|
                                0 <= j < i + 1 && j < ks.len() && #[trigger] mv.contains_key(ks[j])
                                    && !skipped_key(ks[j], remove_metadata) && mv[ks[j]] !is Str;
                            assert(j < i);
                        }
                    }
                    if text is None {
                        assert forall|j: int| 0 <= j < i + 1 implies ks[j] != text_key() || mv[text_key()] !is Str by {
                            if j == i && ks[j] == text_key() {
                                assert(mv[text_key()] == v@);
                            }
                        }
                    }
                }
                i = i + 1;
            }
            let mut r = String::new();
            push_char(&mut r, '<');
            r.append(tag);
            r.append(attrs.as_str());
            let ghost et = element_text(mv);
            proof {
                if text is Some {
                    assert(et == Some(text->0@));
                } else {
                    if mv.contains_key(text_key()) {
                        let j = choose|j: int| 0 <= j < ks.len() && ks[j] == text_key();
                    }
                    assert(et is None);
                }
            }
            match text {
                None => {
                    if !any_child {
                        push_char(&mut r, '/');
                        push_char(&mut r, '>');
                    } else {
                        push_char(&mut r, '>');
                        r.append(children.as_str());
                        push_char(&mut r, '<');
                        push_char(&mut r, '/');
                        r.append(tag);
                        push_char(&mut r, '>');
                    }
                },
                Some(t) => {
                    push_char(&mut r, '>');
                    r.append(t.as_str());
                    r.append(children.as_str());
                    push_char(&mut r, '<');
                    push_char(&mut r, '/');
                    r.append(tag);
                    push_char(&mut r, '>');
                },
            }
            proof {
                assert(r@ =~= xml_element(tag@, value@, remove_metadata));
            }
            r
        },
        JsonValue::Str(t) => {
            let mut r = String::new();
            push_char(&mut r, '<');
            r.append(tag);
            push_char(&mut r, '>');
            r.append(t.as_str());
            push_char(&mut r, '<');
            push_char(&mut r, '/');
            r.append(tag);
            push_char(&mut r, '>');
            assert(r@ =~= wrap(tag@, t@));
            r
        },
        _ => {
            let mut r = String::new();
            push_char(&mut r, '<');
            r.append(tag);
            push_char(&mut r, '>');
            push_json_text(&mut r, value);
            push_char(&mut r, '<');
            push_char(&mut r, '/');
            r.append(tag);
            push_char(&mut r, '>');
            assert(r@ =~= wrap(tag@, json_text(value@)));
            r
        },
    }
}

} // verus!

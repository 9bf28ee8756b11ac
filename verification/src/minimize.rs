//! Compact XML text for comparison: the events of a reader that trims the
//! whitespace around texts written out again without layout, the
//! attributes of each tag in the order of their names.
use vstd::prelude::*;
use vstd::string::StringSliceAdditionalSpecFns;
use crate::elements::{event_tag, tag_of};
use crate::text::{chars_lt, chars_of, copy_string, lemma_lt_irreflexive, lemma_lt_total, lemma_lt_transitive, seq_lt};
use crate::xml::{
    CursorV, EventKind, RawAttr, RawAttrV, XmlCursor, XmlEvent, XmlEventV, cursor_measure, cursor_start, cursor_step,
    lemma_step_measure, lossy_text, raw_attributes, utf8_lossy_spec, xml_attributes_spec,
};

verus! {

/// An attribute as a pair of texts: its key and its raw value.
pub open spec fn attr_entry(a: RawAttrV) -> (Seq<char>, Seq<char>) {
    (utf8_lossy_spec(a.key), utf8_lossy_spec(a.value))
}

/// The attributes read without error, in order.
pub open spec fn good_attrs(s: Seq<RawAttrV>) -> Seq<(Seq<char>, Seq<char>)>
    decreases s.len(),
{
    if s.len() == 0 {
        Seq::empty()
    } else if s.last().error is None {
        good_attrs(s.drop_last()).push(attr_entry(s.last()))
    } else {
        good_attrs(s.drop_last())
    }
}

/// `x` placed into `r` after every pair whose key does not come after its
/// key.
pub open spec fn insert_by_key(r: Seq<(Seq<char>, Seq<char>)>, x: (Seq<char>, Seq<char>)) -> Seq<
    (Seq<char>, Seq<char>),
>
    decreases r.len(),
{
    if r.len() == 0 {
        seq![x]
    } else if !seq_lt(x.0, r.last().0) {
        r.push(x)
    } else {
        insert_by_key(r.drop_last(), x).push(r.last())
    }
}

/// The pairs `s` ordered by key; pairs with equal keys keep their order.
pub open spec fn sort_by_key(s: Seq<(Seq<char>, Seq<char>)>) -> Seq<(Seq<char>, Seq<char>)>
    decreases s.len(),
{
    if s.len() == 0 {
        Seq::empty()
    } else {
        insert_by_key(sort_by_key(s.drop_last()), s.last())
    }
}

/// No key comes before an earlier one.
pub open spec fn keys_sorted(s: Seq<(Seq<char>, Seq<char>)>) -> bool {
    forall|i: int, j: int| 0 <= i < j < s.len() ==> !seq_lt(#[trigger] s[j].0, #[trigger] s[i].0)
}

/// The attributes written out: each as a space, its key, `="`, its value
/// and `"`.
pub open spec fn attrs_text(s: Seq<(Seq<char>, Seq<char>)>) -> Seq<char>
    decreases s.len(),
{
    if s.len() == 0 {
        Seq::empty()
    } else {
        attrs_text(s.drop_last()) + seq![' '] + s.last().0 + seq!['=', '"'] + s.last().1 + seq!['"']
    }
}

/// The start of a tag written out: `<`, the name and the attributes read
/// without error, ordered by key.
pub open spec fn tag_text(e: XmlEventV) -> Seq<char> {
    seq!['<'] + event_tag(e) + attrs_text(sort_by_key(good_attrs(xml_attributes_spec(e.content, e.name_len))))
}

/// An event written out: tags as tags, a text or a CDATA section as its
/// raw text, other events as nothing.
pub open spec fn event_text(e: XmlEventV) -> Seq<char> {
    match e.kind {
        EventKind::Start => tag_text(e) + seq!['>'],
        EventKind::Empty => tag_text(e) + seq!['/', '>'],
        EventKind::End => seq!['<', '/'] + utf8_lossy_spec(e.content) + seq!['>'],
        EventKind::Text => utf8_lossy_spec(e.content),
        EventKind::CData => utf8_lossy_spec(e.content),
        _ => Seq::empty(),
    }
}

/// The events read from cursor `c` on, written out, up to the end of the
/// input or the first error.
pub open spec fn minimize_run(input: Seq<u8>, c: CursorV) -> Seq<char>
    decreases cursor_measure(input, c),
{
    let (e, c1) = cursor_step(input, c);
    if e.kind == EventKind::Eof {
        Seq::empty()
    } else if cursor_measure(input, c1) < cursor_measure(input, c) {
        event_text(e) + minimize_run(input, c1)
    } else {
        event_text(e)
    }
}

/// The compact form of the XML text `input`.
pub open spec fn minimized(input: Seq<u8>) -> Seq<char> {
    minimize_run(input, cursor_start(input))
}

/// Pairs of strings as pairs of texts.
pub open spec fn pair_views(s: Seq<(String, String)>) -> Seq<(Seq<char>, Seq<char>)> {
    s.map_values(|p: (String, String)| (p.0@, p.1@))
}

/// `a` does not come after `b` and `b` not after `c`: then `a` does not
/// come after `c`.
proof fn lemma_le_transitive(a: Seq<char>, b: Seq<char>, c: Seq<char>)
    requires
        !seq_lt(b, a),
        !seq_lt(c, b),
    ensures
        !seq_lt(c, a),
{
    lemma_lt_total(a, b);
    if seq_lt(c, a) && seq_lt(a, b) {
        lemma_lt_transitive(c, a, b);
    }
}

/// Inserting a pair whose key is bounded by `b` among pairs whose keys are
/// bounded by `b` leaves every key bounded by `b`.
proof fn lemma_insert_bounded(r: Seq<(Seq<char>, Seq<char>)>, x: (Seq<char>, Seq<char>), b: Seq<char>)
    requires
        forall|t: int| 0 <= t < r.len() ==> !seq_lt(b, #[trigger] r[t].0),
        !seq_lt(b, x.0),
    ensures
        insert_by_key(r, x).len() == r.len() + 1,
        forall|t: int| 0 <= t < insert_by_key(r, x).len() ==> !seq_lt(b, #[trigger] insert_by_key(r, x)[t].0),
    decreases r.len(),
{
    if r.len() > 0 && seq_lt(x.0, r.last().0) {
        let d = r.drop_last();
        assert forall|t: int| 0 <= t < d.len() implies !seq_lt(b, #[trigger] d[t].0) by {
            assert(d[t] == r[t]);
        }
        lemma_insert_bounded(d, x, b);
        assert(r.last() == r[r.len() - 1]);
    }
}

/// Inserting keeps pairs ordered by key.
proof fn lemma_insert_sorted(r: Seq<(Seq<char>, Seq<char>)>, x: (Seq<char>, Seq<char>))
    requires
        keys_sorted(r),
    ensures
        keys_sorted(insert_by_key(r, x)),
        insert_by_key(r, x).to_multiset() == r.to_multiset().insert(x),
    decreases r.len(),
{
    broadcast use vstd::seq_lib::group_to_multiset_ensures;

    if r.len() == 0 {
        assert(seq![x] =~= Seq::<(Seq<char>, Seq<char>)>::empty().push(x));
        assert(r =~= Seq::<(Seq<char>, Seq<char>)>::empty());
    } else {
        let last = r.last();
        assert(last == r[r.len() - 1]);
        let d = r.drop_last();
        assert(r =~= d.push(last));
        if !seq_lt(x.0, last.0) {
            let q = r.push(x);
            assert forall|i: int, j: int| 0 <= i < j < q.len() implies !seq_lt(#[trigger] q[j].0, #[trigger] q[i].0) by {
                if j == r.len() {
                    if i < r.len() - 1 {
                        lemma_le_transitive(r[i].0, last.0, x.0);
                    }
                }
            }
        } else {
            assert forall|i: int, j: int| 0 <= i < j < d.len() implies !seq_lt(#[trigger] d[j].0, #[trigger] d[i].0) by {
                assert(d[i] == r[i] && d[j] == r[j]);
            }
            lemma_insert_sorted(d, x);
            assert forall|t: int| 0 <= t < d.len() implies !seq_lt(last.0, #[trigger] d[t].0) by {
                assert(d[t] == r[t]);
            }
            if seq_lt(last.0, x.0) {
                lemma_lt_transitive(x.0, last.0, x.0);
                lemma_lt_irreflexive(x.0);
            }
            lemma_insert_bounded(d, x, last.0);
            let m = insert_by_key(d, x);
            let q = m.push(last);
            assert forall|i: int, j: int| 0 <= i < j < q.len() implies !seq_lt(#[trigger] q[j].0, #[trigger] q[i].0) by {
                if j == m.len() {
                    assert(q[i] == m[i]);
                } else {
                    assert(q[i] == m[i] && q[j] == m[j]);
                }
            }
        }
    }
}

/// Ordering pairs by key leaves them ordered by key, and keeps every pair:
/// the result holds the same pairs as many times each.
pub proof fn lemma_sort_by_key(s: Seq<(Seq<char>, Seq<char>)>)
    ensures
        keys_sorted(sort_by_key(s)),
        sort_by_key(s).to_multiset() == s.to_multiset(),
    decreases s.len(),
{
    broadcast use vstd::seq_lib::group_to_multiset_ensures;

    if s.len() == 0 {
        assert(sort_by_key(s) =~= s);
    } else {
        lemma_sort_by_key(s.drop_last());
        lemma_insert_sorted(sort_by_key(s.drop_last()), s.last());
        assert(s =~= s.drop_last().push(s.last()));
    }
}

/// Where a key falls among pairs ordered by key: inserting there is
/// inserting after every pair whose key does not come after it.
proof fn lemma_insert_shape(r: Seq<(Seq<char>, Seq<char>)>, x: (Seq<char>, Seq<char>), p: int)
    requires
        0 <= p <= r.len(),
        forall|t: int| p <= t < r.len() ==> seq_lt(x.0, #[trigger] r[t].0),
        p > 0 ==> !seq_lt(x.0, r[p - 1].0),
    ensures
        insert_by_key(r, x) == r.take(p) + seq![x] + r.skip(p),
    decreases r.len(),
{
    if r.len() == 0 {
        assert(r.take(p) + seq![x] + r.skip(p) =~= seq![x]);
    } else if p == r.len() {
        assert(r.last() == r[p - 1]);
        assert(r.take(p) + seq![x] + r.skip(p) =~= r.push(x));
    } else {
        assert(r.last() == r[r.len() - 1]);
        let d = r.drop_last();
        assert forall|t: int| p <= t < d.len() implies seq_lt(x.0, #[trigger] d[t].0) by {
            assert(d[t] == r[t]);
        }
        if p > 0 {
            assert(d[p - 1] == r[p - 1]);
        }
        lemma_insert_shape(d, x, p);
        assert((d.take(p) + seq![x] + d.skip(p)).push(r.last()) =~= r.take(p) + seq![x] + r.skip(p));
    }
}

/// The position at which a pair with key `key` goes among `r`.
fn find_slot(r: &Vec<(String, String)>, key: &[char]) -> (p: usize)
    ensures
        p <= r@.len(),
        forall|t: int| p <= t < r@.len() ==> seq_lt(key@, #[trigger] pair_views(r@)[t].0),
        p > 0 ==> !seq_lt(key@, pair_views(r@)[p - 1].0),
{
    let ghost pv = pair_views(r@);
    let mut p: usize = r.len();
    while p > 0
        invariant
            pv == pair_views(r@),
            p <= r@.len(),
            forall|t: int| p <= t < r@.len() ==> seq_lt(key@, #[trigger] pv[t].0),
        decreases p,
    {
        let k = chars_of(r[p - 1].0.as_str());
        assert(pv[p - 1].0 == r@[p - 1].0@);
        if !chars_lt(key, k.as_slice()) {
            return p;
        }
        p = p - 1;
    }
    0
}

/// Inserts `x` among pairs ordered by key (see `insert_by_key`).
fn insert_pair(r: &mut Vec<(String, String)>, x: (String, String))
    ensures
        pair_views(final(r)@) == insert_by_key(pair_views(old(r)@), (x.0@, x.1@)),
{
    let key = chars_of(x.0.as_str());
    let p = find_slot(r, key.as_slice());
    let ghost pv = pair_views(r@);
    proof {
        lemma_insert_shape(pv, (x.0@, x.1@), p as int);
    }
    r.insert(p, x);
    assert(pair_views(r@) =~= pv.take(p as int) + seq![(x.0@, x.1@)] + pv.skip(p as int));
}

/// The pairs ordered by key, pairs with equal keys in their order.
pub fn sort_pairs(v: &Vec<(String, String)>) -> (r: Vec<(String, String)>)
    ensures
        pair_views(r@) == sort_by_key(pair_views(v@)),
{
    let ghost pv = pair_views(v@);
    let mut r: Vec<(String, String)> = Vec::new();
    let mut i: usize = 0;
    assert(pv.take(0) =~= Seq::<(Seq<char>, Seq<char>)>::empty());
    assert(pair_views(r@) =~= Seq::<(Seq<char>, Seq<char>)>::empty());
    while i < v.len()
        invariant
            pv == pair_views(v@),
            i <= v@.len(),
            pair_views(r@) == sort_by_key(pv.take(i as int)),
        decreases v@.len() - i,
    {
        let x = (copy_string(&v[i].0), copy_string(&v[i].1));
        insert_pair(&mut r, x);
        assert(pv.take(i + 1).drop_last() =~= pv.take(i as int));
        assert(pv.take(i + 1).last() == pv[i as int]);
        i = i + 1;
    }
    assert(pv.take(i as int) =~= pv);
    r
}

/// The attributes read without error, as pairs of texts.
fn good_attr_pairs(raw: &Vec<RawAttr>) -> (r: Vec<(String, String)>)
    ensures
        pair_views(r@) == good_attrs(raw@.map_values(|a: RawAttr| a@)),
{
    let ghost rv = raw@.map_values(|a: RawAttr| a@);
    let mut r: Vec<(String, String)> = Vec::new();
    let mut i: usize = 0;
    assert(rv.take(0) =~= Seq::<RawAttrV>::empty());
    assert(pair_views(r@) =~= Seq::<(Seq<char>, Seq<char>)>::empty());
    while i < raw.len()
        invariant
            rv == raw@.map_values(|a: RawAttr| a@),
            i <= raw@.len(),
            pair_views(r@) == good_attrs(rv.take(i as int)),
        decreases raw@.len() - i,
    {
        assert(rv.take(i + 1).drop_last() =~= rv.take(i as int));
        assert(rv.take(i + 1).last() == raw@[i as int]@);
        if raw[i].error.is_none() {
            let k = lossy_text(raw[i].key.as_slice());
            let v = lossy_text(raw[i].value.as_slice());
            let ghost before = r@;
            r.push((k, v));
            assert(pair_views(r@) =~= pair_views(before).push(attr_entry(raw@[i as int]@)));
        }
        i = i + 1;
    }
    assert(rv.take(i as int) =~= rv);
    r
}

/// Writes out attributes (see `attrs_text`).
fn push_attrs_text(out: &mut String, s: &Vec<(String, String)>)
    ensures
        final(out)@ == old(out)@ + attrs_text(pair_views(s@)),
{
    let ghost pv = pair_views(s@);
    let ghost start = out@;
    let mut i: usize = 0;
    assert(pv.take(0) =~= Seq::<(Seq<char>, Seq<char>)>::empty());
    assert(out@ =~= start + attrs_text(pv.take(0)));
    while i < s.len()
        invariant
            pv == pair_views(s@),
            i <= s@.len(),
            out@ == start + attrs_text(pv.take(i as int)),
        decreases s@.len() - i,
    {
        proof {
            reveal_strlit(" ");
            reveal_strlit("=\"");
            reveal_strlit("\"");
        }
        out.append(" ");
        out.append(s[i].0.as_str());
        out.append("=\"");
        out.append(s[i].1.as_str());
        out.append("\"");
        assert(pv.take(i + 1).drop_last() =~= pv.take(i as int));
        assert(pv.take(i + 1).last() == pv[i as int]);
        assert(out@ =~= start + attrs_text(pv.take(i + 1)));
        i = i + 1;
    }
    assert(pv.take(i as int) =~= pv);
}

/// Writes out the start of a tag (see `tag_text`).
fn push_tag_text(out: &mut String, e: &XmlEvent)
    requires
        e.name_len <= e.content@.len(),
    ensures
        final(out)@ == old(out)@ + tag_text(e@),
{
    let ghost start = out@;
    proof {
        reveal_strlit("<");
    }
    out.append("<");
    let name = tag_of(e);
    out.append(name.as_str());
    let raw = raw_attributes(e.content.as_slice(), e.name_len);
    let good = good_attr_pairs(&raw);
    let sorted = sort_pairs(&good);
    push_attrs_text(out, &sorted);
    assert(out@ =~= start + tag_text(e@));
}

/// Writes out an event (see `event_text`).
fn push_event_text(out: &mut String, e: &XmlEvent)
    requires
        e.name_len <= e.content@.len(),
    ensures
        final(out)@ == old(out)@ + event_text(e@),
{
    let ghost start = out@;
    proof {
        reveal_strlit(">");
        reveal_strlit("/>");
        reveal_strlit("</");
    }
    match e.kind {
        EventKind::Start => {
            push_tag_text(out, e);
            out.append(">");
            assert(out@ =~= start + event_text(e@));
        },
        EventKind::Empty => {
            push_tag_text(out, e);
            out.append("/>");
            assert(out@ =~= start + event_text(e@));
        },
        EventKind::End => {
            out.append("</");
            let name = lossy_text(e.content.as_slice());
            out.append(name.as_str());
            out.append(">");
            assert(out@ =~= start + event_text(e@));
        },
        EventKind::Text => {
            let t = lossy_text(e.content.as_slice());
            out.append(t.as_str());
        },
        EventKind::CData => {
            let t = lossy_text(e.content.as_slice());
            out.append(t.as_str());
        },
        _ => {
            assert(out@ =~= start + event_text(e@));
        },
    }
}

/// Writes XML text compactly (see `minimized`): the events of a reader that
/// trims whitespace around texts, each tag with its attributes ordered by
/// key, texts and CDATA sections as their raw text, up to the end of the
/// input or the first error.
pub fn minimize_xml(xml: &str) -> (r: String)
    ensures
        r@ == minimized(xml.spec_bytes()),
{
    let input = xml.as_bytes();
    let mut cursor = XmlCursor::new(input);
    let mut out = String::new();
    assert(out@ + minimize_run(input@, cursor@) =~= minimized(input@));
    loop
        invariant
            input@ == xml.spec_bytes(),
            out@ + minimize_run(input@, cursor@) == minimized(input@),
        decreases cursor_measure(input@, cursor@),
    {
        let ghost c0 = cursor@;
        let ghost before = out@;
        let e = cursor.next_event(input);
        proof {
            if cursor_measure(input@, c0) > 0 {
                lemma_step_measure(input@, c0);
            }
        }
        if e.kind == EventKind::Eof {
            assert(out@ =~= out@ + minimize_run(input@, c0));
            return out;
        }
        push_event_text(&mut out, &e);
        assert(out@ + minimize_run(input@, cursor@) =~= before + minimize_run(input@, c0));
    }
}

} // verus!
